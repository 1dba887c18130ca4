use vstd::prelude::*;

verus! {

/// Length of the signature that opens every log file.
pub const SIGNATURE_LEN: usize = 16;

/// Length of an entry's header: opcode, key length, value length.
pub const ENTRY_HEADER_LEN: usize = 33;

/// Opcode of a gap that carries its total length in a 16-byte field.
pub const LONG_GAP_OPCODE: u8 = 17;

/// Length of a long gap's header: opcode and length field.
pub const LONG_GAP_HEADER_LEN: usize = 17;

/// The signature bytes: "varia---------db".
pub open spec fn signature_spec() -> Seq<u8> {
    seq![
        0x76u8, 0x61u8, 0x72u8, 0x69u8, 0x61u8, 0x2du8, 0x2du8, 0x2du8, 0x2du8, 0x2du8, 0x2du8,
        0x2du8, 0x2du8, 0x2du8, 0x64u8, 0x62u8,
    ]
}

/// One record of the log body, as a value.
pub enum RecordModel {
    Entry { key: Seq<u8>, value: Seq<u8> },
    Gap { len: nat },
}

/// `k` bytes holding `n` in big-endian order (the high part beyond `k` bytes is dropped).
pub open spec fn be_bytes(n: nat, k: nat) -> Seq<u8>
    decreases k,
{
    if k == 0 {
        Seq::empty()
    } else {
        be_bytes(n / 256, (k - 1) as nat).push((n % 256) as u8)
    }
}

/// The number that the bytes `b` hold in big-endian order.
pub open spec fn be_value(b: Seq<u8>) -> nat
    decreases b.len(),
{
    if b.len() == 0 {
        0
    } else {
        be_value(b.drop_last()) * 256 + b.last() as nat
    }
}

pub open spec fn pow256(k: nat) -> nat
    decreases k,
{
    if k == 0 {
        1
    } else {
        256 * pow256((k - 1) as nat)
    }
}

pub open spec fn zeros(n: nat) -> Seq<u8> {
    Seq::new(n, |i: int| 0u8)
}

/// Total length of a record in the file.
pub open spec fn rec_len(r: RecordModel) -> nat {
    match r {
        RecordModel::Entry { key, value } => 33 + key.len() + value.len(),
        RecordModel::Gap { len } => len,
    }
}

/// The bytes of a gap of total length `n` (at least one byte).
pub open spec fn gap_bytes(n: nat) -> Seq<u8> {
    if n < 17 {
        seq![n as u8] + zeros((n - 1) as nat)
    } else {
        seq![17u8] + be_bytes(n, 16) + zeros((n - 17) as nat)
    }
}

/// The bytes of an entry holding `key` and `value`.
pub open spec fn entry_bytes(key: Seq<u8>, value: Seq<u8>) -> Seq<u8> {
    seq![0u8] + be_bytes(key.len(), 16) + be_bytes(value.len(), 16) + key + value
}

/// The bytes of one record as it stands in the file.
pub open spec fn rec_bytes(r: RecordModel) -> Seq<u8> {
    match r {
        RecordModel::Entry { key, value } => entry_bytes(key, value),
        RecordModel::Gap { len } => gap_bytes(len),
    }
}

pub proof fn lemma_be_value_bound(b: Seq<u8>)
    ensures
        be_value(b) < pow256(b.len()),
    decreases b.len(),
{
    if b.len() > 0 {
        lemma_be_value_bound(b.drop_last());
        assert(be_value(b.drop_last()) * 256 + (b.last() as nat) < 256 * pow256(
            b.drop_last().len(),
        )) by (nonlinear_arith)
            requires
                be_value(b.drop_last()) < pow256(b.drop_last().len()),
                b.last() < 256,
        ;
    }
}

pub proof fn lemma_pow256_16()
    ensures
        pow256(16) == 0x1_0000_0000_0000_0000_0000_0000_0000_0000,
{
    reveal_with_fuel(pow256, 17);
}

pub proof fn lemma_be_bytes_len(n: nat, k: nat)
    ensures
        be_bytes(n, k).len() == k,
    decreases k,
{
    if k > 0 {
        lemma_be_bytes_len(n / 256, (k - 1) as nat);
    }
}

/// Reading back the bytes written for `n` gives `n`, when `n` fits in `k` bytes.
pub proof fn lemma_be_round_trip(n: nat, k: nat)
    requires
        n < pow256(k),
    ensures
        be_value(be_bytes(n, k)) == n,
    decreases k,
{
    if k > 0 {
        let b = be_bytes(n, k);
        assert(n / 256 < pow256((k - 1) as nat)) by (nonlinear_arith)
            requires
                n < 256 * pow256((k - 1) as nat),
        ;
        lemma_be_round_trip(n / 256, (k - 1) as nat);
        assert(b.drop_last() =~= be_bytes(n / 256, (k - 1) as nat));
        assert(n == (n / 256) * 256 + n % 256) by (nonlinear_arith);
    }
}

/// The signature that opens every log file.
pub fn signature() -> (r: Vec<u8>)
    ensures
        r@ == signature_spec(),
{
    let r: Vec<u8> = vec![
        0x76u8, 0x61u8, 0x72u8, 0x69u8, 0x61u8, 0x2du8, 0x2du8, 0x2du8, 0x2du8, 0x2du8, 0x2du8,
        0x2du8, 0x2du8, 0x2du8, 0x64u8, 0x62u8,
    ];
    assert(r@ =~= signature_spec());
    r
}

/// Appends `n` as 16 big-endian bytes.
pub fn push_be16(out: &mut Vec<u8>, n: u128)
    ensures
        final(out)@ == old(out)@ + be_bytes(n as nat, 16),
{
    let mut buf: Vec<u8> = vec![0u8; 16];
    let mut m: u128 = n;
    let mut j: usize = 0;
    while j < 16
        invariant
            j <= 16,
            buf@.len() == 16,
            be_bytes(n as nat, 16) == be_bytes(m as nat, (16 - j) as nat) + buf@.subrange(
                16 - j,
                16,
            ),
        decreases 16 - j,
    {
        let ghost before = buf@;
        let ghost mm = m as nat;
        buf.set(15 - j, (m % 256) as u8);
        m = m / 256;
        proof {
            assert(be_bytes(mm, (16 - j) as nat) == be_bytes(mm / 256, (15 - j) as nat).push(
                (mm % 256) as u8,
            ));
            assert(buf@.subrange(15 - j, 16) =~= seq![(mm % 256) as u8] + before.subrange(
                16 - j,
                16,
            ));
            assert(be_bytes(mm / 256, (15 - j) as nat).push((mm % 256) as u8) + before.subrange(
                16 - j,
                16,
            ) =~= be_bytes(mm / 256, (15 - j) as nat) + buf@.subrange(15 - j, 16));
        }
        j = j + 1;
    }
    assert(buf@.subrange(0, 16) =~= buf@);
    assert(be_bytes(m as nat, 0) + buf@ =~= buf@);
    let ghost old_out = out@;
    let mut i: usize = 0;
    while i < 16
        invariant
            i <= 16,
            buf@.len() == 16,
            out@ == old_out + buf@.subrange(0, i as int),
        decreases 16 - i,
    {
        out.push(buf[i]);
        assert(buf@.subrange(0, i + 1) =~= buf@.subrange(0, i as int).push(buf@[i as int]));
        i = i + 1;
    }
    assert(buf@.subrange(0, 16) =~= buf@);
}

/// Reads 16 big-endian bytes at `pos` as a number.
pub fn read_be16(b: &[u8], pos: usize) -> (r: u128)
    requires
        pos + 16 <= b@.len(),
    ensures
        r as nat == be_value(b@.subrange(pos as int, pos + 16)),
{
    let n = b.len();
    let mut acc: u128 = 0;
    let mut i: usize = 0;
    while i < 16
        invariant
            i <= 16,
            n == b@.len(),
            pos + 16 <= b@.len(),
            acc as nat == be_value(b@.subrange(pos as int, pos + i)),
        decreases 16 - i,
    {
        let ghost s = b@.subrange(pos as int, pos + i + 1);
        assert(s.drop_last() =~= b@.subrange(pos as int, pos + i));
        proof {
            lemma_be_value_bound(s);
            lemma_pow256_16();
            lemma_pow_mono((i + 1) as nat, 16);
            assert(s.last() == b@[pos + i]);
            assert(be_value(s) == be_value(s.drop_last()) * 256 + s.last() as nat);
            assert(acc * 256 + b@[pos + i] as nat == be_value(s));
        }
        acc = acc * 256 + b[pos + i] as u128;
        i = i + 1;
    }
    acc
}

proof fn lemma_pow_mono(a: nat, b: nat)
    requires
        a <= b,
    ensures
        pow256(a) <= pow256(b),
    decreases b,
{
    if a < b {
        lemma_pow_mono(a, (b - 1) as nat);
    }
}

/// The bytes of an entry record for already encoded key and value bytes.
pub fn encode_entry(key: &[u8], value: &[u8]) -> (r: Vec<u8>)
    ensures
        r@ == entry_bytes(key@, value@),
{
    let mut r: Vec<u8> = Vec::new();
    r.push(0u8);
    push_be16(&mut r, key.len() as u128);
    push_be16(&mut r, value.len() as u128);
    let ghost head = r@;
    let mut i: usize = 0;
    while i < key.len()
        invariant
            i <= key@.len(),
            r@ == head + key@.subrange(0, i as int),
        decreases key@.len() - i,
    {
        r.push(key[i]);
        assert(key@.subrange(0, i + 1) =~= key@.subrange(0, i as int).push(key@[i as int]));
        i = i + 1;
    }
    assert(key@.subrange(0, key@.len() as int) =~= key@);
    let ghost mid = r@;
    let mut j: usize = 0;
    while j < value.len()
        invariant
            j <= value@.len(),
            r@ == mid + value@.subrange(0, j as int),
        decreases value@.len() - j,
    {
        r.push(value[j]);
        assert(value@.subrange(0, j + 1) =~= value@.subrange(0, j as int).push(value@[j as int]));
        j = j + 1;
    }
    assert(value@.subrange(0, value@.len() as int) =~= value@);
    assert(r@ =~= entry_bytes(key@, value@));
    r
}

fn push_zeros(out: &mut Vec<u8>, n: usize)
    ensures
        final(out)@ == old(out)@ + zeros(n as nat),
{
    let ghost old_out = out@;
    let mut i: usize = 0;
    while i < n
        invariant
            i <= n,
            out@ == old_out + zeros(i as nat),
        decreases n - i,
    {
        out.push(0u8);
        assert(zeros((i + 1) as nat) =~= zeros(i as nat).push(0u8));
        i = i + 1;
    }
}

/// The bytes of a gap record of exactly `len` bytes.
pub fn encode_gap(len: usize) -> (r: Vec<u8>)
    requires
        len > 0,
    ensures
        r@ == gap_bytes(len as nat),
        r@.len() == len,
{
    let mut r: Vec<u8> = Vec::new();
    if len < 17 {
        r.push(len as u8);
        push_zeros(&mut r, len - 1);
    } else {
        r.push(17u8);
        push_be16(&mut r, len as u128);
        push_zeros(&mut r, len - 17);
        proof {
            lemma_be_bytes_len(len as nat, 16);
        }
    }
    assert(r@ =~= gap_bytes(len as nat));
    r
}

} // verus!
