use vstd::prelude::*;
use crate::codec::{
    be_value, encode_entry, encode_gap, rec_bytes, rec_len, read_be16,
    signature, signature_spec, RecordModel, lemma_be_bytes_len,
};
use crate::error::{Error, ErrorKind};
use crate::frame_key::{decode_key, encode_key, key_frame};

verus! {

/// One record of the log body.
pub enum Record {
    Entry { key: Vec<u8>, value: Vec<u8> },
    Gap { len: usize },
}

impl View for Record {
    type V = RecordModel;

    open spec fn view(&self) -> RecordModel {
        match self {
            Record::Entry { key, value } => RecordModel::Entry { key: key@, value: value@ },
            Record::Gap { len } => RecordModel::Gap { len: *len as nat },
        }
    }
}

/// Sum of the lengths of the records `rs`.
pub open spec fn total_len(rs: Seq<RecordModel>) -> nat
    decreases rs.len(),
{
    if rs.len() == 0 {
        0
    } else {
        total_len(rs.drop_last()) + rec_len(rs.last())
    }
}

/// The bytes of the records `rs`, one after the other.
pub open spec fn log_bytes(rs: Seq<RecordModel>) -> Seq<u8>
    decreases rs.len(),
{
    if rs.len() == 0 {
        Seq::empty()
    } else {
        log_bytes(rs.drop_last()) + rec_bytes(rs.last())
    }
}

/// The keys of the entries among `rs`, in file order.
pub open spec fn entry_keys(rs: Seq<RecordModel>) -> Seq<Seq<u8>>
    decreases rs.len(),
{
    if rs.len() == 0 {
        Seq::empty()
    } else {
        match rs.last() {
            RecordModel::Entry { key, value } => entry_keys(rs.drop_last()).push(key),
            RecordModel::Gap { .. } => entry_keys(rs.drop_last()),
        }
    }
}

/// The bytes `b` are what postcard writes for some string.
pub open spec fn is_frame(b: Seq<u8>) -> bool {
    exists|s: Seq<char>| b == #[trigger] key_frame(s)
}

/// Each of `ks` is what postcard writes for some string.
pub open spec fn all_frames(ks: Seq<Seq<u8>>) -> bool {
    forall|j: int| 0 <= j < ks.len() ==> #[trigger] is_frame(ks[j])
}

/// Record `i` of `rs` is an entry under key `k`.
pub open spec fn has_key_at(rs: Seq<RecordModel>, i: int, k: Seq<u8>) -> bool {
    0 <= i < rs.len() && rs[i] is Entry && rs[i]->Entry_key == k
}

/// No key has two entries.
pub open spec fn unique_keys(rs: Seq<RecordModel>) -> bool {
    forall|i: int, j: int, k: Seq<u8>|
        #[trigger] has_key_at(rs, i, k) && #[trigger] has_key_at(rs, j, k) ==> i == j
}

/// Every gap is at least one byte long.
pub open spec fn gaps_nonempty(rs: Seq<RecordModel>) -> bool {
    forall|i: int| 0 <= i < rs.len() && (#[trigger] rs[i]) is Gap ==> rs[i]->Gap_len >= 1
}

/// The value stored under `k`, if any.
pub open spec fn lookup(rs: Seq<RecordModel>, k: Seq<u8>) -> Option<Seq<u8>> {
    if exists|i: int| has_key_at(rs, i, k) {
        Some(rs[choose|i: int| has_key_at(rs, i, k)]->Entry_value)
    } else {
        None
    }
}

/// The keys that have an entry.
pub open spec fn key_set(rs: Seq<RecordModel>) -> Set<Seq<u8>> {
    Set::new(|k: Seq<u8>| exists|i: int| has_key_at(rs, i, k))
}

/// The records after deleting `k`: its entry becomes a gap of the same length.
pub open spec fn removed(rs: Seq<RecordModel>, k: Seq<u8>) -> Seq<RecordModel> {
    if exists|i: int| has_key_at(rs, i, k) {
        let i = choose|i: int| has_key_at(rs, i, k);
        rs.update(i, RecordModel::Gap { len: rec_len(rs[i]) })
    } else {
        rs
    }
}

/// Record `j` of `rs` is a gap of at least `n` bytes.
pub open spec fn fits(rs: Seq<RecordModel>, j: int, n: nat) -> bool {
    0 <= j < rs.len() && rs[j] is Gap && rs[j]->Gap_len >= n
}

/// Record `j` is the first gap of `rs` that holds `n` bytes.
pub open spec fn first_fit(rs: Seq<RecordModel>, j: int, n: nat) -> bool {
    fits(rs, j, n) && forall|i: int| 0 <= i < j ==> !#[trigger] fits(rs, i, n)
}

/// The records after placing `e`: in the first gap that holds it, followed by
/// what is left of that gap, or else at the end.
pub open spec fn placed(rs: Seq<RecordModel>, e: RecordModel) -> Seq<RecordModel> {
    if exists|j: int| first_fit(rs, j, rec_len(e)) {
        let j = choose|j: int| first_fit(rs, j, rec_len(e));
        let l = rs[j]->Gap_len;
        if l > rec_len(e) {
            rs.update(j, e).insert(j + 1, RecordModel::Gap { len: (l - rec_len(e)) as nat })
        } else {
            rs.update(j, e)
        }
    } else {
        rs.push(e)
    }
}

/// The records after storing `v` under `k`.
pub open spec fn put_spec(rs: Seq<RecordModel>, k: Seq<u8>, v: Seq<u8>) -> Seq<RecordModel> {
    placed(removed(rs, k), RecordModel::Entry { key: k, value: v })
}

/// The record that starts the bytes `b`, if they start with a complete one.
pub open spec fn rec_at(b: Seq<u8>) -> Option<RecordModel> {
    if b.len() == 0 {
        None
    } else if b[0] == 0 {
        if b.len() >= 33 {
            let kl = be_value(b.subrange(1, 17)) as int;
            let vl = be_value(b.subrange(17, 33)) as int;
            if 33 + kl + vl <= b.len() {
                Some(
                    RecordModel::Entry {
                        key: b.subrange(33, 33 + kl),
                        value: b.subrange(33 + kl, 33 + kl + vl),
                    },
                )
            } else {
                None
            }
        } else {
            None
        }
    } else if b[0] <= 16 {
        if b[0] as nat <= b.len() {
            Some(RecordModel::Gap { len: b[0] as nat })
        } else {
            None
        }
    } else if b[0] == 17 {
        if b.len() >= 17 {
            let l = be_value(b.subrange(1, 17));
            if 17 <= l <= b.len() {
                Some(RecordModel::Gap { len: l })
            } else {
                None
            }
        } else {
            None
        }
    } else {
        None
    }
}

/// The records that the body bytes `b` hold, if they are a whole number of records.
/// Padding inside gaps is not read.
pub open spec fn parse_body(b: Seq<u8>) -> Option<Seq<RecordModel>>
    decreases b.len(),
{
    if b.len() == 0 {
        Some(Seq::empty())
    } else {
        match rec_at(b) {
            Some(r) => if 0 < rec_len(r) <= b.len() {
                match parse_body(b.skip(rec_len(r) as int)) {
                    Some(t) => Some(seq![r] + t),
                    None => None,
                }
            } else {
                None
            },
            None => None,
        }
    }
}

/// What a file image holds: no records if it is empty, else the records after the
/// signature, if the signature is there and the rest parses with unique keys.
pub open spec fn image_records(b: Seq<u8>) -> Option<Seq<RecordModel>> {
    if b.len() == 0 {
        Some(Seq::empty())
    } else if b.len() < 16 || b.subrange(0, 16) != signature_spec() {
        None
    } else {
        match parse_body(b.skip(16)) {
            Some(rs) => if unique_keys(rs) {
                Some(rs)
            } else {
                None
            },
            None => None,
        }
    }
}

pub proof fn lemma_total_len_update(rs: Seq<RecordModel>, i: int, r: RecordModel)
    requires
        0 <= i < rs.len(),
    ensures
        total_len(rs.update(i, r)) + rec_len(rs[i]) == total_len(rs) + rec_len(r),
    decreases rs.len(),
{
    let u = rs.update(i, r);
    if i < rs.len() - 1 {
        assert(u.drop_last() =~= rs.drop_last().update(i, r));
        lemma_total_len_update(rs.drop_last(), i, r);
    } else {
        assert(u.drop_last() =~= rs.drop_last());
    }
}

pub proof fn lemma_total_len_insert(rs: Seq<RecordModel>, i: int, r: RecordModel)
    requires
        0 <= i <= rs.len(),
    ensures
        total_len(rs.insert(i, r)) == total_len(rs) + rec_len(r),
    decreases rs.len(),
{
    let u = rs.insert(i, r);
    if i < rs.len() {
        assert(u.drop_last() =~= rs.drop_last().insert(i, r));
        lemma_total_len_insert(rs.drop_last(), i, r);
    } else {
        assert(u.drop_last() =~= rs);
    }
}

pub proof fn lemma_total_len_push(rs: Seq<RecordModel>, r: RecordModel)
    ensures
        total_len(rs.push(r)) == total_len(rs) + rec_len(r),
{
    assert(rs.push(r).drop_last() =~= rs);
}

pub proof fn lemma_rec_len_le_total(rs: Seq<RecordModel>, i: int)
    requires
        0 <= i < rs.len(),
    ensures
        rec_len(rs[i]) <= total_len(rs),
    decreases rs.len(),
{
    if i < rs.len() - 1 {
        lemma_rec_len_le_total(rs.drop_last(), i);
    }
}

/// A key-value log: the records of a log file after its signature.
pub struct Disk {
    records: Vec<Record>,
    size: usize,
}

impl View for Disk {
    type V = Seq<RecordModel>;

    closed spec fn view(&self) -> Seq<RecordModel> {
        self.records@.map_values(|r: Record| r@)
    }
}

/// Byte for byte equality.
fn bytes_eq(a: &[u8], b: &[u8]) -> (r: bool)
    ensures
        r == (a@ == b@),
{
    if a.len() != b.len() {
        return false;
    }
    let mut i: usize = 0;
    while i < a.len()
        invariant
            a@.len() == b@.len(),
            i <= a@.len(),
            forall|j: int| 0 <= j < i ==> a@[j] == b@[j],
        decreases a@.len() - i,
    {
        if a[i] != b[i] {
            return false;
        }
        i = i + 1;
    }
    assert(a@ =~= b@);
    true
}

/// A copy of `b[from..to]`.
fn copy_range(b: &[u8], from: usize, to: usize) -> (r: Vec<u8>)
    requires
        from <= to <= b@.len(),
    ensures
        r@ == b@.subrange(from as int, to as int),
{
    let mut r: Vec<u8> = Vec::new();
    let mut i: usize = from;
    while i < to
        invariant
            from <= i <= to <= b@.len(),
            r@ == b@.subrange(from as int, i as int),
        decreases to - i,
    {
        r.push(b[i]);
        assert(b@.subrange(from as int, i + 1) =~= b@.subrange(from as int, i as int).push(
            b@[i as int],
        ));
        i = i + 1;
    }
    r
}

fn copy_vec(v: &Vec<u8>) -> (r: Vec<u8>)
    ensures
        r@ == v@,
{
    let r = v.clone();
    assert(r@ =~= v@);
    r
}


pub proof fn lemma_unique_update_gap(rs: Seq<RecordModel>, j: int, n: nat)
    requires
        unique_keys(rs),
        0 <= j < rs.len(),
    ensures
        unique_keys(rs.update(j, RecordModel::Gap { len: n })),
{
    let u = rs.update(j, RecordModel::Gap { len: n });
    assert forall|a: int, b: int, k: Seq<u8>|
        #[trigger] has_key_at(u, a, k) && #[trigger] has_key_at(u, b, k) implies a == b by {
        assert(has_key_at(rs, a, k) && has_key_at(rs, b, k));
    }
}

pub proof fn lemma_unique_update_entry(rs: Seq<RecordModel>, j: int, k0: Seq<u8>, v0: Seq<u8>)
    requires
        unique_keys(rs),
        0 <= j < rs.len(),
        forall|i: int| !#[trigger] has_key_at(rs, i, k0),
    ensures
        unique_keys(rs.update(j, RecordModel::Entry { key: k0, value: v0 })),
{
    let u = rs.update(j, RecordModel::Entry { key: k0, value: v0 });
    assert forall|a: int, b: int, k: Seq<u8>|
        #[trigger] has_key_at(u, a, k) && #[trigger] has_key_at(u, b, k) implies a == b by {
        if a != j && b != j {
            assert(has_key_at(rs, a, k) && has_key_at(rs, b, k));
        } else if a == j && b != j {
            assert(has_key_at(rs, b, k0));
        } else if a != j && b == j {
            assert(has_key_at(rs, a, k0));
        }
    }
}

pub proof fn lemma_unique_insert_gap(rs: Seq<RecordModel>, j: int, n: nat)
    requires
        unique_keys(rs),
        0 <= j <= rs.len(),
    ensures
        unique_keys(rs.insert(j, RecordModel::Gap { len: n })),
{
    let u = rs.insert(j, RecordModel::Gap { len: n });
    assert forall|a: int, b: int, k: Seq<u8>|
        #[trigger] has_key_at(u, a, k) && #[trigger] has_key_at(u, b, k) implies a == b by {
        let a0 = if a < j { a } else { a - 1 };
        let b0 = if b < j { b } else { b - 1 };
        assert(has_key_at(rs, a0, k) && has_key_at(rs, b0, k));
    }
}

pub proof fn lemma_unique_push_entry(rs: Seq<RecordModel>, k0: Seq<u8>, v0: Seq<u8>)
    requires
        unique_keys(rs),
        forall|i: int| !#[trigger] has_key_at(rs, i, k0),
    ensures
        unique_keys(rs.push(RecordModel::Entry { key: k0, value: v0 })),
{
    let u = rs.push(RecordModel::Entry { key: k0, value: v0 });
    assert forall|a: int, b: int, k: Seq<u8>|
        #[trigger] has_key_at(u, a, k) && #[trigger] has_key_at(u, b, k) implies a == b by {
        if a < rs.len() && b < rs.len() {
            assert(has_key_at(rs, a, k) && has_key_at(rs, b, k));
        } else if a < rs.len() {
            assert(has_key_at(rs, a, k0));
        } else if b < rs.len() {
            assert(has_key_at(rs, b, k0));
        }
    }
}

/// With unique keys, the entry found at `i` is the one that `lookup` picks.
pub proof fn lemma_lookup_at(rs: Seq<RecordModel>, i: int, k: Seq<u8>)
    requires
        unique_keys(rs),
        has_key_at(rs, i, k),
    ensures
        lookup(rs, k) == Some(rs[i]->Entry_value),
        removed(rs, k) == rs.update(i, RecordModel::Gap { len: rec_len(rs[i]) }),
{
    let c = choose|c: int| has_key_at(rs, c, k);
    assert(has_key_at(rs, c, k));
}

/// After `removed`, no entry holds `k`.
pub proof fn lemma_removed_absent(rs: Seq<RecordModel>, k: Seq<u8>)
    requires
        unique_keys(rs),
    ensures
        forall|i: int| !#[trigger] has_key_at(removed(rs, k), i, k),
        removed(rs, k).len() == rs.len(),
        unique_keys(removed(rs, k)),
        total_len(removed(rs, k)) == total_len(rs),
        gaps_nonempty(rs) ==> gaps_nonempty(removed(rs, k)),
        forall|i: int, k2: Seq<u8>| k2 != k ==> (#[trigger] has_key_at(removed(rs, k), i, k2) <==> has_key_at(rs, i, k2)),
        forall|i: int| 0 <= i < rs.len() && (#[trigger] rs[i]) is Gap ==> removed(rs, k)[i] == rs[i],
{
    if exists|i: int| has_key_at(rs, i, k) {
        let i = choose|i: int| has_key_at(rs, i, k);
        lemma_lookup_at(rs, i, k);
        let g = RecordModel::Gap { len: rec_len(rs[i]) };
        lemma_unique_update_gap(rs, i, rec_len(rs[i]));
        lemma_total_len_update(rs, i, g);
        let u = rs.update(i, g);
        assert forall|j: int| !#[trigger] has_key_at(u, j, k) by {
            if has_key_at(u, j, k) {
                assert(has_key_at(rs, j, k));
            }
        }
        if gaps_nonempty(rs) {
            assert forall|j: int| 0 <= j < u.len() && (#[trigger] u[j]) is Gap implies u[j]->Gap_len >= 1 by {
                if j != i {
                    assert(rs[j] is Gap);
                }
            }
        }
    }
}

/// The first gap that fits is the one that `placed` picks.
pub proof fn lemma_first_fit_unique(rs: Seq<RecordModel>, j: int, n: nat)
    requires
        first_fit(rs, j, n),
    ensures
        (choose|c: int| first_fit(rs, c, n)) == j,
{
    let c = choose|c: int| first_fit(rs, c, n);
    assert(first_fit(rs, c, n));
    if c < j {
        assert(!fits(rs, c, n));
    } else if j < c {
        assert(!fits(rs, j, n));
    }
}

pub proof fn lemma_log_bytes_len(rs: Seq<RecordModel>)
    requires
        gaps_nonempty(rs),
    ensures
        log_bytes(rs).len() == total_len(rs),
    decreases rs.len(),
{
    if rs.len() > 0 {
        assert(gaps_nonempty(rs.drop_last())) by {
            assert forall|i: int| 0 <= i < rs.drop_last().len() && (#[trigger] rs.drop_last()[i]) is Gap implies rs.drop_last()[i]->Gap_len >= 1 by {
                assert(rs[i] is Gap);
            }
        }
        lemma_log_bytes_len(rs.drop_last());
        let r = rs.last();
        assert(rs[rs.len() - 1] == r);
        match r {
            RecordModel::Entry { key, value } => {
                lemma_be_bytes_len(key.len(), 16);
                lemma_be_bytes_len(value.len(), 16);
            },
            RecordModel::Gap { len } => {
                lemma_be_bytes_len(len, 16);
            },
        }
    }
}


/// Checks that `head` is the signature; else invalid data.
pub fn check_signature(head: &[u8]) -> (r: Result<(), Error>)
    ensures
        r is Ok <==> head@ == signature_spec(),
        r is Err ==> r->Err_0.kind == ErrorKind::InvalidData,
{
    let sig = signature();
    if bytes_eq(head, sig.as_slice()) {
        Ok(())
    } else {
        Err(Error::new(ErrorKind::InvalidData, "invalid signature"))
    }
}

/// Reads the record that starts at `pos`, if a complete one starts there.
fn read_record(b: &[u8], pos: usize) -> (r: Option<Record>)
    requires
        pos < b@.len(),
    ensures
        match r {
            Some(rec) => rec_at(b@.skip(pos as int)) == Some(rec@),
            None => rec_at(b@.skip(pos as int)) is None,
        },
{
    let n = b.len();
    let ghost t = b@.skip(pos as int);
    let op = b[pos];
    assert(t[0] == op);
    if op == 0 {
        if n - pos < 33 {
            return None;
        }
        let kl = read_be16(b, pos + 1);
        let vl = read_be16(b, pos + 17);
        assert(t.subrange(1, 17) =~= b@.subrange(pos + 1, pos + 17));
        assert(t.subrange(17, 33) =~= b@.subrange(pos + 17, pos + 33));
        let rem = (n - pos - 33) as u128;
        if kl > rem || vl > rem - kl {
            return None;
        }
        let ks = pos + 33;
        let ke = ks + kl as usize;
        let ve = ke + vl as usize;
        let key = copy_range(b, ks, ke);
        let value = copy_range(b, ke, ve);
        assert(key@ =~= t.subrange(33, 33 + kl as int));
        assert(value@ =~= t.subrange(33 + kl as int, 33 + kl as int + vl as int));
        Some(Record::Entry { key, value })
    } else if op <= 16 {
        if op as usize <= n - pos {
            Some(Record::Gap { len: op as usize })
        } else {
            None
        }
    } else if op == 17 {
        if n - pos < 17 {
            return None;
        }
        let l = read_be16(b, pos + 1);
        assert(t.subrange(1, 17) =~= b@.subrange(pos + 1, pos + 17));
        if 17 <= l && l <= (n - pos) as u128 {
            Some(Record::Gap { len: l as usize })
        } else {
            None
        }
    } else {
        None
    }
}

impl Disk {
    /// The log is well formed: gaps are not empty, keys are unique, and `size`
    /// is the length of its file.
    pub closed spec fn wf(&self) -> bool {
        &&& gaps_nonempty(self@)
        &&& unique_keys(self@)
        &&& self.size == 16 + total_len(self@)
    }

    /// What well-formedness gives a caller: non-empty gaps, unique keys, and a
    /// file length that fits in the address space.
    pub proof fn lemma_wf(&self)
        requires
            self.wf(),
        ensures
            gaps_nonempty(self@),
            unique_keys(self@),
            self.file_len() <= usize::MAX,
    {
    }

    /// Length in bytes of the file that holds this log.
    pub open spec fn file_len(&self) -> nat {
        16 + total_len(self@)
    }

    /// A log with no records: the state of a fresh file.
    pub fn empty() -> (r: Disk)
        ensures
            r.wf(),
            r@ == Seq::<RecordModel>::empty(),
    {
        let r = Disk { records: Vec::new(), size: 16 };
        assert(r@ =~= Seq::<RecordModel>::empty());
        r
    }

    /// Length in bytes of the file that holds this log.
    pub fn size(&self) -> (r: usize)
        requires
            self.wf(),
        ensures
            r == self.file_len(),
    {
        self.size
    }

    /// Index of the entry under key `k`.
    fn find(&self, k: &[u8]) -> (r: Option<usize>)
        requires
            self.wf(),
        ensures
            match r {
                Some(i) => has_key_at(self@, i as int, k@),
                None => forall|i: int| !#[trigger] has_key_at(self@, i, k@),
            },
    {
        let mut i: usize = 0;
        while i < self.records.len()
            invariant
                i <= self.records@.len(),
                forall|j: int| 0 <= j < i ==> !#[trigger] has_key_at(self@, j, k@),
            decreases self.records@.len() - i,
        {
            match &self.records[i] {
                Record::Entry { key, value } => {
                    if bytes_eq(key.as_slice(), k) {
                        return Some(i);
                    }
                },
                Record::Gap { .. } => {},
            }
            i = i + 1;
        }
        None
    }

    /// The value stored under the encoded key `k`.
    pub fn get_encoded(&self, k: &[u8]) -> (r: Option<Vec<u8>>)
        requires
            self.wf(),
        ensures
            match r {
                Some(v) => lookup(self@, k@) == Some(v@),
                None => lookup(self@, k@) is None,
            },
    {
        match self.find(k) {
            Some(i) => {
                proof {
                    lemma_lookup_at(self@, i as int, k@);
                }
                match &self.records[i] {
                    Record::Entry { key, value } => Some(copy_vec(value)),
                    Record::Gap { .. } => None,
                }
            },
            None => None,
        }
    }

    /// Deletes the entry under the encoded key `k`, leaving a gap of the same
    /// length in its place; returns the value it held.
    pub fn del_encoded(&mut self, k: &[u8]) -> (r: Option<Vec<u8>>)
        requires
            old(self).wf(),
        ensures
            final(self).wf(),
            final(self)@ == removed(old(self)@, k@),
            match r {
                Some(v) => lookup(old(self)@, k@) == Some(v@),
                None => lookup(old(self)@, k@) is None,
            },
    {
        proof {
            lemma_removed_absent(self@, k@);
        }
        match self.find(k) {
            Some(i) => {
                proof {
                    lemma_lookup_at(self@, i as int, k@);
                    lemma_rec_len_le_total(self@, i as int);
                }
                let (len, v) = match &self.records[i] {
                    Record::Entry { key, value } => (33 + key.len() + value.len(), copy_vec(value)),
                    Record::Gap { len } => (*len, Vec::new()),
                };
                self.records.set(i, Record::Gap { len });
                proof {
                    assert(self@ =~= removed(old(self)@, k@));
                }
                Some(v)
            },
            None => {
                proof {
                    assert(!exists|i: int| has_key_at(self@, i, k@));
                }
                None
            },
        }
    }

    /// Stores `v` under the encoded key `k`: any entry under `k` becomes a gap, then
    /// the new entry takes the first gap that holds it, or goes at the end.
    /// Returns the value that `k` held before. Fails with invalid data, changing
    /// nothing, when the file with the entry appended would exceed the address space.
    pub fn put_encoded(&mut self, k: Vec<u8>, v: Vec<u8>) -> (r: Result<Option<Vec<u8>>, Error>)
        requires
            old(self).wf(),
        ensures
            final(self).wf(),
            r is Ok <==> old(self).file_len() + 33 + k@.len() + v@.len() <= usize::MAX,
            match r {
                Ok(p) => {
                    &&& final(self)@ == put_spec(old(self)@, k@, v@)
                    &&& match p {
                        Some(pv) => lookup(old(self)@, k@) == Some(pv@),
                        None => lookup(old(self)@, k@) is None,
                    }
                },
                Err(e) => final(self)@ == old(self)@ && e.kind == ErrorKind::InvalidData,
            },
    {
        let kl = k.len();
        let vl = v.len();
        if kl > usize::MAX - 33 || vl > usize::MAX - 33 - kl || self.size > usize::MAX - (33 + kl
            + vl) {
            return Err(Error::new(ErrorKind::InvalidData, "key and value too big"));
        }
        let e: usize = 33 + kl + vl;
        let prev = self.del_encoded(k.as_slice());
        let ghost rs = self@;
        let ghost em = RecordModel::Entry { key: k@, value: v@ };
        proof {
            lemma_removed_absent(old(self)@, k@);
        }
        let mut j: usize = 0;
        let mut found: bool = false;
        let mut glen: usize = 0;
        while j < self.records.len() && !found
            invariant
                self@ == rs,
                j <= rs.len(),
                forall|i: int| 0 <= i < j ==> !#[trigger] fits(rs, i, e as nat),
                found ==> j < rs.len() && fits(rs, j as int, e as nat) && rs[j as int]->Gap_len == glen,
            decreases rs.len() - j + (if found { 0int } else { 1int }),
        {
            match &self.records[j] {
                Record::Gap { len } => {
                    if *len >= e {
                        glen = *len;
                        found = true;
                    }
                },
                Record::Entry { .. } => {},
            }
            if !found {
                j = j + 1;
            }
        }
        let entry = Record::Entry { key: k, value: v };
        if found {
            proof {
                assert(rec_len(em) == e as nat);
                assert(first_fit(rs, j as int, e as nat));
                lemma_first_fit_unique(rs, j as int, e as nat);
                lemma_unique_update_entry(rs, j as int, em->Entry_key, em->Entry_value);
                lemma_total_len_update(rs, j as int, em);
            }
            self.records.set(j, entry);
            proof {
                assert(self@ =~= rs.update(j as int, em));
            }
            if glen > e {
                let ghost u = self@;
                let nrec = self.records.len();
                assert(j < nrec);
                self.records.insert(j + 1, Record::Gap { len: glen - e });
                proof {
                    lemma_unique_insert_gap(u, j + 1, (glen - e) as nat);
                    lemma_total_len_insert(u, j + 1, RecordModel::Gap { len: (glen - e) as nat });
                }
            }
            proof {
                assert(self@ =~= put_spec(old(self)@, k@, v@));
                assert forall|i: int| 0 <= i < self@.len() && (#[trigger] self@[i]) is Gap implies self@[i]->Gap_len >= 1 by {
                    if i < j {
                        assert(rs[i] is Gap);
                    } else if i > j + 1 || (i == j + 1 && glen == e) {
                        if glen > e {
                            assert(rs[i - 1] is Gap);
                        } else {
                            assert(rs[i] is Gap);
                        }
                    }
                }
            }
        } else {
            proof {
                lemma_unique_push_entry(rs, em->Entry_key, em->Entry_value);
                lemma_total_len_push(rs, em);
                assert(rec_len(em) == e as nat);
                assert forall|c: int| !#[trigger] first_fit(rs, c, e as nat) by {
                    if first_fit(rs, c, e as nat) {
                        assert(!fits(rs, c, e as nat));
                    }
                }
            }
            self.records.push(entry);
            self.size = self.size + e;
            proof {
                assert(self@ =~= put_spec(old(self)@, k@, v@));
                assert forall|i: int| 0 <= i < self@.len() && (#[trigger] self@[i]) is Gap implies self@[i]->Gap_len >= 1 by {
                    assert(rs[i] is Gap);
                }
            }
        }
        Ok(prev)
    }

    /// The encoded keys of the entries, in file order.
    pub fn list_encoded(&self) -> (r: Vec<Vec<u8>>)
        requires
            self.wf(),
        ensures
            r@.map_values(|x: Vec<u8>| x@) == entry_keys(self@),
    {
        let mut out: Vec<Vec<u8>> = Vec::new();
        let mut i: usize = 0;
        while i < self.records.len()
            invariant
                i <= self@.len(),
                self@.len() == self.records@.len(),
                out@.map_values(|x: Vec<u8>| x@) == entry_keys(self@.take(i as int)),
            decreases self@.len() - i,
        {
            assert(self@.take(i + 1).drop_last() =~= self@.take(i as int));
            match &self.records[i] {
                Record::Entry { key, value } => {
                    out.push(copy_vec(key));
                },
                Record::Gap { .. } => {},
            }
            assert(out@.map_values(|x: Vec<u8>| x@) =~= entry_keys(self@.take(i + 1)));
            i = i + 1;
        }
        assert(self@.take(self@.len() as int) =~= self@);
        out
    }

    /// The number of entries.
    pub fn len(&self) -> (r: usize)
        requires
            self.wf(),
        ensures
            r == entry_keys(self@).len(),
    {
        let mut n: usize = 0;
        let mut i: usize = 0;
        while i < self.records.len()
            invariant
                i <= self@.len(),
                self@.len() == self.records@.len(),
                n == entry_keys(self@.take(i as int)).len(),
                n <= i,
            decreases self@.len() - i,
        {
            assert(self@.take(i + 1).drop_last() =~= self@.take(i as int));
            match &self.records[i] {
                Record::Entry { .. } => {
                    n = n + 1;
                },
                Record::Gap { .. } => {},
            }
            i = i + 1;
        }
        assert(self@.take(self@.len() as int) =~= self@);
        n
    }

    /// Whether the log holds no entry.
    pub fn is_empty(&self) -> (r: bool)
        requires
            self.wf(),
        ensures
            r == (entry_keys(self@).len() == 0),
    {
        self.len() == 0
    }

    /// Drops every record: the state of a fresh file.
    pub fn clear(&mut self)
        ensures
            final(self).wf(),
            final(self)@ == Seq::<RecordModel>::empty(),
    {
        self.records = Vec::new();
        self.size = 16;
        assert(self@ =~= Seq::<RecordModel>::empty());
    }

    /// The bytes of the file that holds this log: the signature, then each record.
    pub fn to_image(&self) -> (r: Vec<u8>)
        requires
            self.wf(),
        ensures
            r@ == signature_spec() + log_bytes(self@),
            r@.len() == self.file_len(),
            image_records(r@) == Some(self@),
    {
        let mut out = signature();
        let mut i: usize = 0;
        while i < self.records.len()
            invariant
                self.wf(),
                i <= self@.len(),
                self@.len() == self.records@.len(),
                out@ == signature_spec() + log_bytes(self@.take(i as int)),
            decreases self@.len() - i,
        {
            assert(self@.take(i + 1).drop_last() =~= self@.take(i as int));
            assert(self@.take(i + 1).last() == self@[i as int]);
            let mut bytes = match &self.records[i] {
                Record::Entry { key, value } => encode_entry(key.as_slice(), value.as_slice()),
                Record::Gap { len } => {
                    assert(self.records@[i as int]@ == self@[i as int]);
                    assert(self@[i as int] is Gap);
                    assert(self@[i as int]->Gap_len >= 1);
                    encode_gap(*len)
                },
            };
            out.append(&mut bytes);
            assert(out@ =~= signature_spec() + log_bytes(self@.take(i + 1)));
            i = i + 1;
        }
        assert(self@.take(self@.len() as int) =~= self@);
        proof {
            lemma_log_bytes_len(self@);
            crate::codec::lemma_pow256_16();
            crate::laws::lemma_image_round_trip(self@);
        }
        out
    }

    /// The log that a file image holds. An empty image is a fresh log. An image
    /// that does not start with the signature, or whose body is not a whole
    /// number of well formed records with unique keys, is invalid data.
    pub fn new(image: &[u8]) -> (r: Result<Disk, Error>)
        ensures
            match r {
                Ok(d) => d.wf() && image_records(image@) == Some(d@),
                Err(e) => image_records(image@) is None && e.kind == ErrorKind::InvalidData,
            },
    {
        let n = image.len();
        if n == 0 {
            return Ok(Disk::empty());
        }
        if n < 16 {
            return Err(Error::new(ErrorKind::InvalidData, "invalid signature"));
        }
        let head = copy_range(image, 0, 16);
        check_signature(head.as_slice())?;
        let ghost body = image@.skip(16);
        let mut acc: Vec<Record> = Vec::new();
        let mut pos: usize = 16;
        while pos < n
            invariant
                n == image@.len(),
                16 <= pos <= n,
                body == image@.skip(16),
                parse_body(body) == match parse_body(image@.skip(pos as int)) {
                    Some(t) => Some(acc@.map_values(|r: Record| r@) + t),
                    None => None::<Seq<RecordModel>>,
                },
                gaps_nonempty(acc@.map_values(|r: Record| r@)),
                total_len(acc@.map_values(|r: Record| r@)) == pos - 16,
            decreases n - pos,
        {
            let ghost accm = acc@.map_values(|r: Record| r@);
            let ghost t = image@.skip(pos as int);
            match read_record(image, pos) {
                None => {
                    return Err(Error::new(ErrorKind::InvalidData, "invalid record"));
                },
                Some(rec) => {
                    let l: usize = match &rec {
                        Record::Entry { key, value } => 33 + key.len() + value.len(),
                        Record::Gap { len } => *len,
                    };
                    let ghost rm = rec@;
                    assert(rec_len(rm) == l as nat);
                    assert(t.skip(l as int) =~= image@.skip(pos + l));
                    acc.push(rec);
                    proof {
                        let accm2 = acc@.map_values(|r: Record| r@);
                        assert(accm2 =~= accm.push(rm));
                        lemma_total_len_push(accm, rm);
                        match parse_body(image@.skip(pos + l)) {
                            Some(tt) => {
                                assert(accm2 + tt =~= accm + (seq![rm] + tt));
                            },
                            None => {},
                        }
                        assert forall|i: int| 0 <= i < accm2.len() && (#[trigger] accm2[i]) is Gap implies accm2[i]->Gap_len >= 1 by {
                            if i < accm.len() {
                                assert(accm[i] is Gap);
                            }
                        }
                    }
                    pos = pos + l;
                },
            }
        }
        let ghost rs = acc@.map_values(|r: Record| r@);
        assert(image@.skip(n as int) =~= Seq::<u8>::empty());
        assert(parse_body(body) == Some(rs + Seq::<RecordModel>::empty()));
        assert(rs + Seq::<RecordModel>::empty() =~= rs);
        assert(head@ =~= image@.subrange(0, 16));
        assert(image_records(image@) == (if unique_keys(rs) { Some(rs) } else { None }));
        let mut i: usize = 0;
        while i < acc.len()
            invariant
                rs == acc@.map_values(|r: Record| r@),
                image_records(image@) == (if unique_keys(rs) { Some(rs) } else { None }),
                gaps_nonempty(rs),
                total_len(rs) == n - 16,
                i <= rs.len(),
                forall|a: int, b: int, k: Seq<u8>|
                    a < i && b < i && #[trigger] has_key_at(rs, a, k) && #[trigger] has_key_at(rs, b, k) ==> a == b,
            decreases rs.len() - i,
        {
            match &acc[i] {
                Record::Entry { key, value } => {
                    let mut j: usize = 0;
                    while j < i
                        invariant
                            rs == acc@.map_values(|r: Record| r@),
                            image_records(image@) == (if unique_keys(rs) { Some(rs) } else { None }),
                            j <= i < rs.len(),
                            has_key_at(rs, i as int, key@),
                            forall|b: int| 0 <= b < j ==> !#[trigger] has_key_at(rs, b, key@),
                        decreases i - j,
                    {
                        match &acc[j] {
                            Record::Entry { key: k2, value: v2 } => {
                                if bytes_eq(k2.as_slice(), key.as_slice()) {
                                    proof {
                                        assert(has_key_at(rs, j as int, key@));
                                        assert(!unique_keys(rs));
                                    }
                                    return Err(Error::new(ErrorKind::InvalidData, "duplicate key"));
                                }
                            },
                            Record::Gap { .. } => {},
                        }
                        j = j + 1;
                    }
                    proof {
                        assert forall|a: int, b: int, k: Seq<u8>|
                            a < i + 1 && b < i + 1 && #[trigger] has_key_at(rs, a, k) && #[trigger] has_key_at(rs, b, k) implies a == b by {
                            if a == i && b < i {
                                assert(k == key@);
                            } else if b == i && a < i {
                                assert(k == key@);
                            }
                        }
                    }
                },
                Record::Gap { .. } => {
                    proof {
                        assert forall|a: int, b: int, k: Seq<u8>|
                            a < i + 1 && b < i + 1 && #[trigger] has_key_at(rs, a, k) && #[trigger] has_key_at(rs, b, k) implies a == b by {
                            assert(a != i && b != i);
                        }
                    }
                },
            }
            i = i + 1;
        }
        let d = Disk { records: acc, size: n };
        assert(unique_keys(d@));
        Ok(d)
    }

    /// The value stored under `key`; keys are stored as postcard writes them.
    pub fn get(&self, key: &String) -> (r: Result<Option<Vec<u8>>, Error>)
        requires
            self.wf(),
        ensures
            r is Ok,
            match r {
                Ok(Some(v)) => lookup(self@, key_frame(key@)) == Some(v@),
                Ok(None) => lookup(self@, key_frame(key@)) is None,
                Err(_) => false,
            },
    {
        match encode_key(key) {
            Some(kb) => Ok(self.get_encoded(kb.as_slice())),
            None => Err(Error::new(ErrorKind::InvalidData, "invalid key")),
        }
    }

    /// Deletes the entry under `key`, if any; returns the value it held.
    pub fn del(&mut self, key: &String) -> (r: Result<Option<Vec<u8>>, Error>)
        requires
            old(self).wf(),
        ensures
            final(self).wf(),
            r is Ok,
            final(self)@ == removed(old(self)@, key_frame(key@)),
            match r {
                Ok(Some(v)) => lookup(old(self)@, key_frame(key@)) == Some(v@),
                Ok(None) => lookup(old(self)@, key_frame(key@)) is None,
                Err(_) => false,
            },
    {
        match encode_key(key) {
            Some(kb) => Ok(self.del_encoded(kb.as_slice())),
            None => Err(Error::new(ErrorKind::InvalidData, "invalid key")),
        }
    }

    /// Stores `value` (encoded value bytes) under `key`; returns the value it held.
    /// Fails with invalid data, changing nothing, exactly when the file with the
    /// new entry appended would exceed the address space.
    pub fn put(&mut self, key: &String, value: Vec<u8>) -> (r: Result<Option<Vec<u8>>, Error>)
        requires
            old(self).wf(),
        ensures
            final(self).wf(),
            r is Ok <==> old(self).file_len() + 33 + key_frame(key@).len() + value@.len() <= usize::MAX,
            match r {
                Ok(p) => {
                    &&& final(self)@ == put_spec(old(self)@, key_frame(key@), value@)
                    &&& match p {
                        Some(v) => lookup(old(self)@, key_frame(key@)) == Some(v@),
                        None => lookup(old(self)@, key_frame(key@)) is None,
                    }
                },
                Err(e) => final(self)@ == old(self)@ && e.kind == ErrorKind::InvalidData,
            },
    {
        match encode_key(key) {
            Some(kb) => self.put_encoded(kb, value),
            None => Err(Error::new(ErrorKind::InvalidData, "invalid key")),
        }
    }

    /// The keys of the entries, in file order. A key whose bytes do not read
    /// back as a string is invalid data.
    pub fn list(&self) -> (r: Result<Vec<String>, Error>)
        requires
            self.wf(),
        ensures
            all_frames(entry_keys(self@)) ==> r is Ok,
            match r {
                Ok(ks) => {
                    &&& ks@.len() == entry_keys(self@).len()
                    &&& forall|j: int, s: Seq<char>|
                        #![trigger ks@[j], key_frame(s)]
                        0 <= j < ks@.len() && entry_keys(self@)[j] == key_frame(s) ==> ks@[j]@ == s
                },
                Err(e) => e.kind == ErrorKind::InvalidData,
            },
    {
        let frames = self.list_encoded();
        let ghost ek = entry_keys(self@);
        assert(frames@.len() == ek.len());
        let mut out: Vec<String> = Vec::new();
        let mut i: usize = 0;
        while i < frames.len()
            invariant
                frames@.map_values(|x: Vec<u8>| x@) == ek,
                ek == entry_keys(self@),
                i <= frames@.len(),
                out@.len() == i,
                forall|j: int, s: Seq<char>|
                    #![trigger out@[j], key_frame(s)]
                    0 <= j < i && ek[j] == key_frame(s) ==> out@[j]@ == s,
            decreases frames@.len() - i,
        {
            assert(frames@[i as int]@ == ek[i as int]);
            match decode_key(frames[i].as_slice()) {
                Some(k) => {
                    out.push(k);
                },
                None => {
                    proof {
                        assert(!is_frame(ek[i as int]));
                    }
                    return Err(Error::new(ErrorKind::InvalidData, "invalid key"));
                },
            }
            i = i + 1;
        }
        Ok(out)
    }

    /// Compacting the file is not done: the log is left as it is, and adjacent
    /// gaps stay separate records.
    pub fn defrag(&mut self)
        ensures
            final(self)@ == old(self)@,
            final(self).wf() == old(self).wf(),
    {
    }
}

} // verus!
