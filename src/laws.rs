use vstd::prelude::*;
use crate::codec::{
    be_bytes, entry_bytes, pow256, rec_bytes, rec_len, signature_spec, lemma_be_bytes_len, lemma_be_round_trip, RecordModel,
};
use crate::engine::{after_update, coherent, CacheUpdate};
use crate::disk::{
    log_bytes, parse_body, rec_at, entry_keys, fits, first_fit, gaps_nonempty, has_key_at, image_records, key_set, lookup,
    placed, put_spec, removed, total_len, unique_keys, lemma_lookup_at,
    lemma_removed_absent, lemma_total_len_insert, lemma_total_len_push, lemma_total_len_update,
    lemma_unique_insert_gap, lemma_unique_push_entry, lemma_unique_update_entry,
};

verus! {

/// Where some gap holds `n` bytes, a first such gap exists.
proof fn lemma_first_fit_exists(rs: Seq<RecordModel>, i: int, n: nat)
    requires
        fits(rs, i, n),
    ensures
        exists|j: int| first_fit(rs, j, n),
    decreases i,
{
    if exists|i2: int| 0 <= i2 < i && #[trigger] fits(rs, i2, n) {
        let i2 = choose|i2: int| 0 <= i2 < i && #[trigger] fits(rs, i2, n);
        lemma_first_fit_exists(rs, i2, n);
    } else {
        assert(first_fit(rs, i, n));
    }
}

/// What placing a new entry does, for a key that has no entry yet.
proof fn lemma_placed(rs: Seq<RecordModel>, k: Seq<u8>, v: Seq<u8>)
    requires
        unique_keys(rs),
        gaps_nonempty(rs),
        forall|i: int| !#[trigger] has_key_at(rs, i, k),
    ensures
        ({
            let p = placed(rs, RecordModel::Entry { key: k, value: v });
            &&& unique_keys(p)
            &&& gaps_nonempty(p)
            &&& exists|i: int| has_key_at(p, i, k) && p[i]->Entry_value == v
            &&& forall|k2: Seq<u8>| k2 != k ==> (#[trigger] key_set(p).contains(k2) <==> key_set(rs).contains(k2))
            &&& (exists|j: int| #[trigger] first_fit(rs, j, 33 + k.len() + v.len())) ==> total_len(p) == total_len(rs)
        }),
{
    let e = RecordModel::Entry { key: k, value: v };
    let n = rec_len(e);
    let p = placed(rs, e);
    if exists|j: int| first_fit(rs, j, n) {
        let j = choose|j: int| first_fit(rs, j, n);
        let l = rs[j]->Gap_len;
        let u = rs.update(j, e);
        lemma_unique_update_entry(rs, j, k, v);
        lemma_total_len_update(rs, j, e);
        if l > n {
            let g = RecordModel::Gap { len: (l - n) as nat };
            lemma_unique_insert_gap(u, j + 1, (l - n) as nat);
            lemma_total_len_insert(u, j + 1, g);
            assert(has_key_at(p, j, k));
            assert forall|k2: Seq<u8>| k2 != k implies (#[trigger] key_set(p).contains(k2) <==> key_set(rs).contains(k2)) by {
                if exists|i: int| has_key_at(p, i, k2) {
                    let i = choose|i: int| has_key_at(p, i, k2);
                    let i0 = if i <= j { i } else { i - 1 };
                    assert(has_key_at(rs, i0, k2));
                }
                if exists|i: int| has_key_at(rs, i, k2) {
                    let i = choose|i: int| has_key_at(rs, i, k2);
                    let i1 = if i < j { i } else { i + 1 };
                    assert(has_key_at(p, i1, k2));
                }
            }
            assert forall|i: int| 0 <= i < p.len() && (#[trigger] p[i]) is Gap implies p[i]->Gap_len >= 1 by {
                if i < j {
                    assert(rs[i] is Gap);
                } else if i > j + 1 {
                    assert(rs[i - 1] is Gap);
                }
            }
        } else {
            assert(has_key_at(p, j, k));
            assert forall|k2: Seq<u8>| k2 != k implies (#[trigger] key_set(p).contains(k2) <==> key_set(rs).contains(k2)) by {
                if exists|i: int| has_key_at(p, i, k2) {
                    let i = choose|i: int| has_key_at(p, i, k2);
                    assert(has_key_at(rs, i, k2));
                }
                if exists|i: int| has_key_at(rs, i, k2) {
                    let i = choose|i: int| has_key_at(rs, i, k2);
                    assert(has_key_at(p, i, k2));
                }
            }
            assert forall|i: int| 0 <= i < p.len() && (#[trigger] p[i]) is Gap implies p[i]->Gap_len >= 1 by {
                assert(rs[i] is Gap);
            }
        }
    } else {
        lemma_unique_push_entry(rs, k, v);
        lemma_total_len_push(rs, e);
        assert(has_key_at(p, rs.len() as int, k));
        assert forall|k2: Seq<u8>| k2 != k implies (#[trigger] key_set(p).contains(k2) <==> key_set(rs).contains(k2)) by {
            if exists|i: int| has_key_at(p, i, k2) {
                let i = choose|i: int| has_key_at(p, i, k2);
                assert(has_key_at(rs, i, k2));
            }
            if exists|i: int| has_key_at(rs, i, k2) {
                let i = choose|i: int| has_key_at(rs, i, k2);
                assert(has_key_at(p, i, k2));
            }
        }
        assert forall|i: int| 0 <= i < p.len() && (#[trigger] p[i]) is Gap implies p[i]->Gap_len >= 1 by {
            assert(rs[i] is Gap);
        }
    }
}

/// Storing keeps keys unique and gaps non-empty, and reading the key back gives
/// the value stored.
pub proof fn lemma_put_then_get(rs: Seq<RecordModel>, k: Seq<u8>, v: Seq<u8>)
    requires
        unique_keys(rs),
        gaps_nonempty(rs),
    ensures
        lookup(put_spec(rs, k, v), k) == Some(v),
        unique_keys(put_spec(rs, k, v)),
        gaps_nonempty(put_spec(rs, k, v)),
{
    lemma_removed_absent(rs, k);
    let r = removed(rs, k);
    lemma_placed(r, k, v);
    let p = put_spec(rs, k, v);
    let i = choose|i: int| has_key_at(p, i, k) && p[i]->Entry_value == v;
    lemma_lookup_at(p, i, k);
}

/// After storing and then deleting a key, reading it gives nothing.
pub proof fn lemma_put_del_get(rs: Seq<RecordModel>, k: Seq<u8>, v: Seq<u8>)
    requires
        unique_keys(rs),
        gaps_nonempty(rs),
    ensures
        lookup(removed(put_spec(rs, k, v), k), k) is None,
{
    lemma_put_then_get(rs, k, v);
    lemma_removed_absent(put_spec(rs, k, v), k);
}

/// Storing twice under one key: the second store finds the first value, and
/// reading afterwards gives the second.
pub proof fn lemma_upsert(rs: Seq<RecordModel>, k: Seq<u8>, v1: Seq<u8>, v2: Seq<u8>)
    requires
        unique_keys(rs),
        gaps_nonempty(rs),
    ensures
        lookup(put_spec(rs, k, v1), k) == Some(v1),
        lookup(put_spec(put_spec(rs, k, v1), k, v2), k) == Some(v2),
{
    lemma_put_then_get(rs, k, v1);
    lemma_put_then_get(put_spec(rs, k, v1), k, v2);
}

/// The keys with an entry: storing adds the key, deleting takes it away,
/// and an empty log has none.
pub proof fn lemma_key_set(rs: Seq<RecordModel>, k: Seq<u8>, v: Seq<u8>)
    requires
        unique_keys(rs),
        gaps_nonempty(rs),
    ensures
        key_set(put_spec(rs, k, v)) == key_set(rs).insert(k),
        key_set(removed(rs, k)) == key_set(rs).remove(k),
        key_set(Seq::<RecordModel>::empty()) == Set::<Seq<u8>>::empty(),
{
    lemma_removed_absent(rs, k);
    let r = removed(rs, k);
    lemma_placed(r, k, v);
    let p = put_spec(rs, k, v);
    assert forall|k2: Seq<u8>| #[trigger] key_set(r).contains(k2) <==> key_set(rs).remove(k).contains(k2) by {
        if key_set(r).contains(k2) {
            let i = choose|i: int| has_key_at(r, i, k2);
            assert(has_key_at(rs, i, k2));
        }
        if key_set(rs).remove(k).contains(k2) {
            let i = choose|i: int| has_key_at(rs, i, k2);
            assert(has_key_at(r, i, k2));
        }
    }
    assert(key_set(r) =~= key_set(rs).remove(k));
    assert(key_set(p) =~= key_set(rs).insert(k));
    assert(key_set(Seq::<RecordModel>::empty()) =~= Set::<Seq<u8>>::empty());
}

/// The keys in file order are exactly the keys with an entry.
pub proof fn lemma_entry_keys_set(rs: Seq<RecordModel>)
    ensures
        entry_keys(rs).to_set() == key_set(rs),
    decreases rs.len(),
{
    if rs.len() > 0 {
        let d = rs.drop_last();
        lemma_entry_keys_set(d);
        assert forall|k: Seq<u8>| key_set(rs).contains(k) <==> #[trigger] entry_keys(rs).to_set().contains(k) by {
            if key_set(rs).contains(k) {
                let i = choose|i: int| has_key_at(rs, i, k);
                if i < d.len() {
                    assert(has_key_at(d, i, k));
                    assert(key_set(d).contains(k));
                    assert(entry_keys(d).contains(k));
                    let x = choose|x: int| 0 <= x < entry_keys(d).len() && entry_keys(d)[x] == k;
                    assert(entry_keys(rs)[x] == k);
                } else {
                    assert(entry_keys(rs).last() == k);
                    assert(entry_keys(rs)[entry_keys(rs).len() - 1] == k);
                }
            }
            if entry_keys(rs).to_set().contains(k) {
                let x = choose|x: int| 0 <= x < entry_keys(rs).len() && entry_keys(rs)[x] == k;
                if x < entry_keys(d).len() {
                    assert(entry_keys(d).contains(k));
                    assert(key_set(d).contains(k));
                    let i = choose|i: int| has_key_at(d, i, k);
                    assert(has_key_at(rs, i, k));
                } else {
                    assert(has_key_at(rs, rs.len() - 1, k));
                }
            }
        }
        assert(entry_keys(rs).to_set() =~= key_set(rs));
    } else {
        assert(entry_keys(rs).to_set() =~= key_set(rs));
    }
}

/// A cleared log has no keys and no values.
pub proof fn lemma_clear(k: Seq<u8>)
    ensures
        entry_keys(Seq::<RecordModel>::empty()).len() == 0,
        lookup(Seq::<RecordModel>::empty(), k) is None,
{
}

/// Storing, deleting, then storing an entry no longer than the first leaves the
/// file no longer than after the first store: the freed space is reused.
pub proof fn lemma_gap_reuse(rs: Seq<RecordModel>, k1: Seq<u8>, v1: Seq<u8>, k2: Seq<u8>, v2: Seq<u8>)
    requires
        unique_keys(rs),
        gaps_nonempty(rs),
        k2.len() + v2.len() <= k1.len() + v1.len(),
    ensures
        total_len(put_spec(removed(put_spec(rs, k1, v1), k1), k2, v2)) == total_len(put_spec(rs, k1, v1)),
{
    lemma_put_then_get(rs, k1, v1);
    let a = put_spec(rs, k1, v1);
    let i = choose|i: int| has_key_at(a, i, k1);
    lemma_lookup_at(a, i, k1);
    let e1 = rec_len(a[i]);
    lemma_removed_absent(a, k1);
    let b = removed(a, k1);
    assert(b[i] == RecordModel::Gap { len: e1 });
    lemma_removed_absent(b, k2);
    let c = removed(b, k2);
    assert(c[i] == b[i]);
    assert(fits(c, i, 33 + k2.len() + v2.len()));
    lemma_first_fit_exists(c, i, 33 + k2.len() + v2.len());
    lemma_placed(c, k2, v2);
}

/// A non-empty image that does not start with the signature holds no log; an
/// empty one holds the empty log.
pub proof fn lemma_signature_check(b: Seq<u8>)
    ensures
        b.len() > 0 && (b.len() < 16 || b.subrange(0, 16) != signature_spec()) ==> image_records(b) is None,
        b.len() == 0 ==> image_records(b) == Some(Seq::<RecordModel>::empty()),
{
}

/// The answer of a read that tries the cache first: the cache's if it has one,
/// else the log's.
pub open spec fn read_through(c: Option<Option<Seq<u8>>>, d: Option<Seq<u8>>) -> Option<Seq<u8>> {
    match c {
        Some(x) => x,
        None => d,
    }
}

/// Cache coherence for one key: while the cache's answer agrees with the log,
/// a read returns what the log alone returns, and each operation's cache update
/// (the read's answer, the stored value; a delete or clear empties the cache's
/// answer) agrees with the log after it. So a run of operations returns what the
/// log alone returns.
pub proof fn lemma_cache_coherence(rs: Seq<RecordModel>, k: Seq<u8>, v: Seq<u8>, c: Option<Option<Seq<u8>>>)
    requires
        unique_keys(rs),
        gaps_nonempty(rs),
        coherent(rs, k, c),
    ensures
        read_through(c, lookup(rs, k)) == lookup(rs, k),
        coherent(rs, k, Some(read_through(c, lookup(rs, k)))),
        coherent(put_spec(rs, k, v), k, Some(Some(v))),
        coherent(removed(rs, k), k, after_update(c, CacheUpdate::Invalidate)),
        coherent(Seq::<RecordModel>::empty(), k, after_update(c, CacheUpdate::InvalidateAll)),
{
    lemma_put_then_get(rs, k, v);
    lemma_removed_absent(rs, k);
}

proof fn lemma_log_bytes_cons(r: RecordModel, t: Seq<RecordModel>)
    ensures
        log_bytes(seq![r] + t) == rec_bytes(r) + log_bytes(t),
        total_len(seq![r] + t) == rec_len(r) + total_len(t),
    decreases t.len(),
{
    let s = seq![r] + t;
    assert(s.len() == t.len() + 1);
    assert(log_bytes(s) == log_bytes(s.drop_last()) + rec_bytes(s.last()));
    assert(total_len(s) == total_len(s.drop_last()) + rec_len(s.last()));
    if t.len() == 0 {
        assert(s.drop_last() =~= Seq::<RecordModel>::empty());
        assert(s.last() == r);
        assert(log_bytes(Seq::<RecordModel>::empty()) == Seq::<u8>::empty());
        assert(log_bytes(t) == Seq::<u8>::empty());
        assert(Seq::<u8>::empty() + rec_bytes(r) =~= rec_bytes(r));
        assert(rec_bytes(r) + Seq::<u8>::empty() =~= rec_bytes(r));
    } else {
        assert(s.drop_last() =~= seq![r] + t.drop_last());
        assert(s.last() == t.last());
        assert(log_bytes(t) == log_bytes(t.drop_last()) + rec_bytes(t.last()));
        lemma_log_bytes_cons(r, t.drop_last());
        assert(rec_bytes(r) + log_bytes(t.drop_last()) + rec_bytes(t.last()) =~= rec_bytes(r) + (
        log_bytes(t.drop_last()) + rec_bytes(t.last())));
    }
}

/// A record is read back from the front of its bytes, whatever follows.
proof fn lemma_rec_at(r: RecordModel, rest: Seq<u8>)
    requires
        r is Gap ==> r->Gap_len >= 1,
        rec_len(r) < pow256(16),
    ensures
        rec_bytes(r).len() == rec_len(r),
        rec_at(rec_bytes(r) + rest) == Some(r),
{
    let b = rec_bytes(r) + rest;
    match r {
        RecordModel::Entry { key, value } => {
            lemma_be_bytes_len(key.len(), 16);
            lemma_be_bytes_len(value.len(), 16);
            lemma_be_round_trip(key.len(), 16);
            lemma_be_round_trip(value.len(), 16);
            let kb = be_bytes(key.len(), 16);
            let vb = be_bytes(value.len(), 16);
            assert(entry_bytes(key, value) == seq![0u8] + kb + vb + key + value);
            assert(b.subrange(1, 17) =~= kb);
            assert(b.subrange(17, 33) =~= vb);
            let kl = key.len() as int;
            let vl = value.len() as int;
            assert(b.subrange(33, 33 + kl) =~= key);
            assert(b.subrange(33 + kl, 33 + kl + vl) =~= value);
            assert(b[0] == 0);
        },
        RecordModel::Gap { len } => {
            if len < 17 {
                assert(b[0] == len as u8);
                assert((len as u8) as nat == len);
            } else {
                lemma_be_bytes_len(len, 16);
                lemma_be_round_trip(len, 16);
                assert(b[0] == 17u8);
                assert(b.subrange(1, 17) =~= be_bytes(len, 16));
            }
        },
    }
}

proof fn lemma_parse_log_bytes(rs: Seq<RecordModel>)
    requires
        gaps_nonempty(rs),
        total_len(rs) < pow256(16),
    ensures
        parse_body(log_bytes(rs)) == Some(rs),
    decreases rs.len(),
{
    if rs.len() == 0 {
        assert(log_bytes(rs) =~= Seq::<u8>::empty());
    } else {
        let r = rs[0];
        let t = rs.skip(1);
        assert(rs =~= seq![r] + t);
        lemma_log_bytes_cons(r, t);
        assert(gaps_nonempty(t)) by {
            assert forall|i: int| 0 <= i < t.len() && (#[trigger] t[i]) is Gap implies t[i]->Gap_len >= 1 by {
                assert(rs[i + 1] == t[i]);
            }
        }
        lemma_parse_log_bytes(t);
        lemma_rec_at(r, log_bytes(t));
        let b = log_bytes(rs);
        assert(b =~= rec_bytes(r) + log_bytes(t));
        assert(b.skip(rec_len(r) as int) =~= log_bytes(t));
        assert(rec_len(r) > 0);
        assert(parse_body(b) == Some(seq![r] + t));
    }
}

/// The file image of a well formed log reads back as that log: the signature,
/// then records whose lengths are recovered from their headers.
pub proof fn lemma_image_round_trip(rs: Seq<RecordModel>)
    requires
        gaps_nonempty(rs),
        unique_keys(rs),
        total_len(rs) < pow256(16),
    ensures
        image_records(signature_spec() + log_bytes(rs)) == Some(rs),
{
    let b = signature_spec() + log_bytes(rs);
    lemma_parse_log_bytes(rs);
    assert(b.subrange(0, 16) =~= signature_spec());
    assert(b.skip(16) =~= log_bytes(rs));
}

} // verus!
