use vstd::prelude::*;
use vstd::string::StringExecFns;
use crate::codec::RecordModel;
use crate::disk::{
    entry_keys, gaps_nonempty, lookup, put_spec, removed, total_len, unique_keys, Disk, all_frames,
};
use crate::error::{Error, ErrorKind};
use crate::frame_key::key_frame;

verus! {

/// Whether `c` is alphabetic or numeric in Unicode's sense.
pub uninterp spec fn alnum(c: char) -> bool;

/// `c` is an ASCII letter or digit.
pub open spec fn ascii_alnum(c: char) -> bool {
    'a' <= c <= 'z' || 'A' <= c <= 'Z' || '0' <= c <= '9'
}

/// Relies on `char::is_alphanumeric`: Unicode's Alphabetic or Numeric property
/// of `c`, which among ASCII characters holds exactly of the letters and digits.
#[verifier::external_body]
fn is_alnum(c: char) -> (r: bool)
    ensures
        r == alnum(c),
        (c as u32) < 128 ==> (r <==> ascii_alnum(c)),
{
    c.is_alphanumeric()
}

/// A key is a non-empty string of alphanumeric characters.
pub open spec fn valid_key(k: Seq<char>) -> bool {
    k.len() > 0 && forall|i: int| 0 <= i < k.len() ==> #[trigger] alnum(k[i])
}

/// What the cache answered for a key: `None` on a miss, `Some(None)` for a key
/// known to be absent, `Some(Some(v))` for a value.
pub open spec fn cached_view(c: Option<Option<Vec<u8>>>) -> Option<Option<Seq<u8>>> {
    match c {
        None => None,
        Some(None) => Some(None),
        Some(Some(v)) => Some(Some(v@)),
    }
}

pub open spec fn opt_view(o: Option<Vec<u8>>) -> Option<Seq<u8>> {
    match o {
        None => None,
        Some(v) => Some(v@),
    }
}

/// A cache answer agrees with the log: a miss, or the value the log holds.
pub open spec fn coherent(rs: Seq<RecordModel>, k: Seq<u8>, c: Option<Option<Seq<u8>>>) -> bool {
    match c {
        None => true,
        Some(v) => v == lookup(rs, k),
    }
}

/// What the engine asks of the cache after an operation.
pub enum CacheUpdate {
    /// Leave the cache as it is.
    Keep,
    /// Remember this answer for the key (`None`: the key is absent).
    Store(Option<Vec<u8>>),
    /// Forget the key.
    Invalidate,
    /// Forget every key.
    InvalidateAll,
}

/// The cache answer for a key after applying `u` to the answer `c`.
pub open spec fn after_update(c: Option<Option<Seq<u8>>>, u: CacheUpdate) -> Option<Option<Seq<u8>>> {
    match u {
        CacheUpdate::Keep => c,
        CacheUpdate::Store(v) => Some(opt_view(v)),
        CacheUpdate::Invalidate => None,
        CacheUpdate::InvalidateAll => None,
    }
}

/// The result of a keyed operation: the value to return and the cache update.
pub struct Reply {
    pub value: Option<Vec<u8>>,
    pub update: CacheUpdate,
}

/// The decisions of the two-tier store over its log: key validation, then the
/// log as the authority, with the cache's answer handed in by the caller and the
/// cache update handed back.
pub struct Engine {
    disk: Disk,
}

impl View for Engine {
    type V = Seq<RecordModel>;

    closed spec fn view(&self) -> Seq<RecordModel> {
        self.disk@
    }
}

/// Checks that `key` is non-empty and alphanumeric; else invalid input.
pub fn key_validation(key: &String) -> (r: Result<(), Error>)
    ensures
        r is Ok <==> valid_key(key@),
        r is Err ==> r->Err_0.kind == ErrorKind::InvalidInput,
{
    let s = key.as_str();
    let n = s.unicode_len();
    if n < 1 {
        return Err(Error::new(ErrorKind::InvalidInput, "key must be at least 1 character long"));
    }
    let mut i: usize = 0;
    while i < n
        invariant
            n == key@.len(),
            s@ == key@,
            i <= n,
            forall|j: int| 0 <= j < i ==> #[trigger] alnum(key@[j]),
        decreases n - i,
    {
        let c = s.get_char(i);
        if !is_alnum(c) {
            return Err(Error::new(ErrorKind::InvalidInput, "invalid character in key"));
        }
        i = i + 1;
    }
    Ok(())
}

/// `e` with the failing operation named before its message.
fn in_operation(op: &str, e: Error) -> (r: Error)
    ensures
        r.kind == e.kind,
{
    let mut m = op.to_string();
    m.append(": ");
    m.append(e.message.as_str());
    Error { kind: e.kind, message: m }
}

impl Engine {
    pub closed spec fn wf(&self) -> bool {
        self.disk.wf()
    }

    /// Length in bytes of the file that holds the log.
    pub open spec fn file_len(&self) -> nat {
        16 + total_len(self@)
    }

    /// What well-formedness gives a caller: non-empty gaps, unique keys, and a
    /// file length that fits in the address space.
    pub proof fn lemma_wf(&self)
        requires
            self.wf(),
        ensures
            gaps_nonempty(self@),
            unique_keys(self@),
            self.file_len() <= usize::MAX,
    {
        self.disk.lemma_wf();
    }

    /// An engine over the log `disk`.
    pub fn new(disk: Disk) -> (r: Engine)
        requires
            disk.wf(),
        ensures
            r.wf(),
            r@ == disk@,
    {
        Engine { disk }
    }

    /// The log, for writing it out.
    pub fn disk(&self) -> (r: &Disk)
        requires
            self.wf(),
        ensures
            r.wf(),
            r@ == self@,
    {
        &self.disk
    }

    /// Reads `key`: the cache's answer if it has one, else the log's, which the
    /// cache is then given. With a coherent cache this is the log's value.
    pub fn get(&self, key: &String, cached: Option<Option<Vec<u8>>>) -> (r: Result<Reply, Error>)
        requires
            self.wf(),
        ensures
            r is Ok <==> valid_key(key@),
            match r {
                Ok(rep) => {
                    &&& cached is None ==> opt_view(rep.value) == lookup(self@, key_frame(key@))
                    &&& coherent(self@, key_frame(key@), cached_view(cached)) ==> opt_view(rep.value) == lookup(self@, key_frame(key@))
                    &&& coherent(self@, key_frame(key@), cached_view(cached)) ==> coherent(self@, key_frame(key@), after_update(cached_view(cached), rep.update))
                },
                Err(e) => e.kind == ErrorKind::InvalidInput,
            },
    {
        key_validation(key)?;
        match cached {
            Some(c) => Ok(Reply { value: c, update: CacheUpdate::Keep }),
            None => {
                let v = match self.disk.get(key) {
                    Ok(v) => v,
                    Err(_) => None,
                };
                let stored = match &v {
                    Some(x) => Some(x.clone()),
                    None => None,
                };
                proof {
                    if let Some(x) = &v {
                        assert(stored->Some_0@ =~= x@);
                    }
                }
                Ok(Reply { value: v, update: CacheUpdate::Store(stored) })
            },
        }
    }

    /// Stores `value` under `key` in the log and returns the value the log held
    /// before; the cache is asked to remember the new value. Fails with invalid
    /// input for an invalid key, and with invalid data when the file with the new
    /// entry appended would exceed the address space; the log is then unchanged.
    pub fn put(&mut self, key: &String, value: Vec<u8>) -> (r: Result<Reply, Error>)
        requires
            old(self).wf(),
        ensures
            final(self).wf(),
            r is Ok <==> valid_key(key@) && old(self).file_len() + 33 + key_frame(key@).len() + value@.len() <= usize::MAX,
            match r {
                Ok(rep) => {
                    &&& final(self)@ == put_spec(old(self)@, key_frame(key@), value@)
                    &&& opt_view(rep.value) == lookup(old(self)@, key_frame(key@))
                    &&& after_update(None, rep.update) == Some(Some(value@))
                },
                Err(e) => {
                    &&& final(self)@ == old(self)@
                    &&& !valid_key(key@) ==> e.kind == ErrorKind::InvalidInput
                    &&& valid_key(key@) ==> e.kind == ErrorKind::InvalidData
                },
            },
    {
        key_validation(key)?;
        let stored = value.clone();
        assert(stored@ =~= value@);
        match self.disk.put(key, value) {
            Ok(prev) => Ok(Reply { value: prev, update: CacheUpdate::Store(Some(stored)) }),
            Err(e) => Err(in_operation("put", e)),
        }
    }

    /// Deletes `key` from the log and returns the value the log held before; the
    /// cache is asked to forget the key. Fails only with invalid input for an
    /// invalid key, the log then unchanged.
    pub fn del(&mut self, key: &String) -> (r: Result<Reply, Error>)
        requires
            old(self).wf(),
        ensures
            final(self).wf(),
            r is Ok <==> valid_key(key@),
            match r {
                Ok(rep) => {
                    &&& final(self)@ == removed(old(self)@, key_frame(key@))
                    &&& opt_view(rep.value) == lookup(old(self)@, key_frame(key@))
                    &&& rep.update is Invalidate
                },
                Err(e) => final(self)@ == old(self)@ && e.kind == ErrorKind::InvalidInput,
            },
    {
        key_validation(key)?;
        let prev = match self.disk.del(key) {
            Ok(p) => p,
            Err(_) => None,
        };
        Ok(Reply { value: prev, update: CacheUpdate::Invalidate })
    }

    /// The keys of the log, in file order; the cache is not consulted.
    pub fn list(&self) -> (r: Result<Vec<String>, Error>)
        requires
            self.wf(),
        ensures
            all_frames(entry_keys(self@)) ==> r is Ok,
            match r {
                Ok(ks) => {
                    &&& ks@.len() == entry_keys(self@).len()
                    &&& forall|j: int, s: Seq<char>|
                        #![trigger ks@[j], key_frame(s)]
                        0 <= j < ks@.len() && entry_keys(self@)[j] == key_frame(s) ==> ks@[j]@ == s
                },
                Err(e) => e.kind == ErrorKind::InvalidData,
            },
    {
        match self.disk.list() {
            Ok(ks) => Ok(ks),
            Err(e) => Err(in_operation("list", e)),
        }
    }

    /// Empties the log; the cache is asked to forget every key.
    pub fn clear(&mut self) -> (r: CacheUpdate)
        requires
            old(self).wf(),
        ensures
            final(self).wf(),
            final(self)@ == Seq::<RecordModel>::empty(),
            r is InvalidateAll,
    {
        self.disk.clear();
        CacheUpdate::InvalidateAll
    }

    /// The number of entries in the log.
    pub fn len(&self) -> (r: usize)
        requires
            self.wf(),
        ensures
            r == entry_keys(self@).len(),
    {
        self.disk.len()
    }
}

} // verus!
