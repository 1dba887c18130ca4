use vstd::prelude::*;
use crate::value::Value;

verus! {

/// Whether the characters of `a` and `b` are the same.
fn str_eq(a: &str, b: &str) -> (r: bool)
    ensures
        r == (a@ == b@),
{
    let n = a.unicode_len();
    if n != b.unicode_len() {
        return false;
    }
    let mut i: usize = 0;
    while i < n
        invariant
            n == a@.len(),
            n == b@.len(),
            i <= n,
            forall|j: int| 0 <= j < i ==> a@[j] == b@[j],
        decreases n - i,
    {
        if a.get_char(i) != b.get_char(i) {
            return false;
        }
        i = i + 1;
    }
    assert(a@ =~= b@);
    true
}

/// A plain in-memory map from keys to values, with no expiry and no bound.
pub struct Primary {
    store: Vec<(String, Value)>,
}

impl Primary {
    /// The keys, in the order they were first stored.
    pub closed spec fn keys(&self) -> Seq<Seq<char>> {
        self.store@.map_values(|p: (String, Value)| p.0@)
    }

    pub closed spec fn wf(&self) -> bool {
        self.keys().no_duplicates()
    }

    /// The mapping that the store holds.
    pub closed spec fn view(&self) -> Map<Seq<char>, Value> {
        Map::new(
            |k: Seq<char>| self.keys().contains(k),
            |k: Seq<char>| self.store@[choose|i: int| 0 <= i < self.keys().len() && self.keys()[i] == k].1,
        )
    }

    proof fn lemma_at(&self, i: int)
        requires
            self.wf(),
            0 <= i < self.store@.len(),
        ensures
            self.view().contains_key(self.store@[i].0@),
            self.view()[self.store@[i].0@] == self.store@[i].1,
    {
        let k = self.store@[i].0@;
        assert(self.keys()[i] == k);
        let c = choose|c: int| 0 <= c < self.keys().len() && self.keys()[c] == k;
        assert(self.keys()[c] == self.keys()[i]);
    }

    /// Index of `key`.
    fn find(&self, key: &str) -> (r: Option<usize>)
        requires
            self.wf(),
        ensures
            match r {
                Some(i) => i < self.store@.len() && self.store@[i as int].0@ == key@,
                None => !self.keys().contains(key@),
            },
    {
        let mut i: usize = 0;
        while i < self.store.len()
            invariant
                i <= self.store@.len(),
                forall|j: int| 0 <= j < i ==> self.keys()[j] != key@,
            decreases self.store@.len() - i,
        {
            if str_eq(self.store[i].0.as_str(), key) {
                return Some(i);
            }
            assert(self.keys()[i as int] == self.store@[i as int].0@);
            i = i + 1;
        }
        None
    }

    /// An empty map.
    pub fn new() -> (r: Primary)
        ensures
            r.wf(),
            r.view() == Map::<Seq<char>, Value>::empty(),
    {
        let r = Primary { store: Vec::new() };
        assert(r.keys() =~= Seq::<Seq<char>>::empty());
        assert(r.view() =~= Map::<Seq<char>, Value>::empty());
        r
    }

    /// Stores `value` under `key`, replacing what was there.
    pub fn put(&mut self, key: String, value: Value)
        requires
            old(self).wf(),
        ensures
            final(self).wf(),
            final(self).view() == old(self).view().insert(key@, value),
    {
        let ghost k = key@;
        let ghost v = value;
        match self.find(key.as_str()) {
            Some(i) => {
                self.store.set(i, (key, value));
                proof {
                    assert(self.keys() =~= old(self).keys().update(i as int, k));
                    assert forall|a: int, b: int| 0 <= a < b < self.keys().len() implies self.keys()[a] != self.keys()[b] by {
                        assert(old(self).keys()[a] == old(self).store@[a].0@);
                        assert(old(self).keys()[b] == old(self).store@[b].0@);
                        assert(old(self).keys()[i as int] == k);
                    }
                    assert forall|kk: Seq<char>| #[trigger] self.view().contains_key(kk) <==> old(self).view().insert(k, v).contains_key(kk) by {
                        if self.keys().contains(kk) {
                            let x = choose|x: int| 0 <= x < self.keys().len() && self.keys()[x] == kk;
                            if x != i {
                                assert(old(self).keys()[x] == kk);
                            }
                        }
                        if old(self).keys().contains(kk) && kk != k {
                            let x = choose|x: int| 0 <= x < old(self).keys().len() && old(self).keys()[x] == kk;
                            assert(self.keys()[x] == kk);
                        }
                        assert(self.keys()[i as int] == k);
                    }
                    assert forall|kk: Seq<char>| #[trigger] self.view().contains_key(kk) implies self.view()[kk] == old(self).view().insert(k, v)[kk] by {
                        let x = choose|x: int| 0 <= x < self.keys().len() && self.keys()[x] == kk;
                        self.lemma_at(x);
                        if x != i {
                            assert(self.keys()[x] != self.keys()[i as int]);
                            old(self).lemma_at(x);
                            assert(old(self).store@[x] == self.store@[x]);
                        } else {
                            assert(self.store@[i as int].1 == v);
                        }
                    }
                    assert(self.view() =~= old(self).view().insert(k, v));
                }
            },
            None => {
                self.store.push((key, value));
                proof {
                    assert(self.keys() =~= old(self).keys().push(k));
                    let n = old(self).store@.len() as int;
                    assert forall|a: int, b: int| 0 <= a < b < self.keys().len() implies self.keys()[a] != self.keys()[b] by {
                        if b == n {
                            assert(old(self).keys()[a] == self.keys()[a]);
                        }
                    }
                    assert forall|kk: Seq<char>| #[trigger] self.view().contains_key(kk) <==> old(self).view().insert(k, v).contains_key(kk) by {
                        if self.keys().contains(kk) {
                            let x = choose|x: int| 0 <= x < self.keys().len() && self.keys()[x] == kk;
                            if x != n {
                                assert(old(self).keys()[x] == kk);
                            }
                        }
                        if old(self).keys().contains(kk) {
                            let x = choose|x: int| 0 <= x < old(self).keys().len() && old(self).keys()[x] == kk;
                            assert(self.keys()[x] == kk);
                        }
                        assert(self.keys()[n] == k);
                    }
                    assert forall|kk: Seq<char>| #[trigger] self.view().contains_key(kk) implies self.view()[kk] == old(self).view().insert(k, v)[kk] by {
                        let x = choose|x: int| 0 <= x < self.keys().len() && self.keys()[x] == kk;
                        self.lemma_at(x);
                        if x != n {
                            old(self).lemma_at(x);
                            assert(old(self).store@[x] == self.store@[x]);
                        }
                    }
                    assert(self.view() =~= old(self).view().insert(k, v));
                }
            },
        }
    }

    /// The value stored under `key`.
    pub fn get(&self, key: &str) -> (r: Option<&Value>)
        requires
            self.wf(),
        ensures
            match r {
                Some(v) => self.view().contains_key(key@) && *v == self.view()[key@],
                None => !self.view().contains_key(key@),
            },
    {
        match self.find(key) {
            Some(i) => {
                proof {
                    self.lemma_at(i as int);
                }
                Some(&self.store[i].1)
            },
            None => None,
        }
    }

    /// Removes `key` and its value.
    pub fn del(&mut self, key: &str)
        requires
            old(self).wf(),
        ensures
            final(self).wf(),
            final(self).view() == old(self).view().remove(key@),
    {
        match self.find(key) {
            Some(i) => {
                let _ = self.store.remove(i);
                proof {
                    let k = key@;
                    assert(self.keys() =~= old(self).keys().remove(i as int));
                    assert forall|a: int, b: int| 0 <= a < b < self.keys().len() implies self.keys()[a] != self.keys()[b] by {
                        let a0 = if a < i { a } else { a + 1 };
                        let b0 = if b < i { b } else { b + 1 };
                        assert(old(self).keys()[a0] != old(self).keys()[b0]);
                    }
                    assert(old(self).keys()[i as int] == k);
                    assert forall|kk: Seq<char>| #[trigger] self.view().contains_key(kk) <==> old(self).view().remove(k).contains_key(kk) by {
                        if self.keys().contains(kk) {
                            let x = choose|x: int| 0 <= x < self.keys().len() && self.keys()[x] == kk;
                            let x0 = if x < i { x } else { x + 1 };
                            assert(old(self).keys()[x0] == kk);
                            assert(x0 != i);
                        }
                        if old(self).keys().contains(kk) && kk != k {
                            let x = choose|x: int| 0 <= x < old(self).keys().len() && old(self).keys()[x] == kk;
                            let x1 = if x < i { x } else { x - 1 };
                            assert(self.keys()[x1] == kk);
                        }
                    }
                    assert forall|kk: Seq<char>| #[trigger] self.view().contains_key(kk) implies self.view()[kk] == old(self).view().remove(k)[kk] by {
                        let x = choose|x: int| 0 <= x < self.keys().len() && self.keys()[x] == kk;
                        self.lemma_at(x);
                        let x0 = if x < i { x } else { x + 1 };
                        old(self).lemma_at(x0);
                        assert(old(self).store@[x0] == self.store@[x]);
                    }
                    assert(self.view() =~= old(self).view().remove(k));
                }
            },
            None => {
                assert(self.view() =~= old(self).view().remove(key@));
            },
        }
    }

    /// The keys, each once.
    pub fn list(&self) -> (r: Vec<String>)
        requires
            self.wf(),
        ensures
            r@.map_values(|s: String| s@).no_duplicates(),
            r@.map_values(|s: String| s@).to_set() == self.view().dom(),
    {
        let mut out: Vec<String> = Vec::new();
        let mut i: usize = 0;
        while i < self.store.len()
            invariant
                i <= self.store@.len(),
                self.wf(),
                out@.map_values(|s: String| s@) == self.keys().take(i as int),
            decreases self.store@.len() - i,
        {
            let c = self.store[i].0.clone();
            assert(c@ == self.keys()[i as int]);
            let ghost before = out@;
            out.push(c);
            assert(out@.map_values(|s: String| s@) =~= before.map_values(|s: String| s@).push(c@));
            assert(self.keys().take(i + 1) =~= self.keys().take(i as int).push(self.keys()[i as int]));
            assert(out@.map_values(|s: String| s@) =~= self.keys().take(i + 1));
            i = i + 1;
        }
        assert(self.keys().take(self.keys().len() as int) =~= self.keys());
        assert(self.keys().to_set() =~= self.view().dom());
        out
    }

    /// Removes every key.
    pub fn clear(&mut self)
        ensures
            final(self).wf(),
            final(self).view() == Map::<Seq<char>, Value>::empty(),
    {
        self.store = Vec::new();
        assert(self.keys() =~= Seq::<Seq<char>>::empty());
        assert(self.view() =~= Map::<Seq<char>, Value>::empty());
    }

    /// The number of keys.
    pub fn len(&self) -> (r: usize)
        requires
            self.wf(),
        ensures
            r == self.view().len(),
    {
        proof {
            self.keys().unique_seq_to_set();
            assert(self.keys().to_set() =~= self.view().dom());
        }
        self.store.len()
    }
}

} // verus!
