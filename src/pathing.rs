use vstd::prelude::*;
use crate::error::{Error, ErrorKind};

verus! {

/// The pieces of `s` between occurrences of `sep`, as `str::split(sep)` gives them.
pub open spec fn split_on(s: Seq<char>, sep: char) -> Seq<Seq<char>>
    decreases s.len(),
{
    if s.len() == 0 {
        seq![Seq::empty()]
    } else {
        let r = split_on(s.drop_last(), sep);
        if s.last() == sep {
            r.push(Seq::empty())
        } else {
            r.update(r.len() - 1, r.last().push(s.last()))
        }
    }
}

/// The pieces of `s` between slashes.
pub open spec fn split_slash(s: Seq<char>) -> Seq<Seq<char>> {
    split_on(s, '/')
}

pub open spec fn word_put() -> Seq<char> {
    seq!['p', 'u', 't']
}

pub open spec fn word_get() -> Seq<char> {
    seq!['g', 'e', 't']
}

pub open spec fn word_del() -> Seq<char> {
    seq!['d', 'e', 'l']
}

pub open spec fn word_list() -> Seq<char> {
    seq!['l', 'i', 's', 't']
}

/// The key of a path `/<word>/<key>`: exactly three pieces, the second `word`.
pub open spec fn keyed_path(p: Seq<char>, word: Seq<char>) -> Option<Seq<char>> {
    let segs = split_slash(p);
    if segs.len() == 3 && segs[1] == word {
        Some(segs[2])
    } else {
        None
    }
}

/// What a GET path asks for.
#[derive(Debug, PartialEq)]
pub enum GetPathing {
    Get(String),
    List,
}

/// The pieces of `path` between occurrences of `sep`.
pub fn split_chars(path: &String, sep: char) -> (r: Vec<String>)
    ensures
        r@.map_values(|x: String| x@) == split_on(path@, sep),
{
    let s = path.as_str();
    let n = s.unicode_len();
    let mut segs: Vec<String> = Vec::new();
    let mut start: usize = 0;
    let mut i: usize = 0;
    assert(path@.take(0) =~= Seq::<char>::empty());
    assert(segs@.map_values(|x: String| x@).push(path@.subrange(0, 0)) =~= seq![Seq::<char>::empty()]);
    while i < n
        invariant
            n == path@.len(),
            s@ == path@,
            start <= i <= n,
            split_on(path@.take(i as int), sep) == segs@.map_values(|x: String| x@).push(
                path@.subrange(start as int, i as int),
            ),
        decreases n - i,
    {
        let c = s.get_char(i);
        let ghost t = path@.take(i + 1);
        assert(t.drop_last() =~= path@.take(i as int));
        assert(t.last() == c);
        if c == sep {
            let piece = s.substring_char(start, i).to_owned();
            let ghost before = segs@.map_values(|x: String| x@);
            assert(piece@ == path@.subrange(start as int, i as int));
            segs.push(piece);
            assert(segs@.map_values(|x: String| x@) =~= before.push(path@.subrange(start as int, i as int)));
            start = i + 1;
            assert(path@.subrange(start as int, i + 1) =~= Seq::<char>::empty());
            assert(split_on(t, sep) =~= segs@.map_values(|x: String| x@).push(
                path@.subrange(start as int, i + 1),
            ));
        } else {
            assert(path@.subrange(start as int, i + 1) =~= path@.subrange(start as int, i as int).push(c));
            assert(split_on(t, sep) =~= segs@.map_values(|x: String| x@).push(
                path@.subrange(start as int, i + 1),
            ));
        }
        i = i + 1;
    }
    let last = s.substring_char(start, n).to_owned();
    segs.push(last);
    assert(path@.take(n as int) =~= path@);
    assert(segs@.map_values(|x: String| x@) =~= split_on(path@, sep));
    segs
}

/// Whether the characters of `s` are those of `w`.
fn chars_eq(s: &String, w: &Vec<char>) -> (r: bool)
    ensures
        r == (s@ == w@),
{
    let t = s.as_str();
    let n = t.unicode_len();
    if n != w.len() {
        return false;
    }
    let mut i: usize = 0;
    while i < n
        invariant
            n == s@.len(),
            n == w@.len(),
            t@ == s@,
            i <= n,
            forall|j: int| 0 <= j < i ==> s@[j] == w@[j],
        decreases n - i,
    {
        if t.get_char(i) != w[i] {
            return false;
        }
        i = i + 1;
    }
    assert(s@ =~= w@);
    true
}

fn keyed(path: &String, word: &Vec<char>) -> (r: Result<String, Error>)
    ensures
        match r {
            Ok(k) => keyed_path(path@, word@) == Some(k@),
            Err(e) => keyed_path(path@, word@) is None && e.kind == ErrorKind::InvalidInput,
        },
{
    let segs = split_chars(path, '/');
    if segs.len() != 3 {
        return Err(Error::new(ErrorKind::InvalidInput, "invalid path"));
    }
    if !chars_eq(&segs[1], word) {
        return Err(Error::new(ErrorKind::InvalidInput, "invalid path"));
    }
    Ok(segs[2].clone())
}

/// The key of a path `/put/<key>`; any other path is invalid input.
pub fn put_pathing(path: String) -> (r: Result<String, Error>)
    ensures
        match r {
            Ok(k) => keyed_path(path@, word_put()) == Some(k@),
            Err(e) => keyed_path(path@, word_put()) is None && e.kind == ErrorKind::InvalidInput,
        },
{
    let w: Vec<char> = vec!['p', 'u', 't'];
    assert(w@ =~= word_put());
    keyed(&path, &w)
}

/// The key of a path `/del/<key>`; any other path is invalid input.
pub fn del_pathing(path: String) -> (r: Result<String, Error>)
    ensures
        match r {
            Ok(k) => keyed_path(path@, word_del()) == Some(k@),
            Err(e) => keyed_path(path@, word_del()) is None && e.kind == ErrorKind::InvalidInput,
        },
{
    let w: Vec<char> = vec!['d', 'e', 'l'];
    assert(w@ =~= word_del());
    keyed(&path, &w)
}

/// A GET path: `/get/<key>` reads a key, `/list...` lists the keys; any other
/// path is invalid input.
pub fn get_pathing(path: String) -> (r: Result<GetPathing, Error>)
    ensures
        match r {
            Ok(GetPathing::Get(k)) => keyed_path(path@, word_get()) == Some(k@),
            Ok(GetPathing::List) => split_slash(path@).len() >= 2 && split_slash(path@)[1] == word_list(),
            Err(e) => e.kind == ErrorKind::InvalidInput && keyed_path(path@, word_get()) is None && !(
            split_slash(path@).len() >= 2 && split_slash(path@)[1] == word_list()),
        },
{
    let segs = split_chars(&path, '/');
    if segs.len() < 2 {
        return Err(Error::new(ErrorKind::InvalidInput, "invalid path"));
    }
    let g: Vec<char> = vec!['g', 'e', 't'];
    let l: Vec<char> = vec!['l', 'i', 's', 't'];
    assert(g@ =~= word_get());
    assert(l@ =~= word_list());
    assert(segs@[1]@ == split_slash(path@)[1]);
    if chars_eq(&segs[1], &g) {
        if segs.len() != 3 {
            return Err(Error::new(ErrorKind::InvalidInput, "invalid path"));
        }
        assert(segs@[2]@ == split_slash(path@)[2]);
        Ok(GetPathing::Get(segs[2].clone()))
    } else if chars_eq(&segs[1], &l) {
        Ok(GetPathing::List)
    } else {
        Err(Error::new(ErrorKind::InvalidInput, "invalid path"))
    }
}

/// The key that a file named `<key>.json` holds (a non-empty key).
pub open spec fn json_key_of(name: Seq<char>) -> Option<Seq<char>> {
    if name.len() > 5 && name.subrange(name.len() - 5, name.len() as int) == seq!['.', 'j', 's', 'o', 'n'] {
        Some(name.subrange(0, name.len() - 5))
    } else {
        None
    }
}

/// The key of a value file named `<key>.json`; other names hold no key.
pub fn json_key(name: &String) -> (r: Option<String>)
    ensures
        match r {
            Some(k) => json_key_of(name@) == Some(k@),
            None => json_key_of(name@) is None,
        },
{
    let s = name.as_str();
    let n = s.unicode_len();
    if n <= 5 {
        return None;
    }
    let suffix: Vec<char> = vec!['.', 'j', 's', 'o', 'n'];
    assert(suffix@ =~= seq!['.', 'j', 's', 'o', 'n']);
    let mut i: usize = 0;
    while i < 5
        invariant
            n == name@.len(),
            s@ == name@,
            n > 5,
            suffix@ == seq!['.', 'j', 's', 'o', 'n'],
            i <= 5,
            forall|j: int| 0 <= j < i ==> name@[n - 5 + j] == suffix@[j],
        decreases 5 - i,
    {
        if s.get_char(n - 5 + i) != suffix[i] {
            assert(name@.subrange(n - 5, n as int)[i as int] != suffix@[i as int]);
            return None;
        }
        i = i + 1;
    }
    assert(name@.subrange(n - 5, n as int) =~= seq!['.', 'j', 's', 'o', 'n']);
    Some(s.substring_char(0, n - 5).to_owned())
}

} // verus!
