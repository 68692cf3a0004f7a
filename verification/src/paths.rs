//! File-name parts of slash-separated paths, as Unix `std::path::Path` reads them.
use vstd::prelude::*;

use crate::text::split_chars;
use crate::text::split_on;
use crate::text::vec_views;

verus! {

/// The last piece among `pieces` that is neither empty nor ".".
pub open spec fn last_component(pieces: Seq<Seq<char>>) -> Option<Seq<char>>
    decreases pieces.len(),
{
    if pieces.len() == 0 {
        None
    } else {
        let l = pieces.last();
        if l.len() == 0 || l == "."@ {
            last_component(pieces.drop_last())
        } else {
            Some(l)
        }
    }
}

/// The final component of a path, unless it is "..", the root, or the path has none
/// (`Path::file_name`).
pub open spec fn file_name(path: Seq<char>) -> Option<Seq<char>> {
    match last_component(split_on(path, '/')) {
        Some(l) => if l == ".."@ {
            None
        } else {
            Some(l)
        },
        None => None,
    }
}

/// The index of the last `c` in `s`.
pub open spec fn last_index_of(s: Seq<char>, c: char) -> Option<int>
    decreases s.len(),
{
    if s.len() == 0 {
        None
    } else if s.last() == c {
        Some(s.len() - 1)
    } else {
        last_index_of(s.drop_last(), c)
    }
}

/// The extension of a file name: what follows its last dot, unless that dot is its first
/// character or there is none.
pub open spec fn name_extension(name: Seq<char>) -> Option<Seq<char>> {
    match last_index_of(name, '.') {
        Some(k) => if k > 0 {
            Some(name.skip(k + 1))
        } else {
            None
        },
        None => None,
    }
}

/// The stem of a file name: what precedes its last dot, or the whole name when the dot is its
/// first character or there is none.
pub open spec fn name_stem(name: Seq<char>) -> Seq<char> {
    match last_index_of(name, '.') {
        Some(k) => if k > 0 {
            name.take(k)
        } else {
            name
        },
        None => name,
    }
}

/// `Path::extension`.
pub open spec fn extension(path: Seq<char>) -> Option<Seq<char>> {
    match file_name(path) {
        Some(n) => name_extension(n),
        None => None,
    }
}

/// `Path::file_stem`.
pub open spec fn file_stem(path: Seq<char>) -> Option<Seq<char>> {
    match file_name(path) {
        Some(n) => Some(name_stem(n)),
        None => None,
    }
}

pub proof fn lemma_last_index_of(s: Seq<char>, c: char)
    ensures
        last_index_of(s, c) matches Some(k) ==> 0 <= k < s.len() && s[k] == c && forall|j: int|
            k < j < s.len() ==> s[j] != c,
        last_index_of(s, c) is None ==> forall|j: int| 0 <= j < s.len() ==> s[j] != c,
    decreases s.len(),
{
    if s.len() > 0 && s.last() != c {
        lemma_last_index_of(s.drop_last(), c);
        assert forall|j: int| 0 <= j < s.len() - 1 implies s[j] == s.drop_last()[j] by {}
    }
}

fn seq_eq(a: &[char], b: &str) -> (r: bool)
    ensures
        r == (a@ == b@),
{
    let bc = crate::text::chars_of(b);
    if a.len() != bc.len() {
        return false;
    }
    let mut i: usize = 0;
    while i < a.len()
        invariant
            i <= a@.len(),
            bc@ == b@,
            a@.len() == bc@.len(),
            forall|k: int| 0 <= k < i ==> a@[k] == bc@[k],
        decreases a@.len() - i,
    {
        if a[i] != bc[i] {
            return false;
        }
        i = i + 1;
    }
    proof {
        assert(a@ =~= bc@);
    }
    true
}

/// The final component of a path.
pub fn path_file_name(path: &[char]) -> (r: Option<Vec<char>>)
    ensures
        match r {
            Some(v) => file_name(path@) == Some(v@),
            None => file_name(path@) is None,
        },
{
    let pieces = split_chars(path, '/');
    let ghost pv = vec_views(pieces@);
    let mut i: usize = pieces.len();
    proof {
        assert(pv.take(pv.len() as int) =~= pv);
    }
    while i > 0
        invariant
            i <= pieces@.len(),
            pv == vec_views(pieces@),
            pv == split_on(path@, '/'),
            last_component(pv) == last_component(pv.take(i as int)),
        decreases i,
    {
        let p = pieces[i - 1].as_slice();
        proof {
            assert(pv.take(i as int).drop_last() =~= pv.take(i - 1));
            assert(pv.take(i as int).last() == p@);
        }
        if p.len() != 0 && !seq_eq(p, ".") {
            if seq_eq(p, "..") {
                return None;
            }
            return Some(slice_to_vec_chars(p));
        }
        i = i - 1;
    }
    None
}

fn slice_to_vec_chars(s: &[char]) -> (v: Vec<char>)
    ensures
        v@ == s@,
{
    vstd::slice::slice_to_vec(s)
}

/// The index of the last `c` in `s`.
pub fn last_index(s: &[char], c: char) -> (r: Option<usize>)
    ensures
        match r {
            Some(k) => last_index_of(s@, c) == Some(k as int),
            None => last_index_of(s@, c) is None,
        },
{
    let mut i: usize = s.len();
    proof {
        assert(s@.take(s@.len() as int) =~= s@);
    }
    while i > 0
        invariant
            i <= s@.len(),
            last_index_of(s@, c) == last_index_of(s@.take(i as int), c),
        decreases i,
    {
        proof {
            assert(s@.take(i as int).drop_last() =~= s@.take(i - 1));
        }
        if s[i - 1] == c {
            return Some(i - 1);
        }
        i = i - 1;
    }
    None
}

/// The extension of a file name.
pub fn name_extension_chars(name: &[char]) -> (r: Option<Vec<char>>)
    ensures
        match r {
            Some(v) => name_extension(name@) == Some(v@),
            None => name_extension(name@) is None,
        },
{
    match last_index(name, '.') {
        Some(k) => {
            proof {
                lemma_last_index_of(name@, '.');
            }
            let n = name.len();
            if k > 0 {
                assert(k < n);
                let rest = vstd::slice::slice_subrange(name, k + 1, n);
                proof {
                    assert(rest@ =~= name@.skip(k + 1));
                }
                Some(slice_to_vec_chars(rest))
            } else {
                None
            }
        },
        None => None,
    }
}

/// The stem of a file name.
pub fn name_stem_chars(name: &[char]) -> (r: Vec<char>)
    ensures
        r@ == name_stem(name@),
{
    match last_index(name, '.') {
        Some(k) => {
            proof {
                lemma_last_index_of(name@, '.');
            }
            if k > 0 {
                let head = vstd::slice::slice_subrange(name, 0, k);
                proof {
                    assert(head@ =~= name@.take(k as int));
                }
                slice_to_vec_chars(head)
            } else {
                slice_to_vec_chars(name)
            }
        },
        None => slice_to_vec_chars(name),
    }
}

/// The extension of a path.
pub fn path_extension(path: &[char]) -> (r: Option<Vec<char>>)
    ensures
        match r {
            Some(v) => extension(path@) == Some(v@),
            None => extension(path@) is None,
        },
{
    match path_file_name(path) {
        Some(n) => name_extension_chars(n.as_slice()),
        None => None,
    }
}

/// The stem of a path.
pub fn path_file_stem(path: &[char]) -> (r: Option<Vec<char>>)
    ensures
        match r {
            Some(v) => file_stem(path@) == Some(v@),
            None => file_stem(path@) is None,
        },
{
    match path_file_name(path) {
        Some(n) => Some(name_stem_chars(n.as_slice())),
        None => None,
    }
}

} // verus!
