use vstd::prelude::*;

use crate::text::{chars_of, string_of};

verus! {

// File names, extensions and parents of paths written with `/`, as
// `std::path::Path` finds them.

/// `p` without trailing separators and trailing `.` components, which do not
/// count as the path's last component.
pub open spec fn strip_tail(p: Seq<char>) -> Seq<char>
    decreases p.len(),
{
    if p.len() > 0 && p.last() == '/' {
        strip_tail(p.drop_last())
    } else if p.len() >= 2 && p.last() == '.' && p[p.len() - 2] == '/' {
        strip_tail(p.drop_last())
    } else {
        p
    }
}

/// The index of the last `c` in `s`, or -1 when there is none.
pub open spec fn last_index_of(s: Seq<char>, c: char) -> int
    decreases s.len(),
{
    if s.len() == 0 {
        -1
    } else if s.last() == c {
        s.len() - 1
    } else {
        last_index_of(s.drop_last(), c)
    }
}

/// `.` or `..`: the current or the parent directory, never a file name.
pub open spec fn is_dot_name(s: Seq<char>) -> bool {
    ||| s.len() == 1 && s[0] == '.'
    ||| s.len() == 2 && s[0] == '.' && s[1] == '.'
}

/// The last component of a path, when it is a name (`Path::file_name`).
pub open spec fn file_name_of(p: Seq<char>) -> Option<Seq<char>> {
    let t = strip_tail(p);
    let name = t.skip(last_index_of(t, '/') + 1);
    if name.len() == 0 || is_dot_name(name) {
        None
    } else {
        Some(name)
    }
}

/// What follows the last `.` of the file name, when that `.` is not its
/// first character (`Path::extension`).
pub open spec fn extension_of(p: Seq<char>) -> Option<Seq<char>> {
    match file_name_of(p) {
        None => None,
        Some(name) => {
            let k = last_index_of(name, '.');
            if k <= 0 {
                None
            } else {
                Some(name.skip(k + 1))
            }
        },
    }
}

/// The directory that holds the entry at `p`: `p` up to its last `/`, or the
/// empty path for a single component; none for the empty path. This is
/// `Path::parent` for relative paths whose components are separated by one `/`.
pub open spec fn parent_of(p: Seq<char>) -> Option<Seq<char>> {
    if p.len() == 0 {
        None
    } else if last_index_of(p, '/') < 0 {
        Some(Seq::empty())
    } else {
        Some(p.take(last_index_of(p, '/')))
    }
}

/// Where the file name of `v` lies in `v`, when it has one.
pub fn file_name_bounds(v: &Vec<char>) -> (r: Option<(usize, usize)>)
    ensures
        match r {
            Some((s, e)) => s <= e <= v@.len() && file_name_of(v@) == Some(
                v@.subrange(s as int, e as int),
            ),
            None => file_name_of(v@) is None,
        },
{
    // Cut trailing separators and `.` components.
    let mut e = v.len();
    assert(v@.take(e as int) == v@);
    loop
        invariant
            e <= v@.len(),
            strip_tail(v@) == strip_tail(v@.take(e as int)),
        ensures
            e <= v@.len(),
            strip_tail(v@) == v@.take(e as int),
        decreases e,
    {
        let ghost t = v@.take(e as int);
        if e > 0 && v[e - 1] == '/' {
            assert(t.drop_last() == v@.take(e - 1));
            e = e - 1;
        } else if e >= 2 && v[e - 1] == '.' && v[e - 2] == '/' {
            assert(t.drop_last() == v@.take(e - 1));
            e = e - 1;
        } else {
            break;
        }
    }
    let ghost t = v@.take(e as int);
    assert(t.take(e as int) == t);
    // Find where the last component starts.
    let mut s = e;
    while s > 0 && v[s - 1] != '/'
        invariant
            s <= e <= v@.len(),
            t == v@.take(e as int),
            last_index_of(t, '/') == last_index_of(t.take(s as int), '/'),
        decreases s,
    {
        assert(t.take(s as int).drop_last() == t.take(s - 1));
        s = s - 1;
    }
    assert(last_index_of(t, '/') + 1 == s);
    assert(t.skip(s as int) == v@.subrange(s as int, e as int));
    if s == e || (e - s == 1 && v[s] == '.') || (e - s == 2 && v[s] == '.' && v[s + 1] == '.') {
        None
    } else {
        Some((s, e))
    }
}

/// The last component of `path`, when it is a name (`Path::file_name`).
pub fn file_name(path: &str) -> (r: Option<String>)
    ensures
        match r {
            Some(n) => file_name_of(path@) == Some(n@),
            None => file_name_of(path@) is None,
        },
{
    let v = chars_of(path);
    match file_name_bounds(&v) {
        None => None,
        Some((s, e)) => {
            let mut n: Vec<char> = Vec::new();
            for i in s..e
                invariant
                    s <= e <= v@.len(),
                    n@ == v@.subrange(s as int, i as int),
            {
                n.push(v[i]);
                assert(v@.subrange(s as int, i + 1) == v@.subrange(s as int, i as int).push(
                    v@[i as int],
                ));
            }
            Some(string_of(&n))
        },
    }
}

/// The directory that holds the entry at `path` (see `parent_of`).
pub fn parent(path: &str) -> (r: Option<String>)
    ensures
        match r {
            Some(p) => parent_of(path@) == Some(p@),
            None => parent_of(path@) is None,
        },
{
    let v = chars_of(path);
    if v.len() == 0 {
        return None;
    }
    let mut s = v.len();
    assert(v@.take(s as int) == v@);
    while s > 0 && v[s - 1] != '/'
        invariant
            s <= v@.len(),
            last_index_of(v@, '/') == last_index_of(v@.take(s as int), '/'),
        decreases s,
    {
        assert(v@.take(s as int).drop_last() == v@.take(s - 1));
        s = s - 1;
    }
    let mut n: Vec<char> = Vec::new();
    if s > 0 {
        let end = s - 1;
        for i in 0..end
            invariant
                end < s <= v@.len(),
                n@ == v@.take(i as int),
        {
            n.push(v[i]);
            assert(v@.take(i + 1) == v@.take(i as int).push(v@[i as int]));
        }
    }
    Some(string_of(&n))
}

} // verus!
