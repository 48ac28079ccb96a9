use vstd::prelude::*;

use crate::text::{lines_of, split_lines, string_of, trim, trim_char, trim_char_string, trim_chars};

verus! {

// What is read from the output of `git diff --name-only` and of
// `git status --porcelain`.

/// The trimmed lines of `ls` that are not empty, in order.
pub open spec fn nonempty_trimmed(ls: Seq<Seq<char>>) -> Seq<Seq<char>>
    decreases ls.len(),
{
    if ls.len() == 0 {
        Seq::empty()
    } else {
        let r = nonempty_trimmed(ls.drop_last());
        let t = trim(ls.last());
        if t.len() > 0 {
            r.push(t)
        } else {
            r
        }
    }
}

/// The paths that `git diff --name-only` printed: its lines, trimmed, but
/// the empty ones.
pub open spec fn diff_paths(out: Seq<char>) -> Seq<Seq<char>> {
    nonempty_trimmed(lines_of(out))
}

/// The paths in the output of `git diff --name-only` (see `diff_paths`).
pub fn parse_diff_output(stdout: &str) -> (r: Vec<String>)
    ensures
        r@.len() == diff_paths(stdout@).len(),
        forall|i: int| 0 <= i < r@.len() ==> #[trigger] r@[i]@ == diff_paths(stdout@)[i],
{
    let lines = split_lines(stdout);
    let ghost ls = lines_of(stdout@);
    let mut r: Vec<String> = Vec::new();
    let n = lines.len();
    assert(ls.take(0) =~= Seq::<Seq<char>>::empty());
    for i in 0..n
        invariant
            n == ls.len(),
            n == lines@.len(),
            ls == lines_of(stdout@),
            forall|j: int| 0 <= j < n ==> #[trigger] lines@[j]@ == ls[j],
            r@.len() == nonempty_trimmed(ls.take(i as int)).len(),
            forall|j: int|
                0 <= j < r@.len() ==> #[trigger] r@[j]@ == nonempty_trimmed(ls.take(i as int))[j],
    {
        assert(ls.take(i + 1).drop_last() == ls.take(i as int));
        let t = trim_chars(&lines[i]);
        if !t.as_str().is_empty() {
            r.push(t);
        }
    }
    assert(ls.take(n as int) == ls);
    r
}

/// The path on one line of `git status --porcelain`: what follows the two
/// status characters and the space after them, without surrounding quotes;
/// none for a line of three characters or fewer.
pub open spec fn status_path(line: Seq<char>) -> Option<Seq<char>> {
    if line.len() > 3 {
        Some(trim_char(line.skip(3), '"'))
    } else {
        None
    }
}

/// The paths on the lines `ls` of `git status --porcelain`, in order.
pub open spec fn status_paths_of(ls: Seq<Seq<char>>) -> Seq<Seq<char>>
    decreases ls.len(),
{
    if ls.len() == 0 {
        Seq::empty()
    } else {
        let r = status_paths_of(ls.drop_last());
        match status_path(ls.last()) {
            Some(p) => r.push(p),
            None => r,
        }
    }
}

/// The paths that `git status --porcelain` printed.
pub open spec fn status_paths(out: Seq<char>) -> Seq<Seq<char>> {
    status_paths_of(lines_of(out))
}

/// The path on one line of `git status --porcelain` (see `status_path`).
fn status_line_path(line: &Vec<char>) -> (r: Option<String>)
    ensures
        match r {
            Some(p) => status_path(line@) == Some(p@),
            None => status_path(line@) is None,
        },
{
    let n = line.len();
    if n > 3 {
        let mut rest: Vec<char> = Vec::new();
        for i in 3..n
            invariant
                n == line@.len(),
                rest@ == line@.subrange(3, i as int),
        {
            rest.push(line[i]);
            assert(line@.subrange(3, i + 1) == line@.subrange(3, i as int).push(line@[i as int]));
        }
        assert(rest@ == line@.skip(3));
        let rest = string_of(&rest);
        Some(trim_char_string(rest.as_str(), '"'))
    } else {
        None
    }
}

/// The paths in the output of `git status --porcelain` (see `status_paths`).
pub fn parse_status_output(stdout: &str) -> (r: Vec<String>)
    ensures
        r@.len() == status_paths(stdout@).len(),
        forall|i: int| 0 <= i < r@.len() ==> #[trigger] r@[i]@ == status_paths(stdout@)[i],
{
    let lines = split_lines(stdout);
    let ghost ls = lines_of(stdout@);
    let mut r: Vec<String> = Vec::new();
    let n = lines.len();
    assert(ls.take(0) =~= Seq::<Seq<char>>::empty());
    for i in 0..n
        invariant
            n == ls.len(),
            n == lines@.len(),
            ls == lines_of(stdout@),
            forall|j: int| 0 <= j < n ==> #[trigger] lines@[j]@ == ls[j],
            r@.len() == status_paths_of(ls.take(i as int)).len(),
            forall|j: int|
                0 <= j < r@.len() ==> #[trigger] r@[j]@ == status_paths_of(ls.take(i as int))[j],
    {
        assert(ls.take(i + 1).drop_last() == ls.take(i as int));
        match status_line_path(&lines[i]) {
            Some(p) => r.push(p),
            None => {},
        }
    }
    assert(ls.take(n as int) == ls);
    r
}

} // verus!
