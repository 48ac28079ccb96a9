use vstd::prelude::*;

verus! {

broadcast use vstd::string::group_string_axioms;

/// Appends one character to a string.
///
/// Calls `String::push`, whose documentation says that it appends the given
/// character to the end of the string; the contract says exactly that.
#[verifier::external_body]
pub(crate) fn push_char(s: &mut String, c: char)
    ensures
        final(s)@ == old(s)@.push(c),
{
    s.push(c);
}

/// The characters of a string slice, in order.
pub fn chars_of(s: &str) -> (v: Vec<char>)
    ensures
        v@ == s@,
{
    let mut v: Vec<char> = Vec::new();
    for c in it: s.chars()
        invariant
            it.seq() == s@,
            v@ == it.seq().take(it.index() as int),
    {
        v.push(c);
    }
    v
}


/// Builds a string from a sequence of characters.
pub fn string_of(v: &Vec<char>) -> (s: String)
    ensures
        s@ == v@,
{
    let mut s = String::new();
    let n = v.len();
    for i in 0..n
        invariant
            n == v@.len(),
            s@ == v@.take(i as int),
    {
        push_char(&mut s, v[i]);
        assert(v@.take(i + 1) == v@.take(i as int).push(v@[i as int]));
    }
    assert(v@.take(n as int) == v@);
    s
}

/// Unicode's `White_Space` property: the characters that `char::is_whitespace`
/// accepts and that `str::trim`, `str::trim_start` and `str::trim_end` remove.
pub open spec fn is_white_space(c: char) -> bool {
    let v = c as int;
    ||| 0x09 <= v <= 0x0D
    ||| v == 0x20
    ||| v == 0x85
    ||| v == 0xA0
    ||| v == 0x1680
    ||| 0x2000 <= v <= 0x200A
    ||| v == 0x2028
    ||| v == 0x2029
    ||| v == 0x202F
    ||| v == 0x205F
    ||| v == 0x3000
}

/// Decides `is_white_space`.
pub fn is_white_space_char(c: char) -> (b: bool)
    ensures
        b == is_white_space(c),
{
    let v = c as u32;
    (0x09 <= v && v <= 0x0D) || v == 0x20 || v == 0x85 || v == 0xA0 || v == 0x1680 || (0x2000
        <= v && v <= 0x200A) || v == 0x2028 || v == 0x2029 || v == 0x202F || v == 0x205F || v
        == 0x3000
}

/// `s` without its trailing white space.
pub open spec fn trim_end(s: Seq<char>) -> Seq<char>
    decreases s.len(),
{
    if s.len() > 0 && is_white_space(s.last()) {
        trim_end(s.drop_last())
    } else {
        s
    }
}

/// `s` without its leading white space.
pub open spec fn trim_start(s: Seq<char>) -> Seq<char>
    decreases s.len(),
{
    if s.len() > 0 && is_white_space(s[0]) {
        trim_start(s.drop_first())
    } else {
        s
    }
}

/// `s` without leading and trailing white space.
pub open spec fn trim(s: Seq<char>) -> Seq<char> {
    trim_start(trim_end(s))
}

/// The length of `v` once its trailing white space is cut off.
pub fn trim_end_len(v: &Vec<char>) -> (e: usize)
    ensures
        e <= v@.len(),
        v@.take(e as int) == trim_end(v@),
{
    let mut e = v.len();
    assert(v@.take(e as int) == v@);
    while e > 0 && is_white_space_char(v[e - 1])
        invariant
            e <= v@.len(),
            trim_end(v@) == trim_end(v@.take(e as int)),
        decreases e,
    {
        assert(v@.take(e as int).drop_last() == v@.take(e - 1));
        e = e - 1;
    }
    e
}

/// The number of leading white space characters of `v[..end]`.
pub fn trim_start_len(v: &Vec<char>, end: usize) -> (b: usize)
    requires
        end <= v@.len(),
    ensures
        b <= end,
        v@.subrange(b as int, end as int) == trim_start(v@.take(end as int)),
{
    let mut b: usize = 0;
    assert(v@.subrange(0, end as int) == v@.take(end as int));
    while b < end && is_white_space_char(v[b])
        invariant
            b <= end <= v@.len(),
            trim_start(v@.take(end as int)) == trim_start(v@.subrange(b as int, end as int)),
        decreases end - b,
    {
        assert(v@.subrange(b as int, end as int).drop_first() == v@.subrange(b + 1, end as int));
        b = b + 1;
    }
    b
}

/// A string slice without its trailing white space, as `str::trim_end` gives it.
pub fn trim_end_string(s: &str) -> (r: String)
    ensures
        r@ == trim_end(s@),
{
    let v = chars_of(s);
    let e = trim_end_len(&v);
    let mut r = String::new();
    for i in 0..e
        invariant
            e <= v@.len(),
            r@ == v@.take(i as int),
    {
        push_char(&mut r, v[i]);
        assert(v@.take(i + 1) == v@.take(i as int).push(v@[i as int]));
    }
    r
}

/// The rank of a character in the orders below: its code point, except that
/// `/` comes before every other character when `slash_first` holds.
pub open spec fn char_rank(c: char, slash_first: bool) -> int {
    if slash_first && c == '/' {
        -1
    } else {
        c as int
    }
}

/// Strict lexicographic order on character sequences by `char_rank`.
pub open spec fn ranked_lt(a: Seq<char>, b: Seq<char>, slash_first: bool) -> bool
    decreases a.len(),
{
    if a.len() == 0 {
        b.len() > 0
    } else if b.len() == 0 {
        false
    } else if a[0] != b[0] {
        char_rank(a[0], slash_first) < char_rank(b[0], slash_first)
    } else {
        ranked_lt(a.drop_first(), b.drop_first(), slash_first)
    }
}

/// Strict lexicographic order on character sequences, character by character
/// on their code points. For strings this is the order of `str`'s `Ord`
/// (UTF-8 encoding keeps the order of code points).
pub open spec fn chars_lt(a: Seq<char>, b: Seq<char>) -> bool {
    ranked_lt(a, b, false)
}

/// The order of `Path`'s `Ord` on relative paths whose components are
/// separated by one `/`: component by component, each compared as a string.
/// On such paths that is the lexicographic order in which `/` comes before
/// every other character.
pub open spec fn path_lt(a: Seq<char>, b: Seq<char>) -> bool {
    ranked_lt(a, b, true)
}

/// Decides `ranked_lt`.
pub fn ranked_less(a: &Vec<char>, b: &Vec<char>, slash_first: bool) -> (r: bool)
    ensures
        r == ranked_lt(a@, b@, slash_first),
{
    let mut i: usize = 0;
    assert(a@.skip(0) == a@ && b@.skip(0) == b@);
    while i < a.len() && i < b.len() && a[i] == b[i]
        invariant
            i <= a@.len(),
            i <= b@.len(),
            ranked_lt(a@, b@, slash_first) == ranked_lt(
                a@.skip(i as int),
                b@.skip(i as int),
                slash_first,
            ),
        decreases a@.len() - i,
    {
        assert(a@.skip(i as int).drop_first() == a@.skip(i + 1));
        assert(b@.skip(i as int).drop_first() == b@.skip(i + 1));
        i = i + 1;
    }
    if i == a.len() {
        i < b.len()
    } else if i == b.len() {
        false
    } else if slash_first && a[i] == '/' {
        proof {
            lemma_char_nonneg(b@[i as int]);
        }
        true
    } else if slash_first && b[i] == '/' {
        proof {
            lemma_char_nonneg(a@[i as int]);
        }
        false
    } else {
        a[i] < b[i]
    }
}

/// Decides `chars_lt`.
pub fn chars_less(a: &Vec<char>, b: &Vec<char>) -> (r: bool)
    ensures
        r == chars_lt(a@, b@),
{
    ranked_less(a, b, false)
}

/// Decides `path_lt`.
pub fn path_less(a: &str, b: &str) -> (r: bool)
    ensures
        r == path_lt(a@, b@),
{
    ranked_less(&chars_of(a), &chars_of(b), true)
}

/// Code points are not negative.
pub proof fn lemma_char_nonneg(c: char)
    ensures
        c as int >= 0,
{
}

/// No sequence comes before itself.
pub proof fn lemma_ranked_lt_irreflexive(a: Seq<char>, f: bool)
    ensures
        !ranked_lt(a, a, f),
    decreases a.len(),
{
    if a.len() > 0 {
        lemma_ranked_lt_irreflexive(a.drop_first(), f);
    }
}

/// `ranked_lt` is transitive.
pub proof fn lemma_ranked_lt_transitive(a: Seq<char>, b: Seq<char>, c: Seq<char>, f: bool)
    requires
        ranked_lt(a, b, f),
        ranked_lt(b, c, f),
    ensures
        ranked_lt(a, c, f),
    decreases a.len(),
{
    if a.len() > 0 && b.len() > 0 && c.len() > 0 && a[0] == b[0] && b[0] == c[0] {
        lemma_ranked_lt_transitive(a.drop_first(), b.drop_first(), c.drop_first(), f);
    }
}

/// Of two different sequences, one comes before the other.
pub proof fn lemma_ranked_lt_total(a: Seq<char>, b: Seq<char>, f: bool)
    ensures
        a == b || ranked_lt(a, b, f) || ranked_lt(b, a, f),
    decreases a.len(),
{
    if a.len() == 0 && b.len() == 0 {
        assert(a =~= b);
    } else if a.len() > 0 && b.len() > 0 && a[0] == b[0] {
        lemma_ranked_lt_total(a.drop_first(), b.drop_first(), f);
        if a.drop_first() == b.drop_first() {
            assert(a =~= seq![a[0]] + a.drop_first());
            assert(b =~= seq![b[0]] + b.drop_first());
        }
    } else if a.len() > 0 && b.len() > 0 {
        assert((a[0] as int) != (b[0] as int));
        lemma_char_nonneg(a[0]);
        lemma_char_nonneg(b[0]);
        assert(char_rank(a[0], f) != char_rank(b[0], f));
    }
}

/// No sequence comes before itself.
pub proof fn lemma_chars_lt_irreflexive(a: Seq<char>)
    ensures
        !chars_lt(a, a),
{
    lemma_ranked_lt_irreflexive(a, false);
}

/// `chars_lt` is transitive.
pub proof fn lemma_chars_lt_transitive(a: Seq<char>, b: Seq<char>, c: Seq<char>)
    requires
        chars_lt(a, b),
        chars_lt(b, c),
    ensures
        chars_lt(a, c),
{
    lemma_ranked_lt_transitive(a, b, c, false);
}

/// Of two different sequences, one comes before the other.
pub proof fn lemma_chars_lt_total(a: Seq<char>, b: Seq<char>)
    ensures
        a == b || chars_lt(a, b) || chars_lt(b, a),
{
    lemma_ranked_lt_total(a, b, false);
}


/// `l` without the carriage return that ends it, if one does.
pub open spec fn strip_cr(l: Seq<char>) -> Seq<char> {
    if l.len() > 0 && l.last() == '\r' {
        l.drop_last()
    } else {
        l
    }
}

/// The lines ended so far in `s`, and the text after the last line feed.
pub open spec fn lines_state(s: Seq<char>) -> (Seq<Seq<char>>, Seq<char>)
    decreases s.len(),
{
    if s.len() == 0 {
        (Seq::empty(), Seq::empty())
    } else {
        let (ls, cur) = lines_state(s.drop_last());
        if s.last() == '\n' {
            (ls.push(strip_cr(cur)), Seq::empty())
        } else {
            (ls, cur.push(s.last()))
        }
    }
}

/// The lines of `s`, as `str::lines` gives them: split at each line feed, a
/// carriage return in front of it dropped, the last line feed optional.
pub open spec fn lines_of(s: Seq<char>) -> Seq<Seq<char>> {
    let (ls, cur) = lines_state(s);
    if cur.len() > 0 {
        ls.push(cur)
    } else {
        ls
    }
}

/// The lines of `s` (see `lines_of`).
pub fn split_lines(s: &str) -> (r: Vec<Vec<char>>)
    ensures
        r@.len() == lines_of(s@).len(),
        forall|i: int| 0 <= i < r@.len() ==> #[trigger] r@[i]@ == lines_of(s@)[i],
{
    let v = chars_of(s);
    let mut lines: Vec<Vec<char>> = Vec::new();
    let mut cur: Vec<char> = Vec::new();
    let n = v.len();
    assert(v@.take(0) =~= Seq::<char>::empty());
    for i in 0..n
        invariant
            n == v@.len(),
            lines@.len() == lines_state(v@.take(i as int)).0.len(),
            forall|j: int|
                0 <= j < lines@.len() ==> #[trigger] lines@[j]@ == lines_state(
                    v@.take(i as int),
                ).0[j],
            cur@ == lines_state(v@.take(i as int)).1,
    {
        assert(v@.take(i + 1).drop_last() == v@.take(i as int));
        let c = v[i];
        if c == '\n' {
            let mut l = Vec::new();
            std::mem::swap(&mut l, &mut cur);
            if l.len() > 0 && l[l.len() - 1] == '\r' {
                l.pop();
            }
            lines.push(l);
        } else {
            cur.push(c);
        }
    }
    assert(v@.take(n as int) == v@);
    if cur.len() > 0 {
        lines.push(cur);
    }
    lines
}

/// `s` with `c` cut off both ends as often as it is there.
pub open spec fn trim_char(s: Seq<char>, c: char) -> Seq<char>
    decreases s.len(),
{
    if s.len() > 0 && s[0] == c {
        trim_char(s.drop_first(), c)
    } else if s.len() > 0 && s.last() == c {
        trim_char(s.drop_last(), c)
    } else {
        s
    }
}

/// `s` with `c` cut off both ends as often as it is there, as
/// `str::trim_matches` with a character gives it.
pub fn trim_char_string(s: &str, c: char) -> (r: String)
    ensures
        r@ == trim_char(s@, c),
{
    let v = chars_of(s);
    let mut b: usize = 0;
    let mut e: usize = v.len();
    assert(v@.subrange(0, e as int) == v@);
    while b < e && (v[b] == c || v[e - 1] == c)
        invariant
            b <= e <= v@.len(),
            trim_char(v@, c) == trim_char(v@.subrange(b as int, e as int), c),
        decreases e - b,
    {
        let ghost t = v@.subrange(b as int, e as int);
        if v[b] == c {
            assert(t.drop_first() == v@.subrange(b + 1, e as int));
            b = b + 1;
        } else {
            assert(t.drop_last() == v@.subrange(b as int, e - 1));
            e = e - 1;
        }
    }
    let mut r = String::new();
    for i in b..e
        invariant
            b <= e <= v@.len(),
            r@ == v@.subrange(b as int, i as int),
    {
        push_char(&mut r, v[i]);
        assert(v@.subrange(b as int, i + 1) == v@.subrange(b as int, i as int).push(v@[i as int]));
    }
    r
}

/// `v` without white space at either end, as `str::trim` gives it.
pub fn trim_chars(v: &Vec<char>) -> (r: String)
    ensures
        r@ == trim(v@),
{
    let e = trim_end_len(v);
    let b = trim_start_len(v, e);
    let mut r = String::new();
    for i in b..e
        invariant
            b <= e <= v@.len(),
            r@ == v@.subrange(b as int, i as int),
    {
        push_char(&mut r, v[i]);
        assert(v@.subrange(b as int, i + 1) == v@.subrange(b as int, i as int).push(v@[i as int]));
    }
    r
}

} // verus!
