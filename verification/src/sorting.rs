use vstd::prelude::*;

verus! {

// A stable sort by a strict weak order, as a mathematical function, and its laws.

/// `lt` is a strict weak order: no element comes before itself, coming before
/// is transitive, and so is being unordered (neither comes before the other).
pub open spec fn strict_weak_order<A>(lt: spec_fn(A, A) -> bool) -> bool {
    &&& forall|a: A| !#[trigger] lt(a, a)
    &&& forall|a: A, b: A, c: A| #[trigger] lt(a, b) && #[trigger] lt(b, c) ==> lt(a, c)
    &&& forall|a: A, b: A, c: A|
        #![trigger lt(a, b), lt(b, c)]
        !lt(a, b) && !lt(b, a) && !lt(b, c) && !lt(c, b) ==> !lt(a, c) && !lt(c, a)
}

/// The elements that `lt` leaves unordered with `k`.
pub open spec fn unordered_with<A>(lt: spec_fn(A, A) -> bool, k: A) -> spec_fn(A) -> bool {
    |n: A| !lt(n, k) && !lt(k, n)
}

/// No element is ordered before one that precedes it.
pub open spec fn sorted_by<A>(s: Seq<A>, lt: spec_fn(A, A) -> bool) -> bool {
    forall|i: int, j: int| 0 <= i < j < s.len() ==> !lt(#[trigger] s[j], #[trigger] s[i])
}

/// `x` put into `s` in front of the first element that it comes before.
pub open spec fn insert_by<A>(s: Seq<A>, x: A, lt: spec_fn(A, A) -> bool) -> Seq<A>
    decreases s.len(),
{
    if s.len() == 0 {
        seq![x]
    } else if lt(x, s[0]) {
        seq![x] + s
    } else {
        seq![s[0]] + insert_by(s.drop_first(), x, lt)
    }
}

/// The stable sort of `s` by `lt`: each element inserted, in turn, after every
/// element before it that it does not come before.
pub open spec fn sort_by_order<A>(s: Seq<A>, lt: spec_fn(A, A) -> bool) -> Seq<A>
    decreases s.len(),
{
    if s.len() == 0 {
        s
    } else {
        insert_by(sort_by_order(s.drop_last(), lt), s.last(), lt)
    }
}

/// The facts of a strict weak order on three elements.
pub proof fn lemma_strict_weak_order<A>(lt: spec_fn(A, A) -> bool, a: A, b: A, c: A)
    requires
        strict_weak_order(lt),
    ensures
        !lt(a, a),
        lt(a, b) ==> !lt(b, a),
        lt(a, b) && lt(b, c) ==> lt(a, c),
        !lt(a, b) && !lt(b, a) && lt(b, c) ==> lt(a, c),
        lt(a, b) && !lt(b, c) && !lt(c, b) ==> lt(a, c),
        !lt(a, b) && !lt(b, a) && !lt(b, c) && !lt(c, b) ==> !lt(a, c) && !lt(c, a),
{
    assert(!lt(a, a));
    if lt(a, b) && lt(b, a) {
        assert(lt(a, a));
    }
    if !lt(a, b) && !lt(b, a) && lt(b, c) && !lt(a, c) {
        if lt(c, a) {
            assert(lt(b, a));
        } else {
            assert(!lt(b, c));
        }
    }
    if lt(a, b) && !lt(b, c) && !lt(c, b) && !lt(a, c) {
        if lt(c, a) {
            assert(lt(c, b));
        } else {
            assert(!lt(a, b));
        }
    }
}

/// Inserting puts `x` in front of the first element it comes before.
pub proof fn lemma_insert_by_at<A>(s: Seq<A>, x: A, lt: spec_fn(A, A) -> bool, p: int)
    requires
        0 <= p <= s.len(),
        forall|j: int| 0 <= j < p ==> !lt(x, #[trigger] s[j]),
        p < s.len() ==> lt(x, s[p]),
    ensures
        insert_by(s, x, lt) == s.take(p).push(x) + s.skip(p),
    decreases p,
{
    if p == 0 {
        if s.len() > 0 {
            assert(insert_by(s, x, lt) == seq![x] + s);
        }
        assert(s.take(0).push(x) + s.skip(0) =~= seq![x] + s);
    } else {
        assert(!lt(x, s[0]));
        let t = s.drop_first();
        assert forall|j: int| 0 <= j < p - 1 implies !lt(x, #[trigger] t[j]) by {
            assert(t[j] == s[j + 1]);
        }
        lemma_insert_by_at(t, x, lt, p - 1);
        assert(seq![s[0]] + (t.take(p - 1).push(x) + t.skip(p - 1)) =~= s.take(p).push(x)
            + s.skip(p));
    }
}

/// Inserting adds exactly one copy of `x`.
pub proof fn lemma_insert_by_multiset<A>(s: Seq<A>, x: A, lt: spec_fn(A, A) -> bool)
    ensures
        insert_by(s, x, lt).to_multiset() =~= s.to_multiset().insert(x),
    decreases s.len(),
{
    broadcast use vstd::multiset::group_multiset_axioms;
    broadcast use vstd::seq_lib::to_multiset_insert;

    if s.len() == 0 {
        assert(seq![x] =~= s.insert(0, x));
    } else if lt(x, s[0]) {
        assert(seq![x] + s =~= s.insert(0, x));
    } else {
        let t = s.drop_first();
        lemma_insert_by_multiset(t, x, lt);
        let it = insert_by(t, x, lt);
        assert(seq![s[0]] + it =~= it.insert(0, s[0]));
        assert(s =~= t.insert(0, s[0]));
    }
}

/// The tail of a sorted sequence is sorted.
proof fn lemma_sorted_drop_first<A>(s: Seq<A>, lt: spec_fn(A, A) -> bool)
    requires
        sorted_by(s, lt),
        s.len() > 0,
    ensures
        sorted_by(s.drop_first(), lt),
{
    let t = s.drop_first();
    assert forall|i: int, j: int| 0 <= i < j < t.len() implies !lt(#[trigger] t[j], #[trigger] t[i]) by {
        assert(t[j] == s[j + 1] && t[i] == s[i + 1]);
    }
}

/// Inserting into a sorted sequence keeps it sorted.
pub proof fn lemma_insert_by_sorted<A>(s: Seq<A>, x: A, lt: spec_fn(A, A) -> bool)
    requires
        strict_weak_order(lt),
        sorted_by(s, lt),
    ensures
        sorted_by(insert_by(s, x, lt), lt),
    decreases s.len(),
{
    broadcast use vstd::multiset::group_multiset_axioms;
    broadcast use vstd::seq_lib::to_multiset_contains;

    if s.len() == 0 {
    } else if lt(x, s[0]) {
        let r = seq![x] + s;
        assert forall|i: int, j: int| 0 <= i < j < r.len() implies !lt(
            #[trigger] r[j],
            #[trigger] r[i],
        ) by {
            if i == 0 {
                lemma_strict_weak_order(lt, r[j], x, s[0]);
                lemma_strict_weak_order(lt, x, s[0], x);
                if j > 1 {
                    assert(!lt(s[j - 1], s[0]));
                }
            } else {
                assert(r[i] == s[i - 1] && r[j] == s[j - 1]);
            }
        }
    } else {
        let t = s.drop_first();
        lemma_sorted_drop_first(s, lt);
        lemma_insert_by_sorted(t, x, lt);
        lemma_insert_by_multiset(t, x, lt);
        let it = insert_by(t, x, lt);
        let r = seq![s[0]] + it;
        assert forall|i: int, j: int| 0 <= i < j < r.len() implies !lt(
            #[trigger] r[j],
            #[trigger] r[i],
        ) by {
            if i == 0 {
                let e = it[j - 1];
                assert(it.contains(e));
                assert(it.to_multiset().count(e) > 0);
                if e != x {
                    assert(t.to_multiset().count(e) > 0);
                    assert(t.contains(e));
                    let k = choose|k: int| 0 <= k < t.len() && t[k] == e;
                    assert(s[k + 1] == e);
                }
            } else {
                assert(r[i] == it[i - 1] && r[j] == it[j - 1]);
            }
        }
    }
}

/// What inserting does to the elements unordered with `k`: `x` joins them
/// last when it is one of them.
pub proof fn lemma_insert_by_filter<A>(s: Seq<A>, x: A, lt: spec_fn(A, A) -> bool, k: A)
    requires
        strict_weak_order(lt),
        sorted_by(s, lt),
    ensures
        insert_by(s, x, lt).filter(unordered_with(lt, k)) == (if unordered_with(lt, k)(x) {
            s.filter(unordered_with(lt, k)).push(x)
        } else {
            s.filter(unordered_with(lt, k))
        }),
    decreases s.len(),
{
    broadcast use vstd::seq_lib::group_seq_properties;

    let p = unordered_with(lt, k);
    if s.len() == 0 {
        assert(seq![x] =~= seq![x].drop_first().push(x));
        reveal_with_fuel(Seq::filter, 2);
        assert(Seq::<A>::empty().filter(p) =~= Seq::<A>::empty());
    } else if lt(x, s[0]) {
        s.lemma_filter_prepend(x, p);
        if p(x) {
            assert(s.filter(p) =~= Seq::<A>::empty()) by {
                assert forall|i: int| 0 <= i < s.len() implies !p(#[trigger] s[i]) by {
                    if p(s[i]) {
                        lemma_strict_weak_order(lt, s[i], k, x);
                        lemma_strict_weak_order(lt, s[i], x, s[0]);
                        lemma_strict_weak_order(lt, s[0], s[0], s[0]);
                        if i > 0 {
                            assert(!lt(s[i], s[0]));
                        }
                    }
                }
                s.lemma_all_neg_filter_empty(p);
            }
            assert(seq![x] + Seq::<A>::empty() =~= Seq::<A>::empty().push(x));
        } else {
            assert(Seq::<A>::empty() + s.filter(p) =~= s.filter(p));
        }
    } else {
        let t = s.drop_first();
        lemma_sorted_drop_first(s, lt);
        lemma_insert_by_filter(t, x, lt, k);
        insert_by(t, x, lt).lemma_filter_prepend(s[0], p);
        t.lemma_filter_prepend(s[0], p);
        assert(s =~= seq![s[0]] + t);
        let head = if p(s[0]) {
            seq![s[0]]
        } else {
            Seq::<A>::empty()
        };
        assert(head + t.filter(p).push(x) =~= (head + t.filter(p)).push(x));
    }
}

/// Sorting gives a sorted sequence.
pub proof fn lemma_sort_by_order_sorted<A>(s: Seq<A>, lt: spec_fn(A, A) -> bool)
    requires
        strict_weak_order(lt),
    ensures
        sorted_by(sort_by_order(s, lt), lt),
    decreases s.len(),
{
    if s.len() > 0 {
        lemma_sort_by_order_sorted(s.drop_last(), lt);
        lemma_insert_by_sorted(sort_by_order(s.drop_last(), lt), s.last(), lt);
    }
}

/// Sorting rearranges: it keeps each element as often as it was there.
pub proof fn lemma_sort_by_order_permutation<A>(s: Seq<A>, lt: spec_fn(A, A) -> bool)
    ensures
        sort_by_order(s, lt).to_multiset() =~= s.to_multiset(),
    decreases s.len(),
{
    broadcast use vstd::seq_lib::group_seq_properties;

    if s.len() > 0 {
        lemma_sort_by_order_permutation(s.drop_last(), lt);
        lemma_insert_by_multiset(sort_by_order(s.drop_last(), lt), s.last(), lt);
        assert(s =~= s.drop_last().push(s.last()));
    }
}

/// Sorting is stable: elements that are unordered with each other keep
/// their order.
pub proof fn lemma_sort_by_order_stable<A>(s: Seq<A>, lt: spec_fn(A, A) -> bool, k: A)
    requires
        strict_weak_order(lt),
    ensures
        sort_by_order(s, lt).filter(unordered_with(lt, k)) == s.filter(unordered_with(lt, k)),
    decreases s.len(),
{
    broadcast use vstd::seq_lib::group_seq_properties;

    if s.len() > 0 {
        let init = s.drop_last();
        lemma_sort_by_order_stable(init, lt, k);
        lemma_sort_by_order_sorted(init, lt);
        lemma_insert_by_filter(sort_by_order(init, lt), s.last(), lt, k);
        assert(s =~= init.push(s.last()));
        init.lemma_filter_push(s.last(), unordered_with(lt, k));
    }
}

/// Sorting a sorted sequence leaves it as it is.
pub proof fn lemma_sort_by_order_of_sorted<A>(s: Seq<A>, lt: spec_fn(A, A) -> bool)
    requires
        sorted_by(s, lt),
    ensures
        sort_by_order(s, lt) == s,
    decreases s.len(),
{
    if s.len() > 0 {
        let init = s.drop_last();
        assert(sorted_by(init, lt)) by {
            assert forall|i: int, j: int| 0 <= i < j < init.len() implies !lt(
                #[trigger] init[j],
                #[trigger] init[i],
            ) by {
                assert(init[j] == s[j] && init[i] == s[i]);
            }
        }
        lemma_sort_by_order_of_sorted(init, lt);
        assert forall|j: int| 0 <= j < init.len() implies !lt(s.last(), #[trigger] init[j]) by {
            assert(init[j] == s[j]);
        }
        lemma_insert_by_at(init, s.last(), lt, init.len() as int);
        assert(init.take(init.len() as int).push(s.last()) + init.skip(init.len() as int) =~= s);
    }
}


/// No two different elements of `s` are unordered with each other.
pub open spec fn ordered_when_different<A>(s: Seq<A>, lt: spec_fn(A, A) -> bool) -> bool {
    forall|a: A, b: A|
        s.contains(a) && s.contains(b) && !#[trigger] lt(a, b) && !#[trigger] lt(b, a) ==> a == b
}

/// Two sorted sequences with the same elements are equal when no two
/// different elements are unordered.
pub proof fn lemma_sorted_unique<A>(t1: Seq<A>, t2: Seq<A>, lt: spec_fn(A, A) -> bool)
    requires
        sorted_by(t1, lt),
        sorted_by(t2, lt),
        t1.to_multiset() == t2.to_multiset(),
        ordered_when_different(t1, lt),
    ensures
        t1 == t2,
    decreases t1.len(),
{
    broadcast use vstd::seq_lib::to_multiset_contains;
    broadcast use vstd::seq_lib::to_multiset_len;
    broadcast use vstd::seq_lib::to_multiset_remove;
    broadcast use vstd::multiset::group_multiset_axioms;

    assert(t1.to_multiset().len() == t1.len());
    assert(t2.to_multiset().len() == t2.len());
    if t1.len() == 0 {
        assert(t2.len() == 0);
        assert(t1 =~= t2);
    } else {
        assert(t2.len() == t1.len());
        let a = t1[0];
        let b = t2[0];
        assert(t1.contains(a));
        assert(t1.to_multiset().count(a) > 0);
        assert(t2.contains(a));
        let k = choose|k: int| 0 <= k < t2.len() && t2[k] == a;
        assert(t2.contains(b));
        assert(t2.to_multiset().count(b) > 0);
        assert(t1.contains(b));
        let m = choose|m: int| 0 <= m < t1.len() && t1[m] == b;
        if k > 0 {
            assert(!lt(t2[k], t2[0]));
        }
        if m > 0 {
            assert(!lt(t1[m], t1[0]));
        }
        assert(a == b);
        let r1 = t1.drop_first();
        let r2 = t2.drop_first();
        assert(r1 == t1.remove(0));
        assert(r2 == t2.remove(0));
        assert(r1.to_multiset() == t1.to_multiset().remove(a));
        assert(r2.to_multiset() == t2.to_multiset().remove(a));
        assert(sorted_by(r1, lt)) by {
            assert forall|i: int, j: int| 0 <= i < j < r1.len() implies !lt(
                #[trigger] r1[j],
                #[trigger] r1[i],
            ) by {
                assert(r1[j] == t1[j + 1] && r1[i] == t1[i + 1]);
            }
        }
        assert(sorted_by(r2, lt)) by {
            assert forall|i: int, j: int| 0 <= i < j < r2.len() implies !lt(
                #[trigger] r2[j],
                #[trigger] r2[i],
            ) by {
                assert(r2[j] == t2[j + 1] && r2[i] == t2[i + 1]);
            }
        }
        assert(ordered_when_different(r1, lt)) by {
            assert forall|x: A, y: A|
                r1.contains(x) && r1.contains(y) && !#[trigger] lt(x, y) && !#[trigger] lt(
                    y,
                    x,
                ) implies x == y by {
                let xi = choose|i: int| 0 <= i < r1.len() && r1[i] == x;
                let yi = choose|i: int| 0 <= i < r1.len() && r1[i] == y;
                assert(t1[xi + 1] == x && t1[yi + 1] == y);
                assert(t1.contains(x) && t1.contains(y));
            }
        }
        lemma_sorted_unique(r1, r2, lt);
        assert(t1 =~= seq![a] + r1);
        assert(t2 =~= seq![b] + r2);
    }
}

/// Sorting gives the same sequence for any arrangement of the same
/// elements, when no two different elements are unordered.
pub proof fn lemma_sort_by_order_deterministic<A>(s1: Seq<A>, s2: Seq<A>, lt: spec_fn(A, A) -> bool)
    requires
        strict_weak_order(lt),
        s1.to_multiset() == s2.to_multiset(),
        ordered_when_different(s1, lt),
    ensures
        sort_by_order(s1, lt) == sort_by_order(s2, lt),
{
    broadcast use vstd::seq_lib::to_multiset_contains;

    let t1 = sort_by_order(s1, lt);
    let t2 = sort_by_order(s2, lt);
    lemma_sort_by_order_sorted(s1, lt);
    lemma_sort_by_order_sorted(s2, lt);
    lemma_sort_by_order_permutation(s1, lt);
    lemma_sort_by_order_permutation(s2, lt);
    assert(ordered_when_different(t1, lt)) by {
        assert forall|x: A, y: A|
            t1.contains(x) && t1.contains(y) && !#[trigger] lt(x, y) && !#[trigger] lt(
                y,
                x,
            ) implies x == y by {
            assert(t1.to_multiset().count(x) > 0 && t1.to_multiset().count(y) > 0);
            assert(s1.contains(x) && s1.contains(y));
        }
    }
    lemma_sorted_unique(t1, t2, lt);
}


/// In a sorted sequence, once `x` comes before an element, it comes before
/// every later one.
pub proof fn lemma_sorted_before_later<A>(s: Seq<A>, lt: spec_fn(A, A) -> bool, x: A, j: int, k: int)
    requires
        strict_weak_order(lt),
        sorted_by(s, lt),
        0 <= j <= k < s.len(),
        lt(x, s[j]),
    ensures
        lt(x, s[k]),
{
    if j < k {
        assert(!lt(s[k], s[j]));
        lemma_strict_weak_order(lt, x, s[j], s[k]);
    }
}

} // verus!
