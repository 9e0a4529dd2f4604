//! A small toolkit for counting the elements of a sequence that satisfy a
//! predicate.  The solver's contracts are stated in terms of such counts
//! (mines among a cell's neighbours, flags placed on a cluster, and so on),
//! and the lemmas here carry the counting arguments that the proofs need.

use vstd::prelude::*;

verus! {

/// How many elements of `s` satisfy `f`.
pub open spec fn count_matching<A>(s: Seq<A>, f: spec_fn(A) -> bool) -> int
    decreases s.len(),
{
    if s.len() == 0 {
        0
    } else {
        count_matching(s.drop_last(), f) + if f(s.last()) {
            1int
        } else {
            0int
        }
    }
}

pub proof fn lemma_count_bounds<A>(s: Seq<A>, f: spec_fn(A) -> bool)
    ensures
        0 <= count_matching(s, f) <= s.len(),
    decreases s.len(),
{
    if s.len() > 0 {
        lemma_count_bounds(s.drop_last(), f);
    }
}

/// Counting a one-longer prefix adds the contribution of the new element.
pub proof fn lemma_count_take_step<A>(s: Seq<A>, f: spec_fn(A) -> bool, i: int)
    requires
        0 <= i < s.len(),
    ensures
        count_matching(s.take(i + 1), f) == count_matching(s.take(i), f) + if f(s[i]) {
            1int
        } else {
            0int
        },
{
    assert(s.take(i + 1).drop_last() =~= s.take(i));
    assert(s.take(i + 1).last() == s[i]);
}

pub proof fn lemma_count_take_all<A>(s: Seq<A>, f: spec_fn(A) -> bool)
    ensures
        count_matching(s.take(s.len() as int), f) == count_matching(s, f),
{
    assert(s.take(s.len() as int) =~= s);
}

pub proof fn lemma_count_zero<A>(s: Seq<A>, f: spec_fn(A) -> bool)
    ensures
        count_matching(s, f) == 0 <==> (forall|i: int| 0 <= i < s.len() ==> !f(s[i])),
    decreases s.len(),
{
    if s.len() > 0 {
        lemma_count_zero(s.drop_last(), f);
        lemma_count_bounds(s.drop_last(), f);
        assert(s.last() == s[s.len() - 1]);
        assert(forall|i: int| 0 <= i < s.len() - 1 ==> s.drop_last()[i] == s[i]);
    }
}
/// Predicates that agree on every element of `s` count the same.
pub proof fn lemma_count_pointwise<A>(s: Seq<A>, f: spec_fn(A) -> bool, g: spec_fn(A) -> bool)
    requires
        forall|i: int| 0 <= i < s.len() ==> (f(s[i]) <==> g(s[i])),
    ensures
        count_matching(s, f) == count_matching(s, g),
    decreases s.len(),
{
    if s.len() > 0 {
        assert(forall|i: int| 0 <= i < s.len() - 1 ==> s.drop_last()[i] == s[i]);
        lemma_count_pointwise(s.drop_last(), f, g);
        assert(s.last() == s[s.len() - 1]);
    }
}

pub proof fn lemma_count_mono<A>(s: Seq<A>, f: spec_fn(A) -> bool, g: spec_fn(A) -> bool)
    requires
        forall|i: int| 0 <= i < s.len() ==> (f(s[i]) ==> g(s[i])),
    ensures
        count_matching(s, f) <= count_matching(s, g),
    decreases s.len(),
{
    if s.len() > 0 {
        assert(forall|i: int| 0 <= i < s.len() - 1 ==> s.drop_last()[i] == s[i]);
        lemma_count_mono(s.drop_last(), f, g);
        assert(s.last() == s[s.len() - 1]);
    }
}

/// A count splits across a disjoint case distinction.
pub proof fn lemma_count_split<A>(
    s: Seq<A>,
    h: spec_fn(A) -> bool,
    f: spec_fn(A) -> bool,
    g: spec_fn(A) -> bool,
)
    requires
        forall|i: int| 0 <= i < s.len() ==> (h(s[i]) <==> (f(s[i]) || g(s[i]))),
        forall|i: int| 0 <= i < s.len() ==> !(f(s[i]) && g(s[i])),
    ensures
        count_matching(s, h) == count_matching(s, f) + count_matching(s, g),
    decreases s.len(),
{
    if s.len() > 0 {
        assert(forall|i: int| 0 <= i < s.len() - 1 ==> s.drop_last()[i] == s[i]);
        lemma_count_split(s.drop_last(), h, f, g);
        assert(s.last() == s[s.len() - 1]);
    }
}
/// Removing one matching element of a duplicate-free sequence from the
/// predicate (`g` agrees with `f` everywhere except at `x`) lowers the
/// count by exactly one.
pub proof fn lemma_count_remove_one<A>(s: Seq<A>, f: spec_fn(A) -> bool, x: A, g: spec_fn(A) -> bool)
    requires
        s.no_duplicates(),
        s.contains(x),
        f(x),
        forall|a: A| #[trigger] g(a) <==> (f(a) && a != x),
    ensures
        count_matching(s, f) == 1 + count_matching(s, g),
    decreases s.len(),
{
    assert(forall|i: int| 0 <= i < s.len() - 1 ==> s.drop_last()[i] == s[i]);
    if s.last() == x {
        assert(!s.drop_last().contains(x));
        assert(forall|i: int|
            0 <= i < s.drop_last().len() ==> (f(s.drop_last()[i]) <==> g(s.drop_last()[i])));
        lemma_count_pointwise(s.drop_last(), f, g);
        assert(!g(s.last()));
    } else {
        assert(s.drop_last().contains(x)) by {
            let i = choose|i: int| 0 <= i < s.len() && s[i] == x;
            assert(s.drop_last()[i] == x);
        }
        lemma_count_remove_one(s.drop_last(), f, x, g);
    }
}

/// Two duplicate-free sequences whose matching elements form the same set
/// have the same count.
pub proof fn lemma_count_equal_sets<A>(
    a: Seq<A>,
    fa: spec_fn(A) -> bool,
    b: Seq<A>,
    fb: spec_fn(A) -> bool,
)
    requires
        a.no_duplicates(),
        b.no_duplicates(),
        forall|x: A| (a.contains(x) && fa(x)) <==> (b.contains(x) && fb(x)),
    ensures
        count_matching(a, fa) == count_matching(b, fb),
    decreases a.len(),
{
    if a.len() == 0 {
        lemma_count_zero(b, fb);
        if count_matching(b, fb) != 0 {
            let i = choose|i: int| 0 <= i < b.len() && fb(b[i]);
            assert(b.contains(b[i]));
            assert(a.contains(b[i]));
        }
        assert(count_matching(b, fb) == 0);
    } else {
        let last = a.last();
        let a1 = a.drop_last();
        assert(forall|i: int| 0 <= i < a.len() - 1 ==> a1[i] == a[i]);
        assert(!a1.contains(last));
        let fa1 = |x: A| fa(x) && x != last;
        let fb1 = |x: A| fb(x) && x != last;
        assert(forall|x: A| (a1.contains(x) && fa1(x)) <==> (b.contains(x) && fb1(x))) by {
            assert(forall|x: A| a1.contains(x) ==> a.contains(x));
            assert(forall|x: A| #[trigger] a.contains(x) && x != last ==> a1.contains(x)) by {
                assert forall|x: A| a.contains(x) && x != last implies a1.contains(x) by {
                    let i = choose|i: int| 0 <= i < a.len() && a[i] == x;
                    assert(a1[i] == x);
                }
            }
        }
        lemma_count_equal_sets(a1, fa1, b, fb1);
        lemma_count_pointwise(a1, fa, fa1);
        if fa(last) {
            assert(a.contains(last));
            assert(b.contains(last) && fb(last));
            assert(forall|x: A| #[trigger] fb1(x) <==> (fb(x) && x != last));
            lemma_count_remove_one(b, fb, last, fb1);
        } else {
            if b.contains(last) && fb(last) {
                assert(a.contains(last) && fa(last));
            }
            lemma_count_pointwise(b, fb, fb1);
        }
    }
}

/// What a one-longer prefix contains: everything the shorter prefix does,
/// plus the element at `i`.
pub proof fn lemma_take_step_contains<A>(s: Seq<A>, i: int)
    requires
        0 <= i < s.len(),
    ensures
        forall|x: A|
            #[trigger] s.take(i + 1).contains(x) <==> (s.take(i).contains(x) || x == s[i]),
{
    assert forall|x: A| #[trigger] s.take(i + 1).contains(x) implies (s.take(i).contains(x) || x
        == s[i]) by {
        let k = choose|k: int| 0 <= k < i + 1 && #[trigger] s.take(i + 1)[k] == x;
        if k < i {
            assert(s.take(i)[k] == x);
        }
    }
    assert forall|x: A| s.take(i).contains(x) || x == s[i] implies #[trigger] s.take(
        i + 1,
    ).contains(x) by {
        if s.take(i).contains(x) {
            let k = choose|k: int| 0 <= k < i && #[trigger] s.take(i)[k] == x;
            assert(s.take(i + 1)[k] == x);
        } else {
            assert(s.take(i + 1)[i] == x);
        }
    }
}

/// In a duplicate-free sequence the element at `i` does not occur earlier.
pub proof fn lemma_take_not_contains_current<A>(s: Seq<A>, i: int)
    requires
        s.no_duplicates(),
        0 <= i < s.len(),
    ensures
        !s.take(i).contains(s[i]),
{
    if s.take(i).contains(s[i]) {
        let k = choose|k: int| 0 <= k < i && #[trigger] s.take(i)[k] == s[i];
        assert(s[k] == s[i]);
    }
}

/// What a sequence contains after a push: everything it did, plus the new
/// element.
pub proof fn lemma_push_contains<A>(s: Seq<A>, x: A)
    ensures
        forall|z: A| #[trigger] s.push(x).contains(z) <==> (s.contains(z) || z == x),
{
    assert forall|z: A| #[trigger] s.push(x).contains(z) implies (s.contains(z) || z == x) by {
        let k = choose|k: int| 0 <= k < s.push(x).len() && #[trigger] s.push(x)[k] == z;
        if k < s.len() {
            assert(s[k] == z);
        }
    }
    assert forall|z: A| s.contains(z) || z == x implies #[trigger] s.push(x).contains(z) by {
        if s.contains(z) {
            let k = choose|k: int| 0 <= k < s.len() && #[trigger] s[k] == z;
            assert(s.push(x)[k] == z);
        } else {
            assert(s.push(x)[s.len() as int] == z);
        }
    }
}

/// Pushing a fresh element keeps a sequence duplicate-free.
pub proof fn lemma_push_no_dup<A>(s: Seq<A>, x: A)
    requires
        s.no_duplicates(),
        !s.contains(x),
    ensures
        s.push(x).no_duplicates(),
{
    let t = s.push(x);
    assert forall|i: int, j: int|
        0 <= i < t.len() && 0 <= j < t.len() && i != j implies t[i] != t[j] by {
        if i < s.len() && j < s.len() {
            assert(s[i] != s[j]);
        } else if i < s.len() {
            assert(t[j] == x);
            assert(t[i] == s[i]);
        } else {
            assert(t[i] == x);
            assert(t[j] == s[j]);
        }
    }
}

/// Counting over a sequence of `true`/`false` values.
pub open spec fn count_true(s: Seq<bool>) -> int {
    count_matching(s, |b: bool| b)
}
/// Setting a `false` entry to `true` raises the count by one.
pub proof fn lemma_count_true_update(s: Seq<bool>, j: int)
    requires
        0 <= j < s.len(),
        !s[j],
    ensures
        count_true(s.update(j, true)) == count_true(s) + 1,
    decreases s.len(),
{
    let f = |b: bool| b;
    let t = s.update(j, true);
    if j == s.len() - 1 {
        assert(t.drop_last() =~= s.drop_last());
        assert(t.last());
        assert(!s.last());
    } else {
        assert(t.drop_last() =~= s.drop_last().update(j, true));
        assert(t.last() == s.last());
        lemma_count_true_update(s.drop_last(), j);
    }
}

/// Clearing a `true` entry lowers the count by one.
pub proof fn lemma_count_true_set_false(s: Seq<bool>, j: int)
    requires
        0 <= j < s.len(),
        s[j],
    ensures
        count_true(s.update(j, false)) == count_true(s) - 1,
    decreases s.len(),
{
    let t = s.update(j, false);
    if j == s.len() - 1 {
        assert(t.drop_last() =~= s.drop_last());
        assert(!t.last());
        assert(s.last());
    } else {
        assert(t.drop_last() =~= s.drop_last().update(j, false));
        assert(t.last() == s.last());
        lemma_count_true_set_false(s.drop_last(), j);
    }
}

} // verus!
