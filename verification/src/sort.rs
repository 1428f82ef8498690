//! A stable insertion sort over a caller-chosen strict order.

use vstd::prelude::*;

verus! {

/// A sort order.  `before` says that `self` must come strictly ahead of
/// `other`; elements neither of which is `before` the other keep their
/// original relative order when sorted.
pub trait Ranked: Sized {
    spec fn before(self, other: Self) -> bool;

    fn before_exec(&self, other: &Self) -> (b: bool)
        ensures
            b == self.before(*other),
    ;
}

/// Inserts `x` ahead of the first element that `x` must precede,
/// keeping it behind every earlier element it ranks equal with.
pub open spec fn spec_insert<T: Ranked>(x: T, s: Seq<T>) -> Seq<T>
    decreases s.len(),
{
    if s.len() == 0 {
        seq![x]
    } else if x.before(s[0]) {
        seq![x] + s
    } else {
        seq![s[0]] + spec_insert(x, s.drop_first())
    }
}

/// Stable insertion sort: elements are inserted left to right.
pub open spec fn spec_sort<T: Ranked>(s: Seq<T>) -> Seq<T>
    decreases s.len(),
{
    if s.len() == 0 {
        s
    } else {
        spec_insert(s.last(), spec_sort(s.drop_last()))
    }
}

/// No later element must come ahead of an earlier one.
pub open spec fn sorted<T: Ranked>(s: Seq<T>) -> bool {
    forall|a: int, b: int| 0 <= a < b < s.len() ==> !(#[trigger] s[b]).before(#[trigger] s[a])
}

/// `spec_insert` puts `x` at the first position whose element `x` precedes.
pub proof fn lemma_insert_at<T: Ranked>(x: T, s: Seq<T>, p: int)
    requires
        0 <= p <= s.len(),
        forall|j: int| 0 <= j < p ==> !x.before(#[trigger] s[j]),
        p < s.len() ==> x.before(s[p]),
    ensures
        spec_insert(x, s) == s.take(p) + seq![x] + s.skip(p),
    decreases s.len(),
{
    if s.len() == 0 {
        assert(spec_insert(x, s) =~= s.take(p) + seq![x] + s.skip(p));
    } else if x.before(s[0]) {
        assert(spec_insert(x, s) =~= s.take(p) + seq![x] + s.skip(p));
    } else {
        assert forall|j: int| 0 <= j < p - 1 implies !x.before(#[trigger] s.drop_first()[j]) by {
            assert(s.drop_first()[j] == s[j + 1]);
        }
        if p - 1 < s.drop_first().len() {
            assert(s.drop_first()[p - 1] == s[p]);
        }
        lemma_insert_at(x, s.drop_first(), p - 1);
        assert(spec_insert(x, s) =~= s.take(p) + seq![x] + s.skip(p));
    }
}

pub proof fn lemma_insert_len<T: Ranked>(x: T, s: Seq<T>)
    ensures
        spec_insert(x, s).len() == s.len() + 1,
    decreases s.len(),
{
    if s.len() == 0 {
    } else if x.before(s[0]) {
    } else {
        lemma_insert_len(x, s.drop_first());
    }
}

pub proof fn lemma_sort_len<T: Ranked>(s: Seq<T>)
    ensures
        spec_sort(s).len() == s.len(),
    decreases s.len(),
{
    if s.len() > 0 {
        lemma_sort_len(s.drop_last());
        lemma_insert_len(s.last(), spec_sort(s.drop_last()));
    }
}

/// The elements after insertion are `x` and the elements of `s`.
pub proof fn lemma_insert_contains<T: Ranked>(x: T, s: Seq<T>, y: T)
    ensures
        spec_insert(x, s).contains(y) <==> (y == x || s.contains(y)),
    decreases s.len(),
{
    if s.len() == 0 {
        assert(spec_insert(x, s)[0] == x);
    } else if x.before(s[0]) {
        assert forall|i: int| 0 <= i < s.len() implies (seq![x] + s)[i + 1] == s[i] by {}
        if (seq![x] + s).contains(y) {
            let i = choose|i: int| 0 <= i < (seq![x] + s).len() && (seq![x] + s)[i] == y;
            if i > 0 {
                assert(s[i - 1] == y);
            }
        }
        if s.contains(y) {
            let i = choose|i: int| 0 <= i < s.len() && s[i] == y;
            assert((seq![x] + s)[i + 1] == y);
        }
        if y == x {
            assert((seq![x] + s)[0] == y);
        }
    } else {
        lemma_insert_contains(x, s.drop_first(), y);
        let t = seq![s[0]] + spec_insert(x, s.drop_first());
        assert(spec_insert(x, s) == t);
        if t.contains(y) {
            let i = choose|i: int| 0 <= i < t.len() && t[i] == y;
            if i == 0 {
                assert(s[0] == y);
                assert(s.contains(y));
            } else {
                assert(spec_insert(x, s.drop_first())[i - 1] == y);
                assert(spec_insert(x, s.drop_first()).contains(y));
                if y != x {
                    let j = choose|j: int|
                        0 <= j < s.drop_first().len() && s.drop_first()[j] == y;
                    assert(s[j + 1] == y);
                    assert(s.contains(y));
                }
            }
        }
        if y == x {
            let j = choose|j: int|
                0 <= j < spec_insert(x, s.drop_first()).len() && spec_insert(
                    x,
                    s.drop_first(),
                )[j] == y;
            assert(t[j + 1] == y);
            assert(t.contains(y));
        }
        if s.contains(y) {
            let i = choose|i: int| 0 <= i < s.len() && s[i] == y;
            if i == 0 {
                assert(t[0] == y);
            } else {
                assert(s.drop_first()[i - 1] == y);
                assert(s.drop_first().contains(y));
                let j = choose|j: int|
                    0 <= j < spec_insert(x, s.drop_first()).len() && spec_insert(
                        x,
                        s.drop_first(),
                    )[j] == y;
                assert(t[j + 1] == y);
            }
            assert(t.contains(y));
        }
    }
}

/// Sorting neither adds nor removes element values.
pub proof fn lemma_sort_contains<T: Ranked>(s: Seq<T>, y: T)
    ensures
        spec_sort(s).contains(y) <==> s.contains(y),
    decreases s.len(),
{
    if s.len() == 0 {
    } else {
        lemma_sort_contains(s.drop_last(), y);
        lemma_insert_contains(s.last(), spec_sort(s.drop_last()), y);
        if y == s.last() {
            assert(s[s.len() - 1] == y);
            assert(s.contains(y));
        }
        if s.drop_last().contains(y) {
            let i = choose|i: int| 0 <= i < s.drop_last().len() && s.drop_last()[i] == y;
            assert(s[i] == y);
            assert(s.contains(y));
        }
        if s.contains(y) {
            let i = choose|i: int| 0 <= i < s.len() && s[i] == y;
            if i < s.len() - 1 {
                assert(s.drop_last()[i] == y);
                assert(s.drop_last().contains(y));
            }
        }
    }
}

/// The order law the element type must obey for sorting to sort: what
/// ranks no higher than `b` ranks no higher than anything ahead of `b`.
pub open spec fn order_consistent<T: Ranked>() -> bool {
    &&& forall|a: T| !(#[trigger] a.before(a))
    &&& forall|a: T, b: T, c: T|
        #[trigger] a.before(b) && !(#[trigger] c.before(b)) ==> !c.before(a)
}

pub proof fn lemma_insert_sorted<T: Ranked>(x: T, s: Seq<T>)
    requires
        sorted(s),
        order_consistent::<T>(),
    ensures
        sorted(spec_insert(x, s)),
    decreases s.len(),
{
    if s.len() == 0 {
    } else if x.before(s[0]) {
        let t = seq![x] + s;
        assert forall|a: int, b: int| 0 <= a < b < t.len() implies !(#[trigger] t[b]).before(
            #[trigger] t[a],
        ) by {
            if a == 0 {
                assert(t[0] == x);
                if b == 1 {
                    assert(t[b] == s[0]);
                    assert(!s[0].before(s[0]));
                } else {
                    assert(t[b] == s[b - 1]);
                    assert(!s[b - 1].before(s[0]));
                }
            } else {
                assert(t[a] == s[a - 1]);
                assert(t[b] == s[b - 1]);
            }
        }
    } else {
        lemma_insert_sorted(x, s.drop_first());
        let r = spec_insert(x, s.drop_first());
        let t = seq![s[0]] + r;
        assert(spec_insert(x, s) == t);
        lemma_insert_len(x, s.drop_first());
        assert forall|a: int, b: int| 0 <= a < b < t.len() implies !(#[trigger] t[b]).before(
            #[trigger] t[a],
        ) by {
            if a == 0 {
                assert(t[b] == r[b - 1]);
                lemma_insert_contains(x, s.drop_first(), r[b - 1]);
                if r[b - 1] == x {
                    assert(!x.before(s[0]));
                } else {
                    let i = choose|i: int|
                        0 <= i < s.drop_first().len() && s.drop_first()[i] == r[b - 1];
                    assert(s[i + 1] == r[b - 1]);
                    assert(!s[i + 1].before(s[0]));
                }
            } else {
                assert(t[a] == r[a - 1]);
                assert(t[b] == r[b - 1]);
            }
        }
    }
}

/// `spec_sort` sorts, for any order obeying `order_consistent`.
pub proof fn lemma_sort_sorted<T: Ranked>(s: Seq<T>)
    requires
        order_consistent::<T>(),
    ensures
        sorted(spec_sort(s)),
    decreases s.len(),
{
    if s.len() > 0 {
        lemma_sort_sorted(s.drop_last());
        lemma_insert_sorted(s.last(), spec_sort(s.drop_last()));
    }
}

/// Inserts `x` into `out` ahead of the first element that `x` must
/// precede.
fn insert_ranked<T: Ranked>(out: &mut Vec<T>, x: T)
    ensures
        final(out)@ == spec_insert(x, old(out)@),
{
    let n = out.len();
    let mut p: usize = 0;
    while p < n && !x.before_exec(&out[p])
        invariant
            0 <= p <= n,
            n == out@.len(),
            out@ == old(out)@,
            forall|j: int| 0 <= j < p ==> !x.before(#[trigger] out@[j]),
        decreases n - p,
    {
        p = p + 1;
    }
    proof {
        lemma_insert_at(x, out@, p as int);
    }
    out.insert(p, x);
    proof {
        assert(out@ =~= old(out)@.take(p as int) + seq![x] + old(out)@.skip(p as int));
    }
}

/// Sorts `v` by the element type's order, stably: the result is exactly
/// the left-to-right insertion of the elements of `v`.
pub fn sort_ranked<T: Ranked>(v: Vec<T>) -> (out: Vec<T>)
    ensures
        out@ == spec_sort(v@),
{
    let ghost orig = v@;
    let mut v = v;
    let mut out: Vec<T> = Vec::new();
    proof {
        assert(orig.take(0) =~= Seq::<T>::empty());
        assert(orig.skip(0) =~= orig);
    }
    while v.len() > 0
        invariant
            v@.len() <= orig.len(),
            v@ == orig.skip(orig.len() - v@.len()),
            out@ == spec_sort(orig.take(orig.len() - v@.len())),
        decreases v@.len(),
    {
        let ghost k = orig.len() - v@.len();
        let x = v.remove(0);
        proof {
            assert(x == orig[k]);
            assert(v@ =~= orig.skip(k + 1));
        }
        insert_ranked(&mut out, x);
        proof {
            assert(orig.take(k + 1).drop_last() =~= orig.take(k));
            assert(orig.take(k + 1).last() == orig[k]);
        }
    }
    proof {
        assert(orig.take(orig.len() as int) =~= orig);
    }
    out
}

} // verus!
