//! Stable sorting by a total preorder, and the order of text.

use vstd::prelude::*;

use crate::text;

verus! {

/// A type with a total preorder to sort by.
pub trait Ranked: Sized {
    /// Whether `self` may stand before `other`.
    spec fn le(&self, other: &Self) -> bool;

    /// Any two values can be ordered.
    proof fn le_total(a: &Self, b: &Self)
        ensures
            a.le(b) || b.le(a),
    ;

    /// The order is transitive.
    proof fn le_trans(a: &Self, b: &Self, c: &Self)
        requires
            a.le(b),
            b.le(c),
        ensures
            a.le(c),
    ;

    /// Whether `self` may stand before `other`.
    fn may_precede(&self, other: &Self) -> (r: bool)
        ensures
            r == self.le(other),
    ;
}

/// Whether two values rank alike.
pub open spec fn alike<T: Ranked>(a: T, b: T) -> bool {
    a.le(&b) && b.le(&a)
}

/// The predicate "ranks like `a`".
pub open spec fn like<T: Ranked>(a: T) -> spec_fn(T) -> bool {
    |b: T| alike(a, b)
}

/// Whether every value may stand before all that follow it.
pub open spec fn ascending<T: Ranked>(s: Seq<T>) -> bool {
    forall|i: int, j: int| 0 <= i < j < s.len() ==> (#[trigger] s[i]).le(#[trigger] &s[j])
}

/// Whether `r` holds what `s` holds in ascending order, with values that rank
/// alike in the order that they have in `s`.
pub open spec fn is_stable_sort<T: Ranked>(s: Seq<T>, r: Seq<T>) -> bool {
    &&& ascending(r)
    &&& forall|a: T| #[trigger] r.filter(like(a)) == s.filter(like(a))
}

/// The stable sort of `s`.
pub open spec fn sorted<T: Ranked>(s: Seq<T>) -> Seq<T> {
    choose|r: Seq<T>| is_stable_sort(s, r)
}

/// A single value is kept or dropped by a filter.
proof fn lemma_filter_one<T>(x: T, p: spec_fn(T) -> bool)
    ensures
        seq![x].filter(p) == (if p(x) {
            seq![x]
        } else {
            Seq::empty()
        }),
{
    reveal(Seq::filter);
    assert(seq![x].drop_last() =~= Seq::<T>::empty());
    assert(seq![x].drop_last().filter(p) =~= Seq::<T>::empty());
    assert(seq![x].filter(p) =~= (if p(x) {
        seq![x]
    } else {
        Seq::empty()
    }));
}

/// Every value of a sequence ranks like itself.
proof fn lemma_alike_self<T: Ranked>(a: T)
    ensures
        alike(a, a),
{
    T::le_total(&a, &a);
}

/// Putting `x` before what it may precede and after what ranks strictly lower
/// keeps a stable sort.
proof fn lemma_place<T: Ranked>(s: Seq<T>, r: Seq<T>, x: T, i: int)
    requires
        is_stable_sort(s, r),
        0 <= i <= r.len(),
        forall|j: int| 0 <= j < i ==> !x.le(#[trigger] &r[j]),
        i < r.len() ==> x.le(&r[i]),
    ensures
        is_stable_sort(seq![x] + s, r.insert(i, x)),
{
    let low = r.take(i);
    let high = r.skip(i);
    let out = r.insert(i, x);
    assert(out =~= low + seq![x] + high);
    assert(r =~= low + high);
    assert forall|a: int, b: int| 0 <= a < b < out.len() implies (#[trigger] out[a]).le(
        #[trigger] &out[b],
    ) by {
        if b < i {
            assert(r[a].le(&r[b]));
        } else if b == i {
            T::le_total(&x, &r[a]);
        } else if a < i {
            assert(r[a].le(&r[b - 1]));
        } else if a == i {
            if b - 1 > i {
                assert(r[i].le(&r[b - 1]));
                T::le_trans(&x, &r[i], &r[b - 1]);
            }
        } else {
            assert(r[a - 1].le(&r[b - 1]));
        }
    }
    assert forall|a: T| #[trigger] out.filter(like(a)) == (seq![x] + s).filter(like(a)) by {
        let p = like(a);
        Seq::filter_distributes_over_add(low + seq![x], high, p);
        Seq::filter_distributes_over_add(low, seq![x], p);
        Seq::filter_distributes_over_add(low, high, p);
        Seq::filter_distributes_over_add(seq![x], s, p);
        lemma_filter_one(x, p);
        assert(r.filter(p) == s.filter(p));
        if p(x) {
            assert forall|j: int| 0 <= j < low.len() implies !p(#[trigger] low[j]) by {
                assert(!x.le(&r[j]));
                if p(low[j]) {
                    T::le_trans(&x, &a, &low[j]);
                }
            }
            low.lemma_all_neg_filter_empty(p);
            assert(low.filter(p) =~= Seq::<T>::empty());
            assert(out.filter(p) =~= seq![x] + high.filter(p));
            assert(r.filter(p) =~= high.filter(p));
        } else {
            assert(out.filter(p) =~= low.filter(p) + high.filter(p));
            assert((seq![x] + s).filter(p) =~= s.filter(p));
        }
    }
}

/// How many values of an ascending sequence stand before `x` when it is placed:
/// those that `x` may not precede, up to the first that it may.
spec fn place_of<T: Ranked>(r: Seq<T>, x: T) -> nat
    decreases r.len(),
{
    if r.len() == 0 || x.le(&r[0]) {
        0
    } else {
        1 + place_of(r.skip(1), x)
    }
}

/// The place lies where [`lemma_place`] wants it.
proof fn lemma_place_of<T: Ranked>(r: Seq<T>, x: T)
    ensures
        place_of(r, x) <= r.len(),
        forall|j: int| 0 <= j < place_of(r, x) ==> !x.le(#[trigger] &r[j]),
        place_of(r, x) < r.len() ==> x.le(&r[place_of(r, x) as int]),
    decreases r.len(),
{
    if r.len() > 0 && !x.le(&r[0]) {
        let rest = r.skip(1);
        lemma_place_of(rest, x);
        assert forall|j: int| 0 <= j < place_of(r, x) implies !x.le(#[trigger] &r[j]) by {
            if j > 0 {
                assert(rest[j - 1] == r[j]);
            }
        }
    }
}

/// Every sequence has a stable sort, and [`sorted`] is one.
pub proof fn law_sorted_is_a_stable_sort<T: Ranked>(s: Seq<T>)
    ensures
        is_stable_sort(s, sorted(s)),
    decreases s.len(),
{
    if s.len() == 0 {
        assert(is_stable_sort(s, s));
    } else {
        let x = s[0];
        let rest = s.skip(1);
        law_sorted_is_a_stable_sort(rest);
        let r = sorted(rest);
        let i = place_of(r, x) as int;
        lemma_place_of(r, x);
        lemma_place(rest, r, x, i);
        assert(seq![x] + rest =~= s);
        assert(is_stable_sort(s, r.insert(i, x)));
    }
}

/// Sort, keeping the order of values that rank alike.
pub fn stable_sort<T: Ranked>(items: Vec<T>) -> (r: Vec<T>)
    ensures
        r@ == sorted(items@),
        is_stable_sort(items@, r@),
{
    let ghost all = items@;
    let mut rest = items;
    let mut out: Vec<T> = Vec::new();
    proof {
        assert(all.skip(all.len() as int) =~= Seq::<T>::empty());
        assert(is_stable_sort(all.skip(all.len() as int), out@));
    }
    loop
        invariant
            all == items@,
            rest.len() <= all.len(),
            rest@ == all.take(rest.len() as int),
            is_stable_sort(all.skip(rest.len() as int), out@),
        decreases rest.len(),
    {
        let ghost n = rest.len() as int;
        match rest.pop() {
            None => {
                proof {
                    assert(all.skip(0) =~= all);
                    law_stable_sort_is_unique(all, out@, sorted(all));
                }
                return out;
            },
            Some(x) => {
                let mut i: usize = 0;
                while i < out.len() && !x.may_precede(&out[i])
                    invariant
                        i <= out.len(),
                        forall|j: int| 0 <= j < i ==> !x.le(#[trigger] &out[j]),
                    decreases out.len() - i,
                {
                    i += 1;
                }
                proof {
                    assert(rest@ =~= all.take(n - 1));
                    assert(x == all[n - 1]);
                    assert(seq![x] + all.skip(n) =~= all.skip(n - 1));
                    lemma_place(all.skip(n), out@, x, i as int);
                }
                out.insert(i, x);
            },
        }
    }
}

/// What a class of a sequence starts with, if the sequence starts with it.
proof fn lemma_class_head<T: Ranked>(s: Seq<T>)
    requires
        s.len() > 0,
    ensures
        s.filter(like(s[0])).len() > 0,
        s.filter(like(s[0]))[0] == s[0],
{
    let p = like(s[0]);
    lemma_alike_self(s[0]);
    assert(s =~= seq![s[0]] + s.skip(1));
    Seq::filter_distributes_over_add(seq![s[0]], s.skip(1), p);
    lemma_filter_one(s[0], p);
}

/// Two ascending sequences with the same classes are the same sequence.
proof fn lemma_ascending_unique<T: Ranked>(r1: Seq<T>, r2: Seq<T>)
    requires
        ascending(r1),
        ascending(r2),
        forall|a: T| #[trigger] r1.filter(like(a)) == r2.filter(like(a)),
    ensures
        r1 == r2,
    decreases r1.len(),
{
    if r1.len() == 0 {
        if r2.len() > 0 {
            lemma_class_head(r2);
            assert(r1.filter(like(r2[0])) == r2.filter(like(r2[0])));
            r1.lemma_filter_len(like(r2[0]));
        }
        assert(r1 =~= r2);
    } else {
        let x = r1[0];
        lemma_class_head(r1);
        assert(r1.filter(like(x)) == r2.filter(like(x)));
        assert(r2.filter(like(x)).contains(x)) by {
            assert(r2.filter(like(x))[0] == x);
        }
        r2.lemma_filter_contains_rev(like(x), x);
        let k = choose|k: int| 0 <= k < r2.len() && r2[k] == x;
        let y = r2[0];
        lemma_class_head(r2);
        assert(r1.filter(like(y)) == r2.filter(like(y)));
        assert(r1.filter(like(y)).contains(y)) by {
            assert(r1.filter(like(y))[0] == y);
        }
        r1.lemma_filter_contains_rev(like(y), y);
        let m = choose|m: int| 0 <= m < r1.len() && r1[m] == y;
        lemma_alike_self(x);
        assert(y.le(&x)) by {
            if k > 0 {
                assert(r2[0].le(&r2[k]));
            }
        }
        assert(x.le(&y)) by {
            if m > 0 {
                assert(r1[0].le(&r1[m]));
            }
        }
        assert(like(x) =~= like(y)) by {
            assert forall|z: T| #[trigger] like(x)(z) == like(y)(z) by {
                if alike(x, z) {
                    T::le_trans(&y, &x, &z);
                    T::le_trans(&z, &x, &y);
                }
                if alike(y, z) {
                    T::le_trans(&x, &y, &z);
                    T::le_trans(&z, &y, &x);
                }
            }
        }
        assert(x == y);
        let t1 = r1.skip(1);
        let t2 = r2.skip(1);
        assert(r1 =~= seq![x] + t1);
        assert(r2 =~= seq![x] + t2);
        assert(ascending(t1)) by {
            assert forall|i: int, j: int| 0 <= i < j < t1.len() implies (#[trigger] t1[i]).le(
                #[trigger] &t1[j],
            ) by {
                assert(r1[i + 1].le(&r1[j + 1]));
            }
        }
        assert(ascending(t2)) by {
            assert forall|i: int, j: int| 0 <= i < j < t2.len() implies (#[trigger] t2[i]).le(
                #[trigger] &t2[j],
            ) by {
                assert(r2[i + 1].le(&r2[j + 1]));
            }
        }
        assert forall|a: T| #[trigger] t1.filter(like(a)) == t2.filter(like(a)) by {
            let p = like(a);
            assert(r1.filter(p) == r2.filter(p));
            Seq::filter_distributes_over_add(seq![x], t1, p);
            Seq::filter_distributes_over_add(seq![x], t2, p);
            lemma_filter_one(x, p);
            let one = seq![x].filter(p);
            assert((one + t1.filter(p)).skip(one.len() as int) =~= t1.filter(p));
            assert((one + t2.filter(p)).skip(one.len() as int) =~= t2.filter(p));
        }
        lemma_ascending_unique(t1, t2);
    }
}

/// A sequence has exactly one stable sort.
pub proof fn law_stable_sort_is_unique<T: Ranked>(s: Seq<T>, r1: Seq<T>, r2: Seq<T>)
    requires
        is_stable_sort(s, r1),
        is_stable_sort(s, r2),
    ensures
        r1 == r2,
{
    assert forall|a: T| #[trigger] r1.filter(like(a)) == r2.filter(like(a)) by {
        assert(r2.filter(like(a)) == s.filter(like(a)));
    }
    lemma_ascending_unique(r1, r2);
}

/// A stable sort holds the same values, each as often.
pub proof fn law_stable_sort_is_a_permutation<T: Ranked>(s: Seq<T>, r: Seq<T>)
    requires
        is_stable_sort(s, r),
    ensures
        r.to_multiset() == s.to_multiset(),
        r.len() == s.len(),
{
    assert forall|a: T| r.to_multiset().count(a) == s.to_multiset().count(a) by {
        let p = like(a);
        assert(r.filter(p) == s.filter(p));
        lemma_alike_self(a);
        lemma_filter_count(r, p, a);
        lemma_filter_count(s, p, a);
    }
    assert(r.to_multiset() =~= s.to_multiset());
    r.to_multiset_ensures();
    s.to_multiset_ensures();
}

/// A filter that keeps `a` keeps every occurrence of it.
proof fn lemma_filter_count<T>(s: Seq<T>, p: spec_fn(T) -> bool, a: T)
    requires
        p(a),
    ensures
        s.filter(p).to_multiset().count(a) == s.to_multiset().count(a),
    decreases s.len(),
{
    reveal(Seq::filter);
    broadcast use vstd::seq_lib::group_to_multiset_ensures;

    if s.len() > 0 {
        let head = s.drop_last();
        lemma_filter_count(head, p, a);
        assert(head.push(s.last()) =~= s);
        assert(s.to_multiset() =~= head.to_multiset().insert(s.last()));
        if p(s.last()) {
            assert(s.filter(p) =~= head.filter(p).push(s.last()));
            assert(s.filter(p).to_multiset() =~= head.filter(p).to_multiset().insert(s.last()));
        }
    } else {
        assert(s.filter(p) =~= s);
    }
}

// ---------------------------------------------------------------------------
// Text
// ---------------------------------------------------------------------------

/// The order of text: by the first character that differs, a prefix first.
///
/// UTF-8 orders like code points, so this is also the order of the bytes.
pub open spec fn text_le(a: Seq<char>, b: Seq<char>) -> bool
    decreases a.len(),
{
    if a.len() == 0 {
        true
    } else if b.len() == 0 {
        false
    } else if a[0] == b[0] {
        text_le(a.skip(1), b.skip(1))
    } else {
        a[0] < b[0]
    }
}

/// The order of text is total.
pub proof fn lemma_text_total(a: Seq<char>, b: Seq<char>)
    ensures
        text_le(a, b) || text_le(b, a),
    decreases a.len(),
{
    if a.len() > 0 && b.len() > 0 && a[0] == b[0] {
        lemma_text_total(a.skip(1), b.skip(1));
    }
}

/// The order of text is transitive.
pub proof fn lemma_text_trans(a: Seq<char>, b: Seq<char>, c: Seq<char>)
    requires
        text_le(a, b),
        text_le(b, c),
    ensures
        text_le(a, c),
    decreases a.len(),
{
    if a.len() > 0 && b.len() > 0 && c.len() > 0 && a[0] == b[0] && b[0] == c[0] {
        lemma_text_trans(a.skip(1), b.skip(1), c.skip(1));
    }
}

/// Texts that rank alike are the same text.
pub proof fn lemma_text_antisym(a: Seq<char>, b: Seq<char>)
    requires
        text_le(a, b),
        text_le(b, a),
    ensures
        a == b,
    decreases a.len(),
{
    if a.len() == 0 {
        assert(a =~= b);
    } else {
        lemma_text_antisym(a.skip(1), b.skip(1));
        assert(a =~= seq![a[0]] + a.skip(1));
        assert(b =~= seq![b[0]] + b.skip(1));
    }
}

/// Whether one text may stand before another.
pub fn text_may_precede(a: &str, b: &str) -> (r: bool)
    ensures
        r == text_le(a@, b@),
{
    let x = text::chars_of(a);
    let y = text::chars_of(b);
    let mut i: usize = 0;
    proof {
        assert(a@.skip(0) =~= a@);
        assert(b@.skip(0) =~= b@);
    }
    loop
        invariant
            i <= x.len(),
            i <= y.len(),
            x@ == a@,
            y@ == b@,
            text_le(a@, b@) == text_le(a@.skip(i as int), b@.skip(i as int)),
        decreases x.len() - i,
    {
        if i == x.len() {
            return true;
        }
        if i == y.len() {
            return false;
        }
        if x[i] != y[i] {
            return x[i] < y[i];
        }
        proof {
            assert(a@.skip(i as int).skip(1) =~= a@.skip(i + 1));
            assert(b@.skip(i as int).skip(1) =~= b@.skip(i + 1));
        }
        i += 1;
    }
}

/// Sequences of the same values keep as many of them under a filter.
pub proof fn lemma_same_values_same_count<T>(s: Seq<T>, t: Seq<T>, p: spec_fn(T) -> bool)
    requires
        s.to_multiset() == t.to_multiset(),
    ensures
        s.filter(p).len() == t.filter(p).len(),
    decreases s.len(),
{
    s.to_multiset_ensures();
    t.to_multiset_ensures();
    if s.len() == 0 {
        assert(s =~= t);
    } else {
        let x = s.last();
        let head = s.drop_last();
        assert(s.contains(x));
        assert(t.to_multiset().contains(x));
        assert(t.contains(x));
        let i = choose|i: int| 0 <= i < t.len() && t[i] == x;
        let low = t.take(i);
        let high = t.skip(i + 1);
        let rest = t.remove(i);
        assert(rest =~= low + high);
        assert(t =~= low + seq![x] + high);
        assert(s =~= head + seq![x]);
        s.to_multiset_ensures();
        assert(head =~= s.remove(s.len() - 1));
        assert(head.to_multiset() =~= s.to_multiset().remove(x));
        assert(rest.to_multiset() =~= t.to_multiset().remove(x));
        lemma_same_values_same_count(head, rest, p);
        Seq::filter_distributes_over_add(low + seq![x], high, p);
        Seq::filter_distributes_over_add(low, seq![x], p);
        Seq::filter_distributes_over_add(low, high, p);
        Seq::filter_distributes_over_add(head, seq![x], p);
    }
}

/// A filter keeps at least as many values as a stretch that satisfies it has.
pub proof fn lemma_filter_keeps_a_stretch<T>(s: Seq<T>, i: int, j: int, p: spec_fn(T) -> bool)
    requires
        0 <= i <= j <= s.len(),
        forall|k: int| i <= k < j ==> p(#[trigger] s[k]),
    ensures
        s.filter(p).len() >= j - i,
{
    let mid = s.subrange(i, j);
    assert(s =~= s.take(i) + mid + s.skip(j));
    Seq::filter_distributes_over_add(s.take(i) + mid, s.skip(j), p);
    Seq::filter_distributes_over_add(s.take(i), mid, p);
    lemma_filter_all(mid, p);
}

/// A filter keeps no more values than a stretch has outside of which none
/// satisfies it.
pub proof fn lemma_filter_keeps_only_a_stretch<T>(
    s: Seq<T>,
    i: int,
    j: int,
    p: spec_fn(T) -> bool,
)
    requires
        0 <= i <= j <= s.len(),
        forall|k: int| 0 <= k < i || j <= k < s.len() ==> !p(#[trigger] s[k]),
    ensures
        s.filter(p).len() <= j - i,
{
    let low = s.take(i);
    let mid = s.subrange(i, j);
    let high = s.skip(j);
    assert(s =~= low + mid + high);
    Seq::filter_distributes_over_add(low + mid, high, p);
    Seq::filter_distributes_over_add(low, mid, p);
    assert forall|k: int| 0 <= k < low.len() implies !p(#[trigger] low[k]) by {
        assert(low[k] == s[k]);
    }
    assert forall|k: int| 0 <= k < high.len() implies !p(#[trigger] high[k]) by {
        assert(high[k] == s[j + k]);
    }
    low.lemma_all_neg_filter_empty(p);
    high.lemma_all_neg_filter_empty(p);
    mid.lemma_filter_len(p);
}

proof fn lemma_filter_all<T>(s: Seq<T>, p: spec_fn(T) -> bool)
    requires
        forall|k: int| 0 <= k < s.len() ==> p(#[trigger] s[k]),
    ensures
        s.filter(p).len() == s.len(),
    decreases s.len(),
{
    reveal(Seq::filter);
    if s.len() > 0 {
        let head = s.drop_last();
        assert forall|k: int| 0 <= k < head.len() implies p(#[trigger] head[k]) by {
            assert(head[k] == s[k]);
        }
        lemma_filter_all(head, p);
        assert(p(s[s.len() - 1]));
    }
}

/// Text that ranks before another is the start of it, or has a lower character
/// where the two first differ.
pub proof fn law_text_order_is_lexicographic(
    common: Seq<char>,
    x: char,
    a: Seq<char>,
    y: char,
    b: Seq<char>,
)
    ensures
        text_le(common, common + b),
        b.len() > 0 ==> !text_le(common + b, common),
        x != y ==> text_le(common.push(x) + a, common.push(y) + b) == (x < y),
    decreases common.len(),
{
    let p = common.push(x) + a;
    let q = common.push(y) + b;
    if common.len() == 0 {
        assert(p[0] == x && q[0] == y);
    } else {
        let rest = common.skip(1);
        law_text_order_is_lexicographic(rest, x, a, y, b);
        assert((common + b).skip(1) =~= rest + b);
        assert(p.skip(1) =~= rest.push(x) + a);
        assert(q.skip(1) =~= rest.push(y) + b);
    }
}

} // verus!
