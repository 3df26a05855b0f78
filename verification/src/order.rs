//! Lists in strict order.
use vstd::prelude::*;

verus! {

/// `before` is a strict order.
pub open spec fn is_strict<A>(before: spec_fn(A, A) -> bool) -> bool {
    &&& forall|x: A| !#[trigger] before(x, x)
    &&& forall|x: A, y: A, z: A| #[trigger]
        before(x, y) && #[trigger] before(y, z) ==> before(x, z)
}

/// `s` lists the elements of `set`, each once, in the order `before`.
pub open spec fn arranges<A>(s: Seq<A>, set: Set<A>, before: spec_fn(A, A) -> bool) -> bool {
    &&& forall|i: int, j: int|
        #![trigger s[i], s[j]]
        0 <= i < j < s.len() ==> before(s[i], s[j])
    &&& forall|x: A| set.contains(x) <==> #[trigger] s.contains(x)
}

/// The elements of `set` in the order `before`.
pub open spec fn arrangement<A>(set: Set<A>, before: spec_fn(A, A) -> bool) -> Seq<A> {
    choose|s: Seq<A>| arranges(s, set, before)
}

/// A set is arranged in one way only.
pub proof fn arranged_once<A>(a: Seq<A>, b: Seq<A>, set: Set<A>, before: spec_fn(A, A) -> bool)
    requires
        is_strict(before),
        arranges(a, set, before),
        arranges(b, set, before),
    ensures
        a == b,
    decreases a.len(),
{
    if a.len() == 0 {
        if b.len() > 0 {
            assert(b.contains(b[0]));
            assert(a.contains(b[0]));
        }
        assert(a =~= b);
    } else {
        assert(a.contains(a.last()));
        assert(b.contains(a.last()));
        assert(b.len() > 0);
        assert(b.contains(b.last()));
        assert(a.contains(b.last()));
        let i = choose|i: int| 0 <= i < a.len() && a[i] == b.last();
        let j = choose|j: int| 0 <= j < b.len() && b[j] == a.last();
        if a.last() != b.last() {
            assert(before(a[i], a[a.len() - 1]));
            assert(before(b[j], b[b.len() - 1]));
            assert(before(a.last(), a.last()));
        }
        let last = a.last();
        arranged_without_last(a, set, before);
        arranged_without_last(b, set, before);
        arranged_once(a.drop_last(), b.drop_last(), set.remove(last), before);
        assert(a =~= a.drop_last().push(last));
        assert(b =~= b.drop_last().push(last));
    }
}

proof fn arranged_without_last<A>(s: Seq<A>, set: Set<A>, before: spec_fn(A, A) -> bool)
    requires
        is_strict(before),
        arranges(s, set, before),
        s.len() > 0,
    ensures
        arranges(s.drop_last(), set.remove(s.last()), before),
{
    let t = s.drop_last();
    assert(forall|i: int| 0 <= i < t.len() ==> #[trigger] t[i] == s[i]);
    assert forall|x: A| set.remove(s.last()).contains(x) <==> #[trigger] t.contains(x) by {
        if t.contains(x) {
            let i = choose|i: int| 0 <= i < t.len() && t[i] == x;
            assert(s[i] == x);
            assert(s.contains(x));
            assert(before(s[i], s[s.len() - 1]));
        }
        if set.remove(s.last()).contains(x) {
            assert(s.contains(x));
            let i = choose|i: int| 0 <= i < s.len() && s[i] == x;
            assert(t[i] == x);
        }
    }
}

/// What `arranges` fixes, `arrangement` is.
pub proof fn arrangement_is<A>(s: Seq<A>, set: Set<A>, before: spec_fn(A, A) -> bool)
    requires
        is_strict(before),
        arranges(s, set, before),
    ensures
        arrangement(set, before) == s,
{
    arranged_once(s, arrangement(set, before), set, before);
}

/// Of two different elements one comes first.
pub open spec fn is_total<A>(before: spec_fn(A, A) -> bool) -> bool {
    forall|x: A, y: A| #[trigger] before(x, y) || x == y || before(y, x)
}

/// The place of `x` in a list.
proof fn place_of<A>(s: Seq<A>, x: A, before: spec_fn(A, A) -> bool) -> (p: int)
    requires
        is_strict(before),
        is_total(before),
        forall|i: int, j: int|
            #![trigger s[i], s[j]]
            0 <= i < j < s.len() ==> before(s[i], s[j]),
        !s.contains(x),
    ensures
        0 <= p <= s.len(),
        forall|i: int| 0 <= i < p ==> before(#[trigger] s[i], x),
        forall|i: int| p <= i < s.len() ==> before(x, #[trigger] s[i]),
    decreases s.len(),
{
    if s.len() == 0 {
        0
    } else if before(s.last(), x) {
        assert forall|i: int| 0 <= i < s.len() implies before(#[trigger] s[i], x) by {
            if i < s.len() - 1 {
                assert(before(s[i], s[s.len() - 1]));
            }
        }
        s.len() as int
    } else {
        assert(s.contains(s[s.len() - 1]));
        assert(before(x, s.last()));
        let t = s.drop_last();
        assert forall|i: int, j: int|
            #![trigger t[i], t[j]]
            0 <= i < j < t.len() implies before(t[i], t[j]) by {
            assert(before(s[i], s[j]));
        }
        assert(!t.contains(x)) by {
            if t.contains(x) {
                let i = choose|i: int| 0 <= i < t.len() && t[i] == x;
                assert(s[i] == x);
            }
        }
        let p = place_of(t, x, before);
        assert forall|i: int| 0 <= i < p implies before(#[trigger] s[i], x) by {
            assert(t[i] == s[i]);
        }
        assert forall|i: int| p <= i < s.len() implies before(x, #[trigger] s[i]) by {
            if i < t.len() {
                assert(t[i] == s[i]);
            }
        }
        p
    }
}

/// A finite set can be arranged.
pub proof fn finite_is_arranged<A>(set: Set<A>, before: spec_fn(A, A) -> bool)
    requires
        is_strict(before),
        is_total(before),
        set.finite(),
    ensures
        arranges(arrangement(set, before), set, before),
    decreases set.len(),
{
    if set.len() == 0 {
        assert(set =~= Set::empty());
        let none = Seq::<A>::empty();
        assert(arranges(none, set, before));
    } else {
        let x = set.choose();
        let rest = set.remove(x);
        finite_is_arranged(rest, before);
        let s = arrangement(rest, before);
        assert(!s.contains(x));
        let p = place_of(s, x, before);
        let t = s.insert(p, x);
        assert forall|i: int, j: int|
            #![trigger t[i], t[j]]
            0 <= i < j < t.len() implies before(t[i], t[j]) by {
            if j < p {
                assert(before(s[i], s[j]));
            } else if j == p {
                assert(t[i] == s[i]);
            } else if i < p {
                assert(before(s[i], s[j - 1]));
            } else if i == p {
                assert(t[j] == s[j - 1]);
            } else {
                assert(before(s[i - 1], s[j - 1]));
            }
        }
        assert forall|y: A| set.contains(y) <==> #[trigger] t.contains(y) by {
            if t.contains(y) {
                let i = choose|i: int| 0 <= i < t.len() && t[i] == y;
                if i < p {
                    assert(s[i] == y);
                    assert(s.contains(y));
                } else if i > p {
                    assert(s[i - 1] == y);
                    assert(s.contains(y));
                }
            }
            if set.contains(y) {
                if y == x {
                    assert(t[p] == y);
                } else {
                    assert(rest.contains(y));
                    assert(s.contains(y));
                    let i = choose|i: int| 0 <= i < s.len() && s[i] == y;
                    if i < p {
                        assert(t[i] == y);
                    } else {
                        assert(t[i + 1] == y);
                    }
                }
            }
        }
        assert(arranges(t, set, before));
    }
}

} // verus!
