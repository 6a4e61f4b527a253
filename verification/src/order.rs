//! The order of texts, and sorting that keeps equals in the order in which
//! they came.
use vstd::prelude::*;
use vstd::seq_lib::*;

use crate::text::chars_of;

verus! {

/// `a` stands before `b` in the order of texts: by the first character in
/// which they differ, and a text before its continuations.
pub open spec fn text_before(a: Seq<char>, b: Seq<char>) -> bool
    decreases a.len(),
{
    if b.len() == 0 {
        false
    } else if a.len() == 0 {
        true
    } else if a[0] != b[0] {
        (a[0] as int) < b[0] as int
    } else {
        text_before(a.skip(1), b.skip(1))
    }
}

pub proof fn lemma_text_before_is_strict(a: Seq<char>, b: Seq<char>)
    ensures
        !(text_before(a, b) && text_before(b, a)),
        text_before(a, b) || text_before(b, a) || a == b,
    decreases a.len(),
{
    if a.len() > 0 && b.len() > 0 && a[0] == b[0] {
        lemma_text_before_is_strict(a.skip(1), b.skip(1));
        if a.skip(1) == b.skip(1) {
            assert(a =~= seq![a[0]] + a.skip(1));
            assert(b =~= seq![b[0]] + b.skip(1));
        }
    } else if a.len() == 0 && b.len() == 0 {
        assert(a =~= b);
    }
}

pub proof fn lemma_text_before_is_transitive(a: Seq<char>, b: Seq<char>, c: Seq<char>)
    requires
        text_before(a, b),
        text_before(b, c),
    ensures
        text_before(a, c),
    decreases a.len(),
{
    if a.len() > 0 && a[0] == b[0] && b[0] == c[0] {
        lemma_text_before_is_transitive(a.skip(1), b.skip(1), c.skip(1));
    }
}

/// A text that does not stand behind a second, which does not stand behind a
/// third, does not stand behind the third.
pub proof fn lemma_text_order_is_total(a: Seq<char>, b: Seq<char>, c: Seq<char>)
    requires
        !text_before(b, a),
        !text_before(c, b),
    ensures
        !text_before(c, a),
{
    lemma_text_before_is_strict(a, b);
    lemma_text_before_is_strict(b, c);
    lemma_text_before_is_strict(a, c);
    if text_before(a, b) && text_before(b, c) {
        lemma_text_before_is_transitive(a, b, c);
    }
}

/// Whether `a` stands before `b` in the order of texts.
pub fn is_text_before(a: &str, b: &str) -> (r: bool)
    ensures
        r == text_before(a@, b@),
{
    let x: Vec<char> = chars_of(a);
    let y: Vec<char> = chars_of(b);
    let mut i: usize = 0;
    proof {
        assert(a@.skip(0) =~= a@);
        assert(b@.skip(0) =~= b@);
    }
    while i < x.len() && i < y.len()
        invariant
            x@ == a@,
            y@ == b@,
            i <= x@.len(),
            i <= y@.len(),
            text_before(a@, b@) == text_before(a@.skip(i as int), b@.skip(i as int)),
        decreases x@.len() - i,
    {
        if x[i] != y[i] {
            return x[i] < y[i];
        }
        proof {
            assert(a@.skip(i as int).skip(1) =~= a@.skip(i + 1));
            assert(b@.skip(i as int).skip(1) =~= b@.skip(i + 1));
        }
        i += 1;
    }
    i < y.len()
}

/// A kind of thing with an order among its contents.
pub trait Ranked: View + Sized {
    /// `a` stands before `b`.
    spec fn before(a: Self::V, b: Self::V) -> bool;

    /// Two things do not stand before each other.
    proof fn lemma_before_is_strict(a: Self::V, b: Self::V)
        ensures
            !(Self::before(a, b) && Self::before(b, a)),
    ;

    /// What does not stand behind a second thing, which does not stand behind
    /// a third, does not stand behind the third.
    proof fn lemma_before_is_transitive(a: Self::V, b: Self::V, c: Self::V)
        requires
            !Self::before(b, a),
            !Self::before(c, b),
        ensures
            !Self::before(c, a),
    ;

    /// Whether this stands before the other.
    fn is_before(&self, other: &Self) -> (r: bool)
        ensures
            r == Self::before(self@, other@),
    ;
}

/// The contents of a row.
pub open spec fn views<T: View>(v: Seq<T>) -> Seq<T::V> {
    Seq::new(v.len(), |i: int| v[i]@)
}

/// The first place in `s` of something that `x` stands before: its length
/// where there is none.
pub open spec fn place<T: Ranked>(s: Seq<T::V>, x: T::V) -> int
    decreases s.len(),
{
    if s.len() == 0 || T::before(x, s[0]) {
        0
    } else {
        1 + place::<T>(s.skip(1), x)
    }
}

/// The row sorted, equals in the order in which they stand in it.
pub open spec fn sorted<T: Ranked>(s: Seq<T::V>) -> Seq<T::V>
    decreases s.len(),
{
    if s.len() == 0 {
        s
    } else {
        let front = sorted::<T>(s.drop_last());
        front.insert(place::<T>(front, s.last()), s.last())
    }
}

/// Nothing in the row stands before what is in front of it.
pub open spec fn is_sorted<T: Ranked>(s: Seq<T::V>) -> bool {
    forall|i: int, j: int| 0 <= i < j < s.len() ==> !T::before(#[trigger] s[j], #[trigger] s[i])
}

pub proof fn lemma_place<T: Ranked>(s: Seq<T::V>, x: T::V)
    ensures
        0 <= place::<T>(s, x) <= s.len(),
        forall|i: int| 0 <= i < place::<T>(s, x) ==> !T::before(x, #[trigger] s[i]),
        place::<T>(s, x) < s.len() ==> T::before(x, s[place::<T>(s, x)]),
    decreases s.len(),
{
    if s.len() > 0 && !T::before(x, s[0]) {
        let t = s.skip(1);
        lemma_place::<T>(t, x);
        assert forall|i: int| 0 <= i < place::<T>(s, x) implies !T::before(
            x,
            #[trigger] s[i],
        ) by {
            if i > 0 {
                assert(s[i] == t[i - 1]);
            }
        }
        if place::<T>(s, x) < s.len() {
            assert(s[place::<T>(s, x)] == t[place::<T>(t, x)]);
        }
    }
}

proof fn lemma_place_is<T: Ranked>(s: Seq<T::V>, x: T::V, n: int)
    requires
        0 <= n <= s.len(),
        forall|i: int| 0 <= i < n ==> !T::before(x, #[trigger] s[i]),
        n < s.len() ==> T::before(x, s[n]),
    ensures
        place::<T>(s, x) == n,
{
    lemma_place::<T>(s, x);
    let p = place::<T>(s, x);
    if p < n {
        assert(!T::before(x, s[p]));
    }
}

/// Sorting keeps everything and adds nothing.
pub proof fn law_sorting_keeps_everything<T: Ranked>(s: Seq<T::V>)
    ensures
        sorted::<T>(s).to_multiset() == s.to_multiset(),
        sorted::<T>(s).len() == s.len(),
    decreases s.len(),
{
    broadcast use group_to_multiset_ensures;

    if s.len() > 0 {
        let front = sorted::<T>(s.drop_last());
        law_sorting_keeps_everything::<T>(s.drop_last());
        lemma_place::<T>(front, s.last());
        let p = place::<T>(front, s.last());
        assert(front.insert(p, s.last()).to_multiset() =~= front.to_multiset().insert(s.last()));
        assert(s =~= s.drop_last().push(s.last()));
        assert(s.to_multiset() =~= s.drop_last().to_multiset().insert(s.last()));
    }
}

/// A sorted row is in order.
pub proof fn law_a_sorted_row_is_in_order<T: Ranked>(s: Seq<T::V>)
    ensures
        is_sorted::<T>(sorted::<T>(s)),
    decreases s.len(),
{
    if s.len() > 0 {
        let front = sorted::<T>(s.drop_last());
        let x = s.last();
        law_a_sorted_row_is_in_order::<T>(s.drop_last());
        lemma_place::<T>(front, x);
        let p = place::<T>(front, x);
        let all = front.insert(p, x);
        assert forall|i: int, j: int| 0 <= i < j < all.len() implies !T::before(
            #[trigger] all[j],
            #[trigger] all[i],
        ) by {
            if j == p {
                assert(all[i] == front[i]);
            } else if i == p {
                assert(all[j] == front[j - 1]);
                T::lemma_before_is_strict(x, front[p]);
                if j - 1 > p {
                    assert(!T::before(front[j - 1], front[p]));
                    T::lemma_before_is_transitive(x, front[p], front[j - 1]);
                }
            } else {
                let a = if i < p {
                    i
                } else {
                    i - 1
                };
                let b = if j < p {
                    j
                } else {
                    j - 1
                };
                assert(all[i] == front[a]);
                assert(all[j] == front[b]);
            }
        }
    }
}

/// Puts `x` into a row, behind everything that it does not stand before.
pub fn insert_sorted<T: Ranked>(v: &mut Vec<T>, x: T)
    ensures
        views(final(v)@) == views(old(v)@).insert(place::<T>(views(old(v)@), x@), x@),
{
    let ghost before = views(v@);
    let mut i: usize = 0;
    while i < v.len() && !x.is_before(&v[i])
        invariant
            i <= v@.len(),
            before == views(v@),
            forall|j: int| 0 <= j < i ==> !T::before(x@, #[trigger] before[j]),
        decreases v@.len() - i,
    {
        i += 1;
    }
    proof {
        lemma_place_is::<T>(before, x@, i as int);
    }
    let ghost y = x@;
    v.insert(i, x);
    proof {
        assert(views(v@) =~= before.insert(i as int, y));
    }
}

}
