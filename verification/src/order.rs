//! Lists in another order.

use vstd::prelude::*;

use crate::text::chars_of;

verus! {

/// Two lists with the same items, in whatever order, have the same images
/// under a function.
pub proof fn lemma_mapped_multiset<A, B>(a: Seq<A>, b: Seq<A>, f: spec_fn(A) -> B)
    requires
        a.to_multiset() == b.to_multiset(),
    ensures
        a.map_values(f).to_multiset() == b.map_values(f).to_multiset(),
    decreases a.len(),
{
    a.to_multiset_ensures();
    b.to_multiset_ensures();
    if a.len() == 0 {
        assert(a.map_values(f) =~= b.map_values(f));
    } else {
        let x: A = a.last();
        let head: Seq<A> = a.drop_last();
        assert(a =~= head.push(x));
        head.to_multiset_ensures();
        assert(a.contains(x)) by {
            assert(a[a.len() - 1] == x);
        }
        assert(b.contains(x)) by {
            assert(a.to_multiset().count(x) > 0);
        }
        let j: int = b.index_of(x);
        let rest: Seq<A> = b.remove(j);
        assert(rest.to_multiset() == b.to_multiset().remove(x));
        assert(a.to_multiset() == head.to_multiset().insert(x));
        assert(head.to_multiset() =~= rest.to_multiset());
        lemma_mapped_multiset(head, rest, f);
        let ma: Seq<B> = head.map_values(f);
        let mb: Seq<B> = b.map_values(f);
        ma.to_multiset_ensures();
        mb.to_multiset_ensures();
        assert(a.map_values(f) =~= ma.push(f(x)));
        assert(mb.remove(j) =~= rest.map_values(f));
        assert(mb[j] == f(x));
        assert(mb.contains(f(x)));
        assert(mb.to_multiset() =~= rest.map_values(f).to_multiset().insert(f(x)));
    }
}

// ── Texts ────────────────────────────────────────────────────────────────────

/// Whether `a` stands before `b` in a list of texts: at the first place where
/// they differ it has the smaller character, or it ends there.
pub open spec fn text_less(a: Seq<char>, b: Seq<char>) -> bool
    decreases a.len(),
{
    if b.len() == 0 {
        false
    } else if a.len() == 0 {
        true
    } else if a[0] != b[0] {
        a[0] < b[0]
    } else {
        text_less(a.skip(1), b.skip(1))
    }
}

/// No text stands before itself.
pub proof fn lemma_text_less_irreflexive(a: Seq<char>)
    ensures
        !text_less(a, a),
    decreases a.len(),
{
    if a.len() > 0 {
        lemma_text_less_irreflexive(a.skip(1));
    }
}

/// What stands before a text stands before all texts after it.
pub proof fn lemma_text_less_transitive(a: Seq<char>, b: Seq<char>, c: Seq<char>)
    requires
        text_less(a, b),
        text_less(b, c),
    ensures
        text_less(a, c),
    decreases a.len(),
{
    if a.len() > 0 && a[0] == b[0] && b[0] == c[0] {
        lemma_text_less_transitive(a.skip(1), b.skip(1), c.skip(1));
    }
}

/// Of two different texts one stands before the other.
pub proof fn lemma_text_less_total(a: Seq<char>, b: Seq<char>)
    ensures
        a == b || text_less(a, b) || text_less(b, a),
    decreases a.len(),
{
    if a.len() > 0 && b.len() > 0 && a[0] == b[0] {
        lemma_text_less_total(a.skip(1), b.skip(1));
        if a.skip(1) == b.skip(1) {
            assert(a =~= seq![a[0]] + a.skip(1));
            assert(b =~= seq![b[0]] + b.skip(1));
        }
    } else if a.len() == 0 && b.len() == 0 {
        assert(a =~= b);
    }
}

/// Whether `a` stands before `b`, see `text_less`.
pub fn less(a: &str, b: &str) -> (r: bool)
    ensures
        r == text_less(a@, b@),
{
    let x = chars_of(a);
    let y = chars_of(b);
    let mut i: usize = 0;
    assert(x@.skip(0) =~= x@ && y@.skip(0) =~= y@);
    while i < x.len() && i < y.len()
        invariant
            i <= x.len(),
            i <= y.len(),
            x@ == a@,
            y@ == b@,
            text_less(x@, y@) == text_less(x@.skip(i as int), y@.skip(i as int)),
        decreases x.len() - i,
    {
        assert(x@.skip(i as int).skip(1) =~= x@.skip(i + 1));
        assert(y@.skip(i as int).skip(1) =~= y@.skip(i + 1));
        if x[i] != y[i] {
            return x[i] < y[i];
        }
        i = i + 1;
    }
    i < y.len()
}

// ── Sorting ──────────────────────────────────────────────────────────────────

/// Things that have an order.
pub trait Ranked: Sized {
    /// Whether `self` goes before `other`.
    spec fn goes_before(self, other: Self) -> bool;

    /// Of two things at most one goes before the other.
    proof fn before_asymmetric(a: Self, b: Self)
        requires
            a.goes_before(b),
        ensures
            !b.goes_before(a),
    ;

    /// Where `a` goes before `b`, everything comes after `a` or before `b`.
    proof fn before_splits(a: Self, b: Self, c: Self)
        requires
            a.goes_before(b),
        ensures
            a.goes_before(c) || c.goes_before(b),
    ;

    /// Whether `self` goes before `other`.
    fn before(&self, other: &Self) -> (r: bool)
        ensures
            r == self.goes_before(*other),
    ;
}

/// Whether nothing goes before something to the left of it.
pub open spec fn is_ranked<T: Ranked>(v: Seq<T>) -> bool {
    forall|i: int, j: int| 0 <= i < j < v.len() ==> !(#[trigger] v[j]).goes_before(#[trigger] v[i])
}

/// Sorts a list.
pub fn sort_ranked<T: Ranked>(v: Vec<T>) -> (r: Vec<T>)
    ensures
        r@.to_multiset() == v@.to_multiset(),
        is_ranked(r@),
{
    let mut rest = v;
    let mut sorted: Vec<T> = Vec::new();
    proof {
        assert(sorted@ =~= Seq::<T>::empty());
        sorted@.to_multiset_ensures();
        rest@.to_multiset_ensures();
        assert(sorted@.to_multiset().len() == 0);
        assert(sorted@.to_multiset() =~= vstd::multiset::Multiset::<T>::empty());
        assert(rest@.to_multiset().add(sorted@.to_multiset()) =~= v@.to_multiset());
    }
    while rest.len() > 0
        invariant
            rest@.to_multiset().add(sorted@.to_multiset()) == v@.to_multiset(),
            is_ranked(sorted@),
        decreases rest.len(),
    {
        let ghost before: Seq<T> = rest@;
        let ghost done: Seq<T> = sorted@;
        let x: T = match rest.pop() {
            Some(y) => y,
            None => {
                return sorted;
            },
        };
        let ghost item: T = x;
        let mut p: usize = sorted.len();
        while p > 0 && x.before(&sorted[p - 1])
            invariant
                p <= sorted.len(),
                sorted@ == done,
                x == item,
                is_ranked(done),
                forall|k: int| p <= k < done.len() ==> item.goes_before(#[trigger] done[k]),
            ensures
                p <= sorted.len(),
                sorted@ == done,
                x == item,
                forall|k: int| p <= k < done.len() ==> item.goes_before(#[trigger] done[k]),
                p > 0 ==> !item.goes_before(done[p - 1]),
            decreases p,
        {
            p = p - 1;
        }
        sorted.insert(p, x);
        proof {
            assert(sorted@ == done.insert(p as int, item));
            lemma_insert_ranked(done, p as int, item);
            before.to_multiset_ensures();
            rest@.to_multiset_ensures();
            assert(before =~= rest@.push(item));
            lemma_insert_multiset(done, p as int, item);
            assert(rest@.to_multiset().add(sorted@.to_multiset()) =~= before.to_multiset().add(
                done.to_multiset(),
            ));
        }
    }
    proof {
        rest@.to_multiset_ensures();
        assert(rest@.to_multiset() =~= vstd::multiset::Multiset::<T>::empty());
        assert(rest@.to_multiset().add(sorted@.to_multiset()) =~= sorted@.to_multiset());
    }
    sorted
}

proof fn lemma_insert_multiset<T>(v: Seq<T>, p: int, x: T)
    requires
        0 <= p <= v.len(),
    ensures
        v.insert(p, x).to_multiset() == v.to_multiset().insert(x),
{
    let w: Seq<T> = v.insert(p, x);
    w.to_multiset_ensures();
    assert(w.remove(p) =~= v);
    assert(w[p] == x);
    assert(w.contains(x));
    assert(w.to_multiset() =~= v.to_multiset().insert(x));
}

proof fn lemma_insert_ranked<T: Ranked>(v: Seq<T>, p: int, x: T)
    requires
        is_ranked(v),
        0 <= p <= v.len(),
        forall|k: int| p <= k < v.len() ==> x.goes_before(#[trigger] v[k]),
        p > 0 ==> !x.goes_before(v[p - 1]),
    ensures
        is_ranked(v.insert(p, x)),
{
    let w: Seq<T> = v.insert(p, x);
    assert forall|i: int, j: int| 0 <= i < j < w.len() implies !(#[trigger] w[j]).goes_before(
        #[trigger] w[i],
    ) by {
        if j < p {
            assert(w[i] == v[i] && w[j] == v[j]);
        } else if j == p {
            assert(w[i] == v[i]);
            if x.goes_before(v[i]) && i < p - 1 {
                T::before_splits(x, v[i], v[p - 1]);
            }
        } else if i == p {
            assert(w[j] == v[j - 1]);
            if v[j - 1].goes_before(x) {
                T::before_asymmetric(v[j - 1], x);
            }
        } else if i < p {
            assert(w[i] == v[i] && w[j] == v[j - 1]);
        } else {
            assert(w[i] == v[i - 1] && w[j] == v[j - 1]);
        }
    }
}

/// A text stands before another where it is a part of it from the start, or has
/// the smaller character at the first place where they differ.
pub proof fn law_texts_are_ordered_by_character(
    common: Seq<char>,
    a: Seq<char>,
    b: Seq<char>,
)
    requires
        a.len() > 0 && b.len() > 0 ==> a[0] != b[0],
    ensures
        text_less(common + a, common + b) <==> b.len() > 0 && (a.len() == 0 || a[0] < b[0]),
    decreases common.len(),
{
    if common.len() > 0 {
        law_texts_are_ordered_by_character(common.skip(1), a, b);
        assert((common + a).skip(1) =~= common.skip(1) + a);
        assert((common + b).skip(1) =~= common.skip(1) + b);
    } else {
        assert(common + a =~= a);
        assert(common + b =~= b);
    }
}

} // verus!
