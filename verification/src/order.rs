//! Orders on text, and sorting into a strict order.
//!
//! Text is ordered as `String` orders it: character by character, by code
//! point, a proper prefix first.
use vstd::prelude::*;

verus! {

broadcast use vstd::seq_lib::group_to_multiset_ensures;

/// The lexicographic order of `String`, by code point.
pub open spec fn text_lt(a: Seq<char>, b: Seq<char>) -> bool
    decreases a.len(),
{
    if a.len() == 0 {
        b.len() > 0
    } else if b.len() == 0 {
        false
    } else if (a[0] as u32) < (b[0] as u32) {
        true
    } else if (a[0] as u32) > (b[0] as u32) {
        false
    } else {
        text_lt(a.drop_first(), b.drop_first())
    }
}

pub proof fn lemma_text_lt_irreflexive(a: Seq<char>)
    ensures
        !text_lt(a, a),
    decreases a.len(),
{
    if a.len() > 0 {
        lemma_text_lt_irreflexive(a.drop_first());
    }
}

pub proof fn lemma_text_lt_asymmetric(a: Seq<char>, b: Seq<char>)
    ensures
        !(text_lt(a, b) && text_lt(b, a)),
    decreases a.len(),
{
    if a.len() > 0 && b.len() > 0 && (a[0] as u32) == (b[0] as u32) {
        lemma_text_lt_asymmetric(a.drop_first(), b.drop_first());
    }
}

pub proof fn lemma_text_lt_transitive(a: Seq<char>, b: Seq<char>, c: Seq<char>)
    requires
        text_lt(a, b),
        text_lt(b, c),
    ensures
        text_lt(a, c),
    decreases a.len(),
{
    if a.len() > 0 && b.len() > 0 && c.len() > 0 && (a[0] as u32) == (b[0] as u32) && (b[0] as u32)
        == (c[0] as u32) {
        lemma_text_lt_transitive(a.drop_first(), b.drop_first(), c.drop_first());
    }
}

pub proof fn lemma_text_lt_total(a: Seq<char>, b: Seq<char>)
    ensures
        a == b || text_lt(a, b) || text_lt(b, a),
    decreases a.len(),
{
    if a.len() > 0 && b.len() > 0 {
        if (a[0] as u32) == (b[0] as u32) {
            vstd::utf8::char_u32_cast(a[0], a[0] as u32);
            vstd::utf8::char_u32_cast(b[0], b[0] as u32);
            assert(a[0] == b[0]);
            lemma_text_lt_total(a.drop_first(), b.drop_first());
            if a.drop_first() == b.drop_first() {
                assert(a =~= seq![a[0]] + a.drop_first());
                assert(b =~= seq![b[0]] + b.drop_first());
            }
        }
    } else if a.len() == 0 && b.len() == 0 {
        assert(a =~= b);
    }
}

/// Whether `a` comes strictly before `b` in the order of `String`.
pub fn text_less(a: &[char], b: &[char]) -> (r: bool)
    ensures
        r == text_lt(a@, b@),
{
    let mut i: usize = 0;
    proof {
        assert(a@.skip(0) =~= a@);
        assert(b@.skip(0) =~= b@);
    }
    while i < a.len() && i < b.len()
        invariant
            i <= a@.len(),
            i <= b@.len(),
            text_lt(a@, b@) == text_lt(a@.skip(i as int), b@.skip(i as int)),
        decreases a@.len() - i,
    {
        let x = a[i] as u32;
        let y = b[i] as u32;
        if x < y {
            return true;
        }
        if x > y {
            return false;
        }
        proof {
            assert(a@.skip(i as int).drop_first() =~= a@.skip(i + 1));
            assert(b@.skip(i as int).drop_first() =~= b@.skip(i + 1));
        }
        i = i + 1;
    }
    i == a.len() && i < b.len()
}

/// The sequence is ordered strictly by `lt`.
pub open spec fn strictly_sorted<E>(s: Seq<E>, lt: spec_fn(E, E) -> bool) -> bool {
    forall|i: int, j: int| 0 <= i < j < s.len() ==> #[trigger] lt(s[i], s[j])
}

/// `lt` is a strict order among the elements of `s`: irreflexive,
/// transitive, and any two distinct elements are comparable.
pub open spec fn strict_order_on<E>(lt: spec_fn(E, E) -> bool) -> bool {
    &&& forall|a: E| !#[trigger] lt(a, a)
    &&& forall|a: E, b: E, c: E| #[trigger] lt(a, b) && #[trigger] lt(b, c) ==> lt(a, c)
    &&& forall|a: E, b: E| a != b ==> #[trigger] lt(a, b) || lt(b, a)
}

/// `s` holds the elements of `of`, each as many times, ordered strictly by
/// `lt`.
pub open spec fn sorted_perm<E>(s: Seq<E>, of: Seq<E>, lt: spec_fn(E, E) -> bool) -> bool {
    s.to_multiset() == of.to_multiset() && strictly_sorted(s, lt)
}

pub proof fn lemma_insert_multiset<E>(s: Seq<E>, i: int, x: E)
    requires
        0 <= i <= s.len(),
    ensures
        s.insert(i, x).to_multiset() == s.to_multiset().insert(x),
{
    broadcast use vstd::seq_lib::lemma_multiset_commutative;
    broadcast use vstd::multiset::group_multiset_axioms;

    assert(s.insert(i, x) =~= s.take(i) + (seq![x] + s.skip(i)));
    assert(s =~= s.take(i) + s.skip(i));
    assert(seq![x].to_multiset() =~= vstd::multiset::Multiset::empty().insert(x)) by {
        assert(seq![x] =~= Seq::<E>::empty().push(x));
    }
}

/// Inserts `x` into a strictly sorted sequence at the position that keeps it
/// strictly sorted, given where that position is.
pub proof fn lemma_sorted_insert<E>(s: Seq<E>, p: int, x: E, lt: spec_fn(E, E) -> bool)
    requires
        strict_order_on(lt),
        strictly_sorted(s, lt),
        0 <= p <= s.len(),
        forall|k: int| 0 <= k < p ==> lt(s[k], x),
        forall|k: int| p <= k < s.len() ==> lt(x, s[k]),
    ensures
        strictly_sorted(s.insert(p, x), lt),
{
    let t = s.insert(p, x);
    assert forall|i: int, j: int| 0 <= i < j < t.len() implies #[trigger] lt(t[i], t[j]) by {
        if j < p {
            assert(t[i] == s[i] && t[j] == s[j]);
        } else if j == p {
            assert(t[i] == s[i]);
        } else if i < p {
            assert(t[i] == s[i] && t[j] == s[j - 1]);
            assert(lt(s[i], x));
            assert(lt(x, s[j - 1]));
        } else if i == p {
            assert(t[j] == s[j - 1]);
        } else {
            assert(t[i] == s[i - 1] && t[j] == s[j - 1]);
        }
    }
}

/// The order that `lt` is the strict part of.
pub open spec fn leq_of<E>(lt: spec_fn(E, E) -> bool) -> spec_fn(E, E) -> bool {
    |a: E, b: E| a == b || lt(a, b)
}

pub proof fn lemma_leq_of_total<E>(lt: spec_fn(E, E) -> bool)
    requires
        strict_order_on(lt),
    ensures
        vstd::relations::total_ordering(leq_of(lt)),
{
    let le = leq_of(lt);
    assert forall|a: E, b: E| #[trigger] le(a, b) && #[trigger] le(b, a) implies a == b by {
        if a != b {
            assert(lt(a, b) && lt(b, a));
            assert(lt(a, a));
        }
    }
    assert forall|a: E, b: E, c: E| #[trigger] le(a, b) && #[trigger] le(b, c) implies le(a, c) by {
        if a != b && b != c {
            assert(lt(a, b) && lt(b, c));
        }
    }
    assert forall|a: E, b: E| #[trigger] le(a, b) || #[trigger] le(b, a) by {
        if a != b {
            assert(lt(a, b) || lt(b, a));
        }
    }
    assert forall|a: E| #[trigger] le(a, a) by {}
}

/// A sequence sorted strictly by `lt` holding the elements of `of` is what
/// sorting `of` gives.
pub proof fn lemma_sorted_perm_is_sort<E>(s: Seq<E>, of: Seq<E>, lt: spec_fn(E, E) -> bool)
    requires
        strict_order_on(lt),
        sorted_perm(s, of, lt),
    ensures
        s == of.sort_by(leq_of(lt)),
{
    lemma_leq_of_total(lt);
    of.lemma_sort_by_ensures(leq_of(lt));
    assert forall|i: int, j: int| 0 <= i < j < s.len() implies #[trigger] leq_of(lt)(s[i], s[j]) by {
        assert(lt(s[i], s[j]));
    }
    vstd::seq_lib::lemma_sorted_unique(s, of.sort_by(leq_of(lt)), leq_of(lt));
}

/// The order of `String`, as a relation.
pub open spec fn text_order() -> spec_fn(Seq<char>, Seq<char>) -> bool {
    |a: Seq<char>, b: Seq<char>| text_lt(a, b)
}

pub proof fn lemma_text_order()
    ensures
        strict_order_on(text_order()),
{
    let lt = text_order();
    assert forall|a: Seq<char>| !#[trigger] lt(a, a) by {
        lemma_text_lt_irreflexive(a);
    }
    assert forall|a: Seq<char>, b: Seq<char>, c: Seq<char>| #[trigger] lt(a, b) && #[trigger] lt(b, c) implies lt(a, c) by {
        lemma_text_lt_transitive(a, b, c);
    }
    assert forall|a: Seq<char>, b: Seq<char>| a != b implies #[trigger] lt(a, b) || lt(b, a) by {
        lemma_text_lt_total(a, b);
    }
}

} // verus!
