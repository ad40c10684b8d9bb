//! The order in which names are sorted: character by character, a prefix
//! before what it is a prefix of.

use crate::text::chars_of;
use vstd::prelude::*;
use vstd::relations::{sorted_by, total_ordering};

verus! {

/// Whether `a` comes before `b`, or is `b`.
pub open spec fn text_leq(a: Seq<char>, b: Seq<char>) -> bool
    decreases a.len(),
{
    if a.len() == 0 {
        true
    } else if b.len() == 0 {
        false
    } else if a[0] != b[0] {
        (a[0] as u32) < (b[0] as u32)
    } else {
        text_leq(a.drop_first(), b.drop_first())
    }
}

/// Texts that agree up to `i` are ordered as what follows `i`.
pub proof fn lemma_text_leq_skip(a: Seq<char>, b: Seq<char>, i: int)
    requires
        0 <= i <= a.len(),
        i <= b.len(),
        forall|j: int| 0 <= j < i ==> a[j] == b[j],
    ensures
        text_leq(a, b) == text_leq(a.skip(i), b.skip(i)),
    decreases i,
{
    if i == 0 {
        assert(a.skip(0) == a);
        assert(b.skip(0) == b);
    } else {
        lemma_text_leq_skip(a.drop_first(), b.drop_first(), i - 1);
        assert(a.drop_first().skip(i - 1) == a.skip(i));
        assert(b.drop_first().skip(i - 1) == b.skip(i));
    }
}

pub proof fn lemma_text_leq_reflexive(a: Seq<char>)
    ensures
        text_leq(a, a),
    decreases a.len(),
{
    if a.len() > 0 {
        lemma_text_leq_reflexive(a.drop_first());
    }
}

pub proof fn lemma_text_leq_antisymmetric(a: Seq<char>, b: Seq<char>)
    requires
        text_leq(a, b),
        text_leq(b, a),
    ensures
        a == b,
    decreases a.len(),
{
    if a.len() == 0 || b.len() == 0 {
        assert(a =~= b);
    } else {
        lemma_text_leq_antisymmetric(a.drop_first(), b.drop_first());
        assert(a =~= seq![a[0]] + a.drop_first());
        assert(b =~= seq![b[0]] + b.drop_first());
    }
}

pub proof fn lemma_text_leq_transitive(a: Seq<char>, b: Seq<char>, c: Seq<char>)
    requires
        text_leq(a, b),
        text_leq(b, c),
    ensures
        text_leq(a, c),
    decreases a.len(),
{
    if a.len() == 0 || b.len() == 0 || c.len() == 0 {
    } else if a[0] == b[0] && b[0] == c[0] {
        lemma_text_leq_transitive(a.drop_first(), b.drop_first(), c.drop_first());
    }
}

pub proof fn lemma_text_leq_total(a: Seq<char>, b: Seq<char>)
    ensures
        text_leq(a, b) || text_leq(b, a),
    decreases a.len(),
{
    if a.len() == 0 || b.len() == 0 {
    } else if a[0] == b[0] {
        lemma_text_leq_total(a.drop_first(), b.drop_first());
    } else {
        vstd::utf8::char_u32_cast(a[0], a[0] as u32);
        vstd::utf8::char_u32_cast(b[0], b[0] as u32);
    }
}

/// Whether `a` comes before `b`, or is `b`.
pub fn text_before(a: &str, b: &str) -> (r: bool)
    ensures
        r == text_leq(a@, b@),
{
    let x = chars_of(a);
    let y = chars_of(b);
    let mut i: usize = 0;
    while i < x.len() && i < y.len() && x[i] == y[i]
        invariant
            i <= x.len(),
            i <= y.len(),
            forall|j: int| 0 <= j < i ==> x@[j] == y@[j],
        decreases x.len() - i,
    {
        i += 1;
    }
    proof {
        lemma_text_leq_skip(x@, y@, i as int);
    }
    if i == x.len() {
        true
    } else if i == y.len() {
        false
    } else {
        (x[i] as u32) < (y[i] as u32)
    }
}

/// A key of three texts, ordered by the first, then the second, then the
/// third.
pub open spec fn triple_leq(a: (Seq<char>, Seq<char>, Seq<char>), b: (Seq<char>, Seq<char>, Seq<char>)) -> bool {
    if a.0 != b.0 {
        text_leq(a.0, b.0)
    } else if a.1 != b.1 {
        text_leq(a.1, b.1)
    } else {
        text_leq(a.2, b.2)
    }
}

/// `triple_leq` as a relation.
pub open spec fn triple_order() -> spec_fn(
    (Seq<char>, Seq<char>, Seq<char>),
    (Seq<char>, Seq<char>, Seq<char>),
) -> bool {
    |a: (Seq<char>, Seq<char>, Seq<char>), b: (Seq<char>, Seq<char>, Seq<char>)| triple_leq(a, b)
}

/// `triple_order` is a total order.
pub proof fn lemma_triple_order_total()
    ensures
        total_ordering(triple_order()),
{
    let r = triple_order();
    assert forall|x: (Seq<char>, Seq<char>, Seq<char>)| #[trigger] r(x, x) by {
        lemma_text_leq_reflexive(x.2);
    }
    assert forall|x: (Seq<char>, Seq<char>, Seq<char>), y: (Seq<char>, Seq<char>, Seq<char>)|
        #[trigger] r(x, y) && #[trigger] r(y, x) implies x == y by {
        if x.0 != y.0 {
            lemma_text_leq_antisymmetric(x.0, y.0);
        } else if x.1 != y.1 {
            lemma_text_leq_antisymmetric(x.1, y.1);
        } else {
            lemma_text_leq_antisymmetric(x.2, y.2);
        }
    }
    assert forall|
        x: (Seq<char>, Seq<char>, Seq<char>),
        y: (Seq<char>, Seq<char>, Seq<char>),
        z: (Seq<char>, Seq<char>, Seq<char>),
    | #[trigger] r(x, y) && #[trigger] r(y, z) implies r(x, z) by {
        lemma_triple_transitive(x, y, z);
    }
    assert forall|x: (Seq<char>, Seq<char>, Seq<char>), y: (Seq<char>, Seq<char>, Seq<char>)|
        #[trigger] r(x, y) || #[trigger] r(y, x) by {
        lemma_text_leq_total(x.0, y.0);
        lemma_text_leq_total(x.1, y.1);
        lemma_text_leq_total(x.2, y.2);
    }
}

/// Of two keys one comes before the other, or they are the same.
pub proof fn lemma_triple_connected(
    x: (Seq<char>, Seq<char>, Seq<char>),
    y: (Seq<char>, Seq<char>, Seq<char>),
)
    ensures
        triple_leq(x, y) || triple_leq(y, x),
{
    lemma_text_leq_total(x.0, y.0);
    lemma_text_leq_total(x.1, y.1);
    lemma_text_leq_total(x.2, y.2);
}

pub proof fn lemma_triple_transitive(
    x: (Seq<char>, Seq<char>, Seq<char>),
    y: (Seq<char>, Seq<char>, Seq<char>),
    z: (Seq<char>, Seq<char>, Seq<char>),
)
    requires
        triple_leq(x, y),
        triple_leq(y, z),
    ensures
        triple_leq(x, z),
{
    lemma_text_leq_reflexive(x.0);
    lemma_text_leq_reflexive(x.1);
    lemma_text_leq_reflexive(y.0);
    lemma_text_leq_reflexive(y.1);
    if x.0 != y.0 || y.0 != z.0 {
        lemma_text_leq_transitive(x.0, y.0, z.0);
        if x.0 == z.0 {
            lemma_text_leq_antisymmetric(x.0, y.0);
        }
    } else if x.1 != y.1 || y.1 != z.1 {
        lemma_text_leq_transitive(x.1, y.1, z.1);
        if x.1 == z.1 {
            lemma_text_leq_antisymmetric(x.1, y.1);
        }
    } else {
        lemma_text_leq_transitive(x.2, y.2, z.2);
    }
}

/// The one sorted arrangement of `keys`.
pub open spec fn sorted_triples(keys: Seq<(Seq<char>, Seq<char>, Seq<char>)>) -> Seq<
    (Seq<char>, Seq<char>, Seq<char>),
> {
    keys.sort_by(triple_order())
}

/// A sorted sequence with the members of `keys` is `sorted_triples(keys)`.
pub proof fn lemma_sorted_is(
    keys: Seq<(Seq<char>, Seq<char>, Seq<char>)>,
    out: Seq<(Seq<char>, Seq<char>, Seq<char>)>,
)
    requires
        sorted_by(out, triple_order()),
        out.to_multiset() == keys.to_multiset(),
    ensures
        out == sorted_triples(keys),
{
    lemma_triple_order_total();
    keys.lemma_sort_by_ensures(triple_order());
    vstd::seq_lib::lemma_sorted_unique(out, keys.sort_by(triple_order()), triple_order());
}

} // verus!
