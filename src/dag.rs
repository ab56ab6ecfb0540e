use vstd::prelude::*;
use vstd::set_lib::{lemma_int_range, lemma_len_subset, set_int_range};
use crate::uniform::Uniform;

verus! {

/// `b` has a rule and observes `a`: setting `a` recomputes `b`.
pub open spec fn feeds(g: Seq<Uniform>, a: int, b: int) -> bool {
    &&& 0 <= a < g.len()
    &&& 0 <= b < g.len()
    &&& g[a].observers@.contains(b as usize)
    &&& g[b].calculation is Some
}

/// Each uniform of `w` feeds the next.
pub open spec fn is_chain(g: Seq<Uniform>, w: Seq<int>) -> bool {
    &&& w.len() >= 2
    &&& forall|i: int| 0 <= i < w.len() - 1 ==> feeds(g, #[trigger] w[i], w[i + 1])
}

/// Setting `a` recomputes `d` through a chain of uniforms with rules.
pub open spec fn depends_on(g: Seq<Uniform>, d: int, a: int) -> bool {
    exists|w: Seq<int>| #[trigger] is_chain(g, w) && w[0] == a && w[w.len() - 1] == d
}

/// No uniform depends on itself.
pub open spec fn acyclic(g: Seq<Uniform>) -> bool {
    forall|a: int| !#[trigger] depends_on(g, a, a)
}

/// Every input of a rule has the rule's uniform among its observers.
pub open spec fn wired(g: Seq<Uniform>) -> bool {
    forall|d: int, j: int|
        0 <= d < g.len() && g[d].calculation is Some && 0 <= j < g[d].calculation->Some_0.inputs@.len()
            ==> g[#[trigger] g[d].calculation->Some_0.inputs@[j] as int].observers@.contains(
            d as usize,
        )
}

pub proof fn lemma_feeds_dep(g: Seq<Uniform>, a: int, b: int)
    requires
        feeds(g, a, b),
    ensures
        depends_on(g, b, a),
{
    let w = seq![a, b];
    assert(w[0] == a && w[1] == b);
    assert(is_chain(g, w));
}

pub proof fn lemma_dep_then_feeds(g: Seq<Uniform>, a: int, b: int, c: int)
    requires
        depends_on(g, b, a),
        feeds(g, b, c),
    ensures
        depends_on(g, c, a),
{
    let w = choose|w: Seq<int>| #[trigger] is_chain(g, w) && w[0] == a && w[w.len() - 1] == b;
    let w2 = w.push(c);
    assert forall|i: int| 0 <= i < w2.len() - 1 implies feeds(g, #[trigger] w2[i], w2[i + 1]) by {
        if i < w.len() - 1 {
            assert(w2[i] == w[i] && w2[i + 1] == w[i + 1]);
        } else {
            assert(w2[i] == b && w2[i + 1] == c);
        }
    }
    assert(is_chain(g, w2));
    assert(w2[0] == a && w2[w2.len() - 1] == c);
}

pub proof fn lemma_feeds_then_dep(g: Seq<Uniform>, a: int, b: int, d: int)
    requires
        feeds(g, a, b),
        depends_on(g, d, b),
    ensures
        depends_on(g, d, a),
{
    let w = choose|w: Seq<int>| #[trigger] is_chain(g, w) && w[0] == b && w[w.len() - 1] == d;
    let w2 = seq![a] + w;
    assert forall|i: int| 0 <= i < w2.len() - 1 implies feeds(g, #[trigger] w2[i], w2[i + 1]) by {
        if i == 0 {
            assert(w2[0] == a && w2[1] == b);
        } else {
            assert(w2[i] == w[i - 1] && w2[i + 1] == w[i]);
        }
    }
    assert(is_chain(g, w2));
    assert(w2[0] == a && w2[w2.len() - 1] == d);
}

/// Only a uniform with a rule depends on another.
pub proof fn lemma_dep_has_rule(g: Seq<Uniform>, d: int, a: int)
    requires
        depends_on(g, d, a),
    ensures
        0 <= d < g.len(),
        g[d].calculation is Some,
{
    let w = choose|w: Seq<int>| #[trigger] is_chain(g, w) && w[0] == a && w[w.len() - 1] == d;
    assert(feeds(g, w[w.len() - 2], w[w.len() - 2 + 1]));
}

/// The first step of a dependency.
pub proof fn lemma_dep_first_step(g: Seq<Uniform>, d: int, a: int) -> (o: int)
    requires
        depends_on(g, d, a),
    ensures
        feeds(g, a, o),
        d == o || depends_on(g, d, o),
{
    let w = choose|w: Seq<int>| #[trigger] is_chain(g, w) && w[0] == a && w[w.len() - 1] == d;
    let o = w[1];
    assert(feeds(g, w[0], w[1]));
    if w.len() > 2 {
        let rest = w.skip(1);
        assert forall|i: int| 0 <= i < rest.len() - 1 implies feeds(g, #[trigger] rest[i], rest[i + 1]) by {
            assert(rest[i] == w[i + 1] && rest[i + 1] == w[i + 2]);
        }
        assert(is_chain(g, rest));
        assert(rest[0] == o && rest[rest.len() - 1] == d);
    }
    o
}

/// A list of distinct indices below `n` that misses one of them is shorter
/// than `n`.
pub proof fn lemma_room_left(path: Seq<int>, n: int, o: int)
    requires
        path.no_duplicates(),
        forall|i: int| 0 <= i < path.len() ==> 0 <= #[trigger] path[i] < n,
        0 <= o < n,
        !path.contains(o),
    ensures
        path.len() < n,
{
    let s = path.to_set();
    path.unique_seq_to_set();
    lemma_int_range(0, n);
    let r = set_int_range(0, n);
    assert forall|x: int| #[trigger] s.insert(o).contains(x) implies r.contains(x) by {
        if x != o {
            assert(path.contains(x));
            let i = choose|i: int| 0 <= i < path.len() && path[i] == x;
        }
    }
    assert(s.insert(o).subset_of(r));
    lemma_len_subset(s.insert(o), r);
    lemma_len_subset(s, s.insert(o));
    assert(!s.contains(o));
    assert(s.insert(o).len() == s.len() + 1);
}

} // verus!
