use vstd::prelude::*;
use crate::calculation::{gather, Calculation};
use crate::dag::{
    acyclic, depends_on, feeds, lemma_dep_first_step, lemma_dep_has_rule, lemma_dep_then_feeds, lemma_feeds_dep,
    lemma_feeds_then_dep, lemma_room_left, wired,
};
use crate::flush::{flush, flush_from, own_transmission, send_result};
use crate::propagation::{lemma_push_contains, notify_from, propagate, set_result};
use crate::uniform::{node_wf, same_structure, uniforms_wf, values_of, GlSender, Transmission, Uniform};

verus! {

/// Changing values keeps a graph well formed.
pub proof fn lemma_same_structure_wf(a: Seq<Uniform>, b: Seq<Uniform>)
    requires
        uniforms_wf(a),
        same_structure(a, b),
    ensures
        uniforms_wf(b),
{
    assert forall|i: int| 0 <= i < b.len() implies node_wf(#[trigger] b[i], b.len() as int) by {
        assert(node_wf(a[i], a.len() as int));
    }
}

/// A uniform is shielded from a traversal when its setting is under way or
/// when it has no rule.
pub open spec fn shielded(g: Seq<Uniform>, path: Seq<int>, k: int) -> bool {
    path.contains(k) || g[k].calculation is None
}

proof fn lemma_notify_keeps(g: Seq<Uniform>, vals: Seq<i32>, id: int, path: Seq<int>, i: nat, k: int)
    requires
        uniforms_wf(g),
        vals.len() == g.len(),
        0 <= id < g.len(),
        0 <= k < g.len(),
        notify_from(g, vals, id, path, i) is Some,
    ensures
        notify_from(g, vals, id, path, i)->Some_0.len() == vals.len(),
        shielded(g, path, k) ==> notify_from(g, vals, id, path, i)->Some_0[k] == vals[k],
    decreases g.len() - path.len(), 0int, g[id].observers@.len() - i,
{
    if i < g[id].observers@.len() {
        assert(node_wf(g[id], g.len() as int));
        let o = g[id].observers@[i as int] as int;
        match g[o].calculation {
            None => {
                lemma_notify_keeps(g, vals, id, path, i + 1, k);
            },
            Some(c) => {
                let longer = path.push(o);
                let after = propagate(g, vals, o, c.spec_eval(vals), longer)->Some_0;
                lemma_push_contains(path, o, o);
                lemma_push_contains(path, o, k);
                lemma_propagate_keeps(g, vals, o, c.spec_eval(vals), longer, k);
                lemma_notify_keeps(g, after, id, path, i + 1, k);
            },
        }
    }
}

proof fn lemma_propagate_keeps(g: Seq<Uniform>, vals: Seq<i32>, x: int, v: i32, path: Seq<int>, k: int)
    requires
        uniforms_wf(g),
        vals.len() == g.len(),
        0 <= x < g.len(),
        0 <= k < g.len(),
        path.contains(x),
        propagate(g, vals, x, v, path) is Some,
    ensures
        propagate(g, vals, x, v, path)->Some_0.len() == vals.len(),
        propagate(g, vals, x, v, path)->Some_0[x] == v,
        k != x && shielded(g, path, k) ==> propagate(g, vals, x, v, path)->Some_0[k] == vals[k],
    decreases g.len() - path.len(), 1int, 0int,
{
    let set = vals.update(x, v);
    lemma_notify_keeps(g, set, x, path, 0, x);
    lemma_notify_keeps(g, set, x, path, 0, k);
}

/// After a `set` that succeeds, the uniform holds the value it was given.
pub proof fn lemma_set_assigns(g: Seq<Uniform>, id: int, v: i32)
    requires
        uniforms_wf(g),
        0 <= id < g.len(),
        set_result(g, id, v) is Some,
    ensures
        set_result(g, id, v)->Some_0[id] == v,
{
    assert(seq![id].contains(id)) by {
        assert(seq![id][0] == id);
    }
    lemma_propagate_keeps(g, values_of(g), id, v, seq![id], id);
}

/// A uniform without a rule keeps its value when another uniform is set.
pub proof fn lemma_roots_stable(g: Seq<Uniform>, id: int, v: i32, k: int)
    requires
        uniforms_wf(g),
        0 <= id < g.len(),
        0 <= k < g.len(),
        k != id,
        g[k].calculation is None,
        set_result(g, id, v) is Some,
    ensures
        set_result(g, id, v)->Some_0[k] == g[k].value,
{
    assert(seq![id].contains(id)) by {
        assert(seq![id][0] == id);
    }
    lemma_propagate_keeps(g, values_of(g), id, v, seq![id], k);
}

/// The transmission is of a uniform of `g` that has a sink at its handle,
/// and carries that uniform's value.
pub open spec fn transmission_sound(g: Seq<Uniform>, t: Transmission) -> bool {
    &&& t.uniform < g.len()
    &&& g[t.uniform as int].gl_sender == Some(GlSender { handle: t.handle })
    &&& t.value == g[t.uniform as int].value
}

proof fn lemma_flush_from_sound(g: Seq<Uniform>, id: int, path: Seq<int>, i: nat)
    requires
        uniforms_wf(g),
        0 <= id < g.len(),
        flush_from(g, id, path, i) is Some,
    ensures
        forall|j: int|
            0 <= j < flush_from(g, id, path, i)->Some_0.len() ==> transmission_sound(
                g,
                #[trigger] flush_from(g, id, path, i)->Some_0[j],
            ),
    decreases g.len() - path.len(), 0int, g[id].observers@.len() - i,
{
    if i < g[id].observers@.len() {
        assert(node_wf(g[id], g.len() as int));
        let o = g[id].observers@[i as int] as int;
        let longer = path.push(o);
        lemma_flush_sound(g, o, longer);
        lemma_flush_from_sound(g, id, path, i + 1);
    }
}

proof fn lemma_flush_sound(g: Seq<Uniform>, id: int, path: Seq<int>)
    requires
        uniforms_wf(g),
        0 <= id < g.len(),
        flush(g, id, path) is Some,
    ensures
        forall|j: int|
            0 <= j < flush(g, id, path)->Some_0.len() ==> transmission_sound(
                g,
                #[trigger] flush(g, id, path)->Some_0[j],
            ),
    decreases g.len() - path.len(), 1int, 0int,
{
    lemma_flush_from_sound(g, id, path, 0);
    let own = own_transmission(g, id);
    let rest = flush_from(g, id, path, 0)->Some_0;
    let all = flush(g, id, path)->Some_0;
    assert(all == own + rest);
    assert forall|j: int| 0 <= j < all.len() implies transmission_sound(g, #[trigger] all[j]) by {
        if j < own.len() {
            assert(all[j] == own[j]);
        } else {
            assert(all[j] == rest[j - own.len()]);
        }
    }
}

/// A `send` transmits nothing for a uniform without a sink; flushing one
/// such uniform transmits exactly what flushing its observers does.
pub proof fn lemma_partial_never_transmitted(g: Seq<Uniform>, id: int, k: int)
    requires
        uniforms_wf(g),
        0 <= id < g.len(),
        0 <= k < g.len(),
        g[k].gl_sender is None,
        send_result(g, id) is Some,
    ensures
        forall|j: int|
            0 <= j < send_result(g, id)->Some_0.len() ==> (#[trigger] send_result(g, id)->Some_0[j]).uniform
                != k,
        g[id].gl_sender is None ==> send_result(g, id) == flush_from(g, id, seq![id], 0),
{
    lemma_flush_sound(g, id, seq![id]);
    if g[id].gl_sender is None {
        let rest = flush_from(g, id, seq![id], 0)->Some_0;
        assert(own_transmission(g, id) + rest =~= rest);
    }
}

/// Every transmission of a `send` carries the current value of a uniform
/// that has a sink, at that sink's handle.
pub proof fn lemma_send_sound(g: Seq<Uniform>, id: int)
    requires
        uniforms_wf(g),
        0 <= id < g.len(),
        send_result(g, id) is Some,
    ensures
        forall|j: int|
            0 <= j < send_result(g, id)->Some_0.len() ==> transmission_sound(
                g,
                #[trigger] send_result(g, id)->Some_0[j],
            ),
{
    lemma_flush_sound(g, id, seq![id]);
}

/// The value of `d` is what its rule gives on `vals` (a root always is).
pub open spec fn consistent(g: Seq<Uniform>, vals: Seq<i32>, d: int) -> bool {
    g[d].calculation matches Some(c) ==> vals[d] == c.spec_eval(vals)
}

/// `o` has a rule, and `k` is `o` or depends on it.
pub open spec fn reached_by(g: Seq<Uniform>, o: int, k: int) -> bool {
    g[o].calculation is Some && (k == o || depends_on(g, k, o))
}

/// Notifying the observers of `x` from position `i` on can recompute `k`.
pub open spec fn later_dep(g: Seq<Uniform>, x: int, i: nat, k: int) -> bool {
    exists|j: int| i <= j < g[x].observers@.len() && #[trigger] reached_by(g, g[x].observers@[j] as int, k)
}

/// `path` holds distinct uniforms, `x` among them, and `x` depends on each
/// of the others.
pub open spec fn path_ok(g: Seq<Uniform>, path: Seq<int>, x: int) -> bool {
    &&& path.no_duplicates()
    &&& forall|i: int| 0 <= i < path.len() ==> 0 <= #[trigger] path[i] < g.len()
    &&& path.contains(x)
    &&& forall|i: int| 0 <= i < path.len() ==> #[trigger] path[i] == x || depends_on(g, x, path[i])
}

proof fn lemma_eval_agrees(c: Calculation, a: Seq<i32>, b: Seq<i32>)
    requires
        forall|j: int| 0 <= j < c.inputs@.len() ==> a[#[trigger] c.inputs@[j] as int] == b[c.inputs@[j] as int],
    ensures
        c.spec_eval(a) == c.spec_eval(b),
{
    assert(gather(c.inputs@, a) =~= gather(c.inputs@, b));
}

proof fn lemma_input_feeds(g: Seq<Uniform>, d: int, j: int)
    requires
        uniforms_wf(g),
        wired(g),
        0 <= d < g.len(),
        g[d].calculation is Some,
        0 <= j < g[d].calculation->Some_0.inputs@.len(),
    ensures
        feeds(g, g[d].calculation->Some_0.inputs@[j] as int, d),
{
    assert(node_wf(g[d], g.len() as int));
    let k = g[d].calculation->Some_0.inputs@[j] as int;
    assert(g[k].observers@.contains(d as usize));
}

proof fn lemma_extend_path(g: Seq<Uniform>, path: Seq<int>, x: int, o: int)
    requires
        uniforms_wf(g),
        acyclic(g),
        path_ok(g, path, x),
        feeds(g, x, o),
    ensures
        !path.contains(o),
        path.len() < g.len(),
        path_ok(g, path.push(o), o),
{
    if path.contains(o) {
        let t = choose|t: int| 0 <= t < path.len() && path[t] == o;
        assert(path[t] == x || depends_on(g, x, path[t]));
        if o == x {
            lemma_feeds_dep(g, x, o);
        } else {
            lemma_dep_then_feeds(g, o, x, o);
        }
        assert(depends_on(g, o, o));
    }
    lemma_room_left(path, g.len() as int, o);
    let longer = path.push(o);
    assert forall|a: int, b: int| 0 <= a < b < longer.len() implies longer[a] != longer[b] by {
        if b == path.len() {
            assert(longer[a] == path[a]);
        } else {
            assert(longer[a] == path[a] && longer[b] == path[b]);
        }
    }
    assert forall|t: int| 0 <= t < longer.len() implies #[trigger] longer[t] == o || depends_on(
        g,
        o,
        longer[t],
    ) by {
        if t < path.len() {
            assert(longer[t] == path[t]);
            if path[t] == x {
                lemma_feeds_dep(g, x, o);
            } else {
                lemma_dep_then_feeds(g, path[t], x, o);
            }
        }
    }
    assert forall|t: int| 0 <= t < longer.len() implies 0 <= #[trigger] longer[t] < g.len() by {
        if t < path.len() {
            assert(longer[t] == path[t]);
        }
    }
    assert(longer[path.len() as int] == o);
}

/// One step of notification: observer `o` at position `i` was recomputed from
/// `vals` into `v2`, then the later observers turned `v2` into `res`. A
/// uniform that `o` reaches and no later observer reaches is consistent in
/// `res`.
proof fn lemma_step_consistent(
    g: Seq<Uniform>,
    vals: Seq<i32>,
    v2: Seq<i32>,
    res: Seq<i32>,
    x: int,
    i: nat,
    d: int,
)
    requires
        uniforms_wf(g),
        wired(g),
        acyclic(g),
        vals.len() == g.len(),
        v2.len() == g.len(),
        res.len() == g.len(),
        0 <= x < g.len(),
        i < g[x].observers@.len(),
        g[g[x].observers@[i as int] as int].calculation is Some,
        v2[g[x].observers@[i as int] as int] == g[g[x].observers@[i as int] as int].calculation->Some_0.spec_eval(
            vals,
        ),
        forall|k: int|
            0 <= k < g.len() && k != g[x].observers@[i as int] as int && !depends_on(
                g,
                k,
                g[x].observers@[i as int] as int,
            ) ==> #[trigger] v2[k] == vals[k],
        forall|e: int|
            0 <= e < g.len() && depends_on(g, e, g[x].observers@[i as int] as int) ==> consistent(g, v2, e),
        forall|k: int| 0 <= k < g.len() && !later_dep(g, x, i + 1, k) ==> #[trigger] res[k] == v2[k],
        0 <= d < g.len(),
        reached_by(g, g[x].observers@[i as int] as int, d),
        !later_dep(g, x, i + 1, d),
    ensures
        consistent(g, res, d),
{
    let n = g.len() as int;
    let obs = g[x].observers@;
    let o = obs[i as int] as int;
    assert(node_wf(g[x], n));
    let c = g[o].calculation->Some_0;
    if d == o {
        assert forall|j: int| 0 <= j < c.inputs@.len() implies v2[#[trigger] c.inputs@[j] as int]
            == vals[c.inputs@[j] as int] by {
            lemma_input_feeds(g, o, j);
            let k = c.inputs@[j] as int;
            if k == o {
                lemma_feeds_dep(g, o, o);
            } else if depends_on(g, k, o) {
                lemma_dep_then_feeds(g, o, k, o);
            }
        }
        lemma_eval_agrees(c, v2, vals);
    }
    assert(consistent(g, v2, d));
    if d != o {
        lemma_dep_has_rule(g, d, o);
    }
    let cd = g[d].calculation->Some_0;
    assert forall|j: int| 0 <= j < cd.inputs@.len() implies res[#[trigger] cd.inputs@[j] as int]
        == v2[cd.inputs@[j] as int] by {
        lemma_input_feeds(g, d, j);
        let k = cd.inputs@[j] as int;
        assert(node_wf(g[d], n));
        if later_dep(g, x, i + 1, k) {
            let jj = choose|jj: int| i + 1 <= jj < obs.len() && #[trigger] reached_by(g, obs[jj] as int, k);
            let oj = obs[jj] as int;
            if k == oj {
                lemma_feeds_dep(g, k, d);
            } else {
                lemma_dep_then_feeds(g, oj, k, d);
            }
            assert(reached_by(g, obs[jj] as int, d));
        }
    }
    lemma_eval_agrees(cd, res, v2);
}

proof fn lemma_notify_correct(g: Seq<Uniform>, vals: Seq<i32>, x: int, path: Seq<int>, i: nat)
    requires
        uniforms_wf(g),
        wired(g),
        acyclic(g),
        vals.len() == g.len(),
        0 <= x < g.len(),
        path_ok(g, path, x),
    ensures
        notify_from(g, vals, x, path, i) is Some,
        notify_from(g, vals, x, path, i)->Some_0.len() == vals.len(),
        forall|k: int|
            0 <= k < g.len() && !later_dep(g, x, i, k) ==> (#[trigger] notify_from(g, vals, x, path, i)->Some_0[k])
                == vals[k],
        forall|d: int|
            0 <= d < g.len() && later_dep(g, x, i, d) ==> consistent(
                g,
                notify_from(g, vals, x, path, i)->Some_0,
                d,
            ),
    decreases g.len() - path.len(), 0int, g[x].observers@.len() - i,
{
    let n = g.len() as int;
    let obs = g[x].observers@;
    if i >= obs.len() {
        assert forall|k: int| !later_dep(g, x, i, k) by {}
    } else {
        assert(node_wf(g[x], n));
        let o = obs[i as int] as int;
        assert(0 <= o < n);
        assert forall|k: int| later_dep(g, x, i + 1, k) implies later_dep(g, x, i, k) by {
            let j = choose|j: int| i + 1 <= j < obs.len() && #[trigger] reached_by(g, obs[j] as int, k);
        }
        match g[o].calculation {
            None => {
                lemma_notify_correct(g, vals, x, path, i + 1);
                assert forall|d: int| later_dep(g, x, i, d) implies later_dep(g, x, i + 1, d) by {
                    let j = choose|j: int| i <= j < obs.len() && #[trigger] reached_by(g, obs[j] as int, d);
                    assert(j != i);
                }
            },
            Some(c) => {
                assert(obs.contains(o as usize)) by {
                    assert(obs[i as int] == o as usize);
                }
                assert(feeds(g, x, o));
                lemma_extend_path(g, path, x, o);
                let longer = path.push(o);
                let nv = c.spec_eval(vals);
                lemma_propagate_correct(g, vals, o, nv, longer);
                let v2 = propagate(g, vals, o, nv, longer)->Some_0;
                lemma_notify_correct(g, v2, x, path, i + 1);
                let res = notify_from(g, v2, x, path, i + 1)->Some_0;
                assert(notify_from(g, vals, x, path, i) == Some(res));
                assert forall|k: int| 0 <= k < g.len() && !later_dep(g, x, i, k) implies #[trigger] res[k]
                    == vals[k] by {
                    if reached_by(g, o, k) {
                        assert(reached_by(g, obs[i as int] as int, k));
                    }
                    if later_dep(g, x, i + 1, k) {
                    }
                }
                assert forall|d: int| 0 <= d < g.len() && later_dep(g, x, i, d) implies consistent(
                    g,
                    res,
                    d,
                ) by {
                    if !later_dep(g, x, i + 1, d) {
                        let j = choose|j: int| i <= j < obs.len() && #[trigger] reached_by(g, obs[j] as int, d);
                        if j != i {
                            assert(later_dep(g, x, i + 1, d));
                        }
                        assert(reached_by(g, o, d));
                        lemma_step_consistent(g, vals, v2, res, x, i, d);
                    }
                }
            },
        }
    }
}

proof fn lemma_propagate_correct(g: Seq<Uniform>, vals: Seq<i32>, x: int, v: i32, path: Seq<int>)
    requires
        uniforms_wf(g),
        wired(g),
        acyclic(g),
        vals.len() == g.len(),
        0 <= x < g.len(),
        path_ok(g, path, x),
    ensures
        propagate(g, vals, x, v, path) is Some,
        propagate(g, vals, x, v, path)->Some_0.len() == vals.len(),
        propagate(g, vals, x, v, path)->Some_0[x] == v,
        forall|k: int|
            0 <= k < g.len() && k != x && !depends_on(g, k, x) ==> (#[trigger] propagate(
                g,
                vals,
                x,
                v,
                path,
            )->Some_0[k]) == vals[k],
        forall|d: int|
            0 <= d < g.len() && depends_on(g, d, x) ==> consistent(g, propagate(g, vals, x, v, path)->Some_0, d),
    decreases g.len() - path.len(), 1int, 0int,
{
    let set = vals.update(x, v);
    lemma_notify_correct(g, set, x, path, 0);
    let obs = g[x].observers@;
    assert forall|k: int| later_dep(g, x, 0, k) implies depends_on(g, k, x) by {
        let j = choose|j: int| 0 <= j < obs.len() && #[trigger] reached_by(g, obs[j] as int, k);
        let o = obs[j] as int;
        assert(node_wf(g[x], g.len() as int));
        assert(obs.contains(o as usize));
        assert(feeds(g, x, o));
        if k == o {
            lemma_feeds_dep(g, x, o);
        } else {
            lemma_feeds_then_dep(g, x, o, k);
        }
    }
    assert forall|d: int| depends_on(g, d, x) implies later_dep(g, x, 0, d) by {
        let o = lemma_dep_first_step(g, d, x);
        let j = choose|j: int| 0 <= j < obs.len() && obs[j] == o as usize;
        assert(reached_by(g, obs[j] as int, d));
    }
    assert(!depends_on(g, x, x));
}

/// In a graph where every input of a rule has the rule's uniform among its
/// observers and no uniform depends on itself, `set` succeeds: the uniform
/// holds the new value, every uniform that depends on it holds what its rule
/// gives on the final values, and every other uniform keeps its value.
pub proof fn lemma_propagation_correct(g: Seq<Uniform>, id: int, v: i32)
    requires
        uniforms_wf(g),
        wired(g),
        acyclic(g),
        0 <= id < g.len(),
    ensures
        set_result(g, id, v) is Some,
        set_result(g, id, v)->Some_0[id] == v,
        forall|d: int|
            0 <= d < g.len() && depends_on(g, d, id) ==> consistent(g, set_result(g, id, v)->Some_0, d),
        forall|k: int|
            0 <= k < g.len() && k != id && !depends_on(g, k, id) ==> (#[trigger] set_result(g, id, v)->Some_0[k])
                == g[k].value,
{
    let start = seq![id];
    assert(start[0] == id);
    assert(path_ok(g, start, id));
    lemma_propagate_correct(g, values_of(g), id, v, start);
}

} // verus!
