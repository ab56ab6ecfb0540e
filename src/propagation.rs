use vstd::prelude::*;
use crate::uniform::{recompute, same_structure, uniforms_wf, values_of, Uniform, UniformError};

verus! {

/// The values after uniform `id` is set to `v`, its observers are notified in
/// order and each notified uniform with a rule recomputes and is set in turn.
/// `path` lists the uniforms whose setting is under way; coming back to one of
/// them with a rule to run is a cycle, and gives `None`. The structure is read
/// from `g`, the values from `vals`.
pub open spec fn propagate(g: Seq<Uniform>, vals: Seq<i32>, id: int, v: i32, path: Seq<int>) -> Option<
    Seq<i32>,
>
    decreases g.len() - path.len(), 1int, 0int,
{
    notify_from(g, vals.update(id, v), id, path, 0)
}

/// Notifies the observers of `id` from position `i` on, in order. A path as
/// long as the graph cannot grow without repeating a uniform; that test only
/// bounds the recursion.
pub open spec fn notify_from(g: Seq<Uniform>, vals: Seq<i32>, id: int, path: Seq<int>, i: nat) -> Option<
    Seq<i32>,
>
    decreases g.len() - path.len(), 0int, g[id].observers@.len() - i,
{
    if i >= g[id].observers@.len() {
        Some(vals)
    } else {
        let o = g[id].observers@[i as int] as int;
        let next = match g[o].calculation {
            None => Some(vals),
            Some(c) => if path.contains(o) || path.len() >= g.len() {
                None
            } else {
                propagate(g, vals, o, c.spec_eval(vals), path.push(o))
            },
        };
        match next {
            Some(after) => notify_from(g, after, id, path, i + 1),
            None => None,
        }
    }
}

/// The values after `set(g, id, v)`, or `None` where it meets a cycle.
pub open spec fn set_result(g: Seq<Uniform>, id: int, v: i32) -> Option<Seq<i32>> {
    propagate(g, values_of(g), id, v, seq![id])
}

pub(crate) proof fn lemma_push_contains(s: Seq<int>, x: int, k: int)
    ensures
        s.push(x).contains(k) <==> (s.contains(k) || k == x),
{
    if s.contains(k) {
        let j = choose|j: int| 0 <= j < s.len() && s[j] == k;
        assert(s.push(x)[j] == k);
    }
    if k == x {
        assert(s.push(x)[s.len() as int] == x);
    }
    if s.push(x).contains(k) {
        let j = choose|j: int| 0 <= j < s.len() + 1 && s.push(x)[j] == k;
        if j < s.len() {
            assert(s[j] == k);
        }
    }
}

/// Sets `id` and notifies its observers; `on_path` marks the uniforms of
/// `path`, and `depth` is its length.
fn propagate_exec(
    uniforms: &mut Vec<Uniform>,
    id: usize,
    v: i32,
    on_path: &mut Vec<bool>,
    depth: usize,
    Ghost(g): Ghost<Seq<Uniform>>,
    Ghost(path): Ghost<Seq<int>>,
) -> (r: Result<(), UniformError>)
    requires
        uniforms_wf(g),
        same_structure(g, old(uniforms)@),
        id < g.len(),
        old(on_path)@.len() == g.len(),
        forall|k: int| 0 <= k < g.len() ==> (old(on_path)@[k] <==> path.contains(k)),
        depth == path.len(),
        path.len() <= g.len(),
    ensures
        final(on_path)@ == old(on_path)@,
        same_structure(g, final(uniforms)@),
        match propagate(g, values_of(old(uniforms)@), id as int, v, path) {
            Some(vals) => r is Ok && values_of(final(uniforms)@) == vals,
            None => r is Err,
        },
    decreases g.len() - path.len(),
{
    let ghost vals0 = values_of(old(uniforms)@).update(id as int, v);
    assert(propagate(g, values_of(old(uniforms)@), id as int, v, path) == notify_from(g, vals0, id as int, path, 0));
    uniforms[id].value = v;
    assert(values_of(uniforms@) =~= vals0);
    let n = uniforms.len();
    let n_obs = uniforms[id].observers.len();
    let mut i: usize = 0;
    while i < n_obs
        invariant
            uniforms_wf(g),
            same_structure(g, uniforms@),
            id < g.len(),
            n == g.len(),
            n_obs == g[id as int].observers@.len(),
            i <= n_obs,
            on_path@ == old(on_path)@,
            on_path@.len() == g.len(),
            forall|k: int| 0 <= k < g.len() ==> (on_path@[k] <==> path.contains(k)),
            depth == path.len(),
            path.len() <= g.len(),
            propagate(g, values_of(old(uniforms)@), id as int, v, path) == notify_from(
                g,
                vals0,
                id as int,
                path,
                0,
            ),
            notify_from(g, vals0, id as int, path, 0) == notify_from(
                g,
                values_of(uniforms@),
                id as int,
                path,
                i as nat,
            ),
        decreases n_obs - i,
    {
        let o = uniforms[id].observers[i];
        assert(g[id as int].observers@[i as int] == o);
        assert(crate::uniform::node_wf(g[id as int], g.len() as int));
        assert(crate::uniform::node_wf(g[o as int], g.len() as int));
        let has_rule = uniforms[o].calculation.is_some();
        if has_rule {
            if on_path[o] || depth >= n {
                assert(notify_from(g, values_of(uniforms@), id as int, path, i as nat) is None);
                return Err(UniformError::CyclicDependency);
            }
            let ghost longer = path.push(o as int);
            let nv = recompute(uniforms, uniforms[o].calculation.as_ref().unwrap());
            on_path.set(o, true);
            proof {
                assert forall|k: int| 0 <= k < g.len() implies (on_path@[k] <==> longer.contains(k)) by {
                    lemma_push_contains(path, o as int, k);
                }
            }
            let r = propagate_exec(uniforms, o, nv, on_path, depth + 1, Ghost(g), Ghost(longer));
            on_path.set(o, false);
            assert(on_path@ =~= old(on_path)@);
            if r.is_err() {
                return r;
            }
        }
        i = i + 1;
    }
    Ok(())
}

impl Uniform {
    /// Sets uniform `id` to `new_value` and recomputes, depth first and in
    /// the order of each observer list, every uniform that depends on it.
    /// A uniform reached along two paths is recomputed once for each. Where
    /// the traversal meets a cycle nothing changes and the error says so.
    pub fn set(uniforms: &mut Vec<Uniform>, id: usize, new_value: i32) -> (r: Result<(), UniformError>)
        requires
            uniforms_wf(old(uniforms)@),
            id < old(uniforms)@.len(),
        ensures
            match set_result(old(uniforms)@, id as int, new_value) {
                Some(vals) => r is Ok && same_structure(old(uniforms)@, final(uniforms)@) && values_of(
                    final(uniforms)@,
                ) == vals,
                None => r == Err::<(), UniformError>(UniformError::CyclicDependency) && final(uniforms)@
                    == old(uniforms)@,
            },
    {
        let ghost g = uniforms@;
        let n = uniforms.len();
        let mut saved: Vec<i32> = Vec::new();
        let mut on_path: Vec<bool> = Vec::new();
        let mut k: usize = 0;
        while k < n
            invariant
                n == uniforms@.len(),
                uniforms@ == g,
                k <= n,
                saved@ == values_of(g).take(k as int),
                on_path@.len() == k,
                forall|j: int| 0 <= j < k ==> on_path@[j] == (j == id),
            decreases n - k,
        {
            saved.push(uniforms[k].value);
            on_path.push(k == id);
            k = k + 1;
            assert(saved@ =~= values_of(g).take(k as int));
        }
        assert(saved@ =~= values_of(g));
        proof {
            let start = seq![id as int];
            assert forall|j: int| 0 <= j < n implies (on_path@[j] <==> start.contains(j)) by {
                if j == id {
                    assert(start[0] == j);
                }
            }
        }
        let ghost start = seq![id as int];
        let r = propagate_exec(uniforms, id, new_value, &mut on_path, 1, Ghost(g), Ghost(start));
        if r.is_err() {
            let mut k: usize = 0;
            while k < n
                invariant
                    n == uniforms@.len(),
                    same_structure(g, uniforms@),
                    saved@ == values_of(g),
                    k <= n,
                    forall|j: int| 0 <= j < k ==> uniforms@[j] == g[j],
                decreases n - k,
            {
                uniforms[k].value = saved[k];
                k = k + 1;
            }
            assert(uniforms@ =~= g);
            return Err(UniformError::CyclicDependency);
        }
        r
    }

    /// Recomputes uniform `id` from its rule and sets it to the result, as
    /// `set` does; a uniform without a rule is left as it is.
    pub fn notify(uniforms: &mut Vec<Uniform>, id: usize) -> (r: Result<(), UniformError>)
        requires
            uniforms_wf(old(uniforms)@),
            id < old(uniforms)@.len(),
        ensures
            match old(uniforms)@[id as int].calculation {
                None => r is Ok && final(uniforms)@ == old(uniforms)@,
                Some(c) => match set_result(old(uniforms)@, id as int, c.spec_eval(values_of(old(uniforms)@))) {
                    Some(vals) => r is Ok && same_structure(old(uniforms)@, final(uniforms)@) && values_of(
                        final(uniforms)@,
                    ) == vals,
                    None => r == Err::<(), UniformError>(UniformError::CyclicDependency) && final(uniforms)@
                        == old(uniforms)@,
                },
            },
    {
        if uniforms[id].calculation.is_none() {
            return Ok(());
        }
        assert(crate::uniform::node_wf(uniforms@[id as int], uniforms@.len() as int));
        let v = recompute(uniforms, uniforms[id].calculation.as_ref().unwrap());
        Uniform::set(uniforms, id, v)
    }
}

} // verus!
