use vstd::prelude::*;
use crate::propagation::{lemma_push_contains, set_result};
use crate::uniform::{same_structure, uniforms_wf, values_of, Transmission, Uniform, UniformError};

verus! {

/// What uniform `id` transmits for itself: its value, if it has a sink.
pub open spec fn own_transmission(g: Seq<Uniform>, id: int) -> Seq<Transmission> {
    match g[id].gl_sender {
        Some(s) => seq![Transmission { uniform: id as usize, handle: s.handle, value: g[id].value }],
        None => seq![],
    }
}

/// Appends `prefix` in front of a result, if there is one.
pub open spec fn prepend(prefix: Seq<Transmission>, rest: Option<Seq<Transmission>>) -> Option<
    Seq<Transmission>,
> {
    match rest {
        Some(ts) => Some(prefix + ts),
        None => None,
    }
}

/// The transmissions, in order, of flushing uniform `id`: its own, then
/// those of flushing each observer in list order. `path` lists the
/// uniforms whose flush is under way; coming back to one is a cycle, and
/// gives `None`.
pub open spec fn flush(g: Seq<Uniform>, id: int, path: Seq<int>) -> Option<Seq<Transmission>>
    decreases g.len() - path.len(), 1int, 0int,
{
    prepend(own_transmission(g, id), flush_from(g, id, path, 0))
}

/// The transmissions of flushing the observers of `id` from position `i` on.
pub open spec fn flush_from(g: Seq<Uniform>, id: int, path: Seq<int>, i: nat) -> Option<
    Seq<Transmission>,
>
    decreases g.len() - path.len(), 0int, g[id].observers@.len() - i,
{
    if i >= g[id].observers@.len() {
        Some(seq![])
    } else {
        let o = g[id].observers@[i as int] as int;
        if path.contains(o) || path.len() >= g.len() {
            None
        } else {
            match flush(g, o, path.push(o)) {
                Some(ts) => prepend(ts, flush_from(g, id, path, i + 1)),
                None => None,
            }
        }
    }
}

/// The transmissions of `send` on uniform `id`.
pub open spec fn send_result(g: Seq<Uniform>, id: int) -> Option<Seq<Transmission>> {
    flush(g, id, seq![id])
}

/// Appends to `out` the transmissions of flushing `id`; `on_path` marks the
/// uniforms of `path`, and `depth` is its length.
fn flush_exec(
    uniforms: &Vec<Uniform>,
    id: usize,
    on_path: &mut Vec<bool>,
    depth: usize,
    out: &mut Vec<Transmission>,
    Ghost(path): Ghost<Seq<int>>,
) -> (r: Result<(), UniformError>)
    requires
        uniforms_wf(uniforms@),
        id < uniforms@.len(),
        old(on_path)@.len() == uniforms@.len(),
        forall|k: int| 0 <= k < uniforms@.len() ==> (old(on_path)@[k] <==> path.contains(k)),
        depth == path.len(),
        path.len() <= uniforms@.len(),
    ensures
        final(on_path)@ == old(on_path)@,
        match flush(uniforms@, id as int, path) {
            Some(ts) => r is Ok && final(out)@ == old(out)@ + ts,
            None => r is Err,
        },
    decreases uniforms@.len() - path.len(),
{
    let ghost g = uniforms@;
    match uniforms[id].gl_sender {
        Some(s) => {
            out.push(Transmission { uniform: id, handle: s.handle, value: uniforms[id].value });
        },
        None => {},
    }
    let ghost start = out@;
    assert(start == old(out)@ + own_transmission(g, id as int));
    let n = uniforms.len();
    let n_obs = uniforms[id].observers.len();
    let mut i: usize = 0;
    while i < n_obs
        invariant
            g == uniforms@,
            uniforms_wf(g),
            id < g.len(),
            n == g.len(),
            n_obs == g[id as int].observers@.len(),
            i <= n_obs,
            on_path@ == old(on_path)@,
            on_path@.len() == g.len(),
            forall|k: int| 0 <= k < g.len() ==> (on_path@[k] <==> path.contains(k)),
            depth == path.len(),
            path.len() <= g.len(),
            start == old(out)@ + own_transmission(g, id as int),
            flush(g, id as int, path) == prepend(
                own_transmission(g, id as int),
                flush_from(g, id as int, path, 0),
            ),
            flush_from(g, id as int, path, 0) == prepend(
                out@.subrange(start.len() as int, out@.len() as int),
                flush_from(g, id as int, path, i as nat),
            ),
            start.len() <= out@.len(),
            out@.subrange(0, start.len() as int) == start,
        decreases n_obs - i,
    {
        let o = uniforms[id].observers[i];
        assert(crate::uniform::node_wf(g[id as int], g.len() as int));
        if on_path[o] || depth >= n {
            assert(flush_from(g, id as int, path, i as nat) is None);
            return Err(UniformError::CyclicDependency);
        }
        let ghost longer = path.push(o as int);
        let ghost before = out@;
        on_path.set(o, true);
        proof {
            assert forall|k: int| 0 <= k < g.len() implies (on_path@[k] <==> longer.contains(k)) by {
                lemma_push_contains(path, o as int, k);
            }
        }
        let r = flush_exec(uniforms, o, on_path, depth + 1, out, Ghost(longer));
        on_path.set(o, false);
        assert(on_path@ =~= old(on_path)@);
        if r.is_err() {
            return r;
        }
        proof {
            let ts = flush(g, o as int, longer)->Some_0;
            let done = before.subrange(start.len() as int, before.len() as int);
            assert(out@ =~= before + ts);
            assert(out@.subrange(start.len() as int, out@.len() as int) =~= done + ts);
            assert(out@.subrange(0, start.len() as int) =~= start);
            match flush_from(g, id as int, path, (i + 1) as nat) {
                Some(rest) => {
                    assert(done + (ts + rest) =~= (done + ts) + rest);
                },
                None => {},
            }
        }
        i = i + 1;
    }
    assert(out@ =~= start + out@.subrange(start.len() as int, out@.len() as int));
    proof {
        match flush_from(g, id as int, path, 0) {
            Some(rest) => {
                assert(out@ =~= old(out)@ + (own_transmission(g, id as int) + rest));
            },
            None => {},
        }
    }
    Ok(())
}

impl Uniform {
    /// The transmissions that flushing uniform `id` makes, in order: its own
    /// value if it has a sink, then, depth first, those of every observer.
    /// Nothing in the graph changes. Where the traversal meets a cycle, the
    /// error says so.
    pub fn send(uniforms: &Vec<Uniform>, id: usize) -> (r: Result<Vec<Transmission>, UniformError>)
        requires
            uniforms_wf(uniforms@),
            id < uniforms@.len(),
        ensures
            match send_result(uniforms@, id as int) {
                Some(ts) => r matches Ok(out) && out@ == ts,
                None => r == Err::<Vec<Transmission>, UniformError>(UniformError::CyclicDependency),
            },
    {
        let n = uniforms.len();
        let mut on_path: Vec<bool> = Vec::new();
        let mut k: usize = 0;
        while k < n
            invariant
                n == uniforms@.len(),
                k <= n,
                on_path@.len() == k,
                forall|j: int| 0 <= j < k ==> on_path@[j] == (j == id),
            decreases n - k,
        {
            on_path.push(k == id);
            k = k + 1;
        }
        let ghost start = seq![id as int];
        proof {
            assert forall|j: int| 0 <= j < n implies (on_path@[j] <==> start.contains(j)) by {
                if j == id {
                    assert(start[0] == j);
                }
            }
        }
        let mut out: Vec<Transmission> = Vec::new();
        let r = flush_exec(uniforms, id, &mut on_path, 1, &mut out, Ghost(start));
        assert(Seq::<Transmission>::empty() + out@ =~= out@);
        match r {
            Ok(()) => {
                proof {
                    let ts = send_result(uniforms@, id as int)->Some_0;
                    assert(Seq::<Transmission>::empty() + ts =~= ts);
                }
                Ok(out)
            },
            Err(_) => Err(UniformError::CyclicDependency),
        }
    }

    /// `set` followed by `send` on the same uniform; the second does not run
    /// where the first fails.
    pub fn set_and_send(uniforms: &mut Vec<Uniform>, id: usize, new_value: i32) -> (r: Result<
        Vec<Transmission>,
        UniformError,
    >)
        requires
            uniforms_wf(old(uniforms)@),
            id < old(uniforms)@.len(),
        ensures
            match set_result(old(uniforms)@, id as int, new_value) {
                Some(vals) => {
                    &&& same_structure(old(uniforms)@, final(uniforms)@)
                    &&& values_of(final(uniforms)@) == vals
                    &&& match send_result(final(uniforms)@, id as int) {
                        Some(ts) => r matches Ok(out) && out@ == ts,
                        None => r == Err::<Vec<Transmission>, UniformError>(
                            UniformError::CyclicDependency,
                        ),
                    }
                },
                None => r == Err::<Vec<Transmission>, UniformError>(UniformError::CyclicDependency)
                    && final(uniforms)@ == old(uniforms)@,
            },
    {
        match Uniform::set(uniforms, id, new_value) {
            Ok(()) => {
                proof {
                    crate::laws::lemma_same_structure_wf(old(uniforms)@, uniforms@);
                }
                Uniform::send(uniforms, id)
            },
            Err(e) => Err(e),
        }
    }
}

} // verus!
