use vstd::prelude::*;
use crate::calculation::{gather, Calculation};

verus! {

/// Where a uniform's value goes on the rendering surface: its location in
/// the shader program.
#[derive(Clone, Copy, PartialEq, Eq, Structural, Debug)]
pub struct GlSender {
    pub handle: i32,
}

impl GlSender {
    pub fn new(handle: i32) -> (r: GlSender)
        ensures
            r.handle == handle,
    {
        GlSender { handle }
    }
}

/// One node of the graph. Uniforms live in a `Vec` and name each other by
/// index there.
pub struct Uniform {
    /// The current value.
    pub value: i32,
    /// The uniforms that are recomputed when this one changes, in order.
    pub observers: Vec<usize>,
    /// How the value is recomputed; a uniform without one is a root.
    pub calculation: Option<Calculation>,
    /// Where the value is sent; a uniform without one is partial.
    pub gl_sender: Option<GlSender>,
}

/// Why a traversal of the graph did not run.
#[derive(Clone, Copy, PartialEq, Eq, Structural, Debug)]
pub enum UniformError {
    /// The traversal came back to a uniform it had not finished.
    CyclicDependency,
}

/// A value to hand to the rendering surface.
#[derive(Clone, Copy, PartialEq, Eq, Structural, Debug)]
pub struct Transmission {
    /// Index of the uniform sent.
    pub uniform: usize,
    /// Its shader location.
    pub handle: i32,
    pub value: i32,
}

/// Every index held by `u` names a uniform among `n`, and its rule divides
/// by a positive number.
pub open spec fn node_wf(u: Uniform, n: int) -> bool {
    &&& forall|j: int| 0 <= j < u.observers@.len() ==> u.observers@[j] < n
    &&& u.calculation matches Some(c) ==> {
        &&& c.wf()
        &&& forall|j: int| 0 <= j < c.inputs@.len() ==> c.inputs@[j] < n
    }
}

pub open spec fn uniforms_wf(g: Seq<Uniform>) -> bool {
    &&& g.len() <= usize::MAX
    &&& forall|i: int| 0 <= i < g.len() ==> node_wf(#[trigger] g[i], g.len() as int)
}

/// The values of all uniforms, by index.
pub open spec fn values_of(g: Seq<Uniform>) -> Seq<i32> {
    g.map_values(|u: Uniform| u.value)
}

/// `a` and `b` differ at most in the uniforms' values.
pub open spec fn same_structure(a: Seq<Uniform>, b: Seq<Uniform>) -> bool {
    &&& a.len() == b.len()
    &&& forall|i: int|
        0 <= i < a.len() ==> {
            &&& (#[trigger] a[i]).observers == b[i].observers
            &&& a[i].calculation == b[i].calculation
            &&& a[i].gl_sender == b[i].gl_sender
        }
}

impl Uniform {
    /// A uniform with the given value and slots.
    pub fn new(
        value: i32,
        observers: Vec<usize>,
        calculation: Option<Calculation>,
        gl_sender: Option<GlSender>,
    ) -> (r: Uniform)
        ensures
            r.value == value,
            r.observers == observers,
            r.calculation == calculation,
            r.gl_sender == gl_sender,
    {
        Uniform { value, observers, calculation, gl_sender }
    }

    pub fn get(&self) -> (r: i32)
        ensures
            r == self.value,
    {
        self.value
    }

    /// Replaces the rule; nothing is recomputed until the next notification.
    pub fn set_calculation(&mut self, calculation: Calculation)
        ensures
            final(self).calculation == Some(calculation),
            final(self).value == old(self).value,
            final(self).observers == old(self).observers,
            final(self).gl_sender == old(self).gl_sender,
    {
        self.calculation = Some(calculation);
    }

    /// Replaces the whole list of observers.
    pub fn set_observers(&mut self, observers: Vec<usize>)
        ensures
            final(self).observers == observers,
            final(self).value == old(self).value,
            final(self).calculation == old(self).calculation,
            final(self).gl_sender == old(self).gl_sender,
    {
        self.observers = observers;
    }

    /// Replaces the sink.
    pub fn set_gl_sender(&mut self, gl_sender: Option<GlSender>)
        ensures
            final(self).gl_sender == gl_sender,
            final(self).value == old(self).value,
            final(self).calculation == old(self).calculation,
            final(self).observers == old(self).observers,
    {
        self.gl_sender = gl_sender;
    }

    /// Whether every index in the graph names one of its uniforms and every
    /// rule divides by a positive number.
    pub fn is_well_formed(uniforms: &Vec<Uniform>) -> (r: bool)
        ensures
            r == uniforms_wf(uniforms@),
    {
        let n = uniforms.len();
        let mut i: usize = 0;
        while i < n
            invariant
                n == uniforms@.len(),
                i <= n,
                forall|k: int| 0 <= k < i ==> node_wf(#[trigger] uniforms@[k], n as int),
            decreases n - i,
        {
            if !node_is_wf(&uniforms[i], n) {
                return false;
            }
            i = i + 1;
        }
        true
    }
}

fn indices_below(v: &Vec<usize>, n: usize) -> (r: bool)
    ensures
        r == forall|j: int| 0 <= j < v@.len() ==> v@[j] < n,
{
    let mut j: usize = 0;
    while j < v.len()
        invariant
            j <= v@.len(),
            forall|k: int| 0 <= k < j ==> v@[k] < n,
        decreases v@.len() - j,
    {
        if v[j] >= n {
            return false;
        }
        j = j + 1;
    }
    true
}

fn node_is_wf(u: &Uniform, n: usize) -> (r: bool)
    ensures
        r == node_wf(*u, n as int),
{
    if !indices_below(&u.observers, n) {
        return false;
    }
    match &u.calculation {
        Some(c) => c.div > 0 && indices_below(&c.inputs, n),
        None => true,
    }
}

/// The value that rule `c` gives on the uniforms' current values.
pub(crate) fn recompute(uniforms: &Vec<Uniform>, c: &Calculation) -> (r: i32)
    requires
        c.wf(),
        forall|j: int| 0 <= j < c.inputs@.len() ==> c.inputs@[j] < uniforms@.len(),
    ensures
        r == c.spec_eval(values_of(uniforms@)),
{
    let mut gathered: Vec<i32> = Vec::new();
    let mut j: usize = 0;
    while j < c.inputs.len()
        invariant
            j <= c.inputs@.len(),
            forall|k: int| 0 <= k < c.inputs@.len() ==> c.inputs@[k] < uniforms@.len(),
            gathered@ == gather(c.inputs@.take(j as int), values_of(uniforms@)),
        decreases c.inputs@.len() - j,
    {
        gathered.push(uniforms[c.inputs[j]].value);
        j = j + 1;
        assert(gathered@ =~= gather(c.inputs@.take(j as int), values_of(uniforms@)));
    }
    assert(c.inputs@.take(j as int) =~= c.inputs@);
    c.eval(&gathered)
}

} // verus!
