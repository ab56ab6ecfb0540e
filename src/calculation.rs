use vstd::prelude::*;

verus! {

/// A uniform's rule: the sum of its inputs' values, times `mul`, divided by
/// `div` (rounded toward zero), saturated to the `i32` range.
pub struct Calculation {
    /// Indices of the uniforms whose values are summed.
    pub inputs: Vec<usize>,
    pub mul: i32,
    pub div: i32,
}

/// The values at the given indices, in their order.
pub open spec fn gather(inputs: Seq<usize>, vals: Seq<i32>) -> Seq<i32> {
    inputs.map_values(|k: usize| vals[k as int])
}

/// Integer division rounded toward zero, for a positive divisor.
pub open spec fn div_toward_zero(x: int, d: int) -> int {
    if x >= 0 {
        x / d
    } else {
        -((-x) / d)
    }
}

/// The nearest `i32` to `x`.
pub open spec fn saturate(x: int) -> i32 {
    if x < i32::MIN {
        i32::MIN
    } else if x > i32::MAX {
        i32::MAX
    } else {
        x as i32
    }
}

impl Calculation {
    pub open spec fn wf(&self) -> bool {
        self.div > 0
    }

    /// The value this rule gives when the uniforms hold `vals`.
    pub open spec fn spec_eval(&self, vals: Seq<i32>) -> i32 {
        saturate(div_toward_zero(sum_of(gather(self.inputs@, vals)) * self.mul, self.div as int))
    }

    /// A rule over `inputs`; there is none with a divisor that is not positive.
    pub fn new(inputs: Vec<usize>, mul: i32, div: i32) -> (r: Option<Calculation>)
        ensures
            r is Some <==> div > 0,
            r matches Some(c) ==> c.inputs@ == inputs@ && c.mul == mul && c.div == div,
    {
        if div > 0 {
            Some(Calculation { inputs, mul, div })
        } else {
            None
        }
    }

    /// Evaluates the rule on input values already gathered, in the order of `inputs`.
    pub fn eval(&self, gathered: &Vec<i32>) -> (r: i32)
        requires
            self.wf(),
        ensures
            r == saturate(div_toward_zero(sum_of(gathered@) * self.mul, self.div as int)),
    {
        let mut acc: i128 = 0;
        let mut i: usize = 0;
        while i < gathered.len()
            invariant
                i <= gathered@.len(),
                acc == sum_of(gathered@.take(i as int)),
                -(i as int) * 0x8000_0000 <= acc <= (i as int) * 0x8000_0000,
            decreases gathered@.len() - i,
        {
            assert(gathered@.take(i as int + 1).drop_last() =~= gathered@.take(i as int));
            acc = acc + gathered[i] as i128;
            i = i + 1;
        }
        assert(gathered@.take(i as int) =~= gathered@);
        finish(acc, self.mul, self.div)
    }
}

/// Sum of a sequence of values.
pub open spec fn sum_of(vals: Seq<i32>) -> int
    decreases vals.len(),
{
    if vals.len() == 0 {
        0
    } else {
        sum_of(vals.drop_last()) + vals.last() as int
    }
}

fn finish(sum: i128, mul: i32, div: i32) -> (r: i32)
    requires
        div > 0,
        -0x8000_0000_0000_0000_0000_0000 <= sum <= 0x8000_0000_0000_0000_0000_0000,
    ensures
        r == saturate(div_toward_zero(sum * mul, div as int)),
{
    assert(-0x4000_0000_0000_0000_0000_0000_0000_0000 <= sum * mul <= 0x4000_0000_0000_0000_0000_0000_0000_0000)
        by (nonlinear_arith)
        requires
            -0x8000_0000_0000_0000_0000_0000 <= sum <= 0x8000_0000_0000_0000_0000_0000,
            -0x8000_0000 <= mul <= 0x7fff_ffff,
    ;
    let p: i128 = sum * (mul as i128);
    let d: i128 = div as i128;
    let q: i128 = if p >= 0 {
        p / d
    } else {
        -((-p) / d)
    };
    if q < i32::MIN as i128 {
        i32::MIN
    } else if q > i32::MAX as i128 {
        i32::MAX
    } else {
        q as i32
    }
}

} // verus!
