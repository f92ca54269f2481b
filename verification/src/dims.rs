//! Physical dimensions: the exponents of the seven base units. Multiplying
//! two quantities adds their exponents, dividing subtracts them, raising to
//! a power multiplies them.
use vstd::prelude::*;

use vstd::arithmetic::power::{lemma_pow_strictly_increases, pow};

verus! {

/// Number of base units.
pub const ORC_NUM_DIMS: usize = 7;

/// Each exponent of `a` plus the one of `b` fits in an `i32`.
pub open spec fn sums_fit(a: Seq<i32>, b: Seq<i32>) -> bool {
    forall|i: int| 0 <= i < 7 ==> i32::MIN <= #[trigger] a[i] + b[i] <= i32::MAX
}

/// Each exponent of `a` minus the one of `b` fits in an `i32`.
pub open spec fn differences_fit(a: Seq<i32>, b: Seq<i32>) -> bool {
    forall|i: int| 0 <= i < 7 ==> i32::MIN <= #[trigger] a[i] - b[i] <= i32::MAX
}

/// Each exponent of `a` times `k` fits in an `i32`.
pub open spec fn products_fit(a: Seq<i32>, k: int) -> bool {
    forall|i: int| 0 <= i < 7 ==> i32::MIN <= #[trigger] a[i] * k <= i32::MAX
}

/// Each exponent of `a` to the power `e` fits in an `i32`.
pub open spec fn powers_fit(a: Seq<i32>, e: nat) -> bool {
    forall|i: int| 0 <= i < 7 ==> i32::MIN <= #[trigger] pow(a[i] as int, e) <= i32::MAX
}

/// The dimensions of a product: exponents added.
pub fn dims_multiply(dims: &[i32; 7], other: &[i32; 7]) -> (r: [i32; 7])
    requires
        sums_fit(dims@, other@),
    ensures
        forall|i: int| 0 <= i < 7 ==> #[trigger] r@[i] == dims@[i] + other@[i],
{
    let mut out: [i32; 7] = [0, 0, 0, 0, 0, 0, 0];
    let mut i: usize = 0;
    while i < ORC_NUM_DIMS
        invariant
            0 <= i <= 7,
            sums_fit(dims@, other@),
            forall|j: int| 0 <= j < i ==> #[trigger] out@[j] == dims@[j] + other@[j],
        decreases 7 - i,
    {
        assert(i32::MIN <= dims@[i as int] + other@[i as int] <= i32::MAX);
        out[i] = dims[i] + other[i];
        i = i + 1;
    }
    out
}

/// The dimensions of a quotient: exponents subtracted.
pub fn dims_divide(dims: &[i32; 7], other: &[i32; 7]) -> (r: [i32; 7])
    requires
        differences_fit(dims@, other@),
    ensures
        forall|i: int| 0 <= i < 7 ==> #[trigger] r@[i] == dims@[i] - other@[i],
{
    let mut out: [i32; 7] = [0, 0, 0, 0, 0, 0, 0];
    let mut i: usize = 0;
    while i < ORC_NUM_DIMS
        invariant
            0 <= i <= 7,
            differences_fit(dims@, other@),
            forall|j: int| 0 <= j < i ==> #[trigger] out@[j] == dims@[j] - other@[j],
        decreases 7 - i,
    {
        assert(i32::MIN <= dims@[i as int] - other@[i as int] <= i32::MAX);
        out[i] = dims[i] - other[i];
        i = i + 1;
    }
    out
}

/// The dimensions of a power: exponents multiplied by `exponent`.
pub fn dims_pow(dims: &[i32; 7], exponent: i32) -> (r: [i32; 7])
    requires
        products_fit(dims@, exponent as int),
    ensures
        forall|i: int| 0 <= i < 7 ==> #[trigger] r@[i] == dims@[i] * exponent,
{
    let mut out: [i32; 7] = [0, 0, 0, 0, 0, 0, 0];
    let mut i: usize = 0;
    while i < ORC_NUM_DIMS
        invariant
            0 <= i <= 7,
            products_fit(dims@, exponent as int),
            forall|j: int| 0 <= j < i ==> #[trigger] out@[j] == dims@[j] * exponent,
        decreases 7 - i,
    {
        assert(i32::MIN <= dims@[i as int] * exponent <= i32::MAX);
        out[i] = dims[i] * exponent;
        i = i + 1;
    }
    out
}

/// Dividing by the dimensions just multiplied by gives the dimensions back.
pub proof fn law_divide_undoes_multiply(a: Seq<i32>, b: Seq<i32>, product: Seq<i32>, quotient: Seq<i32>)
    requires
        forall|i: int| 0 <= i < 7 ==> #[trigger] product[i] == a[i] + b[i],
        forall|i: int| 0 <= i < 7 ==> #[trigger] quotient[i] == product[i] - b[i],
    ensures
        forall|i: int| 0 <= i < 7 ==> #[trigger] quotient[i] == a[i],
{
    assert forall|i: int| 0 <= i < 7 implies #[trigger] quotient[i] == a[i] by {
        assert(product[i] == a[i] + b[i]);
    }
}

/// Exponents of the base units, as a type of its own.
#[derive(Clone, Copy, Debug, PartialEq, Eq)]
pub struct OrcDims(pub [i32; 7]);

impl Default for OrcDims {
    fn default() -> (r: Self)
        ensures
            forall|i: int| 0 <= i < 7 ==> #[trigger] r.0@[i] == 0,
    {
        OrcDims([0, 0, 0, 0, 0, 0, 0])
    }
}

pub open spec fn abs(x: int) -> int {
    if x < 0 {
        -x
    } else {
        x
    }
}

proof fn lemma_pow_abs(b: int, e: nat)
    ensures
        abs(pow(b, e)) == pow(abs(b), e),
    decreases e,
{
    reveal(pow);
    if e > 0 {
        lemma_pow_abs(b, (e - 1) as nat);
        let p = pow(b, (e - 1) as nat);
        assert(abs(b * p) == abs(b) * abs(p)) by (nonlinear_arith);
    }
}

proof fn lemma_pow_small(b: int, e: nat)
    requires
        abs(b) <= 1,
    ensures
        abs(pow(b, e)) <= 1,
    decreases e,
{
    reveal(pow);
    if e > 0 {
        lemma_pow_small(b, (e - 1) as nat);
        let p = pow(b, (e - 1) as nat);
        assert(abs(b * p) <= 1) by (nonlinear_arith)
            requires
                abs(b) <= 1,
                abs(p) <= 1,
        ;
    }
}

/// `b` to the power `k`, for every `k` up to `e`, fits in an `i32` when
/// `b` to the power `e` does.
proof fn lemma_pow_prefix_fits(b: int, k: nat, e: nat)
    requires
        k <= e,
        i32::MIN <= pow(b, e) <= i32::MAX,
    ensures
        i32::MIN <= pow(b, k) <= i32::MAX,
{
    if abs(b) <= 1 {
        lemma_pow_small(b, k);
    } else if k < e {
        lemma_pow_abs(b, k);
        lemma_pow_abs(b, e);
        lemma_pow_strictly_increases(abs(b) as nat, k, e);
    }
}

/// `b` to the power `e`, computed by repeated multiplication.
fn pow_i32(b: i32, e: u32) -> (r: i32)
    requires
        i32::MIN <= pow(b as int, e as nat) <= i32::MAX,
    ensures
        r == pow(b as int, e as nat),
{
    let mut acc: i32 = 1;
    let mut k: u32 = 0;
    proof {
        reveal(pow);
    }
    while k < e
        invariant
            k <= e,
            acc == pow(b as int, k as nat),
            i32::MIN <= pow(b as int, e as nat) <= i32::MAX,
        decreases e - k,
    {
        proof {
            reveal(pow);
            lemma_pow_prefix_fits(b as int, (k + 1) as nat, e as nat);
            assert(pow(b as int, (k + 1) as nat) == b * pow(b as int, k as nat));
        }
        acc = acc * b;
        k = k + 1;
    }
    acc
}

impl OrcDims {
    /// The dimensions of a product: exponents added.
    pub fn multiply(&self, other: &OrcDims) -> (r: OrcDims)
        requires
            sums_fit(self.0@, other.0@),
        ensures
            forall|i: int| 0 <= i < 7 ==> #[trigger] r.0@[i] == self.0@[i] + other.0@[i],
    {
        OrcDims(dims_multiply(&self.0, &other.0))
    }

    /// The dimensions of a quotient: exponents subtracted.
    pub fn divide(&self, other: &OrcDims) -> (r: OrcDims)
        requires
            differences_fit(self.0@, other.0@),
        ensures
            forall|i: int| 0 <= i < 7 ==> #[trigger] r.0@[i] == self.0@[i] - other.0@[i],
    {
        OrcDims(dims_divide(&self.0, &other.0))
    }

    /// Each exponent raised to the power `exponent`.
    pub fn pow(&self, exponent: u32) -> (r: OrcDims)
        requires
            powers_fit(self.0@, exponent as nat),
        ensures
            forall|i: int| 0 <= i < 7 ==> #[trigger] r.0@[i] == pow(self.0@[i] as int, exponent as nat),
    {
        let mut out: [i32; 7] = [0, 0, 0, 0, 0, 0, 0];
        let mut i: usize = 0;
        while i < ORC_NUM_DIMS
            invariant
                0 <= i <= 7,
                powers_fit(self.0@, exponent as nat),
                forall|j: int| 0 <= j < i ==> #[trigger] out@[j] == pow(self.0@[j] as int, exponent as nat),
            decreases 7 - i,
        {
            assert(i32::MIN <= pow(self.0@[i as int] as int, exponent as nat) <= i32::MAX);
            out[i] = pow_i32(self.0[i], exponent);
            i = i + 1;
        }
        OrcDims(out)
    }
}

} // verus!
