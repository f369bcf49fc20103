//! The fractal variants and the escape-time iteration skeleton.

use vstd::prelude::*;

use crate::parse::str_eq;

verus! {

/// Flag for the render function to decide which equation to use.
#[derive(Copy, Clone, Debug, PartialEq, Eq, Structural)]
pub enum Fractal {
    MANDELBROT,
    JULIA,
    NEWTON,
}

/// The variant a textual token selects, if any.
pub open spec fn spec_fractal_of(s: Seq<char>) -> Option<Fractal> {
    if s == "mandelbrot"@ {
        Some(Fractal::MANDELBROT)
    } else if s == "julia"@ {
        Some(Fractal::JULIA)
    } else if s == "newton"@ {
        Some(Fractal::NEWTON)
    } else {
        None
    }
}

impl Fractal {
    /// Select a variant from its textual token; any other token is rejected.
    pub fn from_str(s: &str) -> (r: Result<Fractal, ()>)
        ensures
            match r {
                Ok(v) => spec_fractal_of(s@) == Some(v),
                Err(()) => spec_fractal_of(s@) is None,
            },
    {
        if str_eq(s, "mandelbrot") {
            Ok(Fractal::MANDELBROT)
        } else if str_eq(s, "julia") {
            Ok(Fractal::JULIA)
        } else if str_eq(s, "newton") {
            Ok(Fractal::NEWTON)
        } else {
            Err(())
        }
    }
}

/// One outcome the escape loop may reach from state `z` at iteration `i`:
/// some chain of admissible step results leads to the returned pair `r`,
/// bailing out at the iteration `r.0` encodes, or never within `limit`.
pub open spec fn escape_possible<Z, S: Fn(Z) -> Z, B: Fn(Z, Z) -> bool>(
    step: S,
    bail: B,
    z: Z,
    i: u32,
    limit: u32,
    r: (u32, Z),
) -> bool
    decreases limit - i,
{
    if i >= limit {
        r == (0u32, z)
    } else {
        exists|nz: Z|
            #[trigger] call_ensures(step, (z,), nz) && ((call_ensures(bail, (z, nz), true) && r
                == (((limit - i) as u32, nz))) || (call_ensures(bail, (z, nz), false)
                && escape_possible(step, bail, nz, (i + 1) as u32, limit, r)))
    }
}

/// The pair that iterating the mathematical step `f` with bailout
/// predicate `p` yields from state `z` at iteration `i`: the first
/// bailout is encoded as `limit - i`, staying inside as the sentinel 0.
pub open spec fn escape_from<Z>(
    f: spec_fn(Z) -> Z,
    p: spec_fn(Z, Z) -> bool,
    z: Z,
    i: u32,
    limit: u32,
) -> (u32, Z)
    decreases limit - i,
{
    if i >= limit {
        (0u32, z)
    } else {
        let nz = f(z);
        if p(z, nz) {
            (((limit - i) as u32, nz))
        } else {
            escape_from(f, p, nz, (i + 1) as u32, limit)
        }
    }
}

/// Run the escape loop: apply `step` up to `limit` times from `z0`, and
/// stop as soon as `bail` accepts the transition just made. The first
/// component of the result is `limit - i` for a bailout at iteration `i`
/// — large for a fast escape — and the sentinel 0 when no iteration
/// bailed out; the second is the final state either way.
pub fn escape_iterate<Z: Copy, S: Fn(Z) -> Z, B: Fn(Z, Z) -> bool>(
    z0: Z,
    limit: u32,
    step: S,
    bail: B,
) -> (r: (u32, Z))
    requires
        forall|z: Z| #[trigger] call_requires(step, (z,)),
        forall|a: Z, b: Z| #[trigger] call_requires(bail, (a, b)),
    ensures
        escape_possible(step, bail, z0, 0u32, limit, r),
{
    let mut z = z0;
    let mut i: u32 = 0;
    while i < limit
        invariant
            i <= limit,
            forall|zz: Z| #[trigger] call_requires(step, (zz,)),
            forall|a: Z, b: Z| #[trigger] call_requires(bail, (a, b)),
            forall|rr: (u32, Z)|
                #[trigger] escape_possible(step, bail, z, i, limit, rr) ==> escape_possible(
                    step,
                    bail,
                    z0,
                    0u32,
                    limit,
                    rr,
                ),
        decreases limit - i,
    {
        let nz = step(z);
        let esc = bail(z, nz);
        if esc {
            let r = (limit - i, nz);
            proof {
                assert(escape_possible(step, bail, z, i, limit, r));
            }
            return r;
        }
        proof {
            assert forall|rr: (u32, Z)|
                #[trigger] escape_possible(
                    step,
                    bail,
                    nz,
                    (i + 1) as u32,
                    limit,
                    rr,
                ) implies escape_possible(step, bail, z0, 0u32, limit, rr) by {
                assert(escape_possible(step, bail, z, i, limit, rr));
            }
        }
        z = nz;
        i = i + 1;
    }
    let r = (0u32, z);
    proof {
        assert(escape_possible(step, bail, z, i, limit, r));
    }
    r
}

/// Law: a fixed point of the step that the bailout never accepts stays
/// inside for every limit: the escape code is the 0 sentinel and the
/// state comes back unchanged. The Mandelbrot recurrence at the origin
/// is such a point, whatever the iteration limit.
pub proof fn lemma_fixed_point_never_escapes<Z>(
    f: spec_fn(Z) -> Z,
    p: spec_fn(Z, Z) -> bool,
    z: Z,
    i: u32,
    limit: u32,
)
    requires
        f(z) == z,
        !p(z, z),
    ensures
        escape_from(f, p, z, i, limit) == (0u32, z),
    decreases limit - i,
{
    if i < limit {
        lemma_fixed_point_never_escapes(f, p, z, (i + 1) as u32, limit);
    }
}

/// Law: a starting state whose very first transition the bailout accepts
/// escapes with the full code `limit`, for every positive limit. A point
/// already outside the bailout radius leaves on the first iteration.
pub proof fn lemma_immediate_escape<Z>(
    f: spec_fn(Z) -> Z,
    p: spec_fn(Z, Z) -> bool,
    z: Z,
    limit: u32,
)
    requires
        p(z, f(z)),
        limit >= 1,
    ensures
        escape_from(f, p, z, 0u32, limit) == (limit, f(z)),
{
}

/// Law: when `step` and `bail` are deterministic — every result they
/// admit is the one the functions `f` and `p` give — the escape loop has
/// exactly one admissible outcome, the mathematical escape pair. Two runs
/// on the same inputs therefore return the same escape code and state.
pub proof fn lemma_escape_deterministic<Z, S: Fn(Z) -> Z, B: Fn(Z, Z) -> bool>(
    step: S,
    bail: B,
    f: spec_fn(Z) -> Z,
    p: spec_fn(Z, Z) -> bool,
    z: Z,
    i: u32,
    limit: u32,
    r: (u32, Z),
)
    requires
        escape_possible(step, bail, z, i, limit, r),
        forall|a: Z, b: Z| #[trigger] call_ensures(step, (a,), b) ==> b == f(a),
        forall|a: Z, b: Z, c: bool| #[trigger] call_ensures(bail, (a, b), c) ==> c == p(a, b),
    ensures
        r == escape_from(f, p, z, i, limit),
    decreases limit - i,
{
    if i < limit {
        let nz = choose|nz: Z|
            #[trigger] call_ensures(step, (z,), nz) && ((call_ensures(bail, (z, nz), true) && r
                == (((limit - i) as u32, nz))) || (call_ensures(bail, (z, nz), false)
                && escape_possible(step, bail, nz, (i + 1) as u32, limit, r)));
        assert(nz == f(z));
        if call_ensures(bail, (z, nz), true) {
            assert(p(z, nz));
            assert(r == (((limit - i) as u32, nz)));
        } else {
            assert(!p(z, nz));
            lemma_escape_deterministic(step, bail, f, p, nz, (i + 1) as u32, limit, r);
        }
    }
}

} // verus!
