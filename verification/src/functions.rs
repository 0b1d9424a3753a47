//! Small closed-form operations: the 3-D cross product and linear
//! interpolation of scalars.

use crate::scalar::{
    add_spec, lt_spec, mul_spec, one_s, s_wf, sub_spec, zero_s, Scalar,
};
use crate::vector::{seq_wf, Vector};
use vstd::prelude::*;

verus! {

/// One component of the cross product: `a[i] * b[j] - a[j] * b[i]`.
pub open spec fn cross_term(a: Seq<Scalar>, b: Seq<Scalar>, i: int, j: int) -> Option<Scalar> {
    match mul_spec(a[i], b[j]) {
        Some(x) => match mul_spec(a[j], b[i]) {
            Some(y) => sub_spec(x, y),
            None => None,
        },
        None => None,
    }
}

/// The cross product of two 3-D vectors; `None` when an exact component is
/// not representable.
pub fn cross_product(u: &Vector, v: &Vector) -> (r: Option<Vector>)
    requires
        seq_wf(u@),
        seq_wf(v@),
        u@.len() == 3,
        v@.len() == 3,
    ensures
        match r {
            Some(w) => {
                &&& cross_term(u@, v@, 1, 2) == Some(w@[0])
                &&& cross_term(u@, v@, 2, 0) == Some(w@[1])
                &&& cross_term(u@, v@, 0, 1) == Some(w@[2])
                &&& w@.len() == 3
                &&& seq_wf(w@)
            },
            None => cross_term(u@, v@, 1, 2) is None || cross_term(u@, v@, 2, 0) is None
                || cross_term(u@, v@, 0, 1) is None,
        },
{
    let ux = u.get(0);
    let uy = u.get(1);
    let uz = u.get(2);
    let vx = v.get(0);
    let vy = v.get(1);
    let vz = v.get(2);
    let c0 = cross_component(uy, vz, uz, vy);
    let c1 = cross_component(uz, vx, ux, vz);
    let c2 = cross_component(ux, vy, uy, vx);
    match c0 {
        Some(w0) => match c1 {
            Some(w1) => match c2 {
                Some(w2) => {
                    let mut out: Vec<Scalar> = Vec::new();
                    out.push(w0);
                    out.push(w1);
                    out.push(w2);
                    Some(Vector::new(out))
                },
                None => None,
            },
            None => None,
        },
        None => None,
    }
}

/// `a * b - c * d`, exactly.
fn cross_component(a: Scalar, b: Scalar, c: Scalar, d: Scalar) -> (r: Option<Scalar>)
    requires
        s_wf(a),
        s_wf(b),
        s_wf(c),
        s_wf(d),
    ensures
        ({
            let spec_r = match mul_spec(a, b) {
                Some(x) => match mul_spec(c, d) {
                    Some(y) => sub_spec(x, y),
                    None => None,
                },
                None => None,
            };
            r == spec_r && (r is Some ==> s_wf(r->Some_0))
        }),
{
    match a.mul(b) {
        Some(x) => match c.mul(d) {
            Some(y) => x.sub(y),
            None => None,
        },
        None => None,
    }
}

/// Linear interpolation `u + (v - u) * t`, exactly.
pub open spec fn lerp_spec(u: Scalar, v: Scalar, t: Scalar) -> Option<Scalar> {
    match sub_spec(v, u) {
        Some(d) => match mul_spec(d, t) {
            Some(s) => add_spec(u, s),
            None => None,
        },
        None => None,
    }
}

/// Interpolate between two scalars; `t` must lie in `[0, 1]`.
/// `None` when an exact intermediate value is not representable.
pub fn lerp_generic(u: Scalar, v: Scalar, t: Scalar) -> (r: Option<Scalar>)
    requires
        s_wf(u),
        s_wf(v),
        s_wf(t),
        !lt_spec(t, zero_s()),
        !lt_spec(one_s(), t),
    ensures
        r == lerp_spec(u, v, t),
        r is Some ==> s_wf(r->Some_0),
{
    match v.sub(u) {
        Some(d) => match d.mul(t) {
            Some(s) => u.add(s),
            None => None,
        },
        None => None,
    }
}

} // verus!
