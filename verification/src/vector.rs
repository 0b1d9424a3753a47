//! Fixed-length vectors of scalars.
//!
//! A `Vector` is an ordered sequence of `Scalar`s.  Element-wise arithmetic
//! returns `false` (leaving the receiver unchanged) when a component of the
//! exact result cannot be represented.

use crate::scalar::{
    abs_spec, add_spec, eqv, lemma_wf_consts, lt_spec, mul_spec, s_wf, sub_spec, zero_s, Scalar,
};
use vstd::prelude::*;

verus! {

#[derive(Debug)]
pub struct Vector {
    scalars: Vec<Scalar>,
}

impl View for Vector {
    type V = Seq<Scalar>;

    closed spec fn view(&self) -> Seq<Scalar> {
        self.scalars@
    }
}

/// Every entry is a well-formed scalar.
pub open spec fn seq_wf(s: Seq<Scalar>) -> bool {
    forall|i: int| 0 <= i < s.len() ==> s_wf(#[trigger] s[i])
}

// Element-wise spec operations.  The `_ok` form says every component of the
// exact result is representable.

pub open spec fn vadd_ok(a: Seq<Scalar>, b: Seq<Scalar>) -> bool {
    forall|i: int| 0 <= i < a.len() ==> (#[trigger] add_spec(a[i], b[i])) is Some
}

pub open spec fn vadd(a: Seq<Scalar>, b: Seq<Scalar>) -> Seq<Scalar> {
    Seq::new(a.len(), |i: int| add_spec(a[i], b[i])->Some_0)
}

pub open spec fn vsub_ok(a: Seq<Scalar>, b: Seq<Scalar>) -> bool {
    forall|i: int| 0 <= i < a.len() ==> (#[trigger] sub_spec(a[i], b[i])) is Some
}

pub open spec fn vsub(a: Seq<Scalar>, b: Seq<Scalar>) -> Seq<Scalar> {
    Seq::new(a.len(), |i: int| sub_spec(a[i], b[i])->Some_0)
}

pub open spec fn vmul_ok(a: Seq<Scalar>, b: Seq<Scalar>) -> bool {
    forall|i: int| 0 <= i < a.len() ==> (#[trigger] mul_spec(a[i], b[i])) is Some
}

pub open spec fn vmul(a: Seq<Scalar>, b: Seq<Scalar>) -> Seq<Scalar> {
    Seq::new(a.len(), |i: int| mul_spec(a[i], b[i])->Some_0)
}

pub open spec fn vscl_ok(a: Seq<Scalar>, k: Scalar) -> bool {
    forall|i: int| 0 <= i < a.len() ==> (#[trigger] mul_spec(a[i], k)) is Some
}

pub open spec fn vscl(a: Seq<Scalar>, k: Scalar) -> Seq<Scalar> {
    Seq::new(a.len(), |i: int| mul_spec(a[i], k)->Some_0)
}

/// The dot product of the first `n` components, combined left to right:
/// `a[0]*b[0] + a[1]*b[1] + ...`.
pub open spec fn dot_prefix(a: Seq<Scalar>, b: Seq<Scalar>, n: int) -> Option<Scalar>
    decreases n,
{
    if n <= 1 {
        mul_spec(a[0], b[0])
    } else {
        match dot_prefix(a, b, n - 1) {
            Some(s) => match mul_spec(a[n - 1], b[n - 1]) {
                Some(p) => add_spec(s, p),
                None => None,
            },
            None => None,
        }
    }
}

pub open spec fn dot_spec(a: Seq<Scalar>, b: Seq<Scalar>) -> Option<Scalar> {
    dot_prefix(a, b, a.len() as int)
}

proof fn lemma_dot_none_sticks(a: Seq<Scalar>, b: Seq<Scalar>, m: int, n: int)
    requires
        1 <= m <= n,
        dot_prefix(a, b, m) is None,
    ensures
        dot_prefix(a, b, n) is None,
    decreases n,
{
    if n > m {
        lemma_dot_none_sticks(a, b, m, n - 1);
    }
}

/// Sum of absolute values of the first `n` components.
pub open spec fn norm1_prefix(a: Seq<Scalar>, n: int) -> Option<Scalar>
    decreases n,
{
    if n <= 0 {
        Some(zero_s())
    } else {
        match norm1_prefix(a, n - 1) {
            Some(s) => add_spec(s, abs_spec(a[n - 1])),
            None => None,
        }
    }
}

pub open spec fn norm1_spec(a: Seq<Scalar>) -> Option<Scalar> {
    norm1_prefix(a, a.len() as int)
}

proof fn lemma_norm1_none_sticks(a: Seq<Scalar>, m: int, n: int)
    requires
        0 <= m <= n,
        norm1_prefix(a, m) is None,
    ensures
        norm1_prefix(a, n) is None,
    decreases n,
{
    if n > m {
        lemma_norm1_none_sticks(a, m, n - 1);
    }
}

/// Largest absolute value among the first `n` components (`0` for none).
pub open spec fn ninf_prefix(a: Seq<Scalar>, n: int) -> Scalar
    decreases n,
{
    if n <= 0 {
        zero_s()
    } else {
        let prev = ninf_prefix(a, n - 1);
        let cur = abs_spec(a[n - 1]);
        if lt_spec(prev, cur) {
            cur
        } else {
            prev
        }
    }
}

pub open spec fn ninf_spec(a: Seq<Scalar>) -> Scalar {
    ninf_prefix(a, a.len() as int)
}

impl Vector {
    /// A vector made of the given scalars.
    pub fn new(scalars: Vec<Scalar>) -> (r: Vector)
        ensures
            r@ == scalars@,
    {
        Vector { scalars }
    }

    /// The number of components.
    pub fn dimension(&self) -> (r: usize)
        ensures
            r == self@.len(),
    {
        self.scalars.len()
    }

    /// The number of components.
    pub fn len(&self) -> (r: usize)
        ensures
            r == self@.len(),
    {
        self.scalars.len()
    }

    pub fn is_empty(&self) -> (r: bool)
        ensures
            r == (self@.len() == 0),
    {
        self.scalars.len() == 0
    }

    /// The components, in order.
    pub fn scalars(&self) -> (r: &Vec<Scalar>)
        ensures
            r@ == self@,
    {
        &self.scalars
    }

    /// Append one component.
    pub fn push(&mut self, value: Scalar)
        ensures
            final(self)@ == old(self)@.push(value),
    {
        self.scalars.push(value);
    }

    /// The component at `i`.
    pub fn get(&self, i: usize) -> (r: Scalar)
        requires
            i < self@.len(),
        ensures
            r == self@[i as int],
    {
        self.scalars[i]
    }

    /// Replace the component at `i`.
    pub fn set(&mut self, i: usize, value: Scalar)
        requires
            i < old(self)@.len(),
        ensures
            final(self)@ == old(self)@.update(i as int, value),
    {
        self.scalars.set(i, value);
    }

    /// Component-wise sum, in place.  On `false` nothing changed: some
    /// component of the exact sum is not representable.
    pub fn add(&mut self, other: &Vector) -> (ok: bool)
        requires
            seq_wf(old(self)@),
            seq_wf(other@),
            old(self)@.len() == other@.len(),
        ensures
            ok == vadd_ok(old(self)@, other@),
            ok ==> final(self)@ == vadd(old(self)@, other@) && seq_wf(final(self)@),
            !ok ==> final(self)@ == old(self)@,
    {
        let n: usize = self.scalars.len();
        let mut out: Vec<Scalar> = Vec::new();
        let mut i: usize = 0;
        while i < n
            invariant
                n == self@.len(),
                self@.len() == other@.len(),
                seq_wf(self@),
                seq_wf(other@),
                0 <= i <= n,
                out@.len() == i,
                seq_wf(out@),
                forall|j: int|
                    0 <= j < i ==> (#[trigger] add_spec(self@[j], other@[j])) is Some && out@[j]
                        == add_spec(self@[j], other@[j])->Some_0,
            decreases n - i,
        {
            let s = self.scalars[i].add(other.scalars[i]);
            match s {
                Some(v) => out.push(v),
                None => {
                    return false;
                },
            }
            i += 1;
        }
        assert(vadd(self@, other@) =~= out@);
        self.scalars = out;
        true
    }

    /// Component-wise difference, in place; `false` leaves it unchanged.
    pub fn sub(&mut self, other: &Vector) -> (ok: bool)
        requires
            seq_wf(old(self)@),
            seq_wf(other@),
            old(self)@.len() == other@.len(),
        ensures
            ok == vsub_ok(old(self)@, other@),
            ok ==> final(self)@ == vsub(old(self)@, other@) && seq_wf(final(self)@),
            !ok ==> final(self)@ == old(self)@,
    {
        let n: usize = self.scalars.len();
        let mut out: Vec<Scalar> = Vec::new();
        let mut i: usize = 0;
        while i < n
            invariant
                n == self@.len(),
                self@.len() == other@.len(),
                seq_wf(self@),
                seq_wf(other@),
                0 <= i <= n,
                out@.len() == i,
                seq_wf(out@),
                forall|j: int|
                    0 <= j < i ==> (#[trigger] sub_spec(self@[j], other@[j])) is Some && out@[j]
                        == sub_spec(self@[j], other@[j])->Some_0,
            decreases n - i,
        {
            let s = self.scalars[i].sub(other.scalars[i]);
            match s {
                Some(v) => out.push(v),
                None => {
                    return false;
                },
            }
            i += 1;
        }
        assert(vsub(self@, other@) =~= out@);
        self.scalars = out;
        true
    }

    /// Component-wise product, in place; `false` leaves it unchanged.
    pub fn mul(&mut self, other: &Vector) -> (ok: bool)
        requires
            seq_wf(old(self)@),
            seq_wf(other@),
            old(self)@.len() == other@.len(),
        ensures
            ok == vmul_ok(old(self)@, other@),
            ok ==> final(self)@ == vmul(old(self)@, other@) && seq_wf(final(self)@),
            !ok ==> final(self)@ == old(self)@,
    {
        let n: usize = self.scalars.len();
        let mut out: Vec<Scalar> = Vec::new();
        let mut i: usize = 0;
        while i < n
            invariant
                n == self@.len(),
                self@.len() == other@.len(),
                seq_wf(self@),
                seq_wf(other@),
                0 <= i <= n,
                out@.len() == i,
                seq_wf(out@),
                forall|j: int|
                    0 <= j < i ==> (#[trigger] mul_spec(self@[j], other@[j])) is Some && out@[j]
                        == mul_spec(self@[j], other@[j])->Some_0,
            decreases n - i,
        {
            let s = self.scalars[i].mul(other.scalars[i]);
            match s {
                Some(v) => out.push(v),
                None => {
                    return false;
                },
            }
            i += 1;
        }
        assert(vmul(self@, other@) =~= out@);
        self.scalars = out;
        true
    }

    /// Scale every component by `scale`, in place; `false` leaves it
    /// unchanged.
    pub fn scl(&mut self, scale: Scalar) -> (ok: bool)
        requires
            seq_wf(old(self)@),
            s_wf(scale),
        ensures
            ok == vscl_ok(old(self)@, scale),
            ok ==> final(self)@ == vscl(old(self)@, scale) && seq_wf(final(self)@),
            !ok ==> final(self)@ == old(self)@,
    {
        let n: usize = self.scalars.len();
        let mut out: Vec<Scalar> = Vec::new();
        let mut i: usize = 0;
        while i < n
            invariant
                n == self@.len(),
                seq_wf(self@),
                s_wf(scale),
                0 <= i <= n,
                out@.len() == i,
                seq_wf(out@),
                forall|j: int|
                    0 <= j < i ==> (#[trigger] mul_spec(self@[j], scale)) is Some && out@[j]
                        == mul_spec(self@[j], scale)->Some_0,
            decreases n - i,
        {
            let s = self.scalars[i].mul(scale);
            match s {
                Some(v) => out.push(v),
                None => {
                    return false;
                },
            }
            i += 1;
        }
        assert(vscl(self@, scale) =~= out@);
        self.scalars = out;
        true
    }

    /// Dot product; `None` when an intermediate exact value is not
    /// representable.  The vectors must be non-empty and of equal length.
    pub fn dot(&self, other: &Vector) -> (r: Option<Scalar>)
        requires
            seq_wf(self@),
            seq_wf(other@),
            self@.len() == other@.len(),
            self@.len() > 0,
        ensures
            r == dot_spec(self@, other@),
            r is Some ==> s_wf(r->Some_0),
    {
        let n: usize = self.scalars.len();
        let first = self.scalars[0].mul(other.scalars[0]);
        let mut acc: Scalar;
        match first {
            Some(v) => {
                acc = v;
            },
            None => {
                proof {
                    lemma_dot_none_sticks(self@, other@, 1, n as int);
                }
                return None;
            },
        }
        let mut i: usize = 1;
        while i < n
            invariant
                n == self@.len(),
                self@.len() == other@.len(),
                seq_wf(self@),
                seq_wf(other@),
                1 <= i <= n,
                dot_prefix(self@, other@, i as int) == Some(acc),
                s_wf(acc),
            decreases n - i,
        {
            let p = self.scalars[i].mul(other.scalars[i]);
            match p {
                Some(v) => {
                    match acc.add(v) {
                        Some(s) => {
                            acc = s;
                        },
                        None => {
                            proof {
                                lemma_dot_none_sticks(self@, other@, i as int + 1, n as int);
                            }
                            return None;
                        },
                    }
                },
                None => {
                    proof {
                        lemma_dot_none_sticks(self@, other@, i as int + 1, n as int);
                    }
                    return None;
                },
            }
            i += 1;
        }
        Some(acc)
    }

    /// Sum of the absolute values of the components (the L1 norm), exact.
    pub fn norm_1(&self) -> (r: Option<Scalar>)
        requires
            seq_wf(self@),
        ensures
            r == norm1_spec(self@),
            r is Some ==> s_wf(r->Some_0),
    {
        let n: usize = self.scalars.len();
        let mut acc: Scalar = Scalar::zero();
        proof {
            lemma_wf_consts();
        }
        let mut i: usize = 0;
        while i < n
            invariant
                n == self@.len(),
                seq_wf(self@),
                0 <= i <= n,
                norm1_prefix(self@, i as int) == Some(acc),
                s_wf(acc),
            decreases n - i,
        {
            let a = self.scalars[i].abs();
            match acc.add(a) {
                Some(s) => {
                    acc = s;
                },
                None => {
                    proof {
                        lemma_norm1_none_sticks(self@, i as int + 1, n as int);
                    }
                    return None;
                },
            }
            i += 1;
        }
        Some(acc)
    }

    /// Largest absolute value of a component (the L-infinity norm), exact.
    pub fn norm_inf(&self) -> (r: Scalar)
        requires
            seq_wf(self@),
        ensures
            r == ninf_spec(self@),
            s_wf(r),
    {
        let n: usize = self.scalars.len();
        let mut acc: Scalar = Scalar::zero();
        proof {
            lemma_wf_consts();
        }
        let mut i: usize = 0;
        while i < n
            invariant
                n == self@.len(),
                seq_wf(self@),
                0 <= i <= n,
                ninf_prefix(self@, i as int) == acc,
                s_wf(acc),
            decreases n - i,
        {
            let a = self.scalars[i].abs();
            if acc.lt(&a) {
                acc = a;
            }
            i += 1;
        }
        acc
    }
}

/// The component sequences of a sequence of vectors.
pub open spec fn views_of(s: Seq<Vector>) -> Seq<Seq<Scalar>> {
    Seq::new(s.len(), |i: int| s[i]@)
}

/// Linear combination of the first `n` vectors, weighted by the first `n`
/// coefficients: `vs[0]*cs[0] + vs[1]*cs[1] + ...`.
pub open spec fn lc_prefix(vs: Seq<Seq<Scalar>>, cs: Seq<Scalar>, n: int) -> Option<Seq<Scalar>>
    decreases n,
{
    if n <= 1 {
        if vscl_ok(vs[0], cs[0]) {
            Some(vscl(vs[0], cs[0]))
        } else {
            None
        }
    } else {
        match lc_prefix(vs, cs, n - 1) {
            Some(acc) => if vscl_ok(vs[n - 1], cs[n - 1]) {
                let t = vscl(vs[n - 1], cs[n - 1]);
                if vadd_ok(acc, t) {
                    Some(vadd(acc, t))
                } else {
                    None
                }
            } else {
                None
            },
            None => None,
        }
    }
}

pub open spec fn lc_spec(vs: Seq<Seq<Scalar>>, cs: Seq<Scalar>) -> Option<Seq<Scalar>> {
    lc_prefix(vs, cs, vs.len() as int)
}

proof fn lemma_lc_none_sticks(vs: Seq<Seq<Scalar>>, cs: Seq<Scalar>, m: int, n: int)
    requires
        1 <= m <= n,
        lc_prefix(vs, cs, m) is None,
    ensures
        lc_prefix(vs, cs, n) is None,
    decreases n,
{
    if n > m {
        lemma_lc_none_sticks(vs, cs, m, n - 1);
    }
}

impl Vector {
    /// An independent copy.
    pub fn duplicate(&self) -> (r: Vector)
        ensures
            r@ == self@,
    {
        let n: usize = self.scalars.len();
        let mut out: Vec<Scalar> = Vec::new();
        let mut i: usize = 0;
        while i < n
            invariant
                n == self@.len(),
                0 <= i <= n,
                out@ == self@.take(i as int),
            decreases n - i,
        {
            out.push(self.scalars[i]);
            assert(out@ =~= self@.take(i as int + 1));
            i += 1;
        }
        assert(out@ =~= self@);
        Vector { scalars: out }
    }
}

/// Sum of the given vectors, each scaled by its coefficient; `None` when an
/// exact component overflows.  The vectors must agree in length.
pub fn linear_combination(vectors: &Vec<Vector>, coefs: &Vec<Scalar>) -> (r: Option<Vector>)
    requires
        vectors@.len() > 0,
        vectors@.len() == coefs@.len(),
        forall|i: int|
            0 <= i < vectors@.len() ==> seq_wf(#[trigger] vectors@[i]@) && vectors@[i]@.len()
                == vectors@[0]@.len(),
        seq_wf(coefs@),
    ensures
        match r {
            Some(v) => lc_spec(views_of(vectors@), coefs@) == Some(v@) && seq_wf(v@) && v@.len()
                == vectors@[0]@.len(),
            None => lc_spec(views_of(vectors@), coefs@) is None,
        },
{
    let ghost vs = views_of(vectors@);
    let n: usize = vectors.len();
    let mut acc: Vector = vectors[0].duplicate();
    if !acc.scl(coefs[0]) {
        proof {
            lemma_lc_none_sticks(vs, coefs@, 1, n as int);
        }
        return None;
    }
    let mut i: usize = 1;
    while i < n
        invariant
            n == vectors@.len(),
            vectors@.len() == coefs@.len(),
            forall|k: int|
                0 <= k < vectors@.len() ==> seq_wf(#[trigger] vectors@[k]@) && vectors@[k]@.len()
                    == vectors@[0]@.len(),
            seq_wf(coefs@),
            vs == views_of(vectors@),
            1 <= i <= n,
            lc_prefix(vs, coefs@, i as int) == Some(acc@),
            seq_wf(acc@),
            acc@.len() == vectors@[0]@.len(),
        decreases n - i,
    {
        let mut t: Vector = vectors[i].duplicate();
        if !t.scl(coefs[i]) {
            proof {
                lemma_lc_none_sticks(vs, coefs@, i as int + 1, n as int);
            }
            return None;
        }
        if !acc.add(&t) {
            proof {
                lemma_lc_none_sticks(vs, coefs@, i as int + 1, n as int);
            }
            return None;
        }
        i += 1;
    }
    Some(acc)
}

impl PartialEq for Vector {
    /// Equality of the denoted sequences of rationals.
    fn eq(&self, other: &Vector) -> (r: bool) {
        if self.scalars.len() != other.scalars.len() {
            return false;
        }
        let n: usize = self.scalars.len();
        let mut i: usize = 0;
        while i < n
            invariant
                n == self@.len(),
                self@.len() == other@.len(),
                0 <= i <= n,
                forall|j: int| 0 <= j < i ==> eqv(self@[j], other@[j]),
            decreases n - i,
        {
            if !(self.scalars[i] == other.scalars[i]) {
                return false;
            }
            i += 1;
        }
        true
    }
}

impl vstd::std_specs::cmp::PartialEqSpecImpl for Vector {
    open spec fn obeys_eq_spec() -> bool {
        true
    }

    open spec fn eq_spec(&self, other: &Vector) -> bool {
        self@.len() == other@.len() && (forall|i: int|
            0 <= i < self@.len() ==> eqv(self@[i], other@[i]))
    }
}

} // verus!
