//! Rank-1 constraint systems: variables carrying field values, and constraints
//! `A * B = C` between linear combinations of them, the data that the gadgets build.
use crate::field::{lemma_no_zero_divisors, PrimeField};
use vstd::arithmetic::div_mod::*;
use vstd::arithmetic::mul::*;
use vstd::prelude::*;

verus! {

/// Index of the variable that always holds the value one.
pub const ONE_VARIABLE: usize = 0;

/// Errors that constraint synthesis reports.
#[derive(Debug, Clone, Copy, PartialEq, Eq)]
pub enum SynthesisError {
    /// A value needed to compute an assignment is missing.
    AssignmentMissing,
    /// Vectors that must have matching lengths do not.
    IncompatibleLengthVector,
    /// A division by zero was attempted.
    DivisionByZero,
}

/// A sum of `coefficient * variable` terms.
#[derive(Clone, Debug)]
pub struct LinearCombination<F> {
    /// The terms, as (variable index, coefficient).
    pub terms: Vec<(usize, F)>,
}

/// One constraint `a * b = c`.
#[derive(Clone, Debug)]
pub struct Constraint<F> {
    pub a: LinearCombination<F>,
    pub b: LinearCombination<F>,
    pub c: LinearCombination<F>,
}

/// A constraint system together with a full assignment of its variables.
///
/// Variable `ONE_VARIABLE` is the constant one.
#[derive(Clone, Debug)]
pub struct ConstraintSystem<F> {
    /// The value assigned to each variable.
    pub values: Vec<F>,
    /// The constraints enforced so far, in order.
    pub constraints: Vec<Constraint<F>>,
}

/// An allocated field element.
#[derive(Clone, Copy, Debug)]
pub struct AllocatedNum<F> {
    /// Its variable.
    pub variable: usize,
    /// The value assigned to it.
    pub value: F,
}

/// An allocated bit, constrained to be boolean.
#[derive(Clone, Copy, Debug)]
pub struct AllocatedBit {
    /// Its variable.
    pub variable: usize,
    /// The value assigned to it.
    pub value: bool,
}

/// A boolean: an allocated bit, its negation, or a constant.
#[derive(Clone, Copy, Debug)]
pub enum Boolean {
    Is(AllocatedBit),
    Not(AllocatedBit),
    Constant(bool),
}

/// The integer that a boolean stands for.
pub open spec fn bool_int(b: bool) -> int {
    if b {
        1
    } else {
        0
    }
}

/// The value of a linear combination under an assignment `w` of integers to variables.
pub open spec fn lc_eval<F: PrimeField>(terms: Seq<(usize, F)>, w: Seq<int>) -> int
    decreases terms.len(),
{
    if terms.len() == 0 {
        0
    } else {
        lc_eval(terms.drop_last(), w) + terms.last().1.val() * w[terms.last().0 as int]
    }
}

/// `x == y` in the field of `F`.
pub open spec fn congruent<F: PrimeField>(x: int, y: int) -> bool {
    (x - y) % (F::modulus() as int) == 0
}

/// The constraint holds under the assignment `w`.
pub open spec fn constraint_holds<F: PrimeField>(c: Constraint<F>, w: Seq<int>) -> bool {
    congruent::<F>(lc_eval(c.a.terms@, w) * lc_eval(c.b.terms@, w), lc_eval(c.c.terms@, w))
}

/// Every constraint of `cs` holds under `w`.
pub open spec fn all_hold<F: PrimeField>(cs: Seq<Constraint<F>>, w: Seq<int>) -> bool {
    forall|i: int| 0 <= i < cs.len() ==> constraint_holds(#[trigger] cs[i], w)
}

/// The variables that a linear combination mentions lie below `n`.
pub open spec fn lc_within<F>(lc: LinearCombination<F>, n: nat) -> bool {
    forall|i: int| 0 <= i < lc.terms@.len() ==> (#[trigger] lc.terms@[i]).0 < n
}

/// The variables of a constraint lie below `n`.
pub open spec fn constraint_within<F>(c: Constraint<F>, n: nat) -> bool {
    lc_within(c.a, n) && lc_within(c.b, n) && lc_within(c.c, n)
}

/// The integers assigned by a sequence of field values.
pub open spec fn value_ints<F: PrimeField>(values: Seq<F>) -> Seq<int> {
    values.map_values(|x: F| x.val() as int)
}

/// An assignment in which the constant-one variable is one.
pub open spec fn one_is_one(w: Seq<int>) -> bool {
    w.len() > 0 && w[ONE_VARIABLE as int] == 1
}

/// The value that a boolean stands for under `w`.
pub open spec fn boolean_eval(b: Boolean, w: Seq<int>) -> int {
    match b {
        Boolean::Is(bit) => w[bit.variable as int],
        Boolean::Not(bit) => 1 - w[bit.variable as int],
        Boolean::Constant(c) => bool_int(c),
    }
}

/// The truth value that a boolean carries.
pub open spec fn boolean_value(b: Boolean) -> bool {
    match b {
        Boolean::Is(bit) => bit.value,
        Boolean::Not(bit) => !bit.value,
        Boolean::Constant(c) => c,
    }
}

/// `x` is congruent to 0 or 1.
pub open spec fn is_boolean_int<F: PrimeField>(x: int) -> bool {
    congruent::<F>(x, 0) || congruent::<F>(x, 1)
}

impl<F: PrimeField> ConstraintSystem<F> {
    /// The assignment as integers.
    pub open spec fn w(&self) -> Seq<int> {
        value_ints(self.values@)
    }

    /// The system is well formed: the constant variable holds one and every
    /// constraint mentions allocated variables only.
    pub open spec fn wf(&self) -> bool {
        &&& self.values@.len() > 0
        &&& self.values@[ONE_VARIABLE as int].val() == 1
        &&& forall|i: int|
            0 <= i < self.constraints@.len() ==> constraint_within(
                #[trigger] self.constraints@[i],
                self.values@.len(),
            )
    }

    /// Every constraint holds under the system's own assignment.
    pub open spec fn satisfied(&self) -> bool {
        all_hold(self.constraints@, self.w())
    }

    /// `n` is a number allocated in this system with its recorded value.
    pub open spec fn holds_num(&self, n: AllocatedNum<F>) -> bool {
        &&& n.variable < self.values@.len()
        &&& self.values@[n.variable as int].val() == n.value.val()
    }

    /// `b` is a bit allocated in this system with its recorded value.
    pub open spec fn holds_bit(&self, b: AllocatedBit) -> bool {
        &&& b.variable < self.values@.len()
        &&& self.values@[b.variable as int].val() == bool_int(b.value)
    }

    /// `b` refers only to bits allocated in this system with their recorded values.
    pub open spec fn holds_boolean(&self, b: Boolean) -> bool {
        match b {
            Boolean::Is(bit) => self.holds_bit(bit),
            Boolean::Not(bit) => self.holds_bit(bit),
            Boolean::Constant(_) => true,
        }
    }

    /// `self` extends `old`: it keeps every value and every constraint of `old`.
    pub open spec fn extends(&self, old: &Self) -> bool {
        &&& old.values@.len() <= self.values@.len()
        &&& old.constraints@.len() <= self.constraints@.len()
        &&& self.values@.subrange(0, old.values@.len() as int) == old.values@
        &&& self.constraints@.subrange(0, old.constraints@.len() as int) == old.constraints@
    }

    /// The constraints added since `old`.
    pub open spec fn added_since(&self, old: &Self) -> Seq<Constraint<F>> {
        self.constraints@.subrange(old.constraints@.len() as int, self.constraints@.len() as int)
    }

    /// An empty system, holding only the constant-one variable.
    pub fn new() -> (r: Self)
        ensures
            r.wf(),
            r.satisfied(),
            r.values@.len() == 1,
            r.constraints@.len() == 0,
    {
        let mut values: Vec<F> = Vec::new();
        values.push(F::one());
        ConstraintSystem { values, constraints: Vec::new() }
    }

    /// The constant-one variable.
    pub fn one() -> (r: usize)
        ensures
            r == ONE_VARIABLE,
    {
        ONE_VARIABLE
    }

    /// Number of constraints enforced so far.
    pub fn num_constraints(&self) -> (r: usize)
        ensures
            r == self.constraints@.len(),
    {
        self.constraints.len()
    }

    /// Allocates a fresh variable holding `value`.
    pub fn allocate(&mut self, value: F) -> (r: AllocatedNum<F>)
        requires
            old(self).wf(),
        ensures
            final(self).wf(),
            final(self).extends(old(self)),
            final(self).constraints@ == old(self).constraints@,
            final(self).values@ == old(self).values@.push(value),
            r.variable == old(self).values@.len(),
            r.value == value,
            final(self).holds_num(r),
    {
        let var = self.values.len();
        self.values.push(value);
        proof {
            assert forall|i: int| 0 <= i < self.constraints@.len() implies constraint_within(
                #[trigger] self.constraints@[i],
                self.values@.len(),
            ) by {
                assert(constraint_within(old(self).constraints@[i], old(self).values@.len()));
            }
            assert(self.values@.subrange(0, old(self).values@.len() as int) =~= old(
                self,
            ).values@);
            assert(self.constraints@.subrange(0, old(self).constraints@.len() as int)
                =~= old(self).constraints@);
        }
        AllocatedNum { variable: var, value }
    }

    /// Adds the constraint `a * b = c`.
    pub fn enforce(
        &mut self,
        a: LinearCombination<F>,
        b: LinearCombination<F>,
        c: LinearCombination<F>,
    )
        requires
            old(self).wf(),
            lc_within(a, old(self).values@.len()),
            lc_within(b, old(self).values@.len()),
            lc_within(c, old(self).values@.len()),
        ensures
            final(self).wf(),
            final(self).extends(old(self)),
            final(self).values@ == old(self).values@,
            final(self).constraints@ == old(self).constraints@.push(Constraint { a, b, c }),
    {
        let ghost con = Constraint { a, b, c };
        self.constraints.push(Constraint { a, b, c });
        proof {
            assert(self.values@.subrange(0, old(self).values@.len() as int) =~= old(
                self,
            ).values@);
            assert(self.constraints@.subrange(0, old(self).constraints@.len() as int)
                =~= old(self).constraints@);
            assert forall|i: int| 0 <= i < self.constraints@.len() implies constraint_within(
                #[trigger] self.constraints@[i],
                self.values@.len(),
            ) by {
                if i < old(self).constraints@.len() {
                    assert(constraint_within(old(self).constraints@[i], old(self).values@.len()));
                }
            }
        }
    }

    /// Whether every constraint holds under the current assignment.
    pub fn is_satisfied(&self) -> (r: bool)
        requires
            self.wf(),
        ensures
            r == self.satisfied(),
    {
        let n = self.constraints.len();
        let mut i: usize = 0;
        proof {
            F::lemma_modulus_is_prime();
        }
        while i < n
            invariant
                F::modulus() > 1,
                self.wf(),
                n == self.constraints@.len(),
                i <= n,
                forall|j: int| 0 <= j < i ==> constraint_holds(#[trigger] self.constraints@[j], self.w()),
            decreases n - i,
        {
            let con = &self.constraints[i];
            proof {
                assert(constraint_within(self.constraints@[i as int], self.values@.len()));
            }
            let va = eval_lc(&con.a, &self.values);
            let vb = eval_lc(&con.b, &self.values);
            let vc = eval_lc(&con.c, &self.values);
            let lhs = va.mul(&vb);
            if !lhs.equals(&vc) {
                proof {
                    lemma_mul_mod_noop_general(lc_eval(con.a.terms@, self.w()), lc_eval(con.b.terms@, self.w()), F::modulus() as int);
                    lemma_congruent_iff_mod_eq::<F>(lc_eval(con.a.terms@, self.w()) * lc_eval(con.b.terms@, self.w()), lc_eval(con.c.terms@, self.w()));
                }
                return false;
            }
            proof {
                lemma_mul_mod_noop_general(lc_eval(con.a.terms@, self.w()), lc_eval(con.b.terms@, self.w()), F::modulus() as int);
                lemma_congruent_iff_mod_eq::<F>(lc_eval(con.a.terms@, self.w()) * lc_eval(con.b.terms@, self.w()), lc_eval(con.c.terms@, self.w()));
            }
            i = i + 1;
        }
        true
    }
}

/// `x == y` in the field exactly when they leave the same remainder.
pub proof fn lemma_congruent_iff_mod_eq<F: PrimeField>(x: int, y: int)
    ensures
        congruent::<F>(x, y) <==> x % (F::modulus() as int) == y % (F::modulus() as int),
{
    F::lemma_modulus_is_prime();
    let p = F::modulus() as int;
    lemma_sub_mod_noop(x, y, p);
    lemma_mod_bound(x, p);
    lemma_mod_bound(y, p);
    let d = x % p - y % p;
    if d != 0 {
        if d > 0 {
            lemma_small_mod(d as nat, p as nat);
        } else {
            lemma_mod_multiples_vanish(1, d, p);
            lemma_small_mod((p + d) as nat, p as nat);
        }
    } else {
        lemma_small_mod(0, p as nat);
    }
}

/// Appending a term adds its contribution.
pub proof fn lemma_lc_eval_push<F: PrimeField>(terms: Seq<(usize, F)>, t: (usize, F), w: Seq<int>)
    ensures
        lc_eval(terms.push(t), w) == lc_eval(terms, w) + t.1.val() * w[t.0 as int],
{
    assert(terms.push(t).drop_last() =~= terms);
}

/// The constraints that a gadget added admit the assignment `w`: `w` covers every
/// variable, gives the constant-one variable the value one, and satisfies each
/// added constraint.
pub open spec fn admits<F: PrimeField>(
    new_cs: ConstraintSystem<F>,
    old_cs: ConstraintSystem<F>,
    w: Seq<int>,
) -> bool {
    &&& one_is_one(w)
    &&& new_cs.values@.len() <= w.len()
    &&& all_hold(new_cs.added_since(&old_cs), w)
}

impl<F: PrimeField> LinearCombination<F> {
    /// The empty combination.
    pub fn zero() -> (r: Self)
        ensures
            r.terms@.len() == 0,
            forall|w: Seq<int>| #[trigger] lc_eval(r.terms@, w) == 0,
            forall|n: nat| lc_within(r, n),
    {
        LinearCombination { terms: Vec::new() }
    }

    /// Adds `coeff * variable`.
    pub fn add_term(self, variable: usize, coeff: F) -> (r: Self)
        ensures
            r.terms@ == self.terms@.push((variable, coeff)),
            forall|w: Seq<int>|
                #[trigger] lc_eval(r.terms@, w) == lc_eval(self.terms@, w) + coeff.val()
                    * w[variable as int],
            forall|n: nat| lc_within(self, n) && variable < n ==> lc_within(r, n),
    {
        let mut terms = self.terms;
        terms.push((variable, coeff));
        let r = LinearCombination { terms };
        proof {
            assert forall|w: Seq<int>|
                #[trigger] lc_eval(r.terms@, w) == lc_eval(self.terms@, w) + coeff.val()
                    * w[variable as int] by {
                lemma_lc_eval_push(self.terms@, (variable, coeff), w);
            }
            assert forall|n: nat| lc_within(self, n) && variable < n implies lc_within(r, n) by {
                assert forall|i: int| 0 <= i < r.terms@.len() implies (#[trigger] r.terms@[i]).0
                    < n by {
                    if i < self.terms@.len() {
                        assert(r.terms@[i] == self.terms@[i]);
                    }
                }
            }
        }
        r
    }
}

/// The field element `-1`.
pub fn minus_one<F: PrimeField>() -> (r: F)
    ensures
        congruent::<F>(r.val() as int, -1),
        forall|x: int| congruent::<F>(#[trigger] (r.val() * x), -x),
{
    let r = F::one().neg();
    proof {
        lemma_cong_mod::<F>(-1);
        assert forall|x: int| congruent::<F>(#[trigger] (r.val() * x), -x) by {
            lemma_cong_refl::<F>(x);
            lemma_cong_mul::<F>(r.val() as int, -1, x, x);
        }
    }
    r
}

/// The combination `1 * v`.
pub fn lc_var<F: PrimeField>(v: usize) -> (r: LinearCombination<F>)
    ensures
        forall|w: Seq<int>| #[trigger] lc_eval(r.terms@, w) == w[v as int],
        forall|n: nat| v < n ==> lc_within(r, n),
{
    let r = LinearCombination::zero().add_term(v, F::one());
    proof {
        assert forall|w: Seq<int>| #[trigger] lc_eval(r.terms@, w) == w[v as int] by {
            assert(lc_eval(r.terms@, w) == lc_eval(Seq::<(usize, F)>::empty(), w) + 1 * w[v as int]);
        }
    }
    r
}

/// The combination `coeff * one`, the constant `coeff`.
pub fn lc_constant<F: PrimeField>(coeff: F) -> (r: LinearCombination<F>)
    ensures
        forall|w: Seq<int>| one_is_one(w) ==> #[trigger] lc_eval(r.terms@, w) == coeff.val(),
        forall|n: nat| 0 < n ==> lc_within(r, n),
{
    let r = LinearCombination::zero().add_term(ONE_VARIABLE, coeff);
    proof {
        assert forall|w: Seq<int>| one_is_one(w) implies #[trigger] lc_eval(r.terms@, w)
            == coeff.val() by {
            assert(lc_eval(r.terms@, w) == lc_eval(Seq::<(usize, F)>::empty(), w) + coeff.val()
                * w[0]);
        }
    }
    r
}

/// The combination `u - v`.
pub fn lc_diff<F: PrimeField>(u: usize, v: usize) -> (r: LinearCombination<F>)
    ensures
        forall|w: Seq<int>| congruent::<F>(#[trigger] lc_eval(r.terms@, w), w[u as int] - w[v as int]),
        forall|n: nat| u < n && v < n ==> lc_within(r, n),
{
    let m = minus_one::<F>();
    let r = lc_var::<F>(u).add_term(v, m);
    proof {
        assert forall|w: Seq<int>| congruent::<F>(#[trigger] lc_eval(r.terms@, w), w[u as int] - w[v as int]) by {
            lemma_cong_refl::<F>(w[u as int]);
            assert(congruent::<F>(m.val() * w[v as int], -w[v as int]));
            lemma_cong_add::<F>(w[u as int], w[u as int], m.val() * w[v as int], -w[v as int]);
        }
    }
    r
}

/// The combination `u - v + t`.
pub fn lc_diff_plus<F: PrimeField>(u: usize, v: usize, t: usize) -> (r: LinearCombination<F>)
    ensures
        forall|w: Seq<int>|
            congruent::<F>(
                #[trigger] lc_eval(r.terms@, w),
                w[u as int] - w[v as int] + w[t as int],
            ),
        forall|n: nat| u < n && v < n && t < n ==> lc_within(r, n),
{
    let d = lc_diff::<F>(u, v);
    let r = d.add_term(t, F::one());
    proof {
        assert forall|w: Seq<int>|
            congruent::<F>(
                #[trigger] lc_eval(r.terms@, w),
                w[u as int] - w[v as int] + w[t as int],
            ) by {
            assert(congruent::<F>(lc_eval(d.terms@, w), w[u as int] - w[v as int]));
            lemma_cong_refl::<F>(w[t as int]);
            lemma_cong_add::<F>(lc_eval(d.terms@, w), w[u as int] - w[v as int], 1 * w[t as int], w[t as int]);
        }
    }
    r
}

/// The combination `u - coeff * one`.
pub fn lc_var_minus_constant<F: PrimeField>(u: usize, coeff: &F) -> (r: LinearCombination<F>)
    ensures
        forall|w: Seq<int>|
            one_is_one(w) ==> congruent::<F>(
                #[trigger] lc_eval(r.terms@, w),
                w[u as int] - coeff.val(),
            ),
        forall|n: nat| u < n ==> lc_within(r, n),
{
    let c = coeff.neg();
    let r = lc_var::<F>(u).add_term(ONE_VARIABLE, c);
    proof {
        assert forall|w: Seq<int>| one_is_one(w) implies congruent::<F>(
            #[trigger] lc_eval(r.terms@, w),
            w[u as int] - coeff.val(),
        ) by {
            lemma_cong_refl::<F>(w[u as int]);
            lemma_cong_mod::<F>(0 - coeff.val());
            assert(c.val() * w[0] == c.val());
            lemma_cong_add::<F>(w[u as int], w[u as int], c.val() as int, 0 - coeff.val());
        }
    }
    r
}

/// The combination that a boolean stands for: its bit, one minus its bit, or a constant.
pub fn boolean_lc<F: PrimeField>(b: &Boolean) -> (r: LinearCombination<F>)
    ensures
        forall|w: Seq<int>|
            one_is_one(w) ==> congruent::<F>(#[trigger] lc_eval(r.terms@, w), boolean_eval(*b, w)),
        forall|n: nat|
            0 < n && (match *b {
                Boolean::Is(bit) => bit.variable < n,
                Boolean::Not(bit) => bit.variable < n,
                Boolean::Constant(_) => true,
            }) ==> lc_within(r, n),
{
    match b {
        Boolean::Is(bit) => {
            let r = lc_var::<F>(bit.variable);
            proof {
                assert forall|w: Seq<int>| one_is_one(w) implies congruent::<F>(
                    #[trigger] lc_eval(r.terms@, w),
                    boolean_eval(*b, w),
                ) by {
                    lemma_cong_refl::<F>(w[bit.variable as int]);
                }
            }
            r
        },
        Boolean::Not(bit) => {
            let r = lc_diff::<F>(ONE_VARIABLE, bit.variable);
            r
        },
        Boolean::Constant(c) => {
            if *c {
                let r = lc_constant(F::one());
                proof {
                    assert forall|w: Seq<int>| one_is_one(w) implies congruent::<F>(
                        #[trigger] lc_eval(r.terms@, w),
                        boolean_eval(*b, w),
                    ) by {
                        lemma_cong_refl::<F>(1);
                    }
                }
                r
            } else {
                let r = LinearCombination::zero();
                proof {
                    assert forall|w: Seq<int>| one_is_one(w) implies congruent::<F>(
                        #[trigger] lc_eval(r.terms@, w),
                        boolean_eval(*b, w),
                    ) by {
                        lemma_cong_refl::<F>(0);
                    }
                }
                r
            }
        },
    }
}

/// Allocates a bit holding `value` and constrains it to be boolean:
/// `(1 - bit) * bit = 0`.
pub fn alloc_bit<F: PrimeField>(cs: &mut ConstraintSystem<F>, value: bool) -> (r: AllocatedBit)
    requires
        old(cs).wf(),
    ensures
        final(cs).wf(),
        final(cs).extends(old(cs)),
        final(cs).values@.len() == old(cs).values@.len() + 1,
        final(cs).added_since(old(cs)).len() == 1,
        r.variable == old(cs).values@.len(),
        r.value == value,
        final(cs).holds_bit(r),
        all_hold(final(cs).added_since(old(cs)), final(cs).w()),
        forall|w: Seq<int>|
            admits(*final(cs), *old(cs), w) ==> is_boolean_int::<F>(#[trigger] w[r.variable as int]),
{
    let ghost cs0 = *old(cs);
    let fv = if value {
        F::one()
    } else {
        F::zero()
    };
    let n = cs.allocate(fv);
    let ghost cs1 = *cs;
    let la = lc_diff::<F>(ONE_VARIABLE, n.variable);
    let lb = lc_var::<F>(n.variable);
    let lc = LinearCombination::zero();
    cs.enforce(la, lb, lc);
    let r = AllocatedBit { variable: n.variable, value };
    proof {
        let con = Constraint { a: la, b: lb, c: lc };
        assert(cs.added_since(&cs0) =~= seq![con]);
        let x = n.variable as int;
        // completeness: (1 - v) * v == 0 for v in {0, 1}
        let wn = cs.w();
        assert(wn[0] == 1);
        assert(wn[x] == bool_int(value));
        assert(congruent::<F>(lc_eval(la.terms@, wn), 1 - wn[x]));
        lemma_cong_refl::<F>(wn[x]);
        lemma_cong_mul::<F>(lc_eval(la.terms@, wn), 1 - wn[x], wn[x], wn[x]);
        assert((1 - wn[x]) * wn[x] == 0) by (nonlinear_arith)
            requires wn[x] == 0 || wn[x] == 1;
        assert(constraint_holds(con, wn));
        // soundness: (1 - v) * v == 0 forces v to be 0 or 1
        assert forall|w: Seq<int>| admits(*cs, cs0, w) implies is_boolean_int::<F>(
            #[trigger] w[x],
        ) by {
            assert(constraint_holds(cs.added_since(&cs0)[0], w));
            lemma_cong_refl::<F>(w[x]);
            lemma_cong_mul::<F>(lc_eval(la.terms@, w), 1 - w[x], w[x], w[x]);
            lemma_cong_sym::<F>(lc_eval(la.terms@, w) * w[x], (1 - w[x]) * w[x]);
            lemma_cong_trans::<F>((1 - w[x]) * w[x], lc_eval(la.terms@, w) * w[x], 0);
            lemma_cong_zero_product::<F>(1 - w[x], w[x]);
            if congruent::<F>(1 - w[x], 0) {
                assert(congruent::<F>(w[x], 1)) by {
                    lemma_cong_sym::<F>(1 - w[x], 0);
                    assert((w[x] - 1) == -(1 - w[x] - 0));
                    F::lemma_modulus_is_prime();
                    lemma_congruent_iff_mod_eq::<F>(1 - w[x], 0);
                    lemma_cong_sub::<F>(0, 0, 1 - w[x], 0);
                    lemma_cong_add::<F>(0 - (1 - w[x]), 0 - 0, 1, 1);
                }
            }
        }
    }
    r
}

/// `y + (x - y) * beta`: `x` when `beta` is one and `y` when it is zero.
pub open spec fn mux(beta: int, x: int, y: int) -> int {
    y + (x - y) * beta
}

/// `out` is constrained to select between `x` and `y` by `beta`.
pub open spec fn selects<F: PrimeField>(out: int, beta: int, x: int, y: int) -> bool {
    congruent::<F>(out, mux(beta, x, y))
}

/// A selection by a boolean picks its first operand on one and its second on zero.
pub proof fn lemma_selects_boolean<F: PrimeField>(out: int, beta: int, x: int, y: int)
    requires
        selects::<F>(out, beta, x, y),
    ensures
        congruent::<F>(beta, 1) ==> congruent::<F>(out, x),
        congruent::<F>(beta, 0) ==> congruent::<F>(out, y),
{
    lemma_cong_refl::<F>(y);
    lemma_cong_refl::<F>(x - y);
    if congruent::<F>(beta, 1) {
        lemma_cong_mul::<F>(x - y, x - y, beta, 1);
        lemma_cong_add::<F>(y, y, (x - y) * beta, (x - y) * 1);
        lemma_cong_trans::<F>(out, mux(beta, x, y), x);
    }
    if congruent::<F>(beta, 0) {
        lemma_cong_mul::<F>(x - y, x - y, beta, 0);
        lemma_cong_add::<F>(y, y, (x - y) * beta, (x - y) * 0);
        lemma_cong_trans::<F>(out, mux(beta, x, y), y);
    }
}

/// A constraint between values known up to congruence.
pub proof fn lemma_constraint_congruent<F: PrimeField>(
    ea: int,
    eb: int,
    ec: int,
    x: int,
    y: int,
    z: int,
)
    requires
        congruent::<F>(ea, x),
        congruent::<F>(eb, y),
        congruent::<F>(ec, z),
    ensures
        congruent::<F>(ea * eb, ec) <==> congruent::<F>(x * y, z),
{
    lemma_cong_mul::<F>(ea, x, eb, y);
    lemma_cong_sym::<F>(ea * eb, x * y);
    lemma_cong_sym::<F>(ec, z);
    if congruent::<F>(ea * eb, ec) {
        lemma_cong_trans::<F>(x * y, ea * eb, ec);
        lemma_cong_trans::<F>(x * y, ec, z);
    }
    if congruent::<F>(x * y, z) {
        lemma_cong_trans::<F>(ea * eb, x * y, z);
        lemma_cong_trans::<F>(ea * eb, z, ec);
    }
}

/// A constraint `a * b = c`, whose sides are congruent to `x`, `y` and `z`, forces
/// `out == m` when `out - m` is `z - x * y` or its negation.
pub proof fn lemma_constraint_forces<F: PrimeField>(
    ea: int,
    eb: int,
    ec: int,
    x: int,
    y: int,
    z: int,
    out: int,
    m: int,
)
    requires
        congruent::<F>(ea, x),
        congruent::<F>(eb, y),
        congruent::<F>(ec, z),
        congruent::<F>(ea * eb, ec),
        out - m == z - x * y || out - m == x * y - z,
    ensures
        congruent::<F>(out, m),
{
    F::lemma_modulus_is_prime();
    lemma_constraint_congruent::<F>(ea, eb, ec, x, y, z);
    lemma_cong_refl::<F>(m);
    lemma_congruent_iff_mod_eq::<F>(x * y, z);
    // x * y - z is congruent to zero, and so is its negation
    assert(congruent::<F>(x * y - z, 0));
    lemma_cong_sub::<F>(0, 0, x * y - z, 0);
    assert(congruent::<F>(z - x * y, 0));
    assert(congruent::<F>(out - m, 0));
    lemma_cong_add::<F>(out - m, 0, m, m);
}

/// A constraint whose sides are congruent to `x`, `y` and `z` with `x * y == z` holds.
pub proof fn lemma_constraint_satisfied<F: PrimeField>(
    ea: int,
    eb: int,
    ec: int,
    x: int,
    y: int,
    z: int,
)
    requires
        congruent::<F>(ea, x),
        congruent::<F>(eb, y),
        congruent::<F>(ec, z),
        x * y == z,
    ensures
        congruent::<F>(ea * eb, ec),
{
    lemma_constraint_congruent::<F>(ea, eb, ec, x, y, z);
    lemma_cong_refl::<F>(z);
}

/// What a system holds stays held when it is extended.
pub proof fn lemma_extends_holds<F: PrimeField>(
    new_cs: &ConstraintSystem<F>,
    old_cs: &ConstraintSystem<F>,
)
    requires
        new_cs.extends(old_cs),
    ensures
        forall|n: AllocatedNum<F>| old_cs.holds_num(n) ==> #[trigger] new_cs.holds_num(n),
        forall|b: AllocatedBit| old_cs.holds_bit(b) ==> #[trigger] new_cs.holds_bit(b),
        forall|b: Boolean| old_cs.holds_boolean(b) ==> #[trigger] new_cs.holds_boolean(b),
        forall|i: int| 0 <= i < old_cs.values@.len() ==> #[trigger] new_cs.values@[i] == old_cs.values@[i],
{
    assert forall|i: int| 0 <= i < old_cs.values@.len() implies #[trigger] new_cs.values@[i]
        == old_cs.values@[i] by {
        assert(new_cs.values@.subrange(0, old_cs.values@.len() as int)[i] == new_cs.values@[i]);
    }
}

/// A boolean held by a system evaluates, under the system's own assignment, to its value.
pub proof fn lemma_boolean_eval_own<F: PrimeField>(cs: &ConstraintSystem<F>, b: Boolean)
    requires
        cs.holds_boolean(b),
    ensures
        boolean_eval(b, cs.w()) == bool_int(boolean_value(b)),
{
}

/// Allocates `value` and enforces `a * b = c`, where the three combinations may
/// mention the new variable.
pub fn alloc_constrained<F: PrimeField>(
    cs: &mut ConstraintSystem<F>,
    value: F,
    a: LinearCombination<F>,
    b: LinearCombination<F>,
    c: LinearCombination<F>,
) -> (r: AllocatedNum<F>)
    requires
        old(cs).wf(),
        lc_within(a, old(cs).values@.len() + 1),
        lc_within(b, old(cs).values@.len() + 1),
        lc_within(c, old(cs).values@.len() + 1),
    ensures
        final(cs).wf(),
        final(cs).extends(old(cs)),
        final(cs).values@ == old(cs).values@.push(value),
        final(cs).added_since(old(cs)) == seq![Constraint { a, b, c }],
        r.variable == old(cs).values@.len(),
        r.value == value,
        final(cs).holds_num(r),
        forall|w: Seq<int>|
            admits(*final(cs), *old(cs), w) ==> constraint_holds(Constraint { a, b, c }, w),
{
    let r = cs.allocate(value);
    let ghost mid = *cs;
    cs.enforce(a, b, c);
    proof {
        assert(cs.added_since(old(cs)) =~= seq![Constraint { a, b, c }]);
        assert(cs.extends(old(cs))) by {
            assert(cs.values@.subrange(0, old(cs).values@.len() as int) =~= old(cs).values@);
            assert(cs.constraints@.subrange(0, old(cs).constraints@.len() as int) =~= old(
                cs,
            ).constraints@);
        }
        assert forall|w: Seq<int>| admits(*cs, *old(cs), w) implies constraint_holds(
            Constraint { a, b, c },
            w,
        ) by {
            assert(cs.added_since(old(cs))[0] == Constraint { a, b, c });
        }
    }
    r
}

/// `x == x`.
pub proof fn lemma_cong_refl<F: PrimeField>(x: int)
    ensures
        congruent::<F>(x, x),
{
    F::lemma_modulus_is_prime();
    lemma_congruent_iff_mod_eq::<F>(x, x);
}

/// `x == y` implies `y == x`.
pub proof fn lemma_cong_sym<F: PrimeField>(x: int, y: int)
    requires
        congruent::<F>(x, y),
    ensures
        congruent::<F>(y, x),
{
    lemma_congruent_iff_mod_eq::<F>(x, y);
    lemma_congruent_iff_mod_eq::<F>(y, x);
}

/// `x == y == z` implies `x == z`.
pub proof fn lemma_cong_trans<F: PrimeField>(x: int, y: int, z: int)
    requires
        congruent::<F>(x, y),
        congruent::<F>(y, z),
    ensures
        congruent::<F>(x, z),
{
    lemma_congruent_iff_mod_eq::<F>(x, y);
    lemma_congruent_iff_mod_eq::<F>(y, z);
    lemma_congruent_iff_mod_eq::<F>(x, z);
}

/// Congruence is compatible with addition.
pub proof fn lemma_cong_add<F: PrimeField>(a: int, b: int, c: int, d: int)
    requires
        congruent::<F>(a, b),
        congruent::<F>(c, d),
    ensures
        congruent::<F>(a + c, b + d),
{
    F::lemma_modulus_is_prime();
    let p = F::modulus() as int;
    lemma_congruent_iff_mod_eq::<F>(a, b);
    lemma_congruent_iff_mod_eq::<F>(c, d);
    lemma_add_mod_noop(a, c, p);
    lemma_add_mod_noop(b, d, p);
    lemma_congruent_iff_mod_eq::<F>(a + c, b + d);
}

/// Congruence is compatible with subtraction.
pub proof fn lemma_cong_sub<F: PrimeField>(a: int, b: int, c: int, d: int)
    requires
        congruent::<F>(a, b),
        congruent::<F>(c, d),
    ensures
        congruent::<F>(a - c, b - d),
{
    F::lemma_modulus_is_prime();
    let p = F::modulus() as int;
    lemma_congruent_iff_mod_eq::<F>(a, b);
    lemma_congruent_iff_mod_eq::<F>(c, d);
    lemma_sub_mod_noop(a, c, p);
    lemma_sub_mod_noop(b, d, p);
    lemma_congruent_iff_mod_eq::<F>(a - c, b - d);
}

/// Congruence is compatible with multiplication.
pub proof fn lemma_cong_mul<F: PrimeField>(a: int, b: int, c: int, d: int)
    requires
        congruent::<F>(a, b),
        congruent::<F>(c, d),
    ensures
        congruent::<F>(a * c, b * d),
{
    F::lemma_modulus_is_prime();
    let p = F::modulus() as int;
    lemma_congruent_iff_mod_eq::<F>(a, b);
    lemma_congruent_iff_mod_eq::<F>(c, d);
    lemma_mul_mod_noop_general(a, c, p);
    lemma_mul_mod_noop_general(b, d, p);
    lemma_congruent_iff_mod_eq::<F>(a * c, b * d);
}

/// If `x == y + z` and `y`, `z` are congruent to `yy`, `zz`, then `x == yy + zz`.
pub proof fn lemma_cong_add_chain<F: PrimeField>(x: int, y: int, z: int, yy: int, zz: int)
    requires
        congruent::<F>(x, y + z),
        congruent::<F>(y, yy),
        congruent::<F>(z, zz),
    ensures
        congruent::<F>(x, yy + zz),
{
    lemma_cong_add::<F>(y, yy, z, zz);
    lemma_cong_trans::<F>(x, y + z, yy + zz);
}

/// If `x == y - z` and `y`, `z` are congruent to `yy`, `zz`, then `x == yy - zz`.
pub proof fn lemma_cong_sub_chain<F: PrimeField>(x: int, y: int, z: int, yy: int, zz: int)
    requires
        congruent::<F>(x, y - z),
        congruent::<F>(y, yy),
        congruent::<F>(z, zz),
    ensures
        congruent::<F>(x, yy - zz),
{
    lemma_cong_sub::<F>(y, yy, z, zz);
    lemma_cong_trans::<F>(x, y - z, yy - zz);
}

/// If `x == y * z` and `y`, `z` are congruent to `yy`, `zz`, then `x == yy * zz`.
pub proof fn lemma_cong_mul_chain<F: PrimeField>(x: int, y: int, z: int, yy: int, zz: int)
    requires
        congruent::<F>(x, y * z),
        congruent::<F>(y, yy),
        congruent::<F>(z, zz),
    ensures
        congruent::<F>(x, yy * zz),
{
    lemma_cong_mul::<F>(y, yy, z, zz);
    lemma_cong_trans::<F>(x, y * z, yy * zz);
}

/// Equal integers are congruent.
pub proof fn lemma_cong_eq<F: PrimeField>(x: int, y: int)
    requires
        x == y,
    ensures
        congruent::<F>(x, y),
{
    lemma_cong_refl::<F>(x);
}

/// A value is congruent to its remainder.
pub proof fn lemma_cong_mod<F: PrimeField>(x: int)
    ensures
        congruent::<F>(x, x % (F::modulus() as int)),
        congruent::<F>(x % (F::modulus() as int), x),
{
    F::lemma_modulus_is_prime();
    let p = F::modulus() as int;
    lemma_mod_twice(x, p);
    lemma_congruent_iff_mod_eq::<F>(x, x % p);
    lemma_congruent_iff_mod_eq::<F>(x % p, x);
}

/// In the field, a product is zero only if a factor is.
pub proof fn lemma_cong_zero_product<F: PrimeField>(a: int, b: int)
    requires
        congruent::<F>(a * b, 0),
    ensures
        congruent::<F>(a, 0) || congruent::<F>(b, 0),
{
    F::lemma_modulus_is_prime();
    lemma_no_zero_divisors(a, b, F::modulus());
}

/// Evaluates a linear combination under an assignment of field values.
pub fn eval_lc<F: PrimeField>(lc: &LinearCombination<F>, values: &Vec<F>) -> (r: F)
    requires
        lc_within(*lc, values@.len()),
        values@.len() > 0,
    ensures
        r.val() as int == lc_eval(lc.terms@, value_ints(values@)) % (F::modulus() as int),
{
    let n = lc.terms.len();
    let mut acc = F::zero();
    let mut i: usize = 0;
    proof {
        F::lemma_modulus_is_prime();
        assert(lc.terms@.subrange(0, 0) =~= Seq::<(usize, F)>::empty());
        lemma_small_mod(0, F::modulus());
    }
    while i < n
        invariant
            n == lc.terms@.len(),
            i <= n,
            lc_within(*lc, values@.len()),
            F::modulus() > 1,
            acc.val() as int == lc_eval(lc.terms@.subrange(0, i as int), value_ints(values@)) % (
            F::modulus() as int),
        decreases n - i,
    {
        let (var, coeff) = lc.terms[i];
        proof {
            assert(lc.terms@[i as int].0 < values@.len());
        }
        let term = coeff.mul(&values[var]);
        let ghost prev = acc;
        acc = acc.add(&term);
        proof {
            let p = F::modulus() as int;
            let w = value_ints(values@);
            let s = lc.terms@.subrange(0, i + 1);
            assert(s.drop_last() =~= lc.terms@.subrange(0, i as int));
            assert(s.last() == (var, coeff));
            assert(w[var as int] == values@[var as int].val());
            let e = lc_eval(lc.terms@.subrange(0, i as int), w);
            lemma_add_mod_noop(e, coeff.val() * w[var as int], p);
            lemma_mod_twice(e, p);
            lemma_mod_twice(coeff.val() * w[var as int], p);
            lemma_add_mod_noop(prev.val() as int, term.val() as int, p);
        }
        i = i + 1;
    }
    proof {
        assert(lc.terms@.subrange(0, n as int) =~= lc.terms@);
    }
    acc
}

/// A linear combination's value depends only on the variables that it mentions.
pub proof fn lemma_lc_eval_prefix<F: PrimeField>(terms: Seq<(usize, F)>, w: Seq<int>, w2: Seq<int>, n: nat)
    requires
        forall|i: int| 0 <= i < terms.len() ==> (#[trigger] terms[i]).0 < n,
        n <= w.len(),
        n <= w2.len(),
        w.subrange(0, n as int) == w2.subrange(0, n as int),
    ensures
        lc_eval(terms, w) == lc_eval(terms, w2),
    decreases terms.len(),
{
    if terms.len() > 0 {
        let t = terms.last();
        assert(t == terms[terms.len() - 1]);
        assert(w[t.0 as int] == w.subrange(0, n as int)[t.0 as int]);
        assert(w2[t.0 as int] == w2.subrange(0, n as int)[t.0 as int]);
        lemma_lc_eval_prefix(terms.drop_last(), w, w2, n);
    }
}

/// A constraint that holds under a system's assignment and mentions only its
/// variables still holds under the assignment of any extension.
pub proof fn lemma_extension_keeps_satisfaction_of<F: PrimeField>(
    old_cs: &ConstraintSystem<F>,
    new_cs: &ConstraintSystem<F>,
    c: Constraint<F>,
)
    requires
        new_cs.extends(old_cs),
        constraint_within(c, old_cs.values@.len()),
        constraint_holds(c, old_cs.w()),
    ensures
        constraint_holds(c, new_cs.w()),
{
    let n = old_cs.values@.len();
    assert(new_cs.w().subrange(0, n as int) =~= old_cs.w().subrange(0, n as int)) by {
        assert forall|i: int| 0 <= i < n implies new_cs.w()[i] == old_cs.w()[i] by {
            assert(new_cs.values@[i] == new_cs.values@.subrange(0, n as int)[i]);
        }
    }
    lemma_lc_eval_prefix(c.a.terms@, new_cs.w(), old_cs.w(), n);
    lemma_lc_eval_prefix(c.b.terms@, new_cs.w(), old_cs.w(), n);
    lemma_lc_eval_prefix(c.c.terms@, new_cs.w(), old_cs.w(), n);
}

/// Constraints that a chain of extensions added keep holding: those added from `a`
/// to `b` hold under `c`'s assignment when they held under `b`'s and `c` extends `b`,
/// so together with those added from `b` to `c`, all hold under `c`'s.
pub proof fn lemma_added_keep_holding<F: PrimeField>(
    a: &ConstraintSystem<F>,
    b: &ConstraintSystem<F>,
    c: &ConstraintSystem<F>,
)
    requires
        b.wf(),
        b.extends(a),
        c.extends(b),
        all_hold(b.added_since(a), b.w()),
        all_hold(c.added_since(b), c.w()),
    ensures
        all_hold(c.added_since(a), c.w()),
{
    let na = a.constraints@.len() as int;
    let nb = b.constraints@.len() as int;
    assert forall|i: int| 0 <= i < c.added_since(a).len() implies constraint_holds(
        #[trigger] c.added_since(a)[i],
        c.w(),
    ) by {
        if i + na < nb {
            assert(c.added_since(a)[i] == c.constraints@[i + na]);
            assert(c.constraints@.subrange(0, nb)[i + na] == c.constraints@[i + na]);
            assert(b.added_since(a)[i] == b.constraints@[i + na]);
            assert(constraint_within(b.constraints@[i + na], b.values@.len()));
            lemma_extension_keeps_satisfaction_of(b, c, b.constraints@[i + na]);
        } else {
            assert(c.added_since(a)[i] == c.added_since(b)[i + na - nb]);
        }
    }
}

/// Extending a satisfied system by constraints that hold keeps it satisfied: the
/// constraints that were there keep their values, since they mention only the
/// variables that were there.
pub proof fn lemma_extension_keeps_satisfaction<F: PrimeField>(
    old_cs: &ConstraintSystem<F>,
    new_cs: &ConstraintSystem<F>,
)
    requires
        old_cs.wf(),
        new_cs.extends(old_cs),
        old_cs.satisfied(),
        all_hold(new_cs.added_since(old_cs), new_cs.w()),
    ensures
        new_cs.satisfied(),
{
    let n = old_cs.values@.len();
    let m = old_cs.constraints@.len();
    assert(new_cs.w().subrange(0, n as int) =~= old_cs.w().subrange(0, n as int)) by {
        assert forall|i: int| 0 <= i < n implies new_cs.w()[i] == old_cs.w()[i] by {
            assert(new_cs.values@[i] == new_cs.values@.subrange(0, n as int)[i]);
        }
    }
    assert forall|i: int| 0 <= i < new_cs.constraints@.len() implies constraint_holds(
        #[trigger] new_cs.constraints@[i],
        new_cs.w(),
    ) by {
        if i < m {
            let c = new_cs.constraints@[i];
            assert(c == old_cs.constraints@[i]) by {
                assert(new_cs.constraints@.subrange(0, m as int)[i] == new_cs.constraints@[i]);
            }
            assert(constraint_within(old_cs.constraints@[i], n));
            assert(constraint_holds(old_cs.constraints@[i], old_cs.w()));
            assert(old_cs.w().subrange(0, n as int) =~= old_cs.w());
            lemma_lc_eval_prefix(c.a.terms@, new_cs.w(), old_cs.w(), n);
            lemma_lc_eval_prefix(c.b.terms@, new_cs.w(), old_cs.w(), n);
            lemma_lc_eval_prefix(c.c.terms@, new_cs.w(), old_cs.w(), n);
        } else {
            assert(new_cs.added_since(old_cs)[i - m] == new_cs.constraints@[i]);
        }
    }
}

} // verus!
