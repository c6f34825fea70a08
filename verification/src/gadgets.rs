//! Low-level gadgets: small constraint fragments that allocate a result and
//! constrain it to a function of their inputs.
use crate::field::{bits_value, lemma_bits_value_push, pow2_u64, PrimeField};
use crate::r1cs::{
    admits, all_hold, alloc_bit, alloc_constrained, bool_int, boolean_eval, boolean_lc,
    boolean_value, congruent, constraint_holds, lc_constant, lc_diff, lc_diff_plus, lc_eval,
    lc_var, lc_var_minus_constant, lc_within, lemma_boolean_eval_own, lemma_cong_add, lemma_cong_mod,
    lemma_cong_mul, lemma_cong_refl, lemma_cong_sub, lemma_cong_sym, lemma_cong_trans,
    lemma_congruent_iff_mod_eq, lemma_constraint_congruent, lemma_extends_holds,
    lemma_selects_boolean, lemma_constraint_forces, lemma_constraint_satisfied, mux, minus_one, one_is_one, selects, AllocatedBit, AllocatedNum, Boolean,
    Constraint, ConstraintSystem, LinearCombination, SynthesisError, ONE_VARIABLE,
};
use vstd::arithmetic::div_mod::*;
use vstd::prelude::*;

verus! {

/// Reinterprets an element of one prime field as an element of another: the
/// result is the element's integer value reduced modulo the target field's order.
pub fn scalar_as_base<S: PrimeField, B: PrimeField>(input: S) -> (r: B)
    ensures
        r.val() == input.val() % B::modulus(),
{
    let input_bits = input.to_le_bits();
    let mut mult = B::one();
    let mut val = B::zero();
    let n = input_bits.len();
    let mut i: usize = 0;
    proof {
        B::lemma_modulus_is_prime();
        lemma_small_mod(0, B::modulus());
        lemma_small_mod(1, B::modulus());
        assert(input_bits@.subrange(0, 0) =~= Seq::<bool>::empty());
    }
    while i < n
        invariant
            n == input_bits@.len(),
            i <= n,
            B::modulus() > 1,
            val.val() == bits_value(input_bits@.subrange(0, i as int)) % B::modulus(),
            mult.val() == pow2_u64(i as nat) % B::modulus(),
        decreases n - i,
    {
        let bit = input_bits[i];
        let ghost prefix = input_bits@.subrange(0, i as int);
        proof {
            let p = B::modulus() as int;
            assert(input_bits@.subrange(0, i + 1) =~= prefix.push(bit));
            lemma_bits_value_push(prefix, bit);
            if bit {
                lemma_add_mod_noop(bits_value(prefix) as int, pow2_u64(i as nat) as int, p);
            }
            lemma_add_mod_noop(pow2_u64(i as nat) as int, pow2_u64(i as nat) as int, p);
            reveal_with_fuel(pow2_u64, 2);
        }
        if bit {
            val = val.add(&mult);
        }
        mult = mult.add(&mult);
        i = i + 1;
    }
    proof {
        assert(input_bits@.subrange(0, n as int) =~= input_bits@);
    }
    val
}

/// A fresh number `n` holding `value`, added with the constraints since `old_cs`,
/// which hold under the system's own assignment, and which make every assignment
/// that satisfies them give `n` the value `forced`.
pub open spec fn alloc_result<F: PrimeField>(
    new_cs: ConstraintSystem<F>,
    old_cs: ConstraintSystem<F>,
    n: AllocatedNum<F>,
    value: nat,
    forced: spec_fn(Seq<int>) -> int,
) -> bool {
    &&& new_cs.wf()
    &&& new_cs.extends(&old_cs)
    &&& new_cs.values@.len() == old_cs.values@.len() + 1
    &&& n.variable == old_cs.values@.len()
    &&& new_cs.holds_num(n)
    &&& n.value.val() == value
    &&& all_hold(new_cs.added_since(&old_cs), new_cs.w())
    &&& forall|w: Seq<int>|
        admits(new_cs, old_cs, w) ==> congruent::<F>(#[trigger] w[n.variable as int], forced(w))
}

/// Allocates a number constrained to be zero: `0 * 0 = z`.
pub fn alloc_zero<F: PrimeField>(cs: &mut ConstraintSystem<F>) -> (r: AllocatedNum<F>)
    requires
        old(cs).wf(),
    ensures
        alloc_result(*final(cs), *old(cs), r, 0, |w: Seq<int>| 0),
        final(cs).added_since(old(cs)).len() == 1,
{
    let ghost cs0 = *cs;
    let n = cs.values.len();
    let la = LinearCombination::zero();
    let lb = LinearCombination::zero();
    let lc = lc_var::<F>(n);
    let z = alloc_constrained(cs, F::zero(), la, lb, lc);
    proof {
        let ww = cs.w();
        lemma_cong_refl::<F>(0);
        lemma_cong_refl::<F>(ww[n as int]);
        lemma_constraint_satisfied::<F>(0, 0, lc_eval(lc.terms@, ww), 0, 0, 0);
        assert(cs.added_since(&cs0)[0] == Constraint { a: la, b: lb, c: lc });
        assert forall|w: Seq<int>| admits(*cs, cs0, w) implies congruent::<F>(
            #[trigger] w[z.variable as int],
            0,
        ) by {
            lemma_cong_refl::<F>(w[n as int]);
            lemma_constraint_forces::<F>(0, 0, lc_eval(lc.terms@, w), 0, 0, w[n as int], w[n as int], 0);
        }
    }
    z
}

/// Allocates a number constrained to be one: `1 * 1 = v`.
pub fn alloc_one<F: PrimeField>(cs: &mut ConstraintSystem<F>) -> (r: AllocatedNum<F>)
    requires
        old(cs).wf(),
    ensures
        alloc_result(*final(cs), *old(cs), r, 1, |w: Seq<int>| 1),
        final(cs).added_since(old(cs)).len() == 1,
{
    let ghost cs0 = *cs;
    let n = cs.values.len();
    let la = lc_var::<F>(ONE_VARIABLE);
    let lb = lc_var::<F>(ONE_VARIABLE);
    let lc = lc_var::<F>(n);
    let v = alloc_constrained(cs, F::one(), la, lb, lc);
    proof {
        let ww = cs.w();
        lemma_cong_refl::<F>(1);
        lemma_cong_refl::<F>(ww[n as int]);
        lemma_constraint_satisfied::<F>(1, 1, lc_eval(lc.terms@, ww), 1, 1, 1);
        assert(cs.added_since(&cs0)[0] == Constraint { a: la, b: lb, c: lc });
        assert forall|w: Seq<int>| admits(*cs, cs0, w) implies congruent::<F>(
            #[trigger] w[v.variable as int],
            1,
        ) by {
            lemma_cong_refl::<F>(w[n as int]);
            lemma_constraint_forces::<F>(1, 1, lc_eval(lc.terms@, w), 1, 1, w[n as int], w[n as int], 1);
        }
    }
    v
}

/// Allocates a number constrained to equal the constant `val`: `v * 1 = val`.
pub fn alloc_const<F: PrimeField>(cs: &mut ConstraintSystem<F>, val: F) -> (r: Result<
    AllocatedNum<F>,
    SynthesisError,
>)
    requires
        old(cs).wf(),
    ensures
        r matches Ok(v) && alloc_result(
            *final(cs),
            *old(cs),
            v,
            val.val(),
            |w: Seq<int>| val.val() as int,
        ),
        final(cs).added_since(old(cs)).len() == 1,
{
    let ghost cs0 = *cs;
    let n = cs.values.len();
    let la = lc_var::<F>(n);
    let lb = lc_var::<F>(ONE_VARIABLE);
    let lc = lc_constant::<F>(val);
    let v = alloc_constrained(cs, val, la, lb, lc);
    proof {
        let ww = cs.w();
        lemma_cong_refl::<F>(ww[n as int]);
        lemma_cong_refl::<F>(1);
        lemma_cong_refl::<F>(val.val() as int);
        lemma_constraint_satisfied::<F>(ww[n as int], 1, lc_eval(lc.terms@, ww), ww[n as int], 1, val.val() as int);
        assert(cs.added_since(&cs0)[0] == Constraint { a: la, b: lb, c: lc });
        assert forall|w: Seq<int>| admits(*cs, cs0, w) implies congruent::<F>(
            #[trigger] w[v.variable as int],
            val.val() as int,
        ) by {
            lemma_cong_refl::<F>(w[n as int]);
            lemma_constraint_forces::<F>(w[n as int], 1, lc_eval(lc.terms@, w), w[n as int], 1, val.val() as int, w[n as int], val.val() as int);
        }
    }
    Ok(v)
}

/// Allocates, without constraining it, the element of `B` that a scalar of `S`
/// stands for (zero when the scalar is absent).
pub fn alloc_scalar_as_base<S: PrimeField, B: PrimeField>(
    cs: &mut ConstraintSystem<B>,
    input: Option<S>,
) -> (r: Result<AllocatedNum<B>, SynthesisError>)
    requires
        old(cs).wf(),
    ensures
        final(cs).wf(),
        final(cs).extends(old(cs)),
        final(cs).constraints@ == old(cs).constraints@,
        r matches Ok(n) && {
            &&& n.variable == old(cs).values@.len()
            &&& final(cs).holds_num(n)
            &&& n.value.val() == match input {
                Some(s) => s.val() % B::modulus(),
                None => 0,
            }
        },
{
    let s = match input {
        Some(s) => s,
        None => S::zero(),
    };
    proof {
        B::lemma_modulus_is_prime();
        lemma_small_mod(0, B::modulus());
    }
    let v = scalar_as_base::<S, B>(s);
    Ok(cs.allocate(v))
}

/// `sum_i 2^i * w[bits[i]]`.
pub open spec fn bits_weighted_sum(bits: Seq<AllocatedBit>, w: Seq<int>) -> int
    decreases bits.len(),
{
    if bits.len() == 0 {
        0
    } else {
        bits_weighted_sum(bits.drop_last(), w) + pow2_u64((bits.len() - 1) as nat) * w[bits.last().variable as int]
    }
}

/// Packs little-endian bits into a number `n` constrained by
/// `0 * 0 = sum_i 2^i * bits[i] - n`.
pub fn le_bits_to_num<F: PrimeField>(
    cs: &mut ConstraintSystem<F>,
    bits: &Vec<AllocatedBit>,
) -> (r: Result<AllocatedNum<F>, SynthesisError>)
    requires
        old(cs).wf(),
        forall|i: int| 0 <= i < bits@.len() ==> old(cs).holds_bit(#[trigger] bits@[i]),
    ensures
        r matches Ok(n) && alloc_result(
            *final(cs),
            *old(cs),
            n,
            (bits_weighted_sum(bits@, old(cs).w()) % (F::modulus() as int)) as nat,
            |w: Seq<int>| bits_weighted_sum(bits@, w),
        ),
        final(cs).added_since(old(cs)).len() == 1,
{
    let ghost cs0 = *cs;
    let k = bits.len();
    let mut lc = LinearCombination::<F>::zero();
    let mut coeff = F::one();
    let mut fe = F::zero();
    let mut i: usize = 0;
    proof {
        F::lemma_modulus_is_prime();
        lemma_small_mod(0, F::modulus());
        lemma_small_mod(1, F::modulus());
        assert(bits@.subrange(0, 0) =~= Seq::<AllocatedBit>::empty());
        assert forall|w: Seq<int>| congruent::<F>(#[trigger] lc_eval(lc.terms@, w), bits_weighted_sum(bits@.subrange(0, 0), w)) by {
            lemma_cong_refl::<F>(0);
        }
    }
    while i < k
        invariant
            k == bits@.len(),
            i <= k,
            F::modulus() > 1,
            cs0 == *cs,
            cs.wf(),
            forall|j: int| 0 <= j < bits@.len() ==> cs.holds_bit(#[trigger] bits@[j]),
            lc_within(lc, cs.values@.len()),
            coeff.val() == pow2_u64(i as nat) % F::modulus(),
            fe.val() as int == bits_weighted_sum(bits@.subrange(0, i as int), cs.w()) % (F::modulus() as int),
            forall|w: Seq<int>|
                congruent::<F>(#[trigger] lc_eval(lc.terms@, w), bits_weighted_sum(bits@.subrange(0, i as int), w)),
        decreases k - i,
    {
        let bit = bits[i];
        let ghost old_lc = lc;
        let ghost old_fe = fe;
        let ghost old_coeff = coeff;
        proof {
            assert(cs.holds_bit(bits@[i as int]));
        }
        lc = lc.add_term(bit.variable, coeff);
        if bit.value {
            fe = fe.add(&coeff);
        }
        coeff = coeff.double();
        proof {
            let p = F::modulus() as int;
            let pre = bits@.subrange(0, i as int);
            let nxt = bits@.subrange(0, i + 1);
            assert(nxt.drop_last() =~= pre);
            assert(nxt.last() == bit);
            assert(nxt.len() - 1 == i);
            reveal_with_fuel(pow2_u64, 2);
            lemma_add_mod_noop(pow2_u64(i as nat) as int, pow2_u64(i as nat) as int, p);
            let wv = cs.w();
            assert(wv[bit.variable as int] == bool_int(bit.value));
            if bit.value {
                lemma_add_mod_noop(bits_weighted_sum(pre, wv), pow2_u64(i as nat) as int, p);
                lemma_mod_twice(bits_weighted_sum(pre, wv), p);
            }
            assert forall|w: Seq<int>|
                congruent::<F>(#[trigger] lc_eval(lc.terms@, w), bits_weighted_sum(nxt, w)) by {
                assert(congruent::<F>(lc_eval(old_lc.terms@, w), bits_weighted_sum(pre, w)));
                lemma_cong_mod::<F>(pow2_u64(i as nat) as int);
                lemma_cong_refl::<F>(w[bit.variable as int]);
                lemma_cong_mul::<F>(old_coeff.val() as int, pow2_u64(i as nat) as int, w[bit.variable as int], w[bit.variable as int]);
                lemma_cong_add::<F>(lc_eval(old_lc.terms@, w), bits_weighted_sum(pre, w), old_coeff.val() * w[bit.variable as int], pow2_u64(i as nat) * w[bit.variable as int]);
            }
        }
        i = i + 1;
    }
    proof {
        assert(bits@.subrange(0, k as int) =~= bits@);
    }
    let n = cs.values.len();
    let m = minus_one::<F>();
    let lc_full = lc.add_term(n, m);
    let la = LinearCombination::zero();
    let lb = LinearCombination::zero();
    let num = alloc_constrained(cs, fe, la, lb, lc_full);
    proof {
        lemma_extends_holds(cs, &cs0);
        let ww = cs.w();
        let p = F::modulus() as int;
        // the packed sum is the same under the extended assignment
        assert(cs.added_since(&cs0)[0] == Constraint { a: la, b: lb, c: lc_full });
        let s_old = bits_weighted_sum(bits@, cs0.w());
        lemma_bits_weighted_sum_frame(bits@, cs0.w(), ww, cs0.values@.len());
        // c == sum - n == sum - (sum mod p) == 0
        lemma_cong_mod::<F>(s_old);
        assert(congruent::<F>(m.val() * ww[n as int], -ww[n as int]));
        lemma_cong_add::<F>(lc_eval(lc.terms@, ww), s_old, m.val() * ww[n as int], -ww[n as int]);
        assert(ww[n as int] == s_old % p);
        lemma_cong_refl::<F>(s_old);
        lemma_cong_sub::<F>(s_old, s_old, s_old % p, s_old);
        assert(s_old + -ww[n as int] == s_old - s_old % p);
        lemma_cong_trans::<F>(lc_eval(lc_full.terms@, ww), s_old - s_old % p, s_old - s_old);
        lemma_cong_refl::<F>(0);
        lemma_constraint_satisfied::<F>(0, 0, lc_eval(lc_full.terms@, ww), 0, 0, 0);
        assert forall|w: Seq<int>| admits(*cs, cs0, w) implies congruent::<F>(
            #[trigger] w[num.variable as int],
            bits_weighted_sum(bits@, w),
        ) by {
            let s = bits_weighted_sum(bits@, w);
            lemma_cong_refl::<F>(0);
            assert(congruent::<F>(m.val() * w[n as int], -w[n as int]));
            lemma_cong_add::<F>(lc_eval(lc.terms@, w), s, m.val() * w[n as int], -w[n as int]);
            lemma_constraint_forces::<F>(0, 0, lc_eval(lc_full.terms@, w), 0, 0, s + -w[n as int], w[n as int], s);
        }
    }
    Ok(num)
}

/// The packed sum depends only on the bits' variables.
pub proof fn lemma_bits_weighted_sum_frame(bits: Seq<AllocatedBit>, w: Seq<int>, w2: Seq<int>, n: nat)
    requires
        forall|i: int| 0 <= i < bits.len() ==> (#[trigger] bits[i]).variable < n,
        n <= w.len(),
        n <= w2.len(),
        forall|i: int| 0 <= i < n ==> w[i] == w2[i],
    ensures
        bits_weighted_sum(bits, w) == bits_weighted_sum(bits, w2),
    decreases bits.len(),
{
    if bits.len() > 0 {
        assert(bits.last() == bits[bits.len() - 1]);
        lemma_bits_weighted_sum_frame(bits.drop_last(), w, w2, n);
    }
}

/// The result of an equality gadget: a fresh boolean bit `r` holding `value`, whose
/// added constraints hold under the system's own assignment, and which every
/// assignment that satisfies them makes one exactly when `x` equals `y`.
pub open spec fn equals_result<F: PrimeField>(
    new_cs: ConstraintSystem<F>,
    old_cs: ConstraintSystem<F>,
    r: AllocatedBit,
    value: bool,
    x: spec_fn(Seq<int>) -> int,
    y: spec_fn(Seq<int>) -> int,
) -> bool {
    &&& new_cs.wf()
    &&& new_cs.extends(&old_cs)
    &&& new_cs.values@.len() == old_cs.values@.len() + 2
    &&& r.variable == old_cs.values@.len()
    &&& new_cs.holds_bit(r)
    &&& r.value == value
    &&& all_hold(new_cs.added_since(&old_cs), new_cs.w())
    &&& forall|w: Seq<int>|
        admits(new_cs, old_cs, w) ==> {
            &&& congruent::<F>(x(w), y(w)) ==> congruent::<F>(#[trigger] w[r.variable as int], 1)
            &&& !congruent::<F>(x(w), y(w)) ==> congruent::<F>(w[r.variable as int], 0)
        }
}

/// Distinct canonical values are not congruent.
proof fn lemma_distinct_values<F: PrimeField>(a: F, b: F)
    ensures
        congruent::<F>(a.val() as int, b.val() as int) <==> a.val() == b.val(),
{
    F::lemma_modulus_is_prime();
    F::lemma_val_bound(&a);
    F::lemma_val_bound(&b);
    lemma_congruent_iff_mod_eq::<F>(a.val() as int, b.val() as int);
    lemma_small_mod(a.val(), F::modulus());
    lemma_small_mod(b.val(), F::modulus());
}

/// The two constraints of an equality check force its bit: with
/// `t * d = 1 - r` and `r * d = 0`, `r` is one when `d` is zero and zero otherwise.
proof fn lemma_equality_constraints<F: PrimeField>(t: int, d: int, r: int)
    requires
        congruent::<F>(t * d, 1 - r),
        congruent::<F>(r * d, 0),
    ensures
        congruent::<F>(d, 0) ==> congruent::<F>(r, 1),
        !congruent::<F>(d, 0) ==> congruent::<F>(r, 0),
{
    F::lemma_modulus_is_prime();
    if congruent::<F>(d, 0) {
        lemma_cong_refl::<F>(t);
        lemma_cong_mul::<F>(t, t, d, 0);
        lemma_cong_sym::<F>(t * d, 1 - r);
        lemma_cong_trans::<F>(1 - r, t * d, 0);
        lemma_cong_refl::<F>(1);
        lemma_cong_sub::<F>(1, 1, 1 - r, 0);
    } else {
        crate::r1cs::lemma_cong_zero_product::<F>(r, d);
    }
}

/// Allocates a bit that is one exactly when `a == b`, with the constraints
/// `t * (a - b) = 1 - r` and `r * (a - b) = 0` (`t` is a helper, one or the inverse
/// of `a - b`).
pub fn alloc_num_equals<F: PrimeField>(
    cs: &mut ConstraintSystem<F>,
    a: &AllocatedNum<F>,
    b: &AllocatedNum<F>,
) -> (r: Result<AllocatedBit, SynthesisError>)
    requires
        old(cs).wf(),
        old(cs).holds_num(*a),
        old(cs).holds_num(*b),
    ensures
        r matches Ok(bit) && equals_result(
            *final(cs),
            *old(cs),
            bit,
            a.value.val() == b.value.val(),
            |w: Seq<int>| w[a.variable as int],
            |w: Seq<int>| w[b.variable as int],
        ),
{
    let ghost cs0 = *cs;
    let eq = a.value.equals(&b.value);
    let r = alloc_bit(cs, eq);
    let ghost cs1 = *cs;
    let diff = a.value.sub(&b.value);
    let tval = if eq {
        F::one()
    } else {
        match diff.invert() {
            Some(t) => t,
            None => F::one(),
        }
    };
    let t = cs.allocate(tval);
    let ghost cs2 = *cs;
    let la1 = lc_var::<F>(t.variable);
    let lb1 = lc_diff::<F>(a.variable, b.variable);
    let lc1 = lc_diff::<F>(ONE_VARIABLE, r.variable);
    cs.enforce(la1, lb1, lc1);
    let la2 = lc_var::<F>(r.variable);
    let lb2 = lc_diff::<F>(a.variable, b.variable);
    let lc2 = LinearCombination::zero();
    cs.enforce(la2, lb2, lc2);
    proof {
        lemma_extends_transitive(&cs2, &cs1, &cs0);
        lemma_extends_holds(&cs1, &cs0);
        assert(cs.extends(&cs1)) by {
            assert(cs.values@.subrange(0, cs1.values@.len() as int) =~= cs1.values@);
            assert(cs.constraints@.subrange(0, cs1.constraints@.len() as int) =~= cs1.constraints@);
        }
        lemma_extends_holds(cs, &cs1);
        let c0 = cs1.added_since(&cs0)[0];
        let c1 = Constraint { a: la1, b: lb1, c: lc1 };
        let c2 = Constraint { a: la2, b: lb2, c: lc2 };
        assert(cs.added_since(&cs0) =~= seq![c0, c1, c2]) by {
            assert(cs1.added_since(&cs0) =~= seq![c0]);
            assert(cs.constraints@ =~= cs0.constraints@.push(c0).push(c1).push(c2));
        }
        assert(cs.extends(&cs0)) by {
            assert(cs.values@.subrange(0, cs0.values@.len() as int) =~= cs0.values@);
            assert(cs.constraints@.subrange(0, cs0.constraints@.len() as int) =~= cs0.constraints@);
        }
        let ww = cs.w();
        let (xa, xb, xr, xt) = (ww[a.variable as int], ww[b.variable as int], ww[r.variable as int], ww[t.variable as int]);
        lemma_distinct_values::<F>(a.value, b.value);
        // completeness
        assert(constraint_holds(c0, ww)) by {
            assert(all_hold(cs1.added_since(&cs0), cs1.w()));
            assert(cs1.added_since(&cs0)[0] == c0);
            crate::r1cs::lemma_extension_keeps_satisfaction_of(&cs1, cs, c0);
        }
        lemma_cong_refl::<F>(xt);
        lemma_cong_refl::<F>(xr);
        lemma_cong_refl::<F>(0);
        if eq {
            assert(xa == xb);
            assert(xr == 1 && xt == 1);
            lemma_constraint_satisfied::<F>(xt, lc_eval(lb1.terms@, ww), lc_eval(lc1.terms@, ww), xt, xa - xb, 1 - xr);
            lemma_constraint_satisfied::<F>(xr, lc_eval(lb2.terms@, ww), 0, xr, xa - xb, 0);
        } else {
            assert(xr == 0);
            assert(diff.val() != 0) by {
                assert(!congruent::<F>(xa, xb));
            }
            assert((diff.val() * tval.val()) % F::modulus() == 1);
            // t * (a - b) == 1
            lemma_cong_mod::<F>(xa - xb);
            lemma_cong_refl::<F>(xt);
            lemma_cong_mul::<F>(xt, xt, diff.val() as int, xa - xb);
            lemma_cong_mod::<F>((diff.val() * tval.val()) as int);
            F::lemma_modulus_is_prime();
            lemma_small_mod(1, F::modulus());
            assert(xt == tval.val());
            assert(xt * diff.val() == diff.val() * tval.val()) by (nonlinear_arith)
                requires
                    xt == tval.val(),
            ;
            lemma_cong_sym::<F>(xt * diff.val(), xt * (xa - xb));
            lemma_cong_trans::<F>(xt * (xa - xb), xt * diff.val(), 1);
            lemma_constraint_congruent::<F>(xt, lc_eval(lb1.terms@, ww), lc_eval(lc1.terms@, ww), xt, xa - xb, 1 - xr);
            lemma_constraint_satisfied::<F>(xr, lc_eval(lb2.terms@, ww), 0, xr, xa - xb, 0);
        }
        assert(all_hold(cs.added_since(&cs0), ww)) by {
            assert(constraint_holds(c1, ww));
            assert(constraint_holds(c2, ww));
        }
        // soundness
        assert forall|w: Seq<int>| admits(*cs, cs0, w) implies {
            &&& congruent::<F>(w[a.variable as int], w[b.variable as int]) ==> congruent::<F>(#[trigger] w[r.variable as int], 1)
            &&& !congruent::<F>(w[a.variable as int], w[b.variable as int]) ==> congruent::<F>(w[r.variable as int], 0)
        } by {
            let (ya, yb, yr, yt) = (w[a.variable as int], w[b.variable as int], w[r.variable as int], w[t.variable as int]);
            assert(constraint_holds(cs.added_since(&cs0)[1], w));
            assert(constraint_holds(cs.added_since(&cs0)[2], w));
            lemma_cong_refl::<F>(yt);
            lemma_cong_refl::<F>(yr);
            lemma_cong_refl::<F>(0);
            lemma_constraint_congruent::<F>(yt, lc_eval(lb1.terms@, w), lc_eval(lc1.terms@, w), yt, ya - yb, 1 - yr);
            lemma_constraint_congruent::<F>(yr, lc_eval(lb2.terms@, w), 0, yr, ya - yb, 0);
            lemma_equality_constraints::<F>(yt, ya - yb, yr);
        }
    }
    Ok(r)
}

/// Allocates a bit that is one exactly when `a` equals the constant `b`, with the
/// constraints `t * (a - b) = 1 - r` and `r * (a - b) = 0`.
pub fn alloc_num_equals_const<F: PrimeField>(
    cs: &mut ConstraintSystem<F>,
    a: &AllocatedNum<F>,
    b: F,
) -> (r: Result<AllocatedBit, SynthesisError>)
    requires
        old(cs).wf(),
        old(cs).holds_num(*a),
    ensures
        r matches Ok(bit) && equals_result(
            *final(cs),
            *old(cs),
            bit,
            a.value.val() == b.val(),
            |w: Seq<int>| w[a.variable as int],
            |w: Seq<int>| b.val() as int,
        ),
{
    let ghost cs0 = *cs;
    let eq = a.value.equals(&b);
    let r = alloc_bit(cs, eq);
    let ghost cs1 = *cs;
    let diff = a.value.sub(&b);
    let tval = if eq {
        F::one()
    } else {
        match diff.invert() {
            Some(t) => t,
            None => F::one(),
        }
    };
    let t = cs.allocate(tval);
    let ghost cs2 = *cs;
    let la1 = lc_var::<F>(t.variable);
    let lb1 = lc_var_minus_constant::<F>(a.variable, &b);
    let lc1 = lc_diff::<F>(ONE_VARIABLE, r.variable);
    cs.enforce(la1, lb1, lc1);
    let la2 = lc_var::<F>(r.variable);
    let lb2 = lc_var_minus_constant::<F>(a.variable, &b);
    let lc2 = LinearCombination::zero();
    cs.enforce(la2, lb2, lc2);
    proof {
        lemma_extends_transitive(&cs2, &cs1, &cs0);
        lemma_extends_holds(&cs1, &cs0);
        assert(cs.extends(&cs1)) by {
            assert(cs.values@.subrange(0, cs1.values@.len() as int) =~= cs1.values@);
            assert(cs.constraints@.subrange(0, cs1.constraints@.len() as int) =~= cs1.constraints@);
        }
        lemma_extends_holds(cs, &cs1);
        let c0 = cs1.added_since(&cs0)[0];
        let c1 = Constraint { a: la1, b: lb1, c: lc1 };
        let c2 = Constraint { a: la2, b: lb2, c: lc2 };
        assert(cs.added_since(&cs0) =~= seq![c0, c1, c2]) by {
            assert(cs1.added_since(&cs0) =~= seq![c0]);
            assert(cs.constraints@ =~= cs0.constraints@.push(c0).push(c1).push(c2));
        }
        assert(cs.extends(&cs0)) by {
            assert(cs.values@.subrange(0, cs0.values@.len() as int) =~= cs0.values@);
            assert(cs.constraints@.subrange(0, cs0.constraints@.len() as int) =~= cs0.constraints@);
        }
        let ww = cs.w();
        let xb = b.val() as int;
        let (xa, xr, xt) = (ww[a.variable as int], ww[r.variable as int], ww[t.variable as int]);
        lemma_distinct_values::<F>(a.value, b);
        assert(constraint_holds(c0, ww)) by {
            assert(all_hold(cs1.added_since(&cs0), cs1.w()));
            assert(cs1.added_since(&cs0)[0] == c0);
            crate::r1cs::lemma_extension_keeps_satisfaction_of(&cs1, cs, c0);
        }
        lemma_cong_refl::<F>(xt);
        lemma_cong_refl::<F>(xr);
        lemma_cong_refl::<F>(0);
        assert(one_is_one(ww));
        if eq {
            assert(xa == xb);
            assert(xr == 1 && xt == 1);
            lemma_constraint_satisfied::<F>(xt, lc_eval(lb1.terms@, ww), lc_eval(lc1.terms@, ww), xt, xa - xb, 1 - xr);
            lemma_constraint_satisfied::<F>(xr, lc_eval(lb2.terms@, ww), 0, xr, xa - xb, 0);
        } else {
            assert(xr == 0);
            assert(diff.val() != 0) by {
                assert(!congruent::<F>(xa, xb));
            }
            lemma_cong_mod::<F>(xa - xb);
            lemma_cong_refl::<F>(xt);
            lemma_cong_mul::<F>(xt, xt, diff.val() as int, xa - xb);
            lemma_cong_mod::<F>((diff.val() * tval.val()) as int);
            F::lemma_modulus_is_prime();
            lemma_small_mod(1, F::modulus());
            assert(xt == tval.val());
            assert(xt * diff.val() == diff.val() * tval.val()) by (nonlinear_arith)
                requires
                    xt == tval.val(),
            ;
            lemma_cong_sym::<F>(xt * diff.val(), xt * (xa - xb));
            lemma_cong_trans::<F>(xt * (xa - xb), xt * diff.val(), 1);
            lemma_constraint_congruent::<F>(xt, lc_eval(lb1.terms@, ww), lc_eval(lc1.terms@, ww), xt, xa - xb, 1 - xr);
            lemma_constraint_satisfied::<F>(xr, lc_eval(lb2.terms@, ww), 0, xr, xa - xb, 0);
        }
        assert(all_hold(cs.added_since(&cs0), ww)) by {
            assert(constraint_holds(c1, ww));
            assert(constraint_holds(c2, ww));
        }
        assert forall|w: Seq<int>| admits(*cs, cs0, w) implies {
            &&& congruent::<F>(w[a.variable as int], b.val() as int) ==> congruent::<F>(#[trigger] w[r.variable as int], 1)
            &&& !congruent::<F>(w[a.variable as int], b.val() as int) ==> congruent::<F>(w[r.variable as int], 0)
        } by {
            let (ya, yr, yt) = (w[a.variable as int], w[r.variable as int], w[t.variable as int]);
            assert(constraint_holds(cs.added_since(&cs0)[1], w));
            assert(constraint_holds(cs.added_since(&cs0)[2], w));
            lemma_cong_refl::<F>(yt);
            lemma_cong_refl::<F>(yr);
            lemma_cong_refl::<F>(0);
            lemma_constraint_congruent::<F>(yt, lc_eval(lb1.terms@, w), lc_eval(lc1.terms@, w), yt, ya - xb, 1 - yr);
            lemma_constraint_congruent::<F>(yr, lc_eval(lb2.terms@, w), 0, yr, ya - xb, 0);
            lemma_equality_constraints::<F>(yt, ya - xb, yr);
        }
    }
    Ok(r)
}

/// The result of a selection gadget: a fresh number `c` holding `value`, added with
/// one constraint; the constraint holds under the system's own assignment when
/// `complete`, and every assignment that satisfies it makes `c` select by `beta`
/// between `x` and `y`.
pub open spec fn select_result<F: PrimeField>(
    new_cs: ConstraintSystem<F>,
    old_cs: ConstraintSystem<F>,
    c: AllocatedNum<F>,
    value: nat,
    complete: bool,
    beta: spec_fn(Seq<int>) -> int,
    x: spec_fn(Seq<int>) -> int,
    y: spec_fn(Seq<int>) -> int,
) -> bool {
    &&& new_cs.wf()
    &&& new_cs.extends(&old_cs)
    &&& new_cs.values@.len() == old_cs.values@.len() + 1
    &&& new_cs.added_since(&old_cs).len() == 1
    &&& c.variable == old_cs.values@.len()
    &&& new_cs.holds_num(c)
    &&& c.value.val() == value
    &&& complete ==> all_hold(new_cs.added_since(&old_cs), new_cs.w())
    &&& forall|w: Seq<int>|
        admits(new_cs, old_cs, w) ==> selects::<F>(
            #[trigger] w[c.variable as int],
            beta(w),
            x(w),
            y(w),
        )
}

/// If `condition` then `a`, else `b`: allocates `c` with
/// `(a - b) * condition = c - b`.
pub fn conditionally_select<F: PrimeField>(
    cs: &mut ConstraintSystem<F>,
    a: &AllocatedNum<F>,
    b: &AllocatedNum<F>,
    condition: &Boolean,
) -> (r: Result<AllocatedNum<F>, SynthesisError>)
    requires
        old(cs).wf(),
        old(cs).holds_num(*a),
        old(cs).holds_num(*b),
        old(cs).holds_boolean(*condition),
    ensures
        r matches Ok(c) && select_result(
            *final(cs),
            *old(cs),
            c,
            if boolean_value(*condition) {
                a.value.val()
            } else {
                b.value.val()
            },
            true,
            |w: Seq<int>| boolean_eval(*condition, w),
            |w: Seq<int>| w[a.variable as int],
            |w: Seq<int>| w[b.variable as int],
        ),
{
    let ghost cs0 = *cs;
    let value = if boolean_value_exec(condition) {
        a.value
    } else {
        b.value
    };
    let n = cs.values.len();
    let la = lc_diff::<F>(a.variable, b.variable);
    let lb = boolean_lc::<F>(condition);
    let lc = lc_diff::<F>(n, b.variable);
    let c = alloc_constrained(cs, value, la, lb, lc);
    proof {
        lemma_extends_holds(cs, &cs0);
        let ww = cs.w();
        let (xa, xb, xc) = (ww[a.variable as int], ww[b.variable as int], ww[n as int]);
        lemma_boolean_eval_own(cs, *condition);
        let beta = boolean_eval(*condition, ww);
        assert((xa - xb) * beta == xc - xb) by (nonlinear_arith)
            requires
                beta == 0 || beta == 1,
                beta == 1 ==> xc == xa,
                beta == 0 ==> xc == xb,
        ;
        lemma_constraint_satisfied::<F>(lc_eval(la.terms@, ww), lc_eval(lb.terms@, ww), lc_eval(lc.terms@, ww), xa - xb, beta, xc - xb);
        assert(cs.added_since(&cs0)[0] == Constraint { a: la, b: lb, c: lc });
        assert forall|w: Seq<int>| admits(*cs, cs0, w) implies selects::<F>(
            #[trigger] w[c.variable as int],
            boolean_eval(*condition, w),
            w[a.variable as int],
            w[b.variable as int],
        ) by {
            let (ya, yb, yc) = (w[a.variable as int], w[b.variable as int], w[n as int]);
            let bt = boolean_eval(*condition, w);
            lemma_constraint_forces::<F>(lc_eval(la.terms@, w), lc_eval(lb.terms@, w), lc_eval(lc.terms@, w), ya - yb, bt, yc - yb, yc, mux(bt, ya, yb));
        }
    }
    Ok(c)
}

/// If `condition` (a number that should be 0 or 1) is one then `a`, else `b`:
/// allocates `c` with `(a - b) * condition = c - b`.
pub fn conditionally_select2<F: PrimeField>(
    cs: &mut ConstraintSystem<F>,
    a: &AllocatedNum<F>,
    b: &AllocatedNum<F>,
    condition: &AllocatedNum<F>,
) -> (r: Result<AllocatedNum<F>, SynthesisError>)
    requires
        old(cs).wf(),
        old(cs).holds_num(*a),
        old(cs).holds_num(*b),
        old(cs).holds_num(*condition),
    ensures
        r matches Ok(c) && select_result(
            *final(cs),
            *old(cs),
            c,
            if condition.value.val() == 1 {
                a.value.val()
            } else {
                b.value.val()
            },
            condition.value.val() <= 1,
            |w: Seq<int>| w[condition.variable as int],
            |w: Seq<int>| w[a.variable as int],
            |w: Seq<int>| w[b.variable as int],
        ),
{
    let ghost cs0 = *cs;
    let value = if condition.value.equals(&F::one()) {
        a.value
    } else {
        b.value
    };
    let n = cs.values.len();
    let la = lc_diff::<F>(a.variable, b.variable);
    let lb = lc_var::<F>(condition.variable);
    let lc = lc_diff::<F>(n, b.variable);
    let c = alloc_constrained(cs, value, la, lb, lc);
    proof {
        lemma_extends_holds(cs, &cs0);
        let ww = cs.w();
        let (xa, xb, xc) = (ww[a.variable as int], ww[b.variable as int], ww[n as int]);
        let beta = ww[condition.variable as int];
        lemma_cong_refl::<F>(beta);
        if condition.value.val() <= 1 {
            assert((xa - xb) * beta == xc - xb) by (nonlinear_arith)
                requires
                    beta == 0 || beta == 1,
                    beta == 1 ==> xc == xa,
                    beta == 0 ==> xc == xb,
            ;
            lemma_constraint_satisfied::<F>(lc_eval(la.terms@, ww), lc_eval(lb.terms@, ww), lc_eval(lc.terms@, ww), xa - xb, beta, xc - xb);
            assert(cs.added_since(&cs0)[0] == Constraint { a: la, b: lb, c: lc });
        }
        assert forall|w: Seq<int>| admits(*cs, cs0, w) implies selects::<F>(
            #[trigger] w[c.variable as int],
            w[condition.variable as int],
            w[a.variable as int],
            w[b.variable as int],
        ) by {
            let (ya, yb, yc) = (w[a.variable as int], w[b.variable as int], w[n as int]);
            let bt = w[condition.variable as int];
            lemma_cong_refl::<F>(bt);
            lemma_constraint_forces::<F>(lc_eval(la.terms@, w), lc_eval(lb.terms@, w), lc_eval(lc.terms@, w), ya - yb, bt, yc - yb, yc, mux(bt, ya, yb));
        }
    }
    Ok(c)
}

/// If `condition` (a number that should be 0 or 1) is one then zero, else `a`:
/// allocates `c` with `a * (1 - condition) = c`.
pub fn select_zero_or_num2<F: PrimeField>(
    cs: &mut ConstraintSystem<F>,
    a: &AllocatedNum<F>,
    condition: &AllocatedNum<F>,
) -> (r: Result<AllocatedNum<F>, SynthesisError>)
    requires
        old(cs).wf(),
        old(cs).holds_num(*a),
        old(cs).holds_num(*condition),
    ensures
        r matches Ok(c) && select_result(
            *final(cs),
            *old(cs),
            c,
            if condition.value.val() == 1 {
                0
            } else {
                a.value.val()
            },
            condition.value.val() <= 1,
            |w: Seq<int>| w[condition.variable as int],
            |w: Seq<int>| 0,
            |w: Seq<int>| w[a.variable as int],
        ),
{
    let ghost cs0 = *cs;
    let value = if condition.value.equals(&F::one()) {
        F::zero()
    } else {
        a.value
    };
    let n = cs.values.len();
    let la = lc_var::<F>(a.variable);
    let lb = lc_diff::<F>(ONE_VARIABLE, condition.variable);
    let lc = lc_var::<F>(n);
    let c = alloc_constrained(cs, value, la, lb, lc);
    proof {
        lemma_extends_holds(cs, &cs0);
        let ww = cs.w();
        let (xa, xc) = (ww[a.variable as int], ww[n as int]);
        let beta = ww[condition.variable as int];
        lemma_cong_refl::<F>(xa);
        lemma_cong_refl::<F>(xc);
        if condition.value.val() <= 1 {
            assert(xa * (1 - beta) == xc) by (nonlinear_arith)
                requires
                    beta == 0 || beta == 1,
                    beta == 1 ==> xc == 0,
                    beta == 0 ==> xc == xa,
            ;
            lemma_constraint_satisfied::<F>(lc_eval(la.terms@, ww), lc_eval(lb.terms@, ww), lc_eval(lc.terms@, ww), xa, 1 - beta, xc);
            assert(cs.added_since(&cs0)[0] == Constraint { a: la, b: lb, c: lc });
        }
        assert forall|w: Seq<int>| admits(*cs, cs0, w) implies selects::<F>(
            #[trigger] w[c.variable as int],
            w[condition.variable as int],
            0,
            w[a.variable as int],
        ) by {
            let (ya, yc) = (w[a.variable as int], w[n as int]);
            let bt = w[condition.variable as int];
            lemma_cong_refl::<F>(ya);
            lemma_cong_refl::<F>(yc);
            assert(yc - yc == mux(bt, 0, ya) - ya * (1 - bt)) by (nonlinear_arith);
            lemma_constraint_forces::<F>(lc_eval(la.terms@, w), lc_eval(lb.terms@, w), lc_eval(lc.terms@, w), ya, 1 - bt, yc, yc, mux(bt, 0, ya));
        }
    }
    Ok(c)
}

/// If `condition` (a number that should be 0 or 1) is one then `a`, else zero:
/// allocates `c` with `a * condition = c`.
pub fn select_num_or_zero2<F: PrimeField>(
    cs: &mut ConstraintSystem<F>,
    a: &AllocatedNum<F>,
    condition: &AllocatedNum<F>,
) -> (r: Result<AllocatedNum<F>, SynthesisError>)
    requires
        old(cs).wf(),
        old(cs).holds_num(*a),
        old(cs).holds_num(*condition),
    ensures
        r matches Ok(c) && select_result(
            *final(cs),
            *old(cs),
            c,
            if condition.value.val() == 1 {
                a.value.val()
            } else {
                0
            },
            condition.value.val() <= 1,
            |w: Seq<int>| w[condition.variable as int],
            |w: Seq<int>| w[a.variable as int],
            |w: Seq<int>| 0,
        ),
{
    let ghost cs0 = *cs;
    let value = if condition.value.equals(&F::one()) {
        a.value
    } else {
        F::zero()
    };
    let n = cs.values.len();
    let la = lc_var::<F>(a.variable);
    let lb = lc_var::<F>(condition.variable);
    let lc = lc_var::<F>(n);
    let c = alloc_constrained(cs, value, la, lb, lc);
    proof {
        lemma_extends_holds(cs, &cs0);
        let ww = cs.w();
        let (xa, xc) = (ww[a.variable as int], ww[n as int]);
        let beta = ww[condition.variable as int];
        lemma_cong_refl::<F>(xa);
        lemma_cong_refl::<F>(xc);
        lemma_cong_refl::<F>(beta);
        if condition.value.val() <= 1 {
            assert(xa * beta == xc) by (nonlinear_arith)
                requires
                    beta == 0 || beta == 1,
                    beta == 1 ==> xc == xa,
                    beta == 0 ==> xc == 0,
            ;
            lemma_constraint_satisfied::<F>(lc_eval(la.terms@, ww), lc_eval(lb.terms@, ww), lc_eval(lc.terms@, ww), xa, beta, xc);
            assert(cs.added_since(&cs0)[0] == Constraint { a: la, b: lb, c: lc });
        }
        assert forall|w: Seq<int>| admits(*cs, cs0, w) implies selects::<F>(
            #[trigger] w[c.variable as int],
            w[condition.variable as int],
            w[a.variable as int],
            0,
        ) by {
            let (ya, yc) = (w[a.variable as int], w[n as int]);
            let bt = w[condition.variable as int];
            lemma_cong_refl::<F>(ya);
            lemma_cong_refl::<F>(yc);
            lemma_cong_refl::<F>(bt);
            assert(yc - yc == mux(bt, ya, 0) - ya * bt) by (nonlinear_arith);
            lemma_constraint_forces::<F>(lc_eval(la.terms@, w), lc_eval(lb.terms@, w), lc_eval(lc.terms@, w), ya, bt, yc, yc, mux(bt, ya, 0));
        }
    }
    Ok(c)
}

/// If `condition` then `a`, else zero: allocates `c` with `a * condition = c`.
pub fn select_num_or_zero<F: PrimeField>(
    cs: &mut ConstraintSystem<F>,
    a: &AllocatedNum<F>,
    condition: &Boolean,
) -> (r: Result<AllocatedNum<F>, SynthesisError>)
    requires
        old(cs).wf(),
        old(cs).holds_num(*a),
        old(cs).holds_boolean(*condition),
    ensures
        r matches Ok(c) && select_result(
            *final(cs),
            *old(cs),
            c,
            if boolean_value(*condition) {
                a.value.val()
            } else {
                0
            },
            true,
            |w: Seq<int>| boolean_eval(*condition, w),
            |w: Seq<int>| w[a.variable as int],
            |w: Seq<int>| 0,
        ),
{
    let ghost cs0 = *cs;
    let value = if boolean_value_exec(condition) {
        a.value
    } else {
        F::zero()
    };
    let n = cs.values.len();
    let la = lc_var::<F>(a.variable);
    let lb = boolean_lc::<F>(condition);
    let lc = lc_var::<F>(n);
    let c = alloc_constrained(cs, value, la, lb, lc);
    proof {
        lemma_extends_holds(cs, &cs0);
        let ww = cs.w();
        let (xa, xc) = (ww[a.variable as int], ww[n as int]);
        lemma_boolean_eval_own(cs, *condition);
        let beta = boolean_eval(*condition, ww);
        lemma_cong_refl::<F>(xa);
        lemma_cong_refl::<F>(xc);
        assert(xa * beta == xc) by (nonlinear_arith)
            requires
                beta == 0 || beta == 1,
                beta == 1 ==> xc == xa,
                beta == 0 ==> xc == 0,
        ;
        lemma_constraint_satisfied::<F>(lc_eval(la.terms@, ww), lc_eval(lb.terms@, ww), lc_eval(lc.terms@, ww), xa, beta, xc);
        assert(cs.added_since(&cs0)[0] == Constraint { a: la, b: lb, c: lc });
        assert forall|w: Seq<int>| admits(*cs, cs0, w) implies selects::<F>(
            #[trigger] w[c.variable as int],
            boolean_eval(*condition, w),
            w[a.variable as int],
            0,
        ) by {
            let (ya, yc) = (w[a.variable as int], w[n as int]);
            let bt = boolean_eval(*condition, w);
            lemma_cong_refl::<F>(ya);
            lemma_cong_refl::<F>(yc);
            assert(yc - yc == mux(bt, ya, 0) - ya * bt) by (nonlinear_arith);
            lemma_constraint_forces::<F>(lc_eval(la.terms@, w), lc_eval(lb.terms@, w), lc_eval(lc.terms@, w), ya, bt, yc, yc, mux(bt, ya, 0));
        }
    }
    Ok(c)
}

/// If `condition` (a number that should be 0 or 1) is one then one, else `a`:
/// allocates `c` with `(1 - a) * condition = c - a`.
pub fn select_one_or_num2<F: PrimeField>(
    cs: &mut ConstraintSystem<F>,
    a: &AllocatedNum<F>,
    condition: &AllocatedNum<F>,
) -> (r: Result<AllocatedNum<F>, SynthesisError>)
    requires
        old(cs).wf(),
        old(cs).holds_num(*a),
        old(cs).holds_num(*condition),
    ensures
        r matches Ok(c) && select_result(
            *final(cs),
            *old(cs),
            c,
            if condition.value.val() == 1 {
                1
            } else {
                a.value.val()
            },
            condition.value.val() <= 1,
            |w: Seq<int>| w[condition.variable as int],
            |w: Seq<int>| 1,
            |w: Seq<int>| w[a.variable as int],
        ),
{
    let ghost cs0 = *cs;
    let value = if condition.value.equals(&F::one()) {
        F::one()
    } else {
        a.value
    };
    let n = cs.values.len();
    let la = lc_diff::<F>(ONE_VARIABLE, a.variable);
    let lb = lc_var::<F>(condition.variable);
    let lc = lc_diff::<F>(n, a.variable);
    let c = alloc_constrained(cs, value, la, lb, lc);
    proof {
        lemma_extends_holds(cs, &cs0);
        let ww = cs.w();
        let (xa, xc) = (ww[a.variable as int], ww[n as int]);
        let beta = ww[condition.variable as int];
        lemma_cong_refl::<F>(beta);
        if condition.value.val() <= 1 {
            assert((1 - xa) * beta == xc - xa) by (nonlinear_arith)
                requires
                    beta == 0 || beta == 1,
                    beta == 1 ==> xc == 1,
                    beta == 0 ==> xc == xa,
            ;
            lemma_constraint_satisfied::<F>(lc_eval(la.terms@, ww), lc_eval(lb.terms@, ww), lc_eval(lc.terms@, ww), 1 - xa, beta, xc - xa);
            assert(cs.added_since(&cs0)[0] == Constraint { a: la, b: lb, c: lc });
        }
        assert forall|w: Seq<int>| admits(*cs, cs0, w) implies selects::<F>(
            #[trigger] w[c.variable as int],
            w[condition.variable as int],
            1,
            w[a.variable as int],
        ) by {
            let (ya, yc) = (w[a.variable as int], w[n as int]);
            let bt = w[condition.variable as int];
            lemma_cong_refl::<F>(bt);
            assert(yc - (yc - ya) == mux(bt, 1, ya) - (1 - ya) * bt) by (nonlinear_arith);
            lemma_constraint_forces::<F>(lc_eval(la.terms@, w), lc_eval(lb.terms@, w), lc_eval(lc.terms@, w), 1 - ya, bt, yc - ya, yc, mux(bt, 1, ya));
        }
    }
    Ok(c)
}

/// If `condition` (a number that should be 0 or 1) is one then one, else `a - b`:
/// allocates `c` with `(1 - a + b) * condition = c - a + b`.
pub fn select_one_or_diff2<F: PrimeField>(
    cs: &mut ConstraintSystem<F>,
    a: &AllocatedNum<F>,
    b: &AllocatedNum<F>,
    condition: &AllocatedNum<F>,
) -> (r: Result<AllocatedNum<F>, SynthesisError>)
    requires
        old(cs).wf(),
        old(cs).holds_num(*a),
        old(cs).holds_num(*b),
        old(cs).holds_num(*condition),
    ensures
        r matches Ok(c) && select_result(
            *final(cs),
            *old(cs),
            c,
            if condition.value.val() == 1 {
                1
            } else {
                ((a.value.val() - b.value.val()) % (F::modulus() as int)) as nat
            },
            condition.value.val() <= 1,
            |w: Seq<int>| w[condition.variable as int],
            |w: Seq<int>| 1,
            |w: Seq<int>| w[a.variable as int] - w[b.variable as int],
        ),
{
    let ghost cs0 = *cs;
    let value = if condition.value.equals(&F::one()) {
        F::one()
    } else {
        a.value.sub(&b.value)
    };
    let n = cs.values.len();
    let la = lc_diff_plus::<F>(ONE_VARIABLE, a.variable, b.variable);
    let lb = lc_var::<F>(condition.variable);
    let lc = lc_diff_plus::<F>(n, a.variable, b.variable);
    let c = alloc_constrained(cs, value, la, lb, lc);
    proof {
        lemma_extends_holds(cs, &cs0);
        let ww = cs.w();
        let (xa, xb, xc) = (ww[a.variable as int], ww[b.variable as int], ww[n as int]);
        let beta = ww[condition.variable as int];
        lemma_cong_refl::<F>(beta);
        if condition.value.val() <= 1 {
            if beta == 1 {
                assert((1 - xa + xb) * beta == xc - xa + xb);
                lemma_constraint_satisfied::<F>(lc_eval(la.terms@, ww), lc_eval(lb.terms@, ww), lc_eval(lc.terms@, ww), 1 - xa + xb, beta, xc - xa + xb);
            } else {
                // c holds a - b reduced, so c - a + b is congruent to zero
                lemma_cong_mod::<F>(xa - xb);
                lemma_cong_refl::<F>(xa - xb);
                lemma_cong_sub::<F>(xc, xa - xb, xa - xb, xa - xb);
                assert(xc - xa + xb == xc - (xa - xb));
                lemma_cong_trans::<F>(lc_eval(lc.terms@, ww), xc - xa + xb, 0);
                lemma_constraint_satisfied::<F>(lc_eval(la.terms@, ww), lc_eval(lb.terms@, ww), lc_eval(lc.terms@, ww), 1 - xa + xb, beta, 0);
            }
            assert(cs.added_since(&cs0)[0] == Constraint { a: la, b: lb, c: lc });
        }
        assert forall|w: Seq<int>| admits(*cs, cs0, w) implies selects::<F>(
            #[trigger] w[c.variable as int],
            w[condition.variable as int],
            1,
            w[a.variable as int] - w[b.variable as int],
        ) by {
            let (ya, yb, yc) = (w[a.variable as int], w[b.variable as int], w[n as int]);
            let bt = w[condition.variable as int];
            lemma_cong_refl::<F>(bt);
            assert(yc - (yc - ya + yb) == mux(bt, 1, ya - yb) - (1 - ya + yb) * bt) by (nonlinear_arith);
            lemma_constraint_forces::<F>(lc_eval(la.terms@, w), lc_eval(lb.terms@, w), lc_eval(lc.terms@, w), 1 - ya + yb, bt, yc - ya + yb, yc, mux(bt, 1, ya - yb));
        }
    }
    Ok(c)
}

/// If `condition` then `a`, else one: allocates `c` with
/// `(a - 1) * condition = c - 1`.
pub fn select_num_or_one<F: PrimeField>(
    cs: &mut ConstraintSystem<F>,
    a: &AllocatedNum<F>,
    condition: &Boolean,
) -> (r: Result<AllocatedNum<F>, SynthesisError>)
    requires
        old(cs).wf(),
        old(cs).holds_num(*a),
        old(cs).holds_boolean(*condition),
    ensures
        r matches Ok(c) && select_result(
            *final(cs),
            *old(cs),
            c,
            if boolean_value(*condition) {
                a.value.val()
            } else {
                1
            },
            true,
            |w: Seq<int>| boolean_eval(*condition, w),
            |w: Seq<int>| w[a.variable as int],
            |w: Seq<int>| 1,
        ),
{
    let ghost cs0 = *cs;
    let value = if boolean_value_exec(condition) {
        a.value
    } else {
        F::one()
    };
    let n = cs.values.len();
    let la = lc_diff::<F>(a.variable, ONE_VARIABLE);
    let lb = boolean_lc::<F>(condition);
    let lc = lc_diff::<F>(n, ONE_VARIABLE);
    let c = alloc_constrained(cs, value, la, lb, lc);
    proof {
        lemma_extends_holds(cs, &cs0);
        let ww = cs.w();
        let (xa, xc) = (ww[a.variable as int], ww[n as int]);
        lemma_boolean_eval_own(cs, *condition);
        let beta = boolean_eval(*condition, ww);
        assert((xa - 1) * beta == xc - 1) by (nonlinear_arith)
            requires
                beta == 0 || beta == 1,
                beta == 1 ==> xc == xa,
                beta == 0 ==> xc == 1,
        ;
        lemma_constraint_satisfied::<F>(lc_eval(la.terms@, ww), lc_eval(lb.terms@, ww), lc_eval(lc.terms@, ww), xa - 1, beta, xc - 1);
        assert(cs.added_since(&cs0)[0] == Constraint { a: la, b: lb, c: lc });
        assert forall|w: Seq<int>| admits(*cs, cs0, w) implies selects::<F>(
            #[trigger] w[c.variable as int],
            boolean_eval(*condition, w),
            w[a.variable as int],
            1,
        ) by {
            let (ya, yc) = (w[a.variable as int], w[n as int]);
            let bt = boolean_eval(*condition, w);
            assert(yc - (yc - 1) == mux(bt, ya, 1) - (ya - 1) * bt) by (nonlinear_arith);
            lemma_constraint_forces::<F>(lc_eval(la.terms@, w), lc_eval(lb.terms@, w), lc_eval(lc.terms@, w), ya - 1, bt, yc - 1, yc, mux(bt, ya, 1));
        }
    }
    Ok(c)
}

/// Applies `conditionally_select` to corresponding elements of `a` and `b`.
pub fn conditionally_select_vec<F: PrimeField>(
    cs: &mut ConstraintSystem<F>,
    a: &Vec<AllocatedNum<F>>,
    b: &Vec<AllocatedNum<F>>,
    condition: &Boolean,
) -> (r: Result<Vec<AllocatedNum<F>>, SynthesisError>)
    requires
        old(cs).wf(),
        forall|i: int| 0 <= i < a@.len() ==> old(cs).holds_num(#[trigger] a@[i]),
        forall|i: int| 0 <= i < b@.len() ==> old(cs).holds_num(#[trigger] b@[i]),
        old(cs).holds_boolean(*condition),
    ensures
        final(cs).wf(),
        final(cs).extends(old(cs)),
        old(cs).satisfied() ==> final(cs).satisfied(),
        r matches Ok(cv) && {
            &&& cv@.len() == if a@.len() <= b@.len() {
                a@.len()
            } else {
                b@.len()
            }
            &&& forall|i: int|
                0 <= i < cv@.len() ==> {
                    &&& final(cs).holds_num(#[trigger] cv@[i])
                    &&& cv@[i].value.val() == if boolean_value(*condition) {
                        a@[i].value.val()
                    } else {
                        b@[i].value.val()
                    }
                    &&& forall|w: Seq<int>|
                        admits(*final(cs), *old(cs), w) ==> selects::<F>(
                            #[trigger] w[cv@[i].variable as int],
                            boolean_eval(*condition, w),
                            w[a@[i].variable as int],
                            w[b@[i].variable as int],
                        )
                }
        },
{
    let ghost cs0 = *cs;
    let n = if a.len() <= b.len() {
        a.len()
    } else {
        b.len()
    };
    let mut out: Vec<AllocatedNum<F>> = Vec::new();
    let mut i: usize = 0;
    proof {
        assert(cs.added_since(&cs0) =~= Seq::<Constraint<F>>::empty());
        assert(cs.extends(&cs0)) by {
            assert(cs.values@.subrange(0, cs0.values@.len() as int) =~= cs0.values@);
            assert(cs.constraints@.subrange(0, cs0.constraints@.len() as int) =~= cs0.constraints@);
        }
    }
    while i < n
        invariant
            n <= a@.len(),
            n <= b@.len(),
            i <= n,
            n == a@.len() || n == b@.len(),
            cs0.wf(),
            cs.wf(),
            cs.extends(&cs0),
            cs0.satisfied() ==> cs.satisfied(),
            forall|j: int| 0 <= j < a@.len() ==> cs0.holds_num(#[trigger] a@[j]),
            forall|j: int| 0 <= j < b@.len() ==> cs0.holds_num(#[trigger] b@[j]),
            cs0.holds_boolean(*condition),
            out@.len() == i,
            forall|j: int|
                0 <= j < i ==> {
                    &&& cs.holds_num(#[trigger] out@[j])
                    &&& out@[j].value.val() == if boolean_value(*condition) {
                        a@[j].value.val()
                    } else {
                        b@[j].value.val()
                    }
                    &&& forall|w: Seq<int>|
                        admits(*cs, cs0, w) ==> selects::<F>(
                            #[trigger] w[out@[j].variable as int],
                            boolean_eval(*condition, w),
                            w[a@[j].variable as int],
                            w[b@[j].variable as int],
                        )
                },
        decreases n - i,
    {
        let ghost prev = *cs;
        proof {
            lemma_extends_holds(&prev, &cs0);
        }
        let c = conditionally_select(cs, &a[i], &b[i], condition);
        let c = match c {
            Ok(c) => c,
            Err(e) => {
                return Err(e);
            },
        };
        proof {
            lemma_extends_holds(cs, &prev);
            lemma_extends_transitive(cs, &prev, &cs0);
            if cs0.satisfied() {
                crate::r1cs::lemma_extension_keeps_satisfaction(&prev, cs);
            }
            assert forall|j: int| 0 <= j < i + 1 implies {
                &&& cs.holds_num(#[trigger] out@.push(c)[j])
                &&& out@.push(c)[j].value.val() == if boolean_value(*condition) {
                    a@[j].value.val()
                } else {
                    b@[j].value.val()
                }
                &&& forall|w: Seq<int>|
                    admits(*cs, cs0, w) ==> selects::<F>(
                        #[trigger] w[out@.push(c)[j].variable as int],
                        boolean_eval(*condition, w),
                        w[a@[j].variable as int],
                        w[b@[j].variable as int],
                    )
            } by {
                if j < i {
                    assert(out@.push(c)[j] == out@[j]);
                    assert(prev.holds_num(out@[j]));
                    assert forall|w: Seq<int>| admits(*cs, cs0, w) implies selects::<F>(
                        #[trigger] w[out@.push(c)[j].variable as int],
                        boolean_eval(*condition, w),
                        w[a@[j].variable as int],
                        w[b@[j].variable as int],
                    ) by {
                        lemma_admits_split(cs, &prev, &cs0, w);
                    }
                } else {
                    assert(out@.push(c)[j] == c);
                    assert forall|w: Seq<int>| admits(*cs, cs0, w) implies selects::<F>(
                        #[trigger] w[out@.push(c)[j].variable as int],
                        boolean_eval(*condition, w),
                        w[a@[j].variable as int],
                        w[b@[j].variable as int],
                    ) by {
                        lemma_admits_split(cs, &prev, &cs0, w);
                    }
                }
            }
        }
        out.push(c);
        i = i + 1;
    }
    Ok(out)
}

/// Extension is transitive.
pub proof fn lemma_extends_transitive<F: PrimeField>(
    c: &ConstraintSystem<F>,
    b: &ConstraintSystem<F>,
    a: &ConstraintSystem<F>,
)
    requires
        c.extends(b),
        b.extends(a),
    ensures
        c.extends(a),
{
    assert(c.values@.subrange(0, a.values@.len() as int) =~= b.values@.subrange(0, a.values@.len() as int));
    assert(c.constraints@.subrange(0, a.constraints@.len() as int) =~= b.constraints@.subrange(0, a.constraints@.len() as int));
}

/// An assignment admitted by the constraints added from `a` to `c` is admitted by
/// those added from `a` to `b` and from `b` to `c`.
pub proof fn lemma_admits_split<F: PrimeField>(
    c: &ConstraintSystem<F>,
    b: &ConstraintSystem<F>,
    a: &ConstraintSystem<F>,
    w: Seq<int>,
)
    requires
        c.extends(b),
        b.extends(a),
        admits(*c, *a, w),
    ensures
        admits(*c, *b, w),
        admits(*b, *a, w),
{
    let na = a.constraints@.len() as int;
    let nb = b.constraints@.len() as int;
    assert forall|i: int| 0 <= i < c.added_since(b).len() implies constraint_holds(
        #[trigger] c.added_since(b)[i],
        w,
    ) by {
        assert(c.added_since(b)[i] == c.added_since(a)[i + nb - na]);
    }
    assert forall|i: int| 0 <= i < b.added_since(a).len() implies constraint_holds(
        #[trigger] b.added_since(a)[i],
        w,
    ) by {
        assert(b.added_since(a)[i] == b.constraints@[i + na]);
        assert(c.constraints@.subrange(0, nb)[i + na] == c.constraints@[i + na]);
        assert(b.added_since(a)[i] == c.added_since(a)[i]);
    }
}

/// The truth value of a boolean.
pub fn boolean_value_exec(b: &Boolean) -> (r: bool)
    ensures
        r == boolean_value(*b),
{
    match b {
        Boolean::Is(bit) => bit.value,
        Boolean::Not(bit) => !bit.value,
        Boolean::Constant(c) => *c,
    }
}

} // verus!
