//! Circuit helpers for selecting among the augmented circuits.
use crate::field::PrimeField;
use crate::gadgets::{alloc_num_equals_const, equals_result, lemma_admits_split, lemma_extends_transitive};
use crate::r1cs::{
    admits, all_hold, bool_int, congruent, constraint_holds, lc_eval, lc_var, lc_within,
    lemma_cong_add, lemma_cong_mod, lemma_cong_refl, lemma_cong_sym, lemma_cong_trans,
    lemma_congruent_iff_mod_eq, lemma_constraint_congruent, lemma_extends_holds,
    lemma_extension_keeps_satisfaction, AllocatedBit, AllocatedNum, Boolean, Constraint,
    ConstraintSystem, LinearCombination, SynthesisError, ONE_VARIABLE,
};
use vstd::arithmetic::div_mod::*;
use vstd::prelude::*;

verus! {

/// `sum_i w[bits[i]]`.
pub open spec fn bits_sum(bits: Seq<AllocatedBit>, w: Seq<int>) -> int
    decreases bits.len(),
{
    if bits.len() == 0 {
        0
    } else {
        bits_sum(bits.drop_last(), w) + w[bits.last().variable as int]
    }
}

/// The bit of a selector entry.
pub open spec fn selector_bit(b: Boolean) -> AllocatedBit {
    match b {
        Boolean::Is(bit) => bit,
        Boolean::Not(bit) => bit,
        Boolean::Constant(_) => AllocatedBit { variable: 0, value: true },
    }
}

/// Computes a selector vector `s` of length `num_indices` with `s[i]` set exactly
/// when `target_index == i`, constraining the entries to sum to one, so that the
/// constraints are satisfiable only when the target is below `num_indices`.
pub fn get_selector_vec_from_index<F: PrimeField>(
    cs: &mut ConstraintSystem<F>,
    target_index: &AllocatedNum<F>,
    num_indices: usize,
) -> (r: Result<Vec<Boolean>, SynthesisError>)
    requires
        old(cs).wf(),
        old(cs).holds_num(*target_index),
        num_indices > 0,
    ensures
        final(cs).wf(),
        final(cs).extends(old(cs)),
        r matches Ok(sel) && {
            &&& sel@.len() == num_indices
            &&& num_indices == 1 ==> sel@[0] == Boolean::Constant(true) && *final(cs) == *old(cs)
            &&& num_indices > 1 ==> {
                &&& forall|i: int|
                    0 <= i < num_indices ==> {
                        &&& #[trigger] sel@[i] matches Boolean::Is(bit)
                        &&& final(cs).holds_bit(bit)
                        &&& bit.value == (target_index.value.val() == i % (F::modulus() as int))
                    }
                &&& (target_index.value.val() < num_indices && num_indices <= F::modulus())
                    ==> all_hold(final(cs).added_since(old(cs)), final(cs).w())
                &&& target_index.value.val() >= num_indices ==> !all_hold(
                    final(cs).added_since(old(cs)),
                    final(cs).w(),
                )
                &&& forall|w: Seq<int>|
                    admits(*final(cs), *old(cs), w) ==> {
                        &&& forall|i: int|
                            0 <= i < num_indices ==> {
                                &&& congruent::<F>(w[target_index.variable as int], i)
                                    ==> congruent::<F>(#[trigger] w[selector_bit(sel@[i]).variable as int], 1)
                                &&& !congruent::<F>(w[target_index.variable as int], i)
                                    ==> congruent::<F>(w[selector_bit(sel@[i]).variable as int], 0)
                            }
                        &&& exists|i: int|
                            0 <= i < num_indices && congruent::<F>(
                                w[target_index.variable as int],
                                i,
                            )
                    }
            }
        },
{
    if num_indices == 1 {
        let mut v: Vec<Boolean> = Vec::new();
        v.push(Boolean::Constant(true));
        proof {
            assert(cs.values@.subrange(0, cs.values@.len() as int) =~= cs.values@);
            assert(cs.constraints@.subrange(0, cs.constraints@.len() as int) =~= cs.constraints@);
        }
        return Ok(v);
    }
    let ghost cs0 = *cs;
    let mut bits: Vec<AllocatedBit> = Vec::new();
    let mut sel: Vec<Boolean> = Vec::new();
    let mut idx: usize = 0;
    proof {
        F::lemma_modulus_is_prime();
        assert(cs.extends(&cs0)) by {
            assert(cs.values@.subrange(0, cs0.values@.len() as int) =~= cs0.values@);
            assert(cs.constraints@.subrange(0, cs0.constraints@.len() as int) =~= cs0.constraints@);
        }
        assert(cs.added_since(&cs0) =~= Seq::<Constraint<F>>::empty());
    }
    while idx < num_indices
        invariant
            F::modulus() > 1,
            idx <= num_indices,
            cs0.wf(),
            cs0.holds_num(*target_index),
            cs.wf(),
            cs.extends(&cs0),
            bits@.len() == idx,
            sel@.len() == idx,
            forall|i: int| 0 <= i < idx ==> sel@[i] == Boolean::Is(#[trigger] bits@[i]),
            forall|i: int| 0 <= i < idx ==> {
                &&& cs.holds_bit(#[trigger] bits@[i])
                &&& bits@[i].value == (target_index.value.val() == i % (F::modulus() as int))
            },
            all_hold(cs.added_since(&cs0), cs.w()),
            forall|w: Seq<int>|
                admits(*cs, cs0, w) ==> forall|i: int|
                    0 <= i < idx ==> {
                        &&& congruent::<F>(w[target_index.variable as int], i)
                            ==> congruent::<F>(#[trigger] w[bits@[i].variable as int], 1)
                        &&& !congruent::<F>(w[target_index.variable as int], i)
                            ==> congruent::<F>(w[bits@[i].variable as int], 0)
                    },
        decreases num_indices - idx,
    {
        let ghost prev = *cs;
        proof {
            lemma_extends_holds(&prev, &cs0);
        }
        let b = alloc_num_equals_const(cs, target_index, F::from_u64(idx as u64));
        let bit = match b {
            Ok(bit) => bit,
            Err(e) => {
                return Err(e);
            },
        };
        proof {
            lemma_extends_holds(cs, &prev);
            lemma_extends_transitive(cs, &prev, &cs0);
            // constraints added so far keep holding
            crate::r1cs::lemma_added_keep_holding(&cs0, &prev, cs);
            assert forall|w: Seq<int>| admits(*cs, cs0, w) implies forall|i: int|
                0 <= i < idx + 1 ==> {
                    &&& congruent::<F>(w[target_index.variable as int], i)
                        ==> congruent::<F>(#[trigger] w[bits@.push(bit)[i].variable as int], 1)
                    &&& !congruent::<F>(w[target_index.variable as int], i)
                        ==> congruent::<F>(w[bits@.push(bit)[i].variable as int], 0)
                } by {
                lemma_admits_split(cs, &prev, &cs0, w);
                assert forall|i: int| 0 <= i < idx + 1 implies {
                    &&& congruent::<F>(w[target_index.variable as int], i)
                        ==> congruent::<F>(#[trigger] w[bits@.push(bit)[i].variable as int], 1)
                    &&& !congruent::<F>(w[target_index.variable as int], i)
                        ==> congruent::<F>(w[bits@.push(bit)[i].variable as int], 0)
                } by {
                    if i < idx {
                        assert(bits@.push(bit)[i] == bits@[i]);
                    } else {
                        assert(bits@.push(bit)[i] == bit);
                        lemma_congruent_mod_index::<F>(w[target_index.variable as int], i);
                    }
                }
            }
            lemma_small_index_mod::<F>(idx as int);
        }
        bits.push(bit);
        sel.push(Boolean::Is(bit));
        idx = idx + 1;
    }
    // enforce sum_i selector[i] * 1 = 1
    let ghost cs1 = *cs;
    let mut sum = LinearCombination::<F>::zero();
    let mut j: usize = 0;
    proof {
        assert(bits@.subrange(0, 0) =~= Seq::<AllocatedBit>::empty());
    }
    while j < num_indices
        invariant
            j <= num_indices,
            bits@.len() == num_indices,
            cs1 == *cs,
            forall|i: int| 0 <= i < num_indices ==> cs.holds_bit(#[trigger] bits@[i]),
            lc_within(sum, cs.values@.len()),
            forall|w: Seq<int>| #[trigger] lc_eval(sum.terms@, w) == bits_sum(bits@.subrange(0, j as int), w),
        decreases num_indices - j,
    {
        proof {
            assert(cs.holds_bit(bits@[j as int]));
            assert(bits@.subrange(0, j + 1).drop_last() =~= bits@.subrange(0, j as int));
        }
        sum = sum.add_term(bits[j].variable, F::one());
        j = j + 1;
    }
    proof {
        assert(bits@.subrange(0, num_indices as int) =~= bits@);
    }
    let one_a = lc_var::<F>(ONE_VARIABLE);
    let one_b = lc_var::<F>(ONE_VARIABLE);
    cs.enforce(sum, one_a, one_b);
    proof {
        let con = Constraint { a: sum, b: one_a, c: one_b };
        assert(cs.extends(&cs1)) by {
            assert(cs.values@.subrange(0, cs1.values@.len() as int) =~= cs1.values@);
            assert(cs.constraints@.subrange(0, cs1.constraints@.len() as int) =~= cs1.constraints@);
        }
        lemma_extends_transitive(cs, &cs1, &cs0);
        lemma_extends_holds(cs, &cs1);
        assert(cs.added_since(&cs0) =~= cs1.added_since(&cs0).push(con));
        let ww = cs.w();
        assert(ww =~= cs1.w());
        F::lemma_val_bound(&target_index.value);
        let s = bits_sum(bits@, ww);
        assert(ww[0] == 1);
        // the own assignment: the sum counts the entries equal to the target
        if target_index.value.val() < num_indices && num_indices <= F::modulus() {
            lemma_bits_sum_one_hot::<F>(bits@, ww, target_index.value.val() as int);
            assert(s == 1);
            lemma_cong_refl::<F>(1);
            assert(constraint_holds(con, ww));
            assert forall|i: int| 0 <= i < cs.added_since(&cs0).len() implies constraint_holds(
                #[trigger] cs.added_since(&cs0)[i],
                ww,
            ) by {
                if i < cs1.added_since(&cs0).len() {
                    assert(cs.added_since(&cs0)[i] == cs1.added_since(&cs0)[i]);
                }
            }
        }
        if target_index.value.val() >= num_indices {
            lemma_bits_sum_one_hot::<F>(bits@, ww, target_index.value.val() as int);
            assert(s == 0);
            lemma_small_mod(1, F::modulus());
            lemma_small_mod(0, F::modulus());
            lemma_congruent_iff_mod_eq::<F>(0, 1);
            assert(!constraint_holds(con, ww));
            assert(cs.added_since(&cs0)[cs.added_since(&cs0).len() - 1] == con);
        }
        assert forall|i: int| 0 <= i < num_indices implies {
            &&& #[trigger] sel@[i] matches Boolean::Is(bit)
            &&& cs.holds_bit(bit)
            &&& bit.value == (target_index.value.val() == i % (F::modulus() as int))
        } by {
            assert(sel@[i] == Boolean::Is(bits@[i]));
            assert(cs1.holds_bit(bits@[i]));
        }
        // soundness
        assert forall|w: Seq<int>| admits(*cs, cs0, w) implies {
            &&& forall|i: int|
                0 <= i < num_indices ==> {
                    &&& congruent::<F>(w[target_index.variable as int], i)
                        ==> congruent::<F>(#[trigger] w[selector_bit(sel@[i]).variable as int], 1)
                    &&& !congruent::<F>(w[target_index.variable as int], i)
                        ==> congruent::<F>(w[selector_bit(sel@[i]).variable as int], 0)
                }
            &&& exists|i: int|
                0 <= i < num_indices && congruent::<F>(w[target_index.variable as int], i)
        } by {
            assert(admits(cs1, cs0, w)) by {
                assert forall|i: int| 0 <= i < cs1.added_since(&cs0).len() implies constraint_holds(
                    #[trigger] cs1.added_since(&cs0)[i],
                    w,
                ) by {
                    assert(cs.added_since(&cs0)[i] == cs1.added_since(&cs0)[i]);
                }
            }
            assert forall|i: int| 0 <= i < num_indices implies {
                &&& congruent::<F>(w[target_index.variable as int], i)
                    ==> congruent::<F>(#[trigger] w[selector_bit(sel@[i]).variable as int], 1)
                &&& !congruent::<F>(w[target_index.variable as int], i)
                    ==> congruent::<F>(w[selector_bit(sel@[i]).variable as int], 0)
            } by {
                assert(sel@[i] == Boolean::Is(bits@[i]));
            }
            assert(constraint_holds(con, w)) by {
                assert(cs.added_since(&cs0)[cs.added_since(&cs0).len() - 1] == con);
            }
            if !(exists|i: int| 0 <= i < num_indices && congruent::<F>(w[target_index.variable as int], i)) {
                lemma_bits_sum_zero::<F>(bits@, w, w[target_index.variable as int]);
                lemma_cong_refl::<F>(1);
                lemma_constraint_congruent::<F>(lc_eval(sum.terms@, w), 1, 1, 0, 1, 1);
                lemma_small_mod(1, F::modulus());
                lemma_small_mod(0, F::modulus());
                lemma_congruent_iff_mod_eq::<F>(0, 1);
            }
        }
    }
    Ok(sel)
}

/// `x == i mod p` in the field exactly when `x == i` there.
proof fn lemma_congruent_mod_index<F: PrimeField>(x: int, i: int)
    ensures
        congruent::<F>(x, i % (F::modulus() as int)) <==> congruent::<F>(x, i),
{
    F::lemma_modulus_is_prime();
    lemma_cong_mod::<F>(i);
    if congruent::<F>(x, i % (F::modulus() as int)) {
        lemma_cong_trans::<F>(x, i % (F::modulus() as int), i);
    }
    if congruent::<F>(x, i) {
        lemma_cong_trans::<F>(x, i, i % (F::modulus() as int));
    }
}

/// The image of a small index in the field.
proof fn lemma_small_index_mod<F: PrimeField>(i: int)
    requires
        0 <= i <= 0xffff_ffff_ffff_ffff,
    ensures
        F::modulus() > 1,
        (i as u64) as nat % F::modulus() == i % (F::modulus() as int),
{
    F::lemma_modulus_is_prime();
}

/// When each bit holds whether the target equals its index, the bits sum to one if
/// the target is among the indices and to zero otherwise.
proof fn lemma_bits_sum_one_hot<F: PrimeField>(bits: Seq<AllocatedBit>, w: Seq<int>, t: int)
    requires
        F::modulus() > 1,
        bits.len() <= F::modulus() || t >= bits.len(),
        0 <= t < F::modulus(),
        forall|i: int|
            0 <= i < bits.len() ==> w[(#[trigger] bits[i]).variable as int] == bool_int(
                t == i % (F::modulus() as int),
            ),
    ensures
        bits_sum(bits, w) == if t < bits.len() {
            1int
        } else {
            0int
        },
    decreases bits.len(),
{
    if bits.len() > 0 {
        let k = bits.len() - 1;
        lemma_bits_sum_one_hot::<F>(bits.drop_last(), w, t);
        assert(bits.last() == bits[k]);
        lemma_small_mod(k as nat, F::modulus());
    }
}

/// When no index matches the target, every bit is zero and so is their sum.
proof fn lemma_bits_sum_zero<F: PrimeField>(bits: Seq<AllocatedBit>, w: Seq<int>, x: int)
    requires
        forall|i: int|
            0 <= i < bits.len() ==> !congruent::<F>(x, i) ==> congruent::<F>(
                #[trigger] w[bits[i].variable as int],
                0,
            ),
        forall|i: int| 0 <= i < bits.len() ==> !congruent::<F>(x, i),
    ensures
        congruent::<F>(bits_sum(bits, w), 0),
    decreases bits.len(),
{
    if bits.len() == 0 {
        lemma_cong_refl::<F>(0);
    } else {
        let k = bits.len() - 1;
        assert forall|i: int| 0 <= i < bits.drop_last().len() && !congruent::<F>(x, i) implies congruent::<F>(
            #[trigger] w[bits.drop_last()[i].variable as int],
            0,
        ) by {
            assert(bits.drop_last()[i] == bits[i]);
        }
        lemma_bits_sum_zero::<F>(bits.drop_last(), w, x);
        assert(bits.last() == bits[k]);
        assert(!congruent::<F>(x, k));
        lemma_cong_add::<F>(bits_sum(bits.drop_last(), w), 0, w[bits[k].variable as int], 0);
    }
}

} // verus!
