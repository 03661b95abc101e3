use crate::bignum::Nat;
use crate::gen_set::SynthesisError;
use crate::rsa::{after_removals, digest_value, digits_of, CircuitSetParams, HashDomain, RsaGroup, RsaSet};
use crate::rsa_circuit::CircuitSet;
use vstd::prelude::*;

verus! {

/// The inputs of one batched update of the RSA accumulator: the initial
/// state, the encoded elements to remove and to insert, and the digest that
/// the update must reach.
pub struct SetBenchInputs {
    /// The initial state of the set.
    pub initial_state: RsaSet,
    pub final_digest: Nat,
    /// The elements to remove from the set.
    pub to_remove: Vec<Nat>,
    /// The elements to insert into the set.
    pub to_insert: Vec<Nat>,
}

/// Appends copies of the numbers of `extra` to `v`.
fn append_copies(v: &mut Vec<Nat>, extra: &Vec<Nat>)
    ensures
        digits_of(final(v)@) == digits_of(old(v)@) + digits_of(extra@),
{
    let ghost start = v@;
    let mut k: usize = 0;
    while k < extra.len()
        invariant
            k <= extra@.len(),
            digits_of(v@) == digits_of(start) + digits_of(extra@).subrange(0, k as int),
        decreases extra@.len() - k,
    {
        let c = extra[k].copy();
        let ghost prev = v@;
        v.push(c);
        k += 1;
        proof {
            assert(digits_of(v@) =~= digits_of(prev).push(extra@[k - 1].digits@));
            assert(digits_of(extra@).subrange(0, k as int) =~= digits_of(extra@).subrange(
                0,
                k - 1,
            ).push(extra@[k - 1].digits@));
            assert(digits_of(v@) =~= digits_of(start) + digits_of(extra@).subrange(0, k as int));
        }
    }
    proof {
        assert(digits_of(extra@).subrange(0, extra@.len() as int) =~= digits_of(extra@));
    }
}

impl SetBenchInputs {
    /// The inputs of a batch over encoded elements: the set starts with the
    /// untouched and the removed elements, and must end with the digest of the
    /// untouched and the inserted ones.
    pub fn new(
        untouched: Vec<Nat>,
        removed: Vec<Nat>,
        inserted: Vec<Nat>,
        n_bits_elem: usize,
        limb_width: usize,
        group: RsaGroup,
    ) -> (r: SetBenchInputs)
        requires
            group.wf(),
        ensures
            r.initial_state.wf(),
            r.initial_state.group == group,
            r.initial_state.members() == digits_of(untouched@) + digits_of(removed@),
            r.initial_state.hash_domain == (HashDomain { n_bits: n_bits_elem, n_trailing_ones: 1 }),
            r.initial_state.limb_width == limb_width,
            r.final_digest.value() as int == digest_value(
                group,
                digits_of(untouched@) + digits_of(inserted@),
            ),
            r.final_digest.wf(),
            r.to_remove@ == removed@,
            r.to_insert@ == inserted@,
    {
        let mut kept: Vec<Nat> = Vec::new();
        append_copies(&mut kept, &untouched);
        append_copies(&mut kept, &inserted);
        let target = RsaSet::new_with(group, n_bits_elem, limb_width, kept);
        let final_digest = target.digest;
        let group = target.group;
        let mut start: Vec<Nat> = untouched;
        append_copies(&mut start, &removed);
        let initial_state = RsaSet::new_with(group, n_bits_elem, limb_width, start);
        SetBenchInputs { initial_state, final_digest, to_remove: removed, to_insert: inserted }
    }
}

/// The parameters of the batched-update circuit.
pub struct SetBenchParams {
    pub group: RsaGroup,
    pub limb_width: usize,
    pub n_bits_base: usize,
    pub n_bits_elem: usize,
    pub n_bits_challenge: usize,
    pub item_size: usize,
    pub n_removes: usize,
    pub n_inserts: usize,
    pub verbose: bool,
}

/// The batched-update circuit over the RSA accumulator.
pub struct SetBench {
    pub inputs: Option<SetBenchInputs>,
    pub params: SetBenchParams,
}

impl SetBench {
    /// Every element of `to_remove` is present in the initial state at its turn.
    pub open spec fn removals_present(inputs: SetBenchInputs) -> bool {
        after_removals(inputs.initial_state.members(), digits_of(inputs.to_remove@)).1
    }

    /// The batch reaches the expected digest: removing `to_remove` then
    /// inserting `to_insert` from the initial state gives `final_digest`.
    pub open spec fn holds(inputs: SetBenchInputs) -> bool {
        let m = after_removals(inputs.initial_state.members(), digits_of(inputs.to_remove@)).0;
        let g = inputs.initial_state.group;
        inputs.final_digest.value() as int == digest_value(
            g,
            m + digits_of(inputs.to_insert@),
        )
    }

    /// Computes the witness of the batched update: allocates the accumulator
    /// from the initial state, applies the removals and then the insertions,
    /// and checks the resulting digest against the expected one.
    pub fn synthesize(self) -> (r: Result<(), SynthesisError>)
        requires
            self.inputs matches Some(i) ==> i.initial_state.wf() && i.final_digest.wf()
                && SetBench::removals_present(i),
        ensures
            self.inputs is None ==> r == Err::<(), SynthesisError>(SynthesisError::AssignmentMissing),
            self.inputs matches Some(i) ==> (r is Ok <==> (i.to_remove@.len() == self.params.n_removes
                && i.to_insert@.len() == self.params.n_inserts && SetBench::holds(i))),
            self.inputs matches Some(i) ==> (r == Err::<(), SynthesisError>(
                SynthesisError::AssignmentMissing,
            ) <==> (i.to_remove@.len() != self.params.n_removes || i.to_insert@.len()
                != self.params.n_inserts)),
    {
        let inputs = match self.inputs {
            Some(i) => i,
            None => {
                return Err(SynthesisError::AssignmentMissing);
            },
        };
        if inputs.to_remove.len() != self.params.n_removes || inputs.to_insert.len()
            != self.params.n_inserts {
            return Err(SynthesisError::AssignmentMissing);
        }
        let SetBenchInputs { initial_state, final_digest, to_remove, to_insert } = inputs;
        let circuit_params = CircuitSetParams {
            n_bits: self.params.n_bits_elem,
            limb_width: self.params.limb_width,
        };
        let set = match CircuitSet::allocate(Some(initial_state), &circuit_params) {
            Ok(c) => c,
            Err(e) => {
                return Err(e);
            },
        };
        let new_set = match set.swap_all(&to_remove, to_insert) {
            Ok(c) => c,
            Err(e) => {
                return Err(e);
            },
        };
        let matches_expected = match &new_set.value {
            Some(v) => v.digest.same_value(&final_digest),
            None => false,
        };
        if !matches_expected {
            return Err(SynthesisError::Unsatisfiable);
        }
        Ok(())
    }
}

} // verus!
