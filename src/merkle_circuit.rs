use crate::field::{all_valid, encode_item, item_hash, Fe};
use crate::gen_set::{GenSet, SynthesisError};
use crate::merkle::{
    fold_path, fold_up, items_valid, leaves_after, lemma_leaves_after_prefix, lemma_path_reaches_root, lemma_same_leaves_same_root,
    MerkleSet,
};
use vstd::prelude::*;

verus! {

/// The parameters of the hash-tree accumulator in a circuit.
#[derive(Clone, Copy, Debug)]
pub struct MerkleCircuitSetParams {
    /// The number of non-root levels of the tree.
    pub depth: usize,
}

/// The hash-tree accumulator as the batched-update circuit sees it: the
/// native tree that supplies the witness values, and the digest wire's value.
#[derive(Clone, Debug)]
pub struct MerkleCircuitSet {
    pub value: Option<MerkleSet>,
    pub digest: Fe,
    pub params: MerkleCircuitSetParams,
}

impl MerkleCircuitSet {
    /// The digest wire carries the native tree's root.
    pub open spec fn inv(&self) -> bool {
        match self.value {
            Some(v) => v.wf() && v.depth == self.params.depth && self.digest == v.root(),
            None => self.digest.valid(),
        }
    }

    /// Allocates the accumulator from its native value, whose root becomes the
    /// digest.
    pub fn allocate(value: Option<MerkleSet>, params: &MerkleCircuitSetParams) -> (r: Result<
        MerkleCircuitSet,
        SynthesisError,
    >)
        requires
            value matches Some(v) ==> v.wf() && v.depth == params.depth,
        ensures
            r is Ok <==> value is Some,
            r is Err ==> r->Err_0 == SynthesisError::AssignmentMissing,
            r matches Ok(c) ==> c.inv() && c.value == value && c.params == *params,
    {
        match value {
            Some(v) => {
                let digest = v.digest();
                Ok(MerkleCircuitSet { value: Some(v), digest, params: *params })
            },
            None => Err(SynthesisError::AssignmentMissing),
        }
    }

    /// The digest wire's value.
    pub fn wire_values(&self) -> (r: Fe)
        ensures
            r == self.digest,
    {
        self.digest
    }

    /// The native tree.
    pub fn value(&self) -> (r: &Option<MerkleSet>)
        ensures
            *r == self.value,
    {
        &self.value
    }

    /// The circuit parameters.
    pub fn params(&self) -> (r: &MerkleCircuitSetParams)
        ensures
            *r == self.params,
    {
        &self.params
    }

    /// Swaps the pairs of `removed_items` and `inserted_items` in order. For
    /// each pair the old item's path is taken from the native tree, the old
    /// leaf is folded up it and checked against the current digest, and the
    /// new leaf folded up the same path gives the next digest. Every old item
    /// must be present in the native tree at its turn.
    pub fn swap_all(self, removed_items: &Vec<Vec<Fe>>, inserted_items: &Vec<Vec<Fe>>) -> (r: Result<
        MerkleCircuitSet,
        SynthesisError,
    >)
        requires
            self.inv(),
            removed_items@.len() == inserted_items@.len(),
            items_valid(removed_items@),
            items_valid(inserted_items@),
            self.value matches Some(v) ==> leaves_after(
                v.leaves(),
                removed_items@,
                inserted_items@,
                removed_items@.len() as int,
            ) is Some,
        ensures
            r is Ok <==> (removed_items@.len() == 0 || self.value is Some),
            r is Err ==> r->Err_0 == SynthesisError::AssignmentMissing,
            r matches Ok(c) ==> c.inv() && c.params == self.params,
            r matches Ok(c) ==> (self.value is Some <==> c.value is Some),
            r matches Ok(c) ==> (removed_items@.len() == 0 ==> c.digest == self.digest),
            r matches Ok(c) ==> (self.value matches Some(v) ==> (c.value matches Some(w) && Some(
                w.leaves(),
            ) == leaves_after(
                v.leaves(),
                removed_items@,
                inserted_items@,
                removed_items@.len() as int,
            ) && c.digest == w.root())),
    {
        let ghost orig_value = self.value;
        let n = removed_items.len();
        if n == 0 {
            return Ok(self);
        }
        let MerkleCircuitSet { value: value_opt, digest, params } = self;
        let mut value = match value_opt {
            Some(v) => v,
            None => {
                return Err(SynthesisError::AssignmentMissing);
            },
        };
        let mut digest = digest;
        let ghost start = value.leaves();
        let mut j: usize = 0;
        while j < n
            invariant
                n == removed_items@.len(),
                n == inserted_items@.len(),
                j <= n,
                orig_value matches Some(v0) && v0.leaves() == start,
                self.value == orig_value,
                items_valid(removed_items@),
                items_valid(inserted_items@),
                value.wf(),
                value.depth == params.depth,
                digest == value.root(),
                leaves_after(start, removed_items@, inserted_items@, j as int) == Some(
                    value.leaves(),
                ),
                leaves_after(start, removed_items@, inserted_items@, n as int) is Some,
            decreases n - j,
        {
            let old_item = &removed_items[j];
            let new_item = &inserted_items[j];
            proof {
                assert(all_valid(old_item@));
                assert(all_valid(new_item@));
                lemma_leaves_after_prefix(start, removed_items@, inserted_items@, j as int + 1, n as int);
                assert(value.position(old_item@) is Some);
            }
            let path = value.witness(old_item);
            proof {
                // the old leaf folded up its path meets the current digest
                assert(fold_path(item_hash(old_item@), path@) == digest);
            }
            let new_leaf = encode_item(new_item);
            let new_cur = fold_up(new_leaf, &path);
            let ghost before = value;
            let ghost i = value.position(old_item@)->Some_0;
            let fresh = new_item.clone();
            proof {
                assert(fresh@ =~= new_item@);
            }
            value.swap(old_item, fresh);
            proof {
                lemma_path_reaches_root(&value, i);
            }
            digest = new_cur;
            j += 1;
        }
        Ok(MerkleCircuitSet { value: Some(value), digest, params })
    }
}

/// The digest that the circuit reaches for a batch is the root of the native
/// tree after the same swaps.
pub proof fn lemma_circuit_matches_native(
    start: MerkleSet,
    circuit_after: MerkleCircuitSet,
    native_after: MerkleSet,
    removed_items: Seq<Vec<Fe>>,
    inserted_items: Seq<Vec<Fe>>,
)
    requires
        start.wf(),
        native_after.wf(),
        start.swapped_all(removed_items, inserted_items, native_after),
        circuit_after.inv(),
        circuit_after.params.depth == start.depth,
        circuit_after.value matches Some(w) && Some(w.leaves()) == leaves_after(
            start.leaves(),
            removed_items,
            inserted_items,
            removed_items.len() as int,
        ),
    ensures
        circuit_after.digest == native_after.root(),
{
    let w = circuit_after.value->Some_0;
    lemma_same_leaves_same_root(&w, &native_after);
}

} // verus!
