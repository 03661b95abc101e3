use crate::bignum::Nat;
use crate::gen_set::SynthesisError;
use crate::rsa::{after_removals, digits_of, CircuitSetParams, RsaSet};
use vstd::prelude::*;

verus! {

/// The RSA accumulator as the batched-update circuit sees it: the native set
/// that supplies the witness values, and the circuit parameters.
#[derive(Clone, Debug)]
pub struct CircuitSet {
    pub value: Option<RsaSet>,
    pub params: CircuitSetParams,
}

impl CircuitSet {
    /// The native value, where present, is well formed.
    pub open spec fn inv(&self) -> bool {
        self.value matches Some(v) ==> v.wf()
    }

    /// Allocates the accumulator from its native value.
    pub fn allocate(value: Option<RsaSet>, params: &CircuitSetParams) -> (r: Result<
        CircuitSet,
        SynthesisError,
    >)
        requires
            value matches Some(v) ==> v.wf(),
        ensures
            r is Ok <==> value is Some,
            r is Err ==> r->Err_0 == SynthesisError::AssignmentMissing,
            r matches Ok(c) ==> c.inv() && c.value == value && c.params == *params,
    {
        match value {
            Some(v) => Ok(CircuitSet { value: Some(v), params: *params }),
            None => Err(SynthesisError::AssignmentMissing),
        }
    }

    /// The value of the digest wires.
    pub fn wire_values(&self) -> (r: Option<Nat>)
        ensures
            r is Some <==> self.value is Some,
            r matches Some(d) ==> d.digits@ == self.value->Some_0.digest.digits@,
    {
        match &self.value {
            Some(v) => Some(v.digest.copy()),
            None => None,
        }
    }

    /// The native value.
    pub fn value(&self) -> (r: &Option<RsaSet>)
        ensures
            *r == self.value,
    {
        &self.value
    }

    /// The circuit parameters.
    pub fn params(&self) -> (r: &CircuitSetParams)
        ensures
            *r == self.params,
    {
        &self.params
    }

    /// Removes each of `items`; every one must be present.
    pub fn remove(self, items: &Vec<Nat>) -> (r: Result<CircuitSet, SynthesisError>)
        requires
            self.inv(),
            self.value matches Some(v) ==> after_removals(v.members(), digits_of(items@)).1,
        ensures
            r is Ok <==> self.value is Some,
            r is Err ==> r->Err_0 == SynthesisError::AssignmentMissing,
            r matches Ok(c) ==> (c.inv() && c.params == self.params && (c.value matches Some(w)
                && w.group == self.value->Some_0.group && w.hash_domain == self.value->Some_0.hash_domain
                && w.limb_width == self.value->Some_0.limb_width && w.members() == after_removals(
                self.value->Some_0.members(),
                digits_of(items@),
            ).0)),
    {
        let CircuitSet { value, params } = self;
        match value {
            Some(v) => {
                let mut v = v;
                v.remove_all(items);
                Ok(CircuitSet { value: Some(v), params })
            },
            None => Err(SynthesisError::AssignmentMissing),
        }
    }

    /// Inserts each of `items`.
    pub fn insert(self, items: Vec<Nat>) -> (r: Result<CircuitSet, SynthesisError>)
        requires
            self.inv(),
        ensures
            r is Ok <==> self.value is Some,
            r is Err ==> r->Err_0 == SynthesisError::AssignmentMissing,
            r matches Ok(c) ==> (c.inv() && c.params == self.params && (c.value matches Some(w)
                && w.group == self.value->Some_0.group && w.hash_domain == self.value->Some_0.hash_domain
                && w.limb_width == self.value->Some_0.limb_width && w.members() == self.value->Some_0.members()
                + digits_of(items@))),
    {
        let CircuitSet { value, params } = self;
        match value {
            Some(v) => {
                let mut v = v;
                v.insert_all(items);
                Ok(CircuitSet { value: Some(v), params })
            },
            None => Err(SynthesisError::AssignmentMissing),
        }
    }

    /// Removes `removed_items`, then inserts `inserted_items`; every removed
    /// item must be present at its turn.
    pub fn swap_all(self, removed_items: &Vec<Nat>, inserted_items: Vec<Nat>) -> (r: Result<
        CircuitSet,
        SynthesisError,
    >)
        requires
            self.inv(),
            self.value matches Some(v) ==> after_removals(v.members(), digits_of(removed_items@)).1,
        ensures
            r is Ok <==> self.value is Some,
            r is Err ==> r->Err_0 == SynthesisError::AssignmentMissing,
            r matches Ok(c) ==> (c.inv() && c.params == self.params && (c.value matches Some(w)
                && w.group == self.value->Some_0.group && w.hash_domain == self.value->Some_0.hash_domain
                && w.limb_width == self.value->Some_0.limb_width && w.members() == after_removals(
                self.value->Some_0.members(),
                digits_of(removed_items@),
            ).0 + digits_of(inserted_items@))),
    {
        match self.remove(removed_items) {
            Ok(without) => without.insert(inserted_items),
            Err(e) => Err(e),
        }
    }
}

} // verus!
