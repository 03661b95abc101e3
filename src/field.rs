use sapling_crypto_ce::bellman::pairing::bn256::{Bn256, Fr, FrRepr};
use sapling_crypto_ce::bellman::pairing::ff::PrimeField;
use sapling_crypto_ce::group_hash::Keccak256Hasher;
use sapling_crypto_ce::poseidon::bn256::Bn256PoseidonParams;
use sapling_crypto_ce::poseidon::poseidon_hash;
use vstd::prelude::*;

verus! {

/// The base of a limb: 2^64.
pub open spec fn limb_base() -> nat {
    0x1_0000_0000_0000_0000
}

/// The integer spelled by four 64-bit limbs, least significant first.
pub open spec fn limbs_value(l0: nat, l1: nat, l2: nat, l3: nat) -> nat {
    l0 + limb_base() * (l1 + limb_base() * (l2 + limb_base() * l3))
}

/// The order of the BN256 scalar field.
pub open spec fn field_modulus() -> nat {
    limbs_value(0x43e1f593f0000001, 0x2833e84879b97091, 0xb85045b68181585d, 0x30644e72e131a029)
}

/// An element of the BN256 scalar field, held as its canonical representation:
/// four 64-bit limbs, least significant first.
#[derive(PartialEq, Eq, Structural, Clone, Copy, Debug)]
pub struct Fe {
    pub l0: u64,
    pub l1: u64,
    pub l2: u64,
    pub l3: u64,
}

impl Fe {
    /// The integer that the limbs spell.
    pub open spec fn value(self) -> nat {
        limbs_value(self.l0 as nat, self.l1 as nat, self.l2 as nat, self.l3 as nat)
    }

    /// The representation is canonical: below the field's order.
    pub open spec fn valid(self) -> bool {
        self.value() < field_modulus()
    }

    /// The field element with the given small integer value.
    pub fn from_u64(v: u64) -> (r: Fe)
        ensures
            r.value() == v as nat,
            r.valid(),
    {
        Fe { l0: v, l1: 0, l2: 0, l3: 0 }
    }

    /// The additive identity.
    pub fn zero() -> (r: Fe)
        ensures
            r.value() == 0,
            r.valid(),
    {
        Fe::from_u64(0)
    }
}

/// Every element of a sequence is canonical.
pub open spec fn all_valid(s: Seq<Fe>) -> bool {
    forall|i: int| 0 <= i < s.len() ==> #[trigger] s[i].valid()
}

/// What the Poseidon hash (BN256, standard parameters) gives for a sequence of
/// field elements.
pub uninterp spec fn poseidon_of(s: Seq<Fe>) -> Fe;

/// Relies on `sapling_crypto::poseidon::poseidon_hash` over BN256 with the
/// parameters of `Bn256PoseidonParams::new::<Keccak256Hasher>()`: its single
/// output word depends on the input words alone, and `into_repr` yields a
/// canonical representation. `from_repr` panics on a non-canonical input, which
/// `requires` leaves out.
#[verifier::external_body]
fn poseidon(input: &Vec<Fe>) -> (r: Fe)
    requires
        all_valid(input@),
    ensures
        r == poseidon_of(input@),
        r.valid(),
{
    let params = Bn256PoseidonParams::new::<Keccak256Hasher>();
    let xs: Vec<Fr> = input.iter().map(|f| Fr::from_repr(FrRepr([f.l0, f.l1, f.l2, f.l3])).unwrap()).collect();
    let r = poseidon_hash::<Bn256>(&params, &xs)[0].into_repr();
    Fe { l0: r.0[0], l1: r.0[1], l2: r.0[2], l3: r.0[3] }
}

/// The hash of an item: the tree's leaf value for it.
pub open spec fn item_hash(item: Seq<Fe>) -> Fe {
    poseidon_of(item)
}

/// The hash of two sibling nodes: the value of their parent.
pub open spec fn node_hash(left: Fe, right: Fe) -> Fe {
    poseidon_of(seq![left, right])
}

/// Encodes an item as a field element by hashing it.
pub fn encode_item(item: &Vec<Fe>) -> (r: Fe)
    requires
        all_valid(item@),
    ensures
        r == item_hash(item@),
        r.valid(),
{
    poseidon(item)
}

/// Hashes a pair of sibling nodes.
pub fn hash_pair(left: Fe, right: Fe) -> (r: Fe)
    requires
        left.valid(),
        right.valid(),
    ensures
        r == node_hash(left, right),
        r.valid(),
{
    let v: Vec<Fe> = vec![left, right];
    proof {
        assert(v@ =~= seq![left, right]);
    }
    poseidon(&v)
}

/// Encoding is deterministic: equal items have equal encodings.
pub proof fn lemma_encoding_deterministic(a: Seq<Fe>, b: Seq<Fe>)
    requires
        a == b,
    ensures
        item_hash(a) == item_hash(b),
{
}

} // verus!
