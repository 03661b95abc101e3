use num_bigint::BigUint;
use set_accumulator::bench::{SetBench, SetBenchInputs, SetBenchParams};
use set_accumulator::bignum::Nat;
use set_accumulator::field::{encode_item, hash_pair, Fe};
use set_accumulator::gen_set::{GenSet, SynthesisError};
use set_accumulator::merkle::{fold_up, MerkleSet};
use set_accumulator::merkle_circuit::{MerkleCircuitSet, MerkleCircuitSetParams};
use set_accumulator::rsa::{CircuitSetParams, HashDomain, RsaGroup, RsaSet};
use set_accumulator::rsa_circuit::CircuitSet;
use std::str::FromStr;

const RSA_512: &str = "11834783464130424096695514462778870280264989938857328737807205623069291535525952722847913694296392927890261736769191982212777933726583565708193466779811767";

fn parse_nat(s: &str) -> Nat {
    Nat::new(BigUint::from_str(s).unwrap().to_u32_digits())
}

fn big(n: &Nat) -> BigUint {
    BigUint::from_slice(&n.digits)
}

fn group() -> RsaGroup {
    RsaGroup { g: Nat::from_u32(2), m: parse_nat(RSA_512) }
}

fn item(xs: &[u64]) -> Vec<Fe> {
    xs.iter().map(|&x| Fe::from_u64(x)).collect()
}

fn elem(i: u64) -> Nat {
    // an odd encoding just above 2^127
    parse_nat(&format!("{}", (1u128 << 127) + 2 * (i as u128) + 1))
}

fn params(n_removes: usize, n_inserts: usize) -> SetBenchParams {
    SetBenchParams {
        group: group(),
        limb_width: 32,
        n_bits_base: 512,
        n_bits_elem: 128,
        n_bits_challenge: 128,
        item_size: 5,
        n_removes,
        n_inserts,
        verbose: false,
    }
}

#[test]
fn small_rsa_1_swap() {
    let removed = vec![elem(4)];
    let inserted = vec![elem(5)];
    let inputs = SetBenchInputs::new(vec![], removed, inserted, 128, 32, group());
    let expected = BigUint::from(2u32).modpow(&big(&elem(5)), &big(&parse_nat(RSA_512)));
    assert_eq!(big(&inputs.final_digest), expected);
    let bench = SetBench { inputs: Some(inputs), params: params(1, 1) };
    assert_eq!(bench.synthesize(), Ok(()));
}

#[test]
fn rsa_digest_is_generator_to_product() {
    let m = big(&parse_nat(RSA_512));
    let set = RsaSet::new_with(group(), 128, 32, vec![elem(1), elem(2), elem(3)]);
    let p = big(&elem(1)) * big(&elem(2)) * big(&elem(3));
    assert_eq!(big(&set.digest()), BigUint::from(2u32).modpow(&p, &m));
    assert_ne!(big(&set.digest()), BigUint::from(2u32));
}

#[test]
fn rsa_5_swaps_match_native() {
    let removed: Vec<Nat> = (0..5).map(|i| elem(10 + i)).collect();
    let inserted: Vec<Nat> = (0..5).map(|i| elem(20 + i)).collect();
    let mut native = RsaSet::new_with(group(), 128, 32, removed.iter().map(|n| n.copy()).collect());
    native.swap_all(removed.iter().map(|n| n.copy()).collect(), inserted.iter().map(|n| n.copy()).collect());
    let inputs = SetBenchInputs::new(vec![], removed, inserted, 128, 32, group());
    assert_eq!(big(&native.digest()), big(&inputs.final_digest));
    let bench = SetBench { inputs: Some(inputs), params: params(5, 5) };
    assert_eq!(bench.synthesize(), Ok(()));
}

#[test]
fn rsa_remove_absent_reports_false() {
    let mut set = RsaSet::new_with(group(), 128, 32, vec![elem(1)]);
    let before = big(&set.digest());
    assert!(!set.remove(&elem(9)));
    assert_eq!(big(&set.digest()), before);
}

#[test]
fn rsa_wrong_expected_digest_rejected() {
    let inputs = SetBenchInputs::new(vec![], vec![elem(1)], vec![elem(2)], 128, 32, group());
    let inputs = SetBenchInputs { final_digest: Nat::from_u32(3), ..inputs };
    let bench = SetBench { inputs: Some(inputs), params: params(1, 1) };
    assert_eq!(bench.synthesize(), Err(SynthesisError::Unsatisfiable));
}

#[test]
fn rsa_missing_inputs() {
    let bench = SetBench { inputs: None, params: params(1, 1) };
    assert_eq!(bench.synthesize(), Err(SynthesisError::AssignmentMissing));
    let inputs = SetBenchInputs::new(vec![], vec![elem(1)], vec![elem(2)], 128, 32, group());
    let bench = SetBench { inputs: Some(inputs), params: params(2, 1) };
    assert_eq!(bench.synthesize(), Err(SynthesisError::AssignmentMissing));
}

#[test]
fn rsa_swap_matches_reseeding() {
    let mut set = RsaSet::new_with(group(), 128, 32, vec![elem(1), elem(2), elem(3)]);
    set.swap(&elem(2), elem(7));
    let reseeded = RsaSet::new_with(group(), 128, 32, vec![elem(7), elem(3), elem(1)]);
    assert_eq!(big(&set.digest()), big(&reseeded.digest()));
}

#[test]
fn rsa_batch_order_does_not_change_digest() {
    let start = vec![elem(1), elem(2), elem(3)];
    let mut a = RsaSet::new_with(group(), 128, 32, start.iter().map(|n| n.copy()).collect());
    let mut b = RsaSet::new_with(group(), 128, 32, start.iter().map(|n| n.copy()).collect());
    assert!(a.remove_all(&vec![elem(1), elem(3)]));
    assert!(a.insert_all(vec![elem(8), elem(9)]));
    assert!(b.remove_all(&vec![elem(3), elem(1)]));
    assert!(b.insert_all(vec![elem(9), elem(8)]));
    assert_eq!(big(&a.digest()), big(&b.digest()));
}

#[test]
fn rsa_insert_reports_duplicates() {
    let mut set = RsaSet::new_with(group(), 128, 32, vec![elem(1)]);
    assert!(!set.insert(elem(1)));
    assert!(set.insert(elem(2)));
    assert!(set.remove(&elem(1)));
    assert!(set.remove(&elem(1)));
    assert!(!set.remove(&elem(1)));
    assert!(!set.remove_all(&vec![elem(2), elem(1)]));
}

#[test]
fn hash_domain_of_params() {
    let p = CircuitSetParams { n_bits: 128, limb_width: 32 };
    assert_eq!(p.hash_domain(), HashDomain { n_bits: 128, n_trailing_ones: 1 });
    let set = RsaSet::new_with(group(), 256, 32, vec![]);
    assert_eq!(set.hash_domain, HashDomain { n_bits: 256, n_trailing_ones: 1 });
    let inputs = SetBenchInputs::new(vec![], vec![elem(1)], vec![elem(2)], 96, 16, group());
    assert_eq!(inputs.initial_state.hash_domain, HashDomain { n_bits: 96, n_trailing_ones: 1 });
    assert_eq!(inputs.initial_state.limb_width, 16);
    assert_eq!(big(&set.digest()), BigUint::from(2u32));
    assert_eq!(big(&set.group().m), big(&parse_nat(RSA_512)));
}

#[test]
fn encoding_is_deterministic() {
    let a = encode_item(&item(&[0, 1, 2, 3, 4]));
    let b = encode_item(&item(&[0, 1, 2, 3, 4]));
    assert_eq!(a, b);
    assert_ne!(a, encode_item(&item(&[0, 1, 2, 3, 5])));
    assert_ne!(encode_item(&item(&[7])), Fe::from_u64(7));
}

fn three_items() -> Vec<Vec<Fe>> {
    vec![item(&[1, 0]), item(&[2, 0]), item(&[3, 0])]
}

#[test]
fn merkle_tree_consistent() {
    let t = MerkleSet::new_with(3, &three_items());
    for level in 0..3usize {
        for j in 0..(1usize << level) {
            let expected = hash_pair(t.get_node(level + 1, 2 * j), t.get_node(level + 1, 2 * j + 1));
            assert_eq!(t.get_node(level, j), expected);
        }
    }
    assert_eq!(t.get_node(3, 0), encode_item(&item(&[1, 0])));
    assert_eq!(t.get_node(3, 5), Fe::zero());
    assert_eq!(t.digest(), t.get_node(0, 0));
}

#[test]
fn merkle_depth3_swap_middle() {
    let mut t = MerkleSet::new_with(3, &three_items());
    let root_before = t.digest();
    let path_before = t.witness(&item(&[2, 0]));
    assert_eq!(fold_up(encode_item(&item(&[2, 0])), &path_before), root_before);
    t.swap(&item(&[2, 0]), item(&[9, 9]));
    assert_ne!(t.digest(), root_before);
    let path_after = t.witness(&item(&[9, 9]));
    assert_eq!(path_before, path_after);
    assert_eq!(t.get_node(3, 0), encode_item(&item(&[1, 0])));
    assert_eq!(t.get_node(3, 2), encode_item(&item(&[3, 0])));
    assert_eq!(t.get_node(3, 1), encode_item(&item(&[9, 9])));
    assert_eq!(t.leaf_index(&item(&[2, 0])), None);
    assert_eq!(t.leaf_index(&item(&[9, 9])), Some(1));
}

#[test]
fn merkle_swap_matches_reseeding() {
    let mut t = MerkleSet::new_with(3, &three_items());
    t.swap(&item(&[3, 0]), item(&[4, 4]));
    let reseeded = MerkleSet::new_with(3, &vec![item(&[1, 0]), item(&[2, 0]), item(&[4, 4])]);
    assert_eq!(t.digest(), reseeded.digest());
}

#[test]
fn merkle_circuit_matches_native() {
    let native_start = MerkleSet::new_with(3, &three_items());
    let circuit_start = MerkleSet::new_with(3, &three_items());
    let params = MerkleCircuitSetParams { depth: 3 };
    let c = MerkleCircuitSet::allocate(Some(circuit_start), &params).unwrap();
    let removed = vec![item(&[1, 0]), item(&[3, 0])];
    let inserted = vec![item(&[5, 0]), item(&[6, 0])];
    let c = c.swap_all(&removed, &inserted).unwrap();
    let mut native = native_start;
    native.swap_all(removed.clone(), inserted.clone());
    assert_eq!(c.wire_values(), native.digest());
}

#[test]
fn merkle_circuit_zero_swaps() {
    let t = MerkleSet::new_with(3, &three_items());
    let root = t.digest();
    let c = MerkleCircuitSet::allocate(Some(t), &MerkleCircuitSetParams { depth: 3 }).unwrap();
    let c = c.swap_all(&vec![], &vec![]).unwrap();
    assert_eq!(c.digest, root);
}

#[test]
fn merkle_absent_item_has_no_position() {
    let t = MerkleSet::new_with(3, &three_items());
    let c = MerkleCircuitSet::allocate(Some(t), &MerkleCircuitSetParams { depth: 3 }).unwrap();
    assert_eq!(c.value().as_ref().unwrap().leaf_index(&item(&[8, 8])), None);
    assert!(matches!(
        MerkleCircuitSet::allocate(None, &MerkleCircuitSetParams { depth: 3 }),
        Err(SynthesisError::AssignmentMissing)
    ));
}

#[test]
fn merkle_empty_tree_root_is_default() {
    let t = MerkleSet::new_with(2, &vec![]);
    let d1 = hash_pair(Fe::zero(), Fe::zero());
    let d0 = hash_pair(d1, d1);
    assert_eq!(t.digest(), d0);
}

#[test]
fn rsa_circuit_set_swap_all() {
    let params = CircuitSetParams { n_bits: 128, limb_width: 32 };
    let set = RsaSet::new_with(group(), 128, 32, vec![elem(1), elem(2)]);
    let c = CircuitSet::allocate(Some(set), &params).unwrap();
    assert_eq!(c.params().n_bits, 128);
    let c = c.swap_all(&vec![elem(2)], vec![elem(3)]).unwrap();
    let expected = RsaSet::new_with(group(), 128, 32, vec![elem(1), elem(3)]);
    assert_eq!(big(&c.wire_values().unwrap()), big(&expected.digest()));
    assert_eq!(c.value().as_ref().unwrap().elements.len(), 2);
    let empty = CircuitSet { value: None, params };
    assert!(empty.wire_values().is_none());
    assert!(matches!(empty.insert(vec![elem(1)]), Err(SynthesisError::AssignmentMissing)));
    assert!(matches!(CircuitSet::allocate(None, &params), Err(SynthesisError::AssignmentMissing)));
}

#[test]
fn merkle_circuit_accessors() {
    let t = MerkleSet::new_with(2, &vec![item(&[1])]);
    let root = t.digest();
    let c = MerkleCircuitSet::allocate(Some(t), &MerkleCircuitSetParams { depth: 2 }).unwrap();
    assert_eq!(c.params().depth, 2);
    assert_eq!(c.value().as_ref().unwrap().digest(), root);
    assert_eq!(c.wire_values(), root);
}
