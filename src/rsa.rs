use crate::bignum::{digits_value, lemma_pow_one_mod, lemma_pow_pow_mod, modpow, Nat};
use crate::gen_set::{first_index, is_first, lemma_first_unique, GenSet};
use vstd::arithmetic::power::pow;
use vstd::multiset::{group_multiset_axioms, Multiset};
use vstd::prelude::*;
use vstd::seq_lib::{lemma_multiset_commutative, to_multiset_build, to_multiset_contains, to_multiset_len, to_multiset_remove};

verus! {

/// A hidden-order group: the integers modulo `m`, with generator `g`.
#[derive(Clone, Debug)]
pub struct RsaGroup {
    pub g: Nat,
    pub m: Nat,
}

impl RsaGroup {
    pub open spec fn wf(&self) -> bool {
        &&& self.m.value() > 0
        &&& self.g.value() < self.m.value()
        &&& self.g.wf()
    }
}

/// The domain into which items are encoded: odd integers of `n_bits` bits
/// whose `n_trailing_ones` lowest bits are set.
#[derive(PartialEq, Eq, Structural, Clone, Copy, Debug)]
pub struct HashDomain {
    pub n_bits: usize,
    pub n_trailing_ones: usize,
}

/// The digits of each number of a sequence.
pub open spec fn digits_of(v: Seq<Nat>) -> Seq<Seq<u32>> {
    v.map_values(|n: Nat| n.digits@)
}

/// The product of the values of a sequence of numbers.
pub open spec fn product(s: Seq<Seq<u32>>) -> nat
    decreases s.len(),
{
    if s.len() == 0 {
        1
    } else {
        product(s.drop_last()) * digits_value(s.last())
    }
}

/// What the digest of `members` is in `group`: the generator raised to the
/// product of the members, modulo the modulus.
pub open spec fn digest_value(group: RsaGroup, members: Seq<Seq<u32>>) -> int {
    pow(group.g.value() as int, product(members)) % (group.m.value() as int)
}

/// The RSA accumulator: the present elements (encoded items), kept so that a
/// removal can recompute the digest, and the digest itself.
#[derive(Clone, Debug)]
pub struct RsaSet {
    pub group: RsaGroup,
    pub elements: Vec<Nat>,
    pub digest: Nat,
    pub hash_domain: HashDomain,
    pub limb_width: usize,
}

/// The digest of `elements` in `group`, computed one exponentiation at a time.
fn digest_of_elements(group: &RsaGroup, elements: &Vec<Nat>) -> (d: Nat)
    requires
        group.wf(),
    ensures
        d.value() as int == digest_value(*group, digits_of(elements@)),
        d.wf(),
{
    let mut d = group.g.copy();
    let ghost all = digits_of(elements@);
    let ghost g = group.g.value() as int;
    let ghost m = group.m.value() as int;
    proof {
        lemma_pow_one_mod(g, m);
        assert(all.subrange(0, 0).len() == 0);
    }
    let mut k: usize = 0;
    while k < elements.len()
        invariant
            group.wf(),
            g == group.g.value() as int,
            m == group.m.value() as int,
            all == digits_of(elements@),
            k <= elements@.len(),
            d.value() as int == pow(g, product(all.subrange(0, k as int))) % m,
            d.wf(),
        decreases elements@.len() - k,
    {
        let ghost p = product(all.subrange(0, k as int));
        let next = modpow(&d, &elements[k], &group.m);
        proof {
            lemma_pow_pow_mod(g, p, elements@[k as int].value(), m);
            assert(all.subrange(0, k + 1).drop_last() =~= all.subrange(0, k as int));
            assert(all.subrange(0, k + 1).last() == elements@[k as int].digits@);
        }
        d = next;
        k += 1;
    }
    proof {
        assert(all.subrange(0, elements@.len() as int) =~= all);
    }
    d
}

impl RsaSet {
    /// The digits of the present elements, in order of insertion.
    pub open spec fn members(&self) -> Seq<Seq<u32>> {
        digits_of(self.elements@)
    }

    /// The digest is the generator raised to the product of the present
    /// elements, modulo the modulus.
    pub open spec fn wf(&self) -> bool {
        &&& self.group.wf()
        &&& self.digest.wf()
        &&& self.digest.value() as int == digest_value(self.group, self.members())
    }

    /// The accumulator of `group` holding `elements`.
    pub fn new_with(group: RsaGroup, element_bits: usize, limb_width: usize, elements: Vec<Nat>) -> (r: RsaSet)
        requires
            group.wf(),
        ensures
            r.wf(),
            r.group == group,
            r.elements@ == elements@,
            r.hash_domain == (HashDomain { n_bits: element_bits, n_trailing_ones: 1 }),
            r.limb_width == limb_width,
    {
        let hash_domain = HashDomain { n_bits: element_bits, n_trailing_ones: 1 };
        let digest = digest_of_elements(&group, &elements);
        RsaSet { group, elements, digest, hash_domain, limb_width }
    }

    /// The underlying RSA group.
    pub fn group(&self) -> (r: &RsaGroup)
        ensures
            *r == self.group,
    {
        &self.group
    }

    /// The first position of an element, if present.
    fn position(&self, n: &Nat) -> (r: Option<usize>)
        ensures
            r matches Some(i) ==> first_index(self.members(), n.digits@) == Some(i as int),
            r is None ==> first_index(self.members(), n.digits@) is None,
    {
        let mut k: usize = 0;
        while k < self.elements.len()
            invariant
                k <= self.elements@.len(),
                forall|j: int| 0 <= j < k ==> self.members()[j] != n.digits@,
            decreases self.elements@.len() - k,
        {
            if self.elements[k].same(n) {
                proof {
                    lemma_first_unique(self.members(), n.digits@, k as int);
                }
                return Some(k);
            }
            k += 1;
        }
        proof {
            assert(!exists|i: int| is_first(self.members(), n.digits@, i));
        }
        None
    }

    /// Adds `n` to the set, returning whether `n` is new to it.
    pub fn insert(&mut self, n: Nat) -> (r: bool)
        requires
            old(self).wf(),
        ensures
            final(self).wf(),
            final(self).group == old(self).group,
            final(self).hash_domain == old(self).hash_domain,
            final(self).limb_width == old(self).limb_width,
            final(self).members() == old(self).members().push(n.digits@),
            r == !old(self).members().contains(n.digits@),
    {
        let absent = self.position(&n).is_none();
        proof {
            if absent {
                if self.members().contains(n.digits@) {
                    let j = choose|j: int| 0 <= j < self.members().len() && self.members()[j] == n.digits@;
                    lemma_first_exists(self.members(), n.digits@, j);
                }
            } else {
                let i = first_index(self.members(), n.digits@)->Some_0;
                assert(is_first(self.members(), n.digits@, i)) by {
                    lemma_first_index_some(self.members(), n.digits@);
                }
            }
        }
        let ghost before = self.members();
        let ghost g = self.group.g.value() as int;
        let ghost m = self.group.m.value() as int;
        let next = modpow(&self.digest, &n, &self.group.m);
        proof {
            lemma_pow_pow_mod(g, product(before), n.value(), m);
        }
        self.digest = next;
        self.elements.push(n);
        proof {
            assert(self.members() =~= before.push(n.digits@));
            assert(self.members().drop_last() =~= before);
        }
        absent
    }

    /// Removes `n` from the set, returning whether `n` was present. The digest
    /// is recomputed from the remaining elements.
    pub fn remove(&mut self, n: &Nat) -> (r: bool)
        requires
            old(self).wf(),
        ensures
            final(self).wf(),
            final(self).group == old(self).group,
            final(self).hash_domain == old(self).hash_domain,
            final(self).limb_width == old(self).limb_width,
            r == (first_index(old(self).members(), n.digits@) is Some),
            r ==> final(self).members() == old(self).members().remove(
                first_index(old(self).members(), n.digits@)->Some_0,
            ),
            !r ==> final(self).members() == old(self).members(),
    {
        match self.position(n) {
            Some(i) => {
                let ghost before = self.elements@;
                self.elements.remove(i);
                proof {
                    assert(self.members() =~= digits_of(before).remove(i as int));
                }
                self.digest = digest_of_elements(&self.group, &self.elements);
                true
            },
            None => false,
        }
    }
}

/// Where `x` occurs in `s`, it has a first position.
proof fn lemma_first_exists<T>(s: Seq<T>, x: T, j: int)
    requires
        0 <= j < s.len(),
        s[j] == x,
    ensures
        first_index(s, x) is Some,
    decreases j,
{
    if forall|k: int| 0 <= k < j ==> s[k] != x {
        assert(is_first(s, x, j));
    } else {
        let k = choose|k: int| 0 <= k < j && s[k] == x;
        lemma_first_exists(s, x, k);
    }
}

proof fn lemma_first_index_some<T>(s: Seq<T>, x: T)
    requires
        first_index(s, x) is Some,
    ensures
        is_first(s, x, first_index(s, x)->Some_0),
{
}

/// The members after removing each of `ns` in order (an absent one is
/// skipped), and whether every one was present at its turn.
pub open spec fn after_removals(members: Seq<Seq<u32>>, ns: Seq<Seq<u32>>) -> (Seq<Seq<u32>>, bool)
    decreases ns.len(),
{
    if ns.len() == 0 {
        (members, true)
    } else {
        let (m, ok) = after_removals(members, ns.drop_last());
        match first_index(m, ns.last()) {
            Some(i) => (m.remove(i), ok),
            None => (m, false),
        }
    }
}

/// Each of `ns` is absent when it is inserted after `members` and the ones
/// before it.
pub open spec fn all_new(members: Seq<Seq<u32>>, ns: Seq<Seq<u32>>) -> bool
    decreases ns.len(),
{
    if ns.len() == 0 {
        true
    } else {
        all_new(members, ns.drop_last()) && !(members + ns.drop_last()).contains(ns.last())
    }
}

/// The members after swapping the first `k` pairs in order, or `None` where
/// an old element is absent at its turn.
pub open spec fn members_after_swaps(
    members: Seq<Seq<u32>>,
    old_items: Seq<Seq<u32>>,
    new_items: Seq<Seq<u32>>,
    k: int,
) -> Option<Seq<Seq<u32>>>
    decreases k,
{
    if k <= 0 {
        Some(members)
    } else {
        match members_after_swaps(members, old_items, new_items, k - 1) {
            Some(ms) => match first_index(ms, old_items[k - 1]) {
                Some(i) => Some(ms.remove(i).push(new_items[k - 1])),
                None => None,
            },
            None => None,
        }
    }
}

impl RsaSet {
    /// Removes each of `ns` in order, returning whether all were present.
    pub fn remove_all(&mut self, ns: &Vec<Nat>) -> (r: bool)
        requires
            old(self).wf(),
        ensures
            final(self).wf(),
            final(self).group == old(self).group,
            final(self).hash_domain == old(self).hash_domain,
            final(self).limb_width == old(self).limb_width,
            (final(self).members(), r) == after_removals(old(self).members(), digits_of(ns@)),
    {
        let ghost start = self.members();
        let mut all_present = true;
        let mut k: usize = 0;
        while k < ns.len()
            invariant
                self.wf(),
                self.group == old(self).group,
                self.hash_domain == old(self).hash_domain,
                self.limb_width == old(self).limb_width,
                start == old(self).members(),
                k <= ns@.len(),
                (self.members(), all_present) == after_removals(start, digits_of(ns@).subrange(0, k as int)),
            decreases ns@.len() - k,
        {
            let present = self.remove(&ns[k]);
            proof {
                let sub = digits_of(ns@).subrange(0, k + 1);
                assert(sub.drop_last() =~= digits_of(ns@).subrange(0, k as int));
                assert(sub.last() == ns@[k as int].digits@);
            }
            all_present = all_present && present;
            k += 1;
        }
        proof {
            assert(digits_of(ns@).subrange(0, ns@.len() as int) =~= digits_of(ns@));
        }
        all_present
    }

    /// Inserts each of `ns` in order, returning whether all were new.
    pub fn insert_all(&mut self, ns: Vec<Nat>) -> (r: bool)
        requires
            old(self).wf(),
        ensures
            final(self).wf(),
            final(self).group == old(self).group,
            final(self).hash_domain == old(self).hash_domain,
            final(self).limb_width == old(self).limb_width,
            final(self).members() == old(self).members() + digits_of(ns@),
            r == all_new(old(self).members(), digits_of(ns@)),
    {
        let ghost start = self.members();
        let mut all_absent = true;
        let mut k: usize = 0;
        while k < ns.len()
            invariant
                self.wf(),
                self.group == old(self).group,
                self.hash_domain == old(self).hash_domain,
                self.limb_width == old(self).limb_width,
                start == old(self).members(),
                k <= ns@.len(),
                self.members() == start + digits_of(ns@).subrange(0, k as int),
                all_absent == all_new(start, digits_of(ns@).subrange(0, k as int)),
            decreases ns@.len() - k,
        {
            let n = ns[k].copy();
            let absent = self.insert(n);
            proof {
                let sub = digits_of(ns@).subrange(0, k + 1);
                assert(sub.drop_last() =~= digits_of(ns@).subrange(0, k as int));
                assert(sub.last() == ns@[k as int].digits@);
                assert(self.members() =~= start + sub);
            }
            all_absent = all_absent && absent;
            k += 1;
        }
        proof {
            assert(digits_of(ns@).subrange(0, ns@.len() as int) =~= digits_of(ns@));
        }
        all_absent
    }
}

impl GenSet for RsaSet {
    type Item = Nat;

    type Digest = Nat;

    open spec fn inv(&self) -> bool {
        self.wf()
    }

    open spec fn can_swap(&self, old_item: Nat, new_item: Nat) -> bool {
        first_index(self.members(), old_item.digits@) is Some
    }

    open spec fn swapped(&self, old_item: Nat, new_item: Nat, after: Self) -> bool {
        let i = first_index(self.members(), old_item.digits@)->Some_0;
        &&& after.group == self.group
        &&& after.hash_domain == self.hash_domain
        &&& after.limb_width == self.limb_width
        &&& after.members() == self.members().remove(i).push(new_item.digits@)
    }

    open spec fn can_swap_all(&self, old_items: Seq<Nat>, new_items: Seq<Nat>) -> bool {
        members_after_swaps(
            self.members(),
            digits_of(old_items),
            digits_of(new_items),
            old_items.len() as int,
        ) is Some
    }

    open spec fn swapped_all(&self, old_items: Seq<Nat>, new_items: Seq<Nat>, after: Self) -> bool {
        &&& after.group == self.group
        &&& after.hash_domain == self.hash_domain
        &&& after.limb_width == self.limb_width
        &&& members_after_swaps(
            self.members(),
            digits_of(old_items),
            digits_of(new_items),
            old_items.len() as int,
        ) == Some(after.members())
    }

    open spec fn is_digest(&self, d: Nat) -> bool {
        d.value() as int == digest_value(self.group, self.members())
    }

    fn swap(&mut self, old_item: &Nat, new_item: Nat) {
        self.remove(old_item);
        self.insert(new_item);
    }

    fn swap_all(&mut self, old_items: Vec<Nat>, new_items: Vec<Nat>) {
        let ghost start = self.members();
        let n = old_items.len();
        let mut k: usize = 0;
        while k < n
            invariant
                n == old_items@.len(),
                n == new_items@.len(),
                k <= n,
                self.wf(),
                self.group == old(self).group,
                self.hash_domain == old(self).hash_domain,
                self.limb_width == old(self).limb_width,
                start == old(self).members(),
                members_after_swaps(start, digits_of(old_items@), digits_of(new_items@), n as int) is Some,
                members_after_swaps(start, digits_of(old_items@), digits_of(new_items@), k as int)
                    == Some(self.members()),
            decreases n - k,
        {
            proof {
                lemma_swaps_prefix(start, digits_of(old_items@), digits_of(new_items@), k as int + 1, n as int);
            }
            let fresh = new_items[k].copy();
            self.swap(&old_items[k], fresh);
            k += 1;
        }
    }

    fn digest(&self) -> (r: Nat) {
        self.digest.copy()
    }
}

/// Where a batch of swaps goes through, each of its prefixes does.
proof fn lemma_swaps_prefix(
    members: Seq<Seq<u32>>,
    old_items: Seq<Seq<u32>>,
    new_items: Seq<Seq<u32>>,
    k: int,
    n: int,
)
    requires
        0 <= k <= n,
        members_after_swaps(members, old_items, new_items, n) is Some,
    ensures
        members_after_swaps(members, old_items, new_items, k) is Some,
    decreases n - k,
{
    if k < n {
        lemma_swaps_prefix(members, old_items, new_items, k + 1, n);
    }
}

/// The parameters of the RSA accumulator in a circuit: the bit width of an
/// encoded element and the limb width of big numbers.
#[derive(Clone, Copy, Debug)]
pub struct CircuitSetParams {
    pub n_bits: usize,
    pub limb_width: usize,
}

impl CircuitSetParams {
    /// The domain into which items are encoded.
    pub fn hash_domain(&self) -> (r: HashDomain)
        ensures
            r == (HashDomain { n_bits: self.n_bits, n_trailing_ones: 1 }),
    {
        HashDomain { n_bits: self.n_bits, n_trailing_ones: 1 }
    }
}

/// Taking one element out of a sequence divides its product by that element.
proof fn lemma_product_remove(s: Seq<Seq<u32>>, i: int)
    requires
        0 <= i < s.len(),
    ensures
        product(s) == product(s.remove(i)) * digits_value(s[i]),
    decreases s.len(),
{
    if i == s.len() - 1 {
        assert(s.remove(i) =~= s.drop_last());
    } else {
        lemma_product_remove(s.drop_last(), i);
        assert(s.drop_last().remove(i) =~= s.remove(i).drop_last());
        assert(s.remove(i).last() == s.last());
        assert(s.drop_last()[i] == s[i]);
        let a = product(s.drop_last().remove(i));
        let vi = digits_value(s[i]);
        let l = digits_value(s.last());
        assert(a * vi * l == a * l * vi) by (nonlinear_arith);
    }
}

/// The product of a sequence depends on its multiset of elements alone.
pub proof fn lemma_product_permutation(s1: Seq<Seq<u32>>, s2: Seq<Seq<u32>>)
    requires
        s1.to_multiset() == s2.to_multiset(),
    ensures
        product(s1) == product(s2),
    decreases s1.len(),
{
    to_multiset_len(s1);
    to_multiset_len(s2);
    if s1.len() > 0 {
        let last = s1.len() - 1;
        let x = s1[last];
        assert(s1.contains(x));
        to_multiset_contains(s1, x);
        to_multiset_contains(s2, x);
        let i = choose|i: int| 0 <= i < s2.len() && s2[i] == x;
        to_multiset_remove(s2, i);
        to_multiset_remove(s1, last);
        assert(s1.remove(last) =~= s1.drop_last());
        lemma_product_permutation(s1.drop_last(), s2.remove(i));
        lemma_product_remove(s2, i);
    }
}

/// Removals that all find their element take out exactly their multiset.
pub proof fn lemma_removals_multiset(members: Seq<Seq<u32>>, ns: Seq<Seq<u32>>)
    requires
        after_removals(members, ns).1,
    ensures
        after_removals(members, ns).0.to_multiset() == members.to_multiset().sub(ns.to_multiset()),
    decreases ns.len(),
{
    broadcast use group_multiset_axioms;

    if ns.len() == 0 {
        to_multiset_len(ns);
        assert forall|y: Seq<u32>| ns.to_multiset().count(y) == 0 by {
            to_multiset_contains(ns, y);
        }
        assert(ns.to_multiset() =~= Multiset::empty());
        assert(members.to_multiset().sub(ns.to_multiset()) =~= members.to_multiset());
    } else {
        let (m, ok) = after_removals(members, ns.drop_last());
        lemma_removals_multiset(members, ns.drop_last());
        let x = ns.last();
        let i = first_index(m, x)->Some_0;
        lemma_first_index_some(m, x);
        to_multiset_remove(m, i);
        to_multiset_build(ns.drop_last(), x);
        assert(ns.drop_last().push(x) =~= ns);
        assert(m.to_multiset().remove(x) =~= members.to_multiset().sub(ns.to_multiset()));
    }
}

/// Swapping an element for another gives the digest of a set seeded directly
/// with the remaining elements and the new one, in any order.
pub proof fn lemma_swap_matches_reseeding(
    before: RsaSet,
    after: RsaSet,
    old_item: Nat,
    new_item: Nat,
    reseeded: RsaSet,
)
    requires
        before.wf(),
        after.wf(),
        reseeded.wf(),
        before.can_swap(old_item, new_item),
        before.swapped(old_item, new_item, after),
        reseeded.group == before.group,
        reseeded.members().to_multiset() == before.members().remove(
            first_index(before.members(), old_item.digits@)->Some_0,
        ).push(new_item.digits@).to_multiset(),
    ensures
        after.digest.value() == reseeded.digest.value(),
{
    lemma_product_permutation(after.members(), reseeded.members());
}

/// The order of the removals and of the insertions of a batch does not
/// change the digest it reaches, so long as every removal finds its element.
pub proof fn lemma_batch_order_irrelevant(
    group: RsaGroup,
    members: Seq<Seq<u32>>,
    removed_1: Seq<Seq<u32>>,
    inserted_1: Seq<Seq<u32>>,
    removed_2: Seq<Seq<u32>>,
    inserted_2: Seq<Seq<u32>>,
)
    requires
        removed_1.to_multiset() == removed_2.to_multiset(),
        inserted_1.to_multiset() == inserted_2.to_multiset(),
        after_removals(members, removed_1).1,
        after_removals(members, removed_2).1,
    ensures
        digest_value(group, after_removals(members, removed_1).0 + inserted_1) == digest_value(
            group,
            after_removals(members, removed_2).0 + inserted_2,
        ),
{
    lemma_removals_multiset(members, removed_1);
    lemma_removals_multiset(members, removed_2);
    let a = after_removals(members, removed_1).0;
    let b = after_removals(members, removed_2).0;
    lemma_multiset_commutative(a, inserted_1);
    lemma_multiset_commutative(b, inserted_2);
    lemma_product_permutation(a + inserted_1, b + inserted_2);
}

} // verus!
