use crate::gen_set::{first_index, is_first, lemma_first_unique, GenSet};
use crate::field::{all_valid, encode_item, hash_pair, item_hash, node_hash, Fe};
use vstd::arithmetic::power2::{
    lemma2_to64, lemma2_to64_rest, lemma_pow2_strictly_increases, lemma_pow2_unfold, pow2,
};
use vstd::prelude::*;

verus! {

/// The all-zero field element: the value of an unoccupied leaf.
pub open spec fn zero_fe() -> Fe {
    Fe { l0: 0, l1: 0, l2: 0, l3: 0 }
}

/// Node `i` of a level whose stored prefix is `row` and whose other nodes
/// have the value `dflt`.
pub open spec fn row_node(row: Seq<Fe>, dflt: Fe, i: int) -> Fe {
    if 0 <= i < row.len() {
        row[i]
    } else {
        dflt
    }
}

/// Node `i` of level `l` (level 0 is the root).
pub open spec fn node_of(levels: Seq<Vec<Fe>>, defaults: Seq<Fe>, l: int, i: int) -> Fe {
    row_node(levels[l]@, defaults[l], i)
}

/// `defaults[l]` is the value of a node of level `l` with no occupied leaf below it.
pub open spec fn defaults_ok(defaults: Seq<Fe>, depth: int) -> bool {
    &&& defaults.len() == depth + 1
    &&& defaults[depth] == zero_fe()
    &&& forall|l: int|
        0 <= l < depth ==> #[trigger] defaults[l] == node_hash(defaults[l + 1], defaults[l + 1])
    &&& all_valid(defaults)
}

/// A row is the hash of the pairs of the row below it.
pub open spec fn parent_row_ok(row: Seq<Fe>, child: Seq<Fe>, child_default: Fe) -> bool {
    &&& row.len() == (child.len() + 1) / 2
    &&& all_valid(row)
    &&& forall|j: int|
        0 <= j < row.len() ==> #[trigger] row[j] == node_hash(
            row_node(child, child_default, 2 * j),
            row_node(child, child_default, 2 * j + 1),
        )
}

/// Level `l` is the hash of the pairs of level `l + 1`.
pub open spec fn level_ok(levels: Seq<Vec<Fe>>, defaults: Seq<Fe>, l: int) -> bool {
    parent_row_ok(levels[l]@, levels[l + 1]@, defaults[l + 1])
}

/// The stored levels form a consistent tree of the given depth.
pub open spec fn tree_ok(levels: Seq<Vec<Fe>>, defaults: Seq<Fe>, depth: int) -> bool {
    &&& levels.len() == depth + 1
    &&& defaults_ok(defaults, depth)
    &&& all_valid(levels[depth]@)
    &&& levels[depth]@.len() <= pow2(depth as nat)
    &&& levels[depth]@.len() <= 0x4000_0000_0000_0000
    &&& forall|l: int| 0 <= l <= depth ==> #[trigger] levels[l]@.len() <= levels[depth]@.len()
    &&& forall|l: int| 0 <= l < depth ==> #[trigger] level_ok(levels, defaults, l)
}

/// The index of the other child of the same parent.
pub open spec fn sibling(i: int) -> int {
    if i % 2 == 0 {
        i + 1
    } else {
        i - 1
    }
}

/// The index of the node `up` levels above node `i`.
pub open spec fn ancestor(i: int, up: nat) -> int
    decreases up,
{
    if up == 0 {
        i
    } else {
        ancestor(i, (up - 1) as nat) / 2
    }
}

/// One step up a membership path: `entry.0` is true when the current node is a
/// left child, and `entry.1` is its sibling.
pub open spec fn path_step(cur: Fe, entry: (bool, Fe)) -> Fe {
    if entry.0 {
        node_hash(cur, entry.1)
    } else {
        node_hash(entry.1, cur)
    }
}

/// The root reached from a leaf value by a path given from the top down.
pub open spec fn fold_path(leaf: Fe, path: Seq<(bool, Fe)>) -> Fe
    decreases path.len(),
{
    if path.len() == 0 {
        leaf
    } else {
        path_step(fold_path(leaf, path.drop_first()), path[0])
    }
}

/// A Merkle tree of fixed depth in which a prefix of the leaves is occupied.
/// Unoccupied leaves are zero, so a node with no occupied leaf below it has a
/// value that depends on its level alone.
#[derive(Clone, Debug)]
pub struct MerkleSet {
    /// Level `l` stores the prefix of its `2^l` nodes that has occupied leaves
    /// below it; level 0 is the root, level `depth` the leaves.
    pub levels: Vec<Vec<Fe>>,
    /// `defaults[l]` is the value of a node of level `l` with no occupied leaf below.
    pub defaults: Vec<Fe>,
    /// The number of non-root levels: the tree has `2^depth` leaves.
    pub depth: usize,
}

impl MerkleSet {
    pub open spec fn wf(&self) -> bool {
        tree_ok(self.levels@, self.defaults@, self.depth as int)
    }

    /// The occupied leaves, in order.
    pub open spec fn leaves(&self) -> Seq<Fe> {
        self.levels@[self.depth as int]@
    }

    pub open spec fn node(&self, l: int, i: int) -> Fe {
        node_of(self.levels@, self.defaults@, l, i)
    }

    /// The root of the tree.
    pub open spec fn root(&self) -> Fe {
        self.node(0, 0)
    }

    /// The membership path of leaf `i`, from the top down: for each level below
    /// the root, whether the path's node there is a left child, and its sibling.
    pub open spec fn path_of(&self, i: int) -> Seq<(bool, Fe)> {
        Seq::new(
            self.depth as nat,
            |k: int|
                {
                    let a = ancestor(i, (self.depth - (k + 1)) as nat);
                    (a % 2 == 0, self.node(k + 1, sibling(a)))
                },
        )
    }

    /// The position of the leaf of an item, if the item is present.
    pub open spec fn position(&self, item: Seq<Fe>) -> Option<int> {
        first_index(self.leaves(), item_hash(item))
    }
}

/// Computes the row above `child`: the hash of each pair of nodes.
fn parent_row(child: &Vec<Fe>, child_default: Fe) -> (row: Vec<Fe>)
    requires
        all_valid(child@),
        child_default.valid(),
        child@.len() <= 0x4000_0000_0000_0000,
    ensures
        parent_row_ok(row@, child@, child_default),
{
    let n: usize = child.len();
    let m: usize = n / 2 + n % 2;
    let mut row: Vec<Fe> = Vec::new();
    let mut j: usize = 0;
    while j < m
        invariant
            m == (child@.len() + 1) / 2,
            n == child@.len(),
            n <= 0x4000_0000_0000_0000,
            j <= m,
            row@.len() == j,
            all_valid(child@),
            child_default.valid(),
            all_valid(row@),
            forall|k: int|
                0 <= k < j ==> #[trigger] row@[k] == node_hash(
                    row_node(child@, child_default, 2 * k),
                    row_node(child@, child_default, 2 * k + 1),
                ),
        decreases m - j,
    {
        let left = if 2 * j < n {
            child[2 * j]
        } else {
            child_default
        };
        let right = if 2 * j + 1 < n {
            child[2 * j + 1]
        } else {
            child_default
        };
        let h = hash_pair(left, right);
        row.push(h);
        j += 1;
    }
    row
}

/// The values of empty subtrees, level by level: zero at the leaves, and the
/// hash of two copies of the level below elsewhere.
fn default_hashes(depth: usize) -> (d: Vec<Fe>)
    requires
        depth < 63,
    ensures
        defaults_ok(d@, depth as int),
{
    let mut d: Vec<Fe> = Vec::new();
    let mut k: usize = 0;
    while k <= depth
        invariant
            depth < 63,
            k <= depth + 1,
            d@.len() == k,
            forall|i: int| 0 <= i < k ==> #[trigger] d@[i] == zero_fe(),
        decreases depth + 1 - k,
    {
        d.push(Fe::zero());
        k += 1;
    }
    let mut l: usize = depth;
    while l > 0
        invariant
            l <= depth,
            d@.len() == depth + 1,
            d@[depth as int] == zero_fe(),
            forall|i: int| 0 <= i < l ==> #[trigger] d@[i] == zero_fe(),
            forall|i: int| l <= i < depth ==> #[trigger] d@[i] == node_hash(d@[i + 1], d@[i + 1]),
            all_valid(d@),
        decreases l,
    {
        l -= 1;
        let below = d[l + 1];
        let h = hash_pair(below, below);
        d.set(l, h);
    }
    d
}

impl MerkleSet {
    /// Builds the tree of the given depth whose leaves are the hashes of `items`, in order.
    pub fn new_with(depth: usize, items: &Vec<Vec<Fe>>) -> (r: MerkleSet)
        requires
            depth < 63,
            items@.len() <= pow2(depth as nat),
            forall|i: int| 0 <= i < items@.len() ==> all_valid(#[trigger] items@[i]@),
        ensures
            r.wf(),
            r.depth == depth,
            r.leaves() == items@.map_values(|it: Vec<Fe>| item_hash(it@)),
            defaults_ok(r.defaults@, depth as int),
            items@.len() == 0 ==> r.root() == r.defaults@[0],
    {
        proof {
            lemma2_to64_rest();
            if depth < 62 {
                lemma_pow2_strictly_increases(depth as nat, 62);
            }
            assert(pow2(depth as nat) <= 0x4000_0000_0000_0000);
        }
        let defaults = default_hashes(depth);
        let mut leaves: Vec<Fe> = Vec::new();
        let mut i: usize = 0;
        while i < items.len()
            invariant
                i <= items@.len(),
                leaves@.len() == i,
                forall|k: int| 0 <= k < items@.len() ==> all_valid(#[trigger] items@[k]@),
                forall|k: int| 0 <= k < i ==> #[trigger] leaves@[k] == item_hash(items@[k]@),
                all_valid(leaves@),
            decreases items@.len() - i,
        {
            let h = encode_item(&items[i]);
            leaves.push(h);
            i += 1;
        }
        assert(leaves@ =~= items@.map_values(|it: Vec<Fe>| item_hash(it@)));
        let n: usize = leaves.len();
        let mut levels: Vec<Vec<Fe>> = Vec::new();
        let mut k: usize = 0;
        while k < depth
            invariant
                k <= depth,
                levels@.len() == k,
                forall|x: int| 0 <= x < k ==> (#[trigger] levels@[x])@.len() == 0,
            decreases depth - k,
        {
            levels.push(Vec::new());
            k += 1;
        }
        levels.push(leaves);
        let mut l: usize = depth;
        while l > 0
            invariant
                l <= depth,
                levels@.len() == depth + 1,
                levels@[depth as int]@ == leaves@,
                n == leaves@.len(),
                n <= 0x4000_0000_0000_0000,
                n <= pow2(depth as nat),
                all_valid(leaves@),
                defaults_ok(defaults@, depth as int),
                forall|x: int| 0 <= x <= depth ==> #[trigger] levels@[x]@.len() <= n,
                forall|x: int| l <= x < depth ==> #[trigger] level_ok(levels@, defaults@, x),
            decreases l,
        {
            l -= 1;
            proof {
                if l + 1 < depth {
                    assert(level_ok(levels@, defaults@, l + 1));
                }
            }
            let row = parent_row(&levels[l + 1], defaults[l + 1]);
            let ghost before = levels@;
            levels.set(l, row);
            assert forall|x: int| l <= x < depth implies #[trigger] level_ok(
                levels@,
                defaults@,
                x,
            ) by {
                if x > l {
                    assert(levels@[x] == before[x]);
                    assert(levels@[x + 1] == before[x + 1]);
                    assert(level_ok(before, defaults@, x));
                }
            }
        }
        MerkleSet { levels, defaults, depth }
    }

    /// Node `index` of level `level`: the stored value, or the level's default.
    pub fn get_node(&self, level: usize, index: usize) -> (r: Fe)
        requires
            self.wf(),
            level <= self.depth,
        ensures
            r == self.node(level as int, index as int),
            r.valid(),
    {
        proof {
            if level < self.depth {
                assert(level_ok(self.levels@, self.defaults@, level as int));
            }
        }
        if index < self.levels[level].len() {
            self.levels[level][index]
        } else {
            self.defaults[level]
        }
    }

    /// The hash of two sibling nodes.
    pub fn hash(&self, child_1: Fe, child_2: Fe) -> (r: Fe)
        requires
            child_1.valid(),
            child_2.valid(),
        ensures
            r == node_hash(child_1, child_2),
            r.valid(),
    {
        hash_pair(child_1, child_2)
    }
}

/// Ancestors of a leaf stay in range: below `2^(n - k)` at `k` levels up.
proof fn lemma_ancestor_bound(i: int, n: nat, k: nat)
    requires
        0 <= i < pow2(n),
        k <= n,
    ensures
        0 <= ancestor(i, k) < pow2((n - k) as nat),
    decreases k,
{
    if k > 0 {
        lemma_ancestor_bound(i, n, (k - 1) as nat);
        lemma_pow2_unfold((n - k + 1) as nat);
    }
}

/// Every node of a well-formed tree is the hash of its two children, the
/// nodes beyond the stored prefixes included.
pub proof fn lemma_node_consistent(t: &MerkleSet, l: int, j: int)
    requires
        t.wf(),
        0 <= l < t.depth,
        0 <= j,
    ensures
        t.node(l, j) == node_hash(t.node(l + 1, 2 * j), t.node(l + 1, 2 * j + 1)),
{
    assert(level_ok(t.levels@, t.defaults@, l));
}

/// Folding the leaf at position `i` up its path reaches, at level `l`, the
/// ancestor of the leaf there.
proof fn lemma_fold_reaches(t: &MerkleSet, i: int, l: int)
    requires
        t.wf(),
        0 <= i,
        0 <= l <= t.depth,
    ensures
        fold_path(t.node(t.depth as int, i), t.path_of(i).subrange(l, t.depth as int)) == t.node(
            l,
            ancestor(i, (t.depth - l) as nat),
        ),
    decreases t.depth - l,
{
    let d = t.depth as int;
    let p = t.path_of(i);
    if l < d {
        lemma_fold_reaches(t, i, l + 1);
        let s = p.subrange(l, d);
        assert(s.drop_first() =~= p.subrange(l + 1, d));
        let a = ancestor(i, (d - (l + 1)) as nat);
        assert(ancestor(i, (d - l) as nat) == a / 2);
        lemma_ancestor_nonneg(i, (d - (l + 1)) as nat);
        lemma_node_consistent(t, l, a / 2);
    } else {
        assert(p.subrange(l, d).len() == 0);
    }
}

proof fn lemma_ancestor_nonneg(i: int, k: nat)
    requires
        0 <= i,
    ensures
        0 <= ancestor(i, k),
    decreases k,
{
    if k > 0 {
        lemma_ancestor_nonneg(i, (k - 1) as nat);
    }
}

/// The path of an occupied leaf leads from the leaf to the root.
pub proof fn lemma_path_reaches_root(t: &MerkleSet, i: int)
    requires
        t.wf(),
        0 <= i < t.leaves().len(),
    ensures
        fold_path(t.leaves()[i], t.path_of(i)) == t.root(),
{
    lemma_fold_reaches(t, i, 0);
    assert(t.path_of(i).subrange(0, t.depth as int) =~= t.path_of(i));
    lemma_ancestor_bound(i, t.depth as nat, t.depth as nat);
    lemma2_to64();
    assert(ancestor(i, t.depth as nat) == 0);
    assert(t.node(t.depth as int, i) == t.leaves()[i]);
}

/// Level `l` is the hash of the pairs of level `l + 1`, except possibly at
/// position `x`.
pub open spec fn level_ok_except(levels: Seq<Vec<Fe>>, defaults: Seq<Fe>, l: int, x: int) -> bool {
    &&& levels[l]@.len() == (levels[l + 1]@.len() + 1) / 2
    &&& all_valid(levels[l]@)
    &&& forall|j: int|
        0 <= j < levels[l]@.len() && j != x ==> #[trigger] levels[l]@[j] == node_hash(
            node_of(levels, defaults, l + 1, 2 * j),
            node_of(levels, defaults, l + 1, 2 * j + 1),
        )
}

/// Overwrites node `j` of level `l`.
fn set_node(levels: &mut Vec<Vec<Fe>>, l: usize, j: usize, v: Fe)
    requires
        l < old(levels)@.len(),
        j < old(levels)@[l as int]@.len(),
    ensures
        final(levels)@.len() == old(levels)@.len(),
        forall|x: int| 0 <= x < old(levels)@.len() && x != l ==> #[trigger] final(levels)@[x] == old(levels)@[x],
        final(levels)@[l as int]@ == old(levels)@[l as int]@.update(j as int, v),
{
    levels[l].set(j, v);
}

impl MerkleSet {
    /// The position of the leaf of an item, or `None` where the item is absent.
    pub fn leaf_index(&self, item: &Vec<Fe>) -> (r: Option<usize>)
        requires
            self.wf(),
            all_valid(item@),
        ensures
            r matches Some(i) ==> self.position(item@) == Some(i as int),
            r is None ==> self.position(item@) is None,
    {
        let h = encode_item(item);
        let leaves = &self.levels[self.depth];
        let mut k: usize = 0;
        while k < leaves.len()
            invariant
                k <= leaves@.len(),
                leaves@ == self.leaves(),
                h == item_hash(item@),
                forall|j: int| 0 <= j < k ==> leaves@[j] != h,
            decreases leaves@.len() - k,
        {
            if leaves[k] == h {
                proof {
                    lemma_first_unique(leaves@, h, k as int);
                }
                return Some(k);
            }
            k += 1;
        }
        proof {
            assert(!exists|i: int| is_first(leaves@, h, i));
        }
        None
    }

    /// The membership witness of a present item: its path, from the top of the
    /// tree down, of pairs (the node is a left child, its sibling).
    pub fn witness(&self, item: &Vec<Fe>) -> (r: Vec<(bool, Fe)>)
        requires
            self.wf(),
            all_valid(item@),
            self.position(item@) is Some,
        ensures
            r@ == self.path_of(self.position(item@)->Some_0),
            fold_path(item_hash(item@), r@) == self.root(),
            forall|k: int| 0 <= k < r@.len() ==> (#[trigger] r@[k]).1.valid(),
    {
        let i = match self.leaf_index(item) {
            Some(i) => i,
            None => {
                proof {
                    assert(false);
                }
                0
            },
        };
        let ghost gi = i as int;
        let ghost d = self.depth as int;
        let depth = self.depth;
        let mut up: Vec<(bool, Fe)> = Vec::new();
        let mut idx: usize = i;
        let mut lvl: usize = depth;
        proof {
            lemma_ancestor_nonneg(gi, 0);
        }
        while lvl > 0
            invariant
                self.wf(),
                depth == self.depth,
                d == depth as int,
                lvl <= depth,
                0 <= gi < self.leaves().len(),
                idx as int == ancestor(gi, (d - lvl) as nat),
                idx < self.levels@[lvl as int]@.len(),
                up@.len() == d - lvl,
                forall|m: int| 0 <= m < up@.len() ==> #[trigger] up@[m] == self.path_of(gi)[d - 1 - m],
                forall|m: int| 0 <= m < up@.len() ==> (#[trigger] up@[m]).1.valid(),
            decreases lvl,
        {
            let sib: usize = if idx % 2 == 0 {
                idx + 1
            } else {
                idx - 1
            };
            let hash = self.get_node(lvl, sib);
            up.push((idx % 2 == 0, hash));
            proof {
                assert(level_ok(self.levels@, self.defaults@, lvl - 1));
                assert(ancestor(gi, (d - (lvl - 1)) as nat) == idx / 2);
            }
            idx = idx / 2;
            lvl -= 1;
        }
        let mut r: Vec<(bool, Fe)> = Vec::new();
        let mut k: usize = 0;
        while k < depth
            invariant
                k <= depth,
                depth == self.depth,
                d == depth as int,
                up@.len() == d,
                r@.len() == k,
                forall|m: int| 0 <= m < up@.len() ==> #[trigger] up@[m] == self.path_of(gi)[d - 1 - m],
                forall|m: int| 0 <= m < up@.len() ==> (#[trigger] up@[m]).1.valid(),
                forall|m: int| 0 <= m < k ==> #[trigger] r@[m] == self.path_of(gi)[m],
                forall|m: int| 0 <= m < k ==> (#[trigger] r@[m]).1.valid(),
            decreases depth - k,
        {
            let e = up[depth - 1 - k];
            r.push(e);
            k += 1;
        }
        proof {
            assert(r@ =~= self.path_of(gi));
            lemma_path_reaches_root(self, gi);
        }
        r
    }
}

/// The leaves after swapping the first `k` pairs of `old_items` and
/// `new_items` in order, or `None` where an old item is absent at its turn.
pub open spec fn leaves_after(
    leaves: Seq<Fe>,
    old_items: Seq<Vec<Fe>>,
    new_items: Seq<Vec<Fe>>,
    k: int,
) -> Option<Seq<Fe>>
    decreases k,
{
    if k <= 0 {
        Some(leaves)
    } else {
        match leaves_after(leaves, old_items, new_items, k - 1) {
            Some(ls) => match first_index(ls, item_hash(old_items[k - 1]@)) {
                Some(i) => Some(ls.update(i, item_hash(new_items[k - 1]@))),
                None => None,
            },
            None => None,
        }
    }
}

/// Every item of a batch is made of canonical field elements.
pub open spec fn items_valid(items: Seq<Vec<Fe>>) -> bool {
    forall|i: int| 0 <= i < items.len() ==> all_valid(#[trigger] items[i]@)
}

impl MerkleSet {
    /// Node `index` of level `level`, read while the tree is being updated.
    fn get_node_raw(&self, level: usize, index: usize) -> (r: Fe)
        requires
            self.levels@.len() == self.depth + 1,
            defaults_ok(self.defaults@, self.depth as int),
            level <= self.depth,
            forall|l: int| 0 <= l <= self.depth ==> all_valid(#[trigger] self.levels@[l]@),
        ensures
            r == self.node(level as int, index as int),
            r.valid(),
    {
        if index < self.levels[level].len() {
            self.levels[level][index]
        } else {
            self.defaults[level]
        }
    }

    /// Writes `h` at leaf `i` and recomputes the hashes on the leaf's path.
    #[verifier::spinoff_prover]
    #[verifier::rlimit(100)]
    fn set_leaf(&mut self, i: usize, h: Fe)
        requires
            old(self).wf(),
            i < old(self).leaves().len(),
            h.valid(),
        ensures
            final(self).wf(),
            final(self).depth == old(self).depth,
            final(self).leaves() == old(self).leaves().update(i as int, h),
            final(self).path_of(i as int) == old(self).path_of(i as int),
    {
        let ghost before = self.levels@;
        let ghost gi = i as int;
        let depth = self.depth;
        let ghost d = depth as int;
        set_node(&mut self.levels, depth, i, h);
        let mut idx: usize = i;
        let mut lvl: usize = depth;
        proof {
            lemma_ancestor_nonneg(gi, 0);
            let cur = self.levels@;
            let dd = self.defaults@;
            assert forall|l: int| 0 <= l <= d implies all_valid(#[trigger] cur[l]@) by {
                if l < d {
                    assert(level_ok(before, dd, l));
                    assert(cur[l] == before[l]);
                }
            }
            assert forall|l: int| 0 <= l < d && l != d - 1 implies #[trigger] level_ok(
                cur,
                dd,
                l,
            ) by {
                assert(level_ok(before, dd, l));
                assert(cur[l] == before[l]);
                assert(cur[l + 1] == before[l + 1]);
            }
            if d > 0 {
                assert(level_ok(before, dd, d - 1));
                assert(cur[d - 1] == before[d - 1]);
                assert forall|j: int|
                    0 <= j < cur[d - 1]@.len() && j != gi / 2 implies #[trigger] cur[d - 1]@[j]
                    == node_hash(node_of(cur, dd, d, 2 * j), node_of(cur, dd, d, 2 * j + 1)) by {
                    assert(before[d - 1]@[j] == node_hash(
                        node_of(before, dd, d, 2 * j),
                        node_of(before, dd, d, 2 * j + 1),
                    ));
                }
            }
        }
        while lvl > 0
            invariant
                depth == self.depth,
                d == depth as int,
                lvl <= depth,
                h.valid(),
                self.defaults == old(self).defaults,
                before == old(self).levels@,
                defaults_ok(self.defaults@, d),
                tree_ok(before, self.defaults@, d),
                self.levels@.len() == d + 1,
                0 <= gi < before[d]@.len(),
                idx as int == ancestor(gi, (d - lvl) as nat),
                idx < self.levels@[lvl as int]@.len(),
                self.levels@[d]@[gi] == h,
                forall|l: int|
                    0 <= l <= d ==> (#[trigger] self.levels@[l])@.len() == before[l]@.len(),
                forall|l: int| 0 <= l < lvl ==> #[trigger] self.levels@[l] == before[l],
                forall|l: int, j: int|
                    lvl <= l <= d && 0 <= j < before[l]@.len() && j != ancestor(gi, (d - l) as nat)
                        ==> #[trigger] self.levels@[l]@[j] == before[l]@[j],
                forall|l: int| 0 <= l <= d ==> all_valid(#[trigger] self.levels@[l]@),
                forall|l: int|
                    0 <= l < d && l != lvl - 1 ==> #[trigger] level_ok(self.levels@, self.defaults@, l),
                lvl > 0 ==> level_ok_except(self.levels@, self.defaults@, lvl - 1, idx as int / 2),
            decreases lvl,
        {
            let parent: usize = idx / 2;
            let left = self.get_node_raw(lvl, 2 * parent);
            let right = self.get_node_raw(lvl, 2 * parent + 1);
            let hash = hash_pair(left, right);
            proof {
                assert(ancestor(gi, (d - (lvl - 1)) as nat) == parent);
            }
            let ghost prev = self.levels@;
            let ghost pl = lvl - 1;
            set_node(&mut self.levels, lvl - 1, parent, hash);
            proof {
                let cur = self.levels@;
                let dd = self.defaults@;
                assert forall|l: int| 0 <= l <= d implies all_valid(#[trigger] cur[l]@) by {
                    if l != pl {
                        assert(cur[l] == prev[l]);
                    }
                }
                assert forall|l: int, j: int|
                    pl <= l <= d && 0 <= j < before[l]@.len() && j != ancestor(
                        gi,
                        (d - l) as nat,
                    ) implies #[trigger] cur[l]@[j] == before[l]@[j] by {
                    if l == pl {
                        assert(prev[l] == before[l]);
                    } else {
                        assert(cur[l] == prev[l]);
                    }
                }
                assert forall|l: int| 0 <= l < d && l != pl - 1 implies #[trigger] level_ok(
                    cur,
                    dd,
                    l,
                ) by {
                    if l == pl {
                        assert(level_ok_except(prev, dd, pl, parent as int));
                        assert(cur[l + 1] == prev[l + 1]);
                        assert forall|j: int| 0 <= j < cur[l]@.len() implies #[trigger] cur[l]@[j]
                            == node_hash(
                            node_of(cur, dd, l + 1, 2 * j),
                            node_of(cur, dd, l + 1, 2 * j + 1),
                        ) by {
                            if j != parent {
                                assert(cur[l]@[j] == prev[l]@[j]);
                            }
                        }
                    } else {
                        assert(level_ok(prev, dd, l));
                        assert(cur[l] == prev[l]);
                        assert(cur[l + 1] == prev[l + 1]);
                    }
                }
                if pl > 0 {
                    assert(cur[pl - 1] == before[pl - 1]);
                    assert(level_ok(before, dd, pl - 1));
                    assert(cur[pl]@.len() == before[pl]@.len());
                    assert forall|j: int|
                        0 <= j < cur[pl - 1]@.len() && j != parent as int / 2 implies #[trigger] cur[pl
                        - 1]@[j] == node_hash(
                        node_of(cur, dd, pl, 2 * j),
                        node_of(cur, dd, pl, 2 * j + 1),
                    ) by {
                        assert(before[pl - 1]@[j] == node_hash(
                            node_of(before, dd, pl, 2 * j),
                            node_of(before, dd, pl, 2 * j + 1),
                        ));
                        if 0 <= 2 * j < cur[pl]@.len() {
                            assert(cur[pl]@[2 * j] == before[pl]@[2 * j]);
                        }
                        if 0 <= 2 * j + 1 < cur[pl]@.len() {
                            assert(cur[pl]@[2 * j + 1] == before[pl]@[2 * j + 1]);
                        }
                    }
                }
            }
            idx = parent;
            lvl -= 1;
        }
        proof {
            let cur = self.levels@;
            assert(cur[d]@ =~= before[d]@.update(gi, h));
            assert forall|k: int| 0 <= k < d implies #[trigger] self.path_of(gi)[k] == old(
                self,
            ).path_of(gi)[k] by {
                let a = ancestor(gi, (d - (k + 1)) as nat);
                lemma_ancestor_nonneg(gi, (d - (k + 1)) as nat);
                if 0 <= sibling(a) < cur[k + 1]@.len() {
                    assert(cur[k + 1]@[sibling(a)] == before[k + 1]@[sibling(a)]);
                }
            }
            assert(self.path_of(gi) =~= old(self).path_of(gi));
        }
    }
}

/// Computes the root reached from a leaf value by a path given from the top down.
pub fn fold_up(leaf: Fe, path: &Vec<(bool, Fe)>) -> (r: Fe)
    requires
        leaf.valid(),
        forall|k: int| 0 <= k < path@.len() ==> (#[trigger] path@[k]).1.valid(),
    ensures
        r == fold_path(leaf, path@),
        r.valid(),
{
    let n = path.len();
    let mut cur = leaf;
    let mut k: usize = n;
    proof {
        assert(path@.subrange(n as int, n as int).len() == 0);
    }
    while k > 0
        invariant
            k <= n,
            n == path@.len(),
            cur.valid(),
            forall|x: int| 0 <= x < path@.len() ==> (#[trigger] path@[x]).1.valid(),
            cur == fold_path(leaf, path@.subrange(k as int, n as int)),
        decreases k,
    {
        k -= 1;
        let (bit, sib) = path[k];
        cur = if bit {
            hash_pair(cur, sib)
        } else {
            hash_pair(sib, cur)
        };
        proof {
            assert(path@.subrange(k as int, n as int).drop_first() =~= path@.subrange(
                k + 1,
                n as int,
            ));
        }
    }
    proof {
        assert(path@.subrange(0, n as int) =~= path@);
    }
    cur
}

proof fn lemma_defaults_unique(a: Seq<Fe>, b: Seq<Fe>, depth: int, l: int)
    requires
        defaults_ok(a, depth),
        defaults_ok(b, depth),
        0 <= l <= depth,
    ensures
        a[l] == b[l],
    decreases depth - l,
{
    if l < depth {
        lemma_defaults_unique(a, b, depth, l + 1);
    }
}

proof fn lemma_levels_unique(a: &MerkleSet, b: &MerkleSet, l: int)
    requires
        a.wf(),
        b.wf(),
        a.depth == b.depth,
        a.leaves() == b.leaves(),
        0 <= l <= a.depth,
    ensures
        a.levels@[l]@ == b.levels@[l]@,
    decreases a.depth - l,
{
    if l < a.depth {
        lemma_levels_unique(a, b, l + 1);
        lemma_defaults_unique(a.defaults@, b.defaults@, a.depth as int, l + 1);
        assert(level_ok(a.levels@, a.defaults@, l));
        assert(level_ok(b.levels@, b.defaults@, l));
        assert(a.levels@[l]@ =~= b.levels@[l]@);
    }
}

/// The root of a well-formed tree depends on its depth and its leaves alone:
/// a tree updated by swaps has the root of one built directly from its final
/// leaves.
pub proof fn lemma_same_leaves_same_root(a: &MerkleSet, b: &MerkleSet)
    requires
        a.wf(),
        b.wf(),
        a.depth == b.depth,
        a.leaves() == b.leaves(),
    ensures
        a.root() == b.root(),
{
    lemma_levels_unique(a, b, 0);
    lemma_defaults_unique(a.defaults@, b.defaults@, a.depth as int, 0);
}

impl GenSet for MerkleSet {
    type Item = Vec<Fe>;

    type Digest = Fe;

    open spec fn inv(&self) -> bool {
        self.wf()
    }

    open spec fn can_swap(&self, old_item: Vec<Fe>, new_item: Vec<Fe>) -> bool {
        &&& all_valid(old_item@)
        &&& all_valid(new_item@)
        &&& self.position(old_item@) is Some
    }

    open spec fn swapped(&self, old_item: Vec<Fe>, new_item: Vec<Fe>, after: Self) -> bool {
        let i = self.position(old_item@)->Some_0;
        &&& after.depth == self.depth
        &&& after.leaves() == self.leaves().update(i, item_hash(new_item@))
        &&& after.path_of(i) == self.path_of(i)
    }

    open spec fn can_swap_all(&self, old_items: Seq<Vec<Fe>>, new_items: Seq<Vec<Fe>>) -> bool {
        &&& items_valid(old_items)
        &&& items_valid(new_items)
        &&& leaves_after(self.leaves(), old_items, new_items, old_items.len() as int) is Some
    }

    open spec fn swapped_all(
        &self,
        old_items: Seq<Vec<Fe>>,
        new_items: Seq<Vec<Fe>>,
        after: Self,
    ) -> bool {
        &&& after.depth == self.depth
        &&& leaves_after(self.leaves(), old_items, new_items, old_items.len() as int) == Some(
            after.leaves(),
        )
    }

    open spec fn is_digest(&self, d: Fe) -> bool {
        d == self.root()
    }

    fn swap(&mut self, old_item: &Vec<Fe>, new_item: Vec<Fe>) {
        let i = match self.leaf_index(old_item) {
            Some(i) => i,
            None => {
                proof {
                    assert(false);
                }
                0
            },
        };
        proof {
            assert(is_first(self.leaves(), item_hash(old_item@), i as int));
        }
        let h = encode_item(&new_item);
        self.set_leaf(i, h);
    }

    fn swap_all(&mut self, old_items: Vec<Vec<Fe>>, new_items: Vec<Vec<Fe>>) {
        let ghost start = self.leaves();
        let n = old_items.len();
        let mut k: usize = 0;
        while k < n
            invariant
                n == old_items@.len(),
                n == new_items@.len(),
                k <= n,
                self.wf(),
                self.depth == old(self).depth,
                start == old(self).leaves(),
                items_valid(old_items@),
                items_valid(new_items@),
                leaves_after(start, old_items@, new_items@, n as int) is Some,
                leaves_after(start, old_items@, new_items@, k as int) == Some(self.leaves()),
            decreases n - k,
        {
            proof {
                lemma_leaves_after_prefix(start, old_items@, new_items@, k as int + 1, n as int);
            }
            let fresh = new_items[k].clone();
            proof {
                assert(fresh@ =~= new_items@[k as int]@);
                assert(all_valid(old_items@[k as int]@));
                assert(all_valid(new_items@[k as int]@));
            }
            self.swap(&old_items[k], fresh);
            k += 1;
        }
    }

    fn digest(&self) -> (r: Fe) {
        self.get_node(0, 0)
    }
}

/// Where a batch goes through, each of its prefixes does.
pub proof fn lemma_leaves_after_prefix(
    leaves: Seq<Fe>,
    old_items: Seq<Vec<Fe>>,
    new_items: Seq<Vec<Fe>>,
    k: int,
    n: int,
)
    requires
        0 <= k <= n,
        leaves_after(leaves, old_items, new_items, n) is Some,
    ensures
        leaves_after(leaves, old_items, new_items, k) is Some,
    decreases n - k,
{
    if k < n {
        lemma_leaves_after_prefix(leaves, old_items, new_items, k + 1, n);
    }
}

/// Swapping an item of a tree built from `items` gives the root of the tree
/// built directly from `items` with that item replaced by the new one.
pub proof fn lemma_swap_matches_reseeding(
    before: MerkleSet,
    after: MerkleSet,
    items: Seq<Vec<Fe>>,
    old_item: Vec<Fe>,
    new_item: Vec<Fe>,
    reseeded: MerkleSet,
)
    requires
        before.wf(),
        after.wf(),
        reseeded.wf(),
        before.leaves() == items.map_values(|it: Vec<Fe>| item_hash(it@)),
        before.can_swap(old_item, new_item),
        before.swapped(old_item, new_item, after),
        reseeded.depth == before.depth,
        reseeded.leaves() == items.update(
            before.position(old_item@)->Some_0,
            new_item,
        ).map_values(|it: Vec<Fe>| item_hash(it@)),
    ensures
        after.root() == reseeded.root(),
{
    assert(after.leaves() =~= reseeded.leaves());
    lemma_same_leaves_same_root(&after, &reseeded);
}

/// Where the occupied leaves are distinct, the position of each leaf's hash
/// is that leaf: the map from leaf hashes to positions is a bijection onto the
/// occupied positions.
pub proof fn lemma_leaf_positions_bijective(t: &MerkleSet, i: int)
    requires
        t.wf(),
        t.leaves().no_duplicates(),
        0 <= i < t.leaves().len(),
    ensures
        first_index(t.leaves(), t.leaves()[i]) == Some(i),
{
    assert(is_first(t.leaves(), t.leaves()[i], i));
    lemma_first_unique(t.leaves(), t.leaves()[i], i);
}

/// The leaf level holds the occupied leaves, then zeros.
pub proof fn lemma_leaf_nodes(t: &MerkleSet, i: int)
    requires
        t.wf(),
        0 <= i,
    ensures
        t.node(t.depth as int, i) == if i < t.leaves().len() {
            t.leaves()[i]
        } else {
            zero_fe()
        },
{
}

/// Level `l` stores at most its `2^l` nodes.
pub proof fn lemma_level_len_bound(t: &MerkleSet, l: int)
    requires
        t.wf(),
        0 <= l <= t.depth,
    ensures
        t.levels@[l]@.len() <= pow2(l as nat),
    decreases t.depth - l,
{
    if l < t.depth {
        lemma_level_len_bound(t, l + 1);
        assert(level_ok(t.levels@, t.defaults@, l));
        lemma_pow2_unfold((l + 1) as nat);
    }
}

} // verus!
