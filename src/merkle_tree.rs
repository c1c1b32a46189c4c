use vstd::prelude::*;

use crate::hash::Hasher;

verus! {

// ---------------------------------------------------------------------------
// Mathematical model
// ---------------------------------------------------------------------------

/// Two to the power `k`.
pub open spec fn pow2(k: nat) -> nat
    decreases k,
{
    if k == 0 {
        1
    } else {
        2 * pow2((k - 1) as nat)
    }
}

/// `n` is a power of two.
pub open spec fn is_pow2(n: nat) -> bool
    decreases n,
{
    if n <= 1 {
        n == 1
    } else {
        n % 2 == 0 && is_pow2(n / 2)
    }
}

/// The number of halvings (rounding up) that bring `n` down to one: the
/// base-two logarithm of `n`, rounded up.
pub open spec fn depth(n: nat) -> nat
    decreases n,
{
    if n <= 1 {
        0
    } else {
        1 + depth(((n + 1) / 2) as nat)
    }
}

/// The number of leaves of a tree over `n` items: the smallest power of two
/// that is at least `n`.
pub open spec fn padded_len(n: nat) -> nat {
    pow2(depth(n))
}

/// The byte contents of each item.
pub open spec fn item_bytes(items: Seq<&[u8]>) -> Seq<Seq<u8>> {
    items.map_values(|item: &[u8]| item@)
}

/// The item behind leaf `i`: the item itself, or the last item where the
/// leaves run past the items.
pub open spec fn effective_item(items: Seq<Seq<u8>>, i: int) -> Seq<u8> {
    if i < items.len() {
        items[i]
    } else {
        items.last()
    }
}

/// The hash of the concatenation of two hash values.
pub open spec fn combine<const N: usize, H: Hasher<N>>(h: H, left: Seq<u8>, right: Seq<u8>) -> Seq<
    u8,
> {
    h.spec_hash(left + right)
}

/// The leaf level: the hash of each item, padded on the right with the hash of
/// the last item up to a power of two.
pub open spec fn leaf_hashes<const N: usize, H: Hasher<N>>(h: H, items: Seq<Seq<u8>>) -> Seq<
    Seq<u8>,
> {
    Seq::new(padded_len(items.len()), |i: int| h.spec_hash(effective_item(items, i)))
}

/// The level above `level`: each pair of adjacent nodes combined.
pub open spec fn parent_level<const N: usize, H: Hasher<N>>(h: H, level: Seq<Seq<u8>>) -> Seq<
    Seq<u8>,
> {
    Seq::new(level.len() / 2, |j: int| combine(h, level[2 * j], level[2 * j + 1]))
}

/// `level` followed by every level above it, up to the root.
pub open spec fn levels<const N: usize, H: Hasher<N>>(h: H, level: Seq<Seq<u8>>) -> Seq<Seq<u8>>
    decreases level.len(),
{
    if level.len() <= 1 {
        level
    } else {
        level + levels(h, parent_level(h, level))
    }
}

/// All nodes of the tree over `items`, level by level from the leaves up.
pub open spec fn tree_nodes<const N: usize, H: Hasher<N>>(h: H, items: Seq<Seq<u8>>) -> Seq<
    Seq<u8>,
> {
    levels(h, leaf_hashes(h, items))
}

/// The root of the tree over `items`.
pub open spec fn tree_root<const N: usize, H: Hasher<N>>(h: H, items: Seq<Seq<u8>>) -> Seq<u8> {
    tree_nodes(h, items).last()
}

// ---------------------------------------------------------------------------
// Powers of two
// ---------------------------------------------------------------------------

proof fn lemma_pow2_positive(k: nat)
    ensures
        pow2(k) >= 1,
    decreases k,
{
    if k > 0 {
        lemma_pow2_positive((k - 1) as nat);
    }
}

proof fn lemma_pow2_is_pow2(k: nat)
    ensures
        is_pow2(pow2(k)),
    decreases k,
{
    if k > 0 {
        lemma_pow2_is_pow2((k - 1) as nat);
        lemma_pow2_positive((k - 1) as nat);
    }
}

proof fn lemma_pow2_mono(a: nat, b: nat)
    requires
        a <= b,
    ensures
        pow2(a) <= pow2(b),
    decreases b,
{
    if a < b {
        lemma_pow2_mono(a, (b - 1) as nat);
        lemma_pow2_positive((b - 1) as nat);
    }
}

/// `padded_len(n)` is a power of two, at least `n`, and the least such.
pub(crate) proof fn lemma_padded_len(n: nat)
    requires
        n >= 1,
    ensures
        is_pow2(padded_len(n)),
        padded_len(n) >= n,
        depth(n) > 0 ==> pow2((depth(n) - 1) as nat) < n,
    decreases n,
{
    lemma_pow2_is_pow2(depth(n));
    if n > 1 {
        let m = ((n + 1) / 2) as nat;
        lemma_padded_len(m);
        if depth(m) > 0 {
            assert(pow2(depth(m)) == 2 * pow2((depth(m) - 1) as nat));
        }
    }
}

/// A power of two is its own padded length.
pub(crate) proof fn lemma_padded_len_of_pow2(n: nat)
    requires
        is_pow2(n),
    ensures
        padded_len(n) == n,
    decreases n,
{
    if n > 1 {
        lemma_padded_len_of_pow2(n / 2);
        assert((n + 1) / 2 == n / 2);
    }
}

/// The smallest power of two that is at least `n`.
fn padded_count(n: usize) -> (r: usize)
    requires
        1 <= n,
        2 * padded_len(n as nat) - 1 <= usize::MAX,
    ensures
        r == padded_len(n as nat),
{
    let mut p: usize = 1;
    let ghost mut k: nat = 0;
    proof {
        lemma_padded_len(n as nat);
    }
    while p < n
        invariant
            p == pow2(k),
            p >= 1,
            k <= depth(n as nat),
            2 * padded_len(n as nat) - 1 <= usize::MAX,
            padded_len(n as nat) >= n,
            depth(n as nat) > 0 ==> pow2((depth(n as nat) - 1) as nat) < n,
        decreases depth(n as nat) - k,
    {
        proof {
            if k >= depth(n as nat) {
                lemma_pow2_mono(depth(n as nat), k);
            }
            lemma_pow2_mono(k + 1, depth(n as nat));
        }
        p = p * 2;
        proof {
            k = k + 1;
        }
    }
    proof {
        if k < depth(n as nat) {
            lemma_pow2_mono(k, (depth(n as nat) - 1) as nat);
        }
    }
    p
}

/// The path of sibling steps from node `i` of the lowest level in `nodes`
/// (a level of `level_len` nodes followed by the levels above it) to the root.
/// A step is the sibling's side (left or not) and its bytes.
pub open spec fn path_from(nodes: Seq<Seq<u8>>, level_len: nat, i: nat) -> Seq<(bool, Seq<u8>)>
    decreases level_len,
{
    if level_len <= 1 {
        Seq::empty()
    } else {
        let step = if i % 2 == 0 {
            (false, nodes[i + 1 as int])
        } else {
            (true, nodes[i - 1 as int])
        };
        seq![step] + path_from(nodes.subrange(level_len as int, nodes.len() as int), level_len / 2, i / 2)
    }
}

/// The hash reached from `acc` by combining it with each step of `path` in turn,
/// with the sibling on the side that the step names.
pub open spec fn fold_path<const N: usize, H: Hasher<N>>(
    h: H,
    acc: Seq<u8>,
    path: Seq<(bool, Seq<u8>)>,
) -> Seq<u8>
    decreases path.len(),
{
    if path.len() == 0 {
        acc
    } else {
        let next = if path[0].0 {
            combine(h, path[0].1, acc)
        } else {
            combine(h, acc, path[0].1)
        };
        fold_path(h, next, path.drop_first())
    }
}

/// The byte contents of each hash value.
pub open spec fn hash_views<const N: usize>(s: Seq<crate::hash::Hash<N>>) -> Seq<Seq<u8>> {
    s.map_values(|x: crate::hash::Hash<N>| x@)
}

// ---------------------------------------------------------------------------
// The tree
// ---------------------------------------------------------------------------

/// A perfect (padded) Merkle tree using a hash algorithm with the given fixed output size.
#[derive(Debug, Clone)]
pub struct MerkleTree<const N: usize> {
    nodes: Vec<crate::hash::Hash<N>>,
    leaf_count: usize,
}

impl<const N: usize> View for MerkleTree<N> {
    type V = Seq<Seq<u8>>;

    /// The nodes, level by level from the leaves up to the root.
    closed spec fn view(&self) -> Seq<Seq<u8>> {
        hash_views(self.nodes@)
    }
}

impl<const N: usize> MerkleTree<N> {
    /// The number of leaves.
    pub closed spec fn spec_leaf_count(&self) -> nat {
        self.leaf_count as nat
    }

    /// The leaf count is a power of two and the node buffer has one node for
    /// each leaf and each node of the levels above them.
    pub closed spec fn wf(&self) -> bool {
        &&& is_pow2(self.leaf_count as nat)
        &&& self.nodes@.len() == 2 * self.leaf_count - 1
    }

    /// Build the tree over `items` with `hasher`.
    pub fn new<H: Hasher<N>>(items: &[&[u8]], hasher: H) -> (r: MerkleTree<N>)
        requires
            items@.len() > 0,
            2 * padded_len(items@.len()) - 1 <= usize::MAX,
        ensures
            r.wf(),
            r.spec_leaf_count() == padded_len(items@.len()),
            r@ == tree_nodes(hasher, item_bytes(items@)),
    {
        let ghost bytes = item_bytes(items@);
        let n = items.len();
        let last_hash = hasher.hash(items[n - 1]);
        let leaf_count = padded_count(n);
        proof {
            lemma_padded_len(n as nat);
        }
        let ghost leaves = leaf_hashes(hasher, bytes);

        let mut nodes: Vec<crate::hash::Hash<N>> = Vec::new();
        let mut i: usize = 0;
        while i < leaf_count
            invariant
                0 <= i <= leaf_count,
                n == items@.len(),
                n == bytes.len(),
                n <= leaf_count,
                bytes == item_bytes(items@),
                leaves == leaf_hashes(hasher, bytes),
                leaf_count == leaves.len(),
                last_hash@ == hasher.spec_hash(bytes.last()),
                nodes@.len() == i,
                hash_views(nodes@) == leaves.subrange(0, i as int),
            decreases leaf_count - i,
        {
            let ghost before = nodes@;
            if i < n {
                let leaf = hasher.hash(items[i]);
                nodes.push(leaf);
            } else {
                nodes.push(last_hash);
            }
            if i < n {
                assert(bytes[i as int] == items@[i as int]@);
                assert(leaves[i as int] == hasher.spec_hash(bytes[i as int]));
            } else {
                assert(leaves[i as int] == hasher.spec_hash(bytes.last()));
            }
            assert(nodes@[i as int]@ == leaves[i as int]);
            assert forall|j: int| 0 <= j <= i implies nodes@[j]@ == leaves[j] by {
                if j < i {
                    assert(hash_views(before)[j] == leaves.subrange(0, i as int)[j]);
                }
            }
            assert(hash_views(nodes@) =~= leaves.subrange(0, i + 1));
            i = i + 1;
        }
        assert(leaves.subrange(0, leaf_count as int) =~= leaves);

        let mut index: usize = 0;
        let mut level_len: usize = leaf_count;
        let ghost mut level = leaves;
        while level_len > 1
            invariant
                is_pow2(level_len as nat),
                index + 2 * level_len == 2 * leaf_count,
                2 * leaf_count - 1 <= usize::MAX,
                level.len() == level_len,
                nodes@.len() == index + level_len,
                hash_views(nodes@).subrange(index as int, nodes@.len() as int) == level,
                hash_views(nodes@).subrange(0, index as int) + levels(hasher, level) == levels(
                    hasher,
                    leaves,
                ),
            decreases level_len,
        {
            let end = index + level_len;
            let ghost below = hash_views(nodes@);
            let ghost parents = parent_level(hasher, level);
            let mut j: usize = index;
            let ghost mut k: int = 0;
            while j < end
                invariant
                    index <= j <= end,
                    j == index + 2 * k,
                    end == index + level_len,
                    level_len % 2 == 0,
                    end + level_len / 2 <= usize::MAX,
                    level.len() == level_len,
                    parents == parent_level(hasher, level),
                    below.subrange(index as int, end as int) == level,
                    below.len() == end,
                    nodes@.len() == end + k,
                    hash_views(nodes@) == below + parents.subrange(0, k),
                decreases end - j,
            {
                let ghost before = nodes@;
                proof {
                    assert(hash_views(before)[j as int] == below[j as int]);
                    assert(hash_views(before)[j + 1] == below[j + 1]);
                    assert(below.subrange(index as int, end as int)[2 * k] == below[j as int]);
                    assert(below.subrange(index as int, end as int)[2 * k + 1] == below[j + 1]);
                }
                let parent = hasher.concat_hashes(nodes[j], nodes[j + 1]);
                nodes.push(parent);
                proof {
                    assert forall|t: int| 0 <= t < nodes@.len() implies hash_views(nodes@)[t] == (
                    below + parents.subrange(0, k + 1))[t] by {
                        if t < nodes@.len() - 1 {
                            assert(hash_views(before)[t] == (below + parents.subrange(0, k))[t]);
                        }
                    }
                    assert(hash_views(nodes@) =~= below + parents.subrange(0, k + 1));
                    k = k + 1;
                }
                j = j + 2;
            }
            proof {
                assert(parents.subrange(0, parents.len() as int) =~= parents);
                assert(below.subrange(0, index as int) + level =~= below);
                assert(hash_views(nodes@).subrange(0, end as int) =~= below);
                assert(hash_views(nodes@).subrange(end as int, nodes@.len() as int) =~= parents);
                assert(below.subrange(0, index as int) + levels(hasher, level) =~= below
                    + levels(hasher, parents));
                level = parents;
            }
            index = end;
            level_len = level_len / 2;
        }
        assert(hash_views(nodes@) =~= hash_views(nodes@).subrange(0, index as int) + level);
        MerkleTree { nodes, leaf_count }
    }

    /// The root hash.
    pub fn root(&self) -> (r: crate::hash::Hash<N>)
        requires
            self.wf(),
        ensures
            r@ == self@.last(),
    {
        self.nodes[self.nodes.len() - 1]
    }

    /// The inclusion proof of leaf `index`.
    pub fn inclusion_proof(&self, index: usize) -> (r: MerkleProof<N>)
        requires
            self.wf(),
            index < self.spec_leaf_count(),
        ensures
            r@.0 == self@.last(),
            r@.1 == path_from(self@, self.spec_leaf_count(), index as nat),
    {
        let total = self.nodes.len();
        let mut path: Vec<PositionedHash<N>> = Vec::new();
        assert(self@.subrange(0, self@.len() as int) =~= self@);
        assert(step_views(path@) + path_from(self@, self.leaf_count as nat, index as nat)
            =~= path_from(self@, self.leaf_count as nat, index as nat));
        let mut start: usize = 0;
        let mut pos: usize = index;
        let mut level_len: usize = self.leaf_count;
        while level_len > 1
            invariant
                self.wf(),
                total == self.nodes@.len(),
                self@.len() == total,
                is_pow2(level_len as nat),
                start + 2 * level_len == 2 * self.leaf_count,
                pos < level_len,
                step_views(path@) + path_from(
                    self@.subrange(start as int, self@.len() as int),
                    level_len as nat,
                    pos as nat,
                ) == path_from(self@, self.leaf_count as nat, index as nat),
            decreases level_len,
        {
            let ghost rest = self@.subrange(start as int, self@.len() as int);
            let ghost before = path@;
            let step = if pos % 2 == 0 {
                PositionedHash::Right(self.nodes[start + pos + 1])
            } else {
                PositionedHash::Left(self.nodes[start + pos - 1])
            };
            path.push(step);
            proof {
                assert(rest.subrange(level_len as int, rest.len() as int) =~= self@.subrange(
                    start + level_len,
                    self@.len() as int,
                ));
                let tail = path_from(
                    self@.subrange(start + level_len, self@.len() as int),
                    (level_len / 2) as nat,
                    (pos / 2) as nat,
                );
                assert(step_views(path@) =~= step_views(before).push(step@));
                assert(step_views(path@) + tail =~= step_views(before) + (seq![step@] + tail));
            }
            start = start + level_len;
            pos = pos / 2;
            level_len = level_len / 2;
        }
        assert(step_views(path@) + Seq::empty() =~= step_views(path@));
        MerkleProof { root: self.root(), path }
    }
}

/// A sibling hash on the path from a leaf to the root, with its side.
#[derive(Debug, Clone, Copy, Eq)]
pub enum PositionedHash<const N: usize> {
    Left(crate::hash::Hash<N>),
    Right(crate::hash::Hash<N>),
}

/// An inclusion proof: the root and the sibling hashes from a leaf up.
#[derive(Debug, Clone, Eq)]
pub struct MerkleProof<const N: usize> {
    pub root: crate::hash::Hash<N>,
    pub path: Vec<PositionedHash<N>>,
}

impl<const N: usize> View for PositionedHash<N> {
    /// Whether the sibling sits on the left, and its bytes.
    type V = (bool, Seq<u8>);

    open spec fn view(&self) -> (bool, Seq<u8>) {
        match self {
            PositionedHash::Left(h) => (true, h@),
            PositionedHash::Right(h) => (false, h@),
        }
    }
}

impl<const N: usize> PartialEq for PositionedHash<N> {
    fn eq(&self, other: &PositionedHash<N>) -> (r: bool) {
        match (self, other) {
            (PositionedHash::Left(a), PositionedHash::Left(b)) => a == b,
            (PositionedHash::Right(a), PositionedHash::Right(b)) => a == b,
            _ => false,
        }
    }
}

impl<const N: usize> vstd::std_specs::cmp::PartialEqSpecImpl for PositionedHash<N> {
    open spec fn obeys_eq_spec() -> bool {
        true
    }

    open spec fn eq_spec(&self, other: &PositionedHash<N>) -> bool {
        self@ == other@
    }
}

/// The view of each step of a path.
pub open spec fn step_views<const N: usize>(path: Seq<PositionedHash<N>>) -> Seq<(bool, Seq<u8>)> {
    path.map_values(|p: PositionedHash<N>| p@)
}

impl<const N: usize> View for MerkleProof<N> {
    /// The root's bytes, and the steps of the path from the leaf up.
    type V = (Seq<u8>, Seq<(bool, Seq<u8>)>);

    open spec fn view(&self) -> (Seq<u8>, Seq<(bool, Seq<u8>)>) {
        (self.root@, step_views(self.path@))
    }
}

impl<const N: usize> MerkleProof<N> {
    /// Whether `item` hashes, along the path, to the root of this proof.
    pub fn validate<H: Hasher<N>>(&self, item: &[u8], hasher: &H) -> (r: bool)
        ensures
            r == (fold_path(*hasher, hasher.spec_hash(item@), self@.1) == self@.0),
    {
        let mut hash = hasher.hash(item);
        let ghost steps = self@.1;
        let mut i: usize = 0;
        assert(steps.subrange(0, steps.len() as int) =~= steps);
        while i < self.path.len()
            invariant
                0 <= i <= self.path@.len(),
                steps == step_views(self.path@),
                fold_path(*hasher, hash@, steps.subrange(i as int, steps.len() as int))
                    == fold_path(*hasher, hasher.spec_hash(item@), steps),
            decreases self.path@.len() - i,
        {
            proof {
                assert(steps.subrange(i as int, steps.len() as int).drop_first() =~= steps.subrange(
                    i + 1,
                    steps.len() as int,
                ));
            }
            match self.path[i] {
                PositionedHash::Left(left) => hash = hasher.concat_hashes(left, hash),
                PositionedHash::Right(right) => hash = hasher.concat_hashes(hash, right),
            }
            i = i + 1;
        }
        assert(steps.subrange(i as int, steps.len() as int) =~= Seq::empty());
        hash == self.root
    }
}

impl<const N: usize> PartialEq for MerkleProof<N> {
    fn eq(&self, other: &MerkleProof<N>) -> (r: bool) {
        if self.root != other.root {
            return false;
        }
        if self.path.len() != other.path.len() {
            assert(step_views(self.path@).len() != step_views(other.path@).len());
            return false;
        }
        let mut i: usize = 0;
        while i < self.path.len()
            invariant
                0 <= i <= self.path@.len(),
                self.path@.len() == other.path@.len(),
                forall|j: int| 0 <= j < i ==> self.path@[j]@ == other.path@[j]@,
            decreases self.path@.len() - i,
        {
            if self.path[i] != other.path[i] {
                assert(step_views(self.path@)[i as int] != step_views(other.path@)[i as int]);
                return false;
            }
            i = i + 1;
        }
        assert(step_views(self.path@) =~= step_views(other.path@));
        true
    }
}

impl<const N: usize> vstd::std_specs::cmp::PartialEqSpecImpl for MerkleProof<N> {
    open spec fn obeys_eq_spec() -> bool {
        true
    }

    open spec fn eq_spec(&self, other: &MerkleProof<N>) -> bool {
        self@ == other@
    }
}

} // verus!
