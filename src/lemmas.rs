use vstd::prelude::*;

use crate::hash::Hasher;
use crate::merkle_tree::{
    combine,
    effective_item,
    fold_path,
    is_pow2,
    leaf_hashes,
    lemma_padded_len,
    lemma_padded_len_of_pow2,
    levels,
    padded_len,
    parent_level,
    path_from,
    tree_nodes,
    tree_root,
};

verus! {

/// The hash function maps two different inputs to the same digest.
pub open spec fn has_collision<const N: usize, H: Hasher<N>>(h: H) -> bool {
    exists|a: Seq<u8>, b: Seq<u8>| a != b && h.spec_hash(a) == h.spec_hash(b)
}

/// The items padded on the right with copies of the last item, up to the
/// number of leaves.
pub open spec fn padded_items(items: Seq<Seq<u8>>) -> Seq<Seq<u8>> {
    Seq::new(padded_len(items.len()), |i: int| effective_item(items, i))
}

/// Folding the path of node `i` of a level, starting from that node, reaches
/// the last of the levels above it.
proof fn lemma_level_path<const N: usize, H: Hasher<N>>(h: H, level: Seq<Seq<u8>>, i: nat)
    requires
        is_pow2(level.len()),
        i < level.len(),
    ensures
        fold_path(h, level[i as int], path_from(levels(h, level), level.len(), i)) == levels(
            h,
            level,
        ).last(),
    decreases level.len(),
{
    if level.len() > 1 {
        let len = level.len();
        let parents = parent_level(h, level);
        let all = levels(h, level);
        assert(all == level + levels(h, parents));
        assert(all.subrange(len as int, all.len() as int) =~= levels(h, parents));
        let rest = path_from(levels(h, parents), len / 2, i / 2);
        let step = if i % 2 == 0 {
            (false, all[i + 1 as int])
        } else {
            (true, all[i - 1 as int])
        };
        assert(path_from(all, len, i) == seq![step] + rest);
        assert((seq![step] + rest).drop_first() =~= rest);
        if i % 2 == 0 {
            assert(2 * (i / 2) == i);
            assert(parents[(i / 2) as int] == combine(h, level[i as int], level[i + 1 as int]));
        } else {
            assert(2 * (i / 2) + 1 == i);
            assert(parents[(i / 2) as int] == combine(h, level[i - 1 as int], level[i as int]));
        }
        lemma_level_path(h, parents, i / 2);
        assert(levels(h, parents).len() >= 1);
    }
}

/// Completeness: for every leaf index `i`, folding the inclusion path of leaf
/// `i` from the hash of the item behind that leaf gives the root, so the
/// inclusion proof of leaf `i` validates that item.
pub proof fn lemma_inclusion_proof_validates<const N: usize, H: Hasher<N>>(
    h: H,
    items: Seq<Seq<u8>>,
    i: nat,
)
    requires
        items.len() > 0,
        i < padded_len(items.len()),
    ensures
        fold_path(
            h,
            h.spec_hash(effective_item(items, i as int)),
            path_from(tree_nodes(h, items), padded_len(items.len()), i),
        ) == tree_root(h, items),
{
    lemma_padded_len(items.len());
    let leaves = leaf_hashes(h, items);
    assert(leaves[i as int] == h.spec_hash(effective_item(items, i as int)));
    lemma_level_path(h, leaves, i);
}

/// Two different starting hashes folded along the same path reach the same
/// hash only through a collision.
proof fn lemma_fold_separates<const N: usize, H: Hasher<N>>(
    h: H,
    a: Seq<u8>,
    b: Seq<u8>,
    path: Seq<(bool, Seq<u8>)>,
)
    requires
        a != b,
        fold_path(h, a, path) == fold_path(h, b, path),
    ensures
        has_collision(h),
    decreases path.len(),
{
    if path.len() > 0 {
        let (left, s) = path[0];
        let in_a = if left { s + a } else { a + s };
        let in_b = if left { s + b } else { b + s };
        if left {
            assert(in_a.subrange(s.len() as int, in_a.len() as int) =~= a);
            assert(in_b.subrange(s.len() as int, in_b.len() as int) =~= b);
        } else if a.len() == b.len() {
            assert(in_a.subrange(0, a.len() as int) =~= a);
            assert(in_b.subrange(0, b.len() as int) =~= b);
        }
        assert(in_a != in_b);
        if h.spec_hash(in_a) == h.spec_hash(in_b) {
            assert(in_a != in_b && h.spec_hash(in_a) == h.spec_hash(in_b));
        } else {
            lemma_fold_separates(h, h.spec_hash(in_a), h.spec_hash(in_b), path.drop_first());
        }
    }
}

/// Soundness for items: if the same path folds two different items to the
/// same root, the hash function has a collision. So, without a collision,
/// a proof validates no item other than the one it was made for.
pub proof fn lemma_validate_rejects_other_item<const N: usize, H: Hasher<N>>(
    h: H,
    path: Seq<(bool, Seq<u8>)>,
    root: Seq<u8>,
    x: Seq<u8>,
    y: Seq<u8>,
)
    requires
        x != y,
        fold_path(h, h.spec_hash(x), path) == root,
        fold_path(h, h.spec_hash(y), path) == root,
    ensures
        has_collision(h),
{
    if h.spec_hash(x) == h.spec_hash(y) {
        assert(x != y && h.spec_hash(x) == h.spec_hash(y));
    } else {
        lemma_fold_separates(h, h.spec_hash(x), h.spec_hash(y), path);
    }
}

/// Soundness for paths: if two paths that differ only in the sibling bytes of
/// step `k` (same side) fold one item to the same root, the hash function has
/// a collision. So, without a collision, altering the sibling hash of any step
/// makes validation fail.
pub proof fn lemma_validate_rejects_altered_step<const N: usize, H: Hasher<N>>(
    h: H,
    item: Seq<u8>,
    root: Seq<u8>,
    path: Seq<(bool, Seq<u8>)>,
    altered: Seq<(bool, Seq<u8>)>,
    k: nat,
)
    requires
        path.len() == altered.len(),
        k < path.len(),
        forall|j: int| 0 <= j < path.len() && j != k ==> path[j] == altered[j],
        path[k as int].0 == altered[k as int].0,
        path[k as int].1 != altered[k as int].1,
        fold_path(h, h.spec_hash(item), path) == root,
        fold_path(h, h.spec_hash(item), altered) == root,
    ensures
        has_collision(h),
{
    lemma_altered_step(h, h.spec_hash(item), path, altered, k);
}

proof fn lemma_altered_step<const N: usize, H: Hasher<N>>(
    h: H,
    acc: Seq<u8>,
    path: Seq<(bool, Seq<u8>)>,
    altered: Seq<(bool, Seq<u8>)>,
    k: nat,
)
    requires
        path.len() == altered.len(),
        k < path.len(),
        forall|j: int| 0 <= j < path.len() && j != k ==> path[j] == altered[j],
        path[k as int].0 == altered[k as int].0,
        path[k as int].1 != altered[k as int].1,
        fold_path(h, acc, path) == fold_path(h, acc, altered),
    ensures
        has_collision(h),
    decreases k,
{
    assert(path.drop_first().len() == altered.drop_first().len());
    if k == 0 {
        let (left, s) = path[0];
        let t = altered[0].1;
        let in_a = if left { s + acc } else { acc + s };
        let in_b = if left { t + acc } else { acc + t };
        if left {
            if s.len() == t.len() {
                assert(in_a.subrange(0, s.len() as int) =~= s);
                assert(in_b.subrange(0, t.len() as int) =~= t);
            }
        } else {
            assert(in_a.subrange(acc.len() as int, in_a.len() as int) =~= s);
            assert(in_b.subrange(acc.len() as int, in_b.len() as int) =~= t);
        }
        assert(in_a != in_b);
        assert(path.drop_first() =~= altered.drop_first());
        if h.spec_hash(in_a) == h.spec_hash(in_b) {
            assert(in_a != in_b && h.spec_hash(in_a) == h.spec_hash(in_b));
        } else {
            lemma_fold_separates(h, h.spec_hash(in_a), h.spec_hash(in_b), path.drop_first());
        }
    } else {
        assert(path[0] == altered[0]);
        let next = if path[0].0 {
            combine(h, path[0].1, acc)
        } else {
            combine(h, acc, path[0].1)
        };
        lemma_altered_step(h, next, path.drop_first(), altered.drop_first(), (k - 1) as nat);
    }
}

/// Padding: the tree over `items` is the tree over `items` padded on the right
/// with copies of the last item up to the number of leaves.
pub proof fn lemma_padding_equivalence<const N: usize, H: Hasher<N>>(h: H, items: Seq<Seq<u8>>)
    requires
        items.len() > 0,
    ensures
        padded_len(padded_items(items).len()) == padded_len(items.len()),
        tree_nodes(h, padded_items(items)) == tree_nodes(h, items),
{
    lemma_padded_len(items.len());
    lemma_padded_len_of_pow2(padded_len(items.len()));
    let padded = padded_items(items);
    assert(leaf_hashes(h, padded) =~= leaf_hashes(h, items));
}

/// A power-of-two number of items needs no padding: there is one leaf per
/// item, the hash of that item.
pub proof fn lemma_power_of_two_unpadded<const N: usize, H: Hasher<N>>(h: H, items: Seq<Seq<u8>>)
    requires
        is_pow2(items.len()),
    ensures
        padded_len(items.len()) == items.len(),
        leaf_hashes(h, items) == items.map_values(|x: Seq<u8>| h.spec_hash(x)),
{
    lemma_padded_len_of_pow2(items.len());
    assert(leaf_hashes(h, items) =~= items.map_values(|x: Seq<u8>| h.spec_hash(x)));
}

/// The root of the tree over one item is the hash of that item.
pub proof fn lemma_single_item_root<const N: usize, H: Hasher<N>>(h: H, x: Seq<u8>)
    ensures
        tree_root(h, seq![x]) == h.spec_hash(x),
{
    assert(padded_len(1) == 1);
    assert(leaf_hashes(h, seq![x]) =~= seq![h.spec_hash(x)]);
}

/// The root of the tree over two items is the hash of their two hashes.
pub proof fn lemma_two_items_root<const N: usize, H: Hasher<N>>(h: H, a: Seq<u8>, b: Seq<u8>)
    ensures
        tree_root(h, seq![a, b]) == combine(h, h.spec_hash(a), h.spec_hash(b)),
{
    assert(padded_len(1) == 1);
    assert(padded_len(2) == 2);
    let leaves = leaf_hashes(h, seq![a, b]);
    assert(leaves =~= seq![h.spec_hash(a), h.spec_hash(b)]);
    let top = parent_level(h, leaves);
    assert(top =~= seq![combine(h, h.spec_hash(a), h.spec_hash(b))]);
    assert(levels(h, top) == top);
    assert(levels(h, leaves) == leaves + top);
}

} // verus!
