//! Recomputing the root of a binary commitment tree from one leaf and the
//! digests of the siblings along its path.

use vstd::prelude::*;
use vstd::arithmetic::power2::{pow2, lemma_pow2_unfold, lemma_pow2_pos, lemma_pow2_strictly_increases};
use vstd::arithmetic::div_mod::lemma_div_denominator;
use crate::digest::{Digest, branch_digest, hash_branch};

verus! {

/// The deepest tree that a path can describe: the width must fit in 32 bits.
pub const MAX_DEPTH: usize = 31;

/// The index, among the nodes of its level, of the ancestor that lies `up`
/// levels above the leaf at `position`.
pub open spec fn ancestor_index(position: nat, up: nat) -> nat {
    position / pow2(up)
}

/// The digest of the node at depth `depth` on the way from the root to the
/// leaf at `position`. `path[k]` is the sibling met at depth `k + 1`, so the
/// tree is `path.len()` deep and `pow2(path.len())` wide. An ancestor with an
/// odd index is a right child: its sibling enters the parent's digest first.
pub open spec fn node_on_path(leaf: Seq<u8>, position: nat, path: Seq<Digest>, depth: nat) -> Seq<u8>
    decreases path.len() - depth,
{
    if depth >= path.len() {
        leaf
    } else {
        let child = node_on_path(leaf, position, path, depth + 1);
        let sibling = path[depth as int]@;
        let up = (path.len() - depth - 1) as nat;
        if ancestor_index(position, up) % 2 == 1 {
            branch_digest(depth as u8, pow2(path.len()) as u32, sibling, child)
        } else {
            branch_digest(depth as u8, pow2(path.len()) as u32, child, sibling)
        }
    }
}

/// The root that a leaf and its path of siblings commit to.
pub open spec fn path_root(leaf: Seq<u8>, position: nat, path: Seq<Digest>) -> Seq<u8> {
    node_on_path(leaf, position, path, 0)
}

/// Whether a path can be folded: it is at most `MAX_DEPTH` long and the
/// position names one of the `pow2(path.len())` leaves.
pub open spec fn path_fits(position: nat, path: Seq<Digest>) -> bool {
    path.len() <= MAX_DEPTH && position < pow2(path.len())
}

proof fn lemma_ancestor_step(position: nat, up: nat)
    ensures
        ancestor_index(position, up + 1) == ancestor_index(position, up) / 2,
{
    lemma_pow2_unfold(up + 1);
    lemma_pow2_pos(up);
    lemma_div_denominator(position as int, pow2(up) as int, 2);
}

/// The width of a tree of the given depth, `None` where it exceeds 32 bits.
pub fn tree_width(depth: usize) -> (width: Option<u32>)
    ensures
        depth <= MAX_DEPTH ==> width == Some(pow2(depth as nat) as u32) && pow2(depth as nat) < 0x1_0000_0000,
        depth > MAX_DEPTH ==> width.is_none(),
{
    if depth > MAX_DEPTH {
        return None;
    }
    let mut width: u32 = 1;
    let mut level: usize = 0;
    proof {
        vstd::arithmetic::power2::lemma2_to64();
    }
    while level < depth
        invariant
            level <= depth <= MAX_DEPTH,
            width == pow2(level as nat),
            pow2(31) == 0x8000_0000,
        decreases depth - level,
    {
        proof {
            lemma_pow2_unfold((level + 1) as nat);
            if level + 1 < 31 {
                lemma_pow2_strictly_increases((level + 1) as nat, 31);
            }
        }
        width = width * 2;
        level += 1;
    }
    Some(width)
}

/// Recomputes the root from a leaf digest, the leaf's position and the
/// siblings on its path, the sibling nearest the root first. Returns `None`
/// exactly when the path does not fit a tree.
pub fn fold_path(leaf: &Digest, position: u32, path: &Vec<Digest>) -> (root: Option<Digest>)
    ensures
        path_fits(position as nat, path@) ==> root.is_some() && root.unwrap()@ == path_root(
            leaf@,
            position as nat,
            path@,
        ),
        !path_fits(position as nat, path@) ==> root.is_none(),
{
    let depth = path.len();
    let width = match tree_width(depth) {
        Some(w) => w,
        None => {
            return None;
        },
    };
    if position >= width {
        return None;
    }
    let mut node: Digest = *leaf;
    let mut index: u32 = position;
    let mut level: usize = depth;
    proof {
        vstd::arithmetic::power2::lemma2_to64();
        assert(ancestor_index(position as nat, 0) == position as nat);
    }
    while level > 0
        invariant
            level <= depth == path@.len() <= MAX_DEPTH,
            width == pow2(depth as nat),
            index == ancestor_index(position as nat, (depth - level) as nat),
            node@ == node_on_path(leaf@, position as nat, path@, level as nat),
        decreases level,
    {
        level -= 1;
        let sibling = &path[level];
        let right = index % 2 == 1;
        proof {
            lemma_ancestor_step(position as nat, (depth - level - 1) as nat);
        }
        node = if right {
            hash_branch(level as u8, width, sibling, &node)
        } else {
            hash_branch(level as u8, width, &node, sibling)
        };
        index = index / 2;
    }
    Some(node)
}

} // verus!
