use vstd::prelude::*;

use crate::hash::{hash_eq, sha256, sha256_of, Hash32};

verus! {

/// The digest that pads a level of odd length.
pub open spec fn empty_node() -> Seq<u8> {
    Seq::new(32, |i: int| 0u8)
}

/// An inner node: the digest of its two children, left then right.
pub open spec fn node_of(a: Seq<u8>, b: Seq<u8>) -> Seq<u8> {
    sha256_of(a + b)
}

/// The digests of a sequence of `Hash32` values, as byte sequences.
pub open spec fn hashes_view(v: Seq<Hash32>) -> Seq<Seq<u8>> {
    v.map_values(|h: Hash32| h@)
}

/// Pairs up one level of the tree; an odd last node is paired with the padding.
pub open spec fn next_level(l: Seq<Seq<u8>>) -> Seq<Seq<u8>> {
    Seq::new(
        ((l.len() + 1) / 2) as nat,
        |i: int| node_of(l[2 * i], if 2 * i + 1 < l.len() { l[2 * i + 1] } else { empty_node() }),
    )
}

/// The Merkle root over a sequence of leaves.
pub open spec fn root_of(l: Seq<Seq<u8>>) -> Seq<u8>
    decreases l.len(),
{
    if l.len() == 0 {
        empty_node()
    } else if l.len() == 1 {
        l[0]
    } else {
        root_of(next_level(l))
    }
}

/// The number of levels above the leaves in a tree over `n` leaves.
pub open spec fn depth_of(n: nat) -> nat
    decreases n,
{
    if n <= 1 {
        0
    } else {
        1 + depth_of(((n + 1) / 2) as nat)
    }
}

/// The node beside position `i` of a level.
pub open spec fn sibling(l: Seq<Seq<u8>>, i: int) -> Seq<u8> {
    if i % 2 == 0 {
        if i + 1 < l.len() {
            l[i + 1]
        } else {
            empty_node()
        }
    } else {
        l[i - 1]
    }
}

/// The authentication path of leaf `i`: its sibling on every level, bottom up.
pub open spec fn path_of(l: Seq<Seq<u8>>, i: int) -> Seq<Seq<u8>>
    decreases l.len(),
{
    if l.len() <= 1 {
        seq![]
    } else {
        seq![sibling(l, i)] + path_of(next_level(l), i / 2)
    }
}

/// One step up the tree from node `h` at position `idx` with sibling `s`.
pub open spec fn step(h: Seq<u8>, idx: nat, s: Seq<u8>) -> Seq<u8> {
    if idx % 2 == 0 {
        node_of(h, s)
    } else {
        node_of(s, h)
    }
}

/// The root that an authentication path leads to from node `h` at position `idx`.
pub open spec fn climb(h: Seq<u8>, idx: nat, path: Seq<Seq<u8>>) -> Seq<u8>
    decreases path.len(),
{
    if path.len() == 0 {
        h
    } else {
        climb(step(h, idx, path[0]), idx / 2, path.drop_first())
    }
}

/// What `verify` accepts: the index is in range, the path has the tree's depth,
/// and it leads from the leaf to the root.
pub open spec fn accepts(leaf: Seq<u8>, idx: nat, n: nat, path: Seq<Seq<u8>>, root: Seq<u8>) -> bool {
    &&& idx < n
    &&& path.len() == depth_of(n)
    &&& climb(leaf, idx, path) == root
}

proof fn lemma_next_level_shorter(l: Seq<Seq<u8>>)
    requires
        l.len() >= 2,
    ensures
        next_level(l).len() < l.len(),
        next_level(l).len() == (l.len() + 1) / 2,
{
}

/// The authentication path of every leaf leads to the root, and has the tree's depth.
pub proof fn lemma_path_leads_to_root(l: Seq<Seq<u8>>, i: int)
    requires
        0 <= i < l.len(),
    ensures
        climb(l[i], i as nat, path_of(l, i)) == root_of(l),
        path_of(l, i).len() == depth_of(l.len()),
    decreases l.len(),
{
    if l.len() > 1 {
        lemma_next_level_shorter(l);
        let nl = next_level(l);
        let p = path_of(l, i);
        assert(p.drop_first() =~= path_of(nl, i / 2));
        assert(step(l[i], i as nat, p[0]) == nl[i / 2]);
        lemma_path_leads_to_root(nl, i / 2);
    }
}

/// Commitment completeness: every fragment hash verifies at its own position
/// against the root of the hashes, with the path that `prove` hands out.
pub proof fn lemma_commitment_complete(leaves: Seq<Seq<u8>>, i: int)
    requires
        0 <= i < leaves.len(),
    ensures
        accepts(leaves[i], i as nat, leaves.len(), path_of(leaves, i), root_of(leaves)),
{
    lemma_path_leads_to_root(leaves, i);
}

/// The inner node over two digests.
pub fn node(a: &Hash32, b: &Hash32) -> (r: Hash32)
    ensures
        r@ == node_of(a@, b@),
{
    let mut buf: Vec<u8> = Vec::with_capacity(64);
    let mut i: usize = 0;
    while i < 32
        invariant
            0 <= i <= 32,
            a@.len() == 32,
            buf@ =~= a@.subrange(0, i as int),
        decreases 32 - i,
    {
        buf.push(a[i]);
        i = i + 1;
    }
    let mut j: usize = 0;
    while j < 32
        invariant
            0 <= j <= 32,
            a@.len() == 32,
            b@.len() == 32,
            buf@ =~= a@ + b@.subrange(0, j as int),
        decreases 32 - j,
    {
        buf.push(b[j]);
        j = j + 1;
    }
    assert(buf@ =~= a@ + b@);
    sha256(buf.as_slice())
}

fn empty_hash() -> (r: Hash32)
    ensures
        r@ == empty_node(),
{
    let r: Hash32 = [0u8; 32];
    assert(r@ =~= empty_node());
    r
}

/// One level up: pairs of nodes joined, an odd last node paired with the padding.
pub fn pair_level(l: &Vec<Hash32>) -> (r: Vec<Hash32>)
    ensures
        hashes_view(r@) == next_level(hashes_view(l@)),
{
    let ghost lv = hashes_view(l@);
    let len: usize = l.len();
    let half: usize = len / 2 + len % 2;
    let mut r: Vec<Hash32> = Vec::new();
    let mut p: usize = 0;
    while p < half
        invariant
            lv == hashes_view(l@),
            len == l@.len(),
            half == (l@.len() + 1) / 2,
            p <= half,
            r@.len() == p,
            forall|j: int| 0 <= j < r@.len() ==> #[trigger] r@[j]@ == next_level(lv)[j],
        decreases half - p,
    {
        let i: usize = p + p;
        let right = if i + 1 < len {
            l[i + 1]
        } else {
            empty_hash()
        };
        let h = node(&l[i], &right);
        r.push(h);
        p = p + 1;
    }
    assert(hashes_view(r@) =~= next_level(lv));
    r
}

/// The Merkle root over a sequence of leaf digests.
pub fn merkle_root(leaves: &Vec<Hash32>) -> (r: Hash32)
    ensures
        r@ == root_of(hashes_view(leaves@)),
{
    if leaves.len() == 0 {
        return empty_hash();
    }
    let mut level: Vec<Hash32> = leaves.clone();
    assert(hashes_view(level@) =~= hashes_view(leaves@));
    while level.len() > 1
        invariant
            level@.len() >= 1,
            root_of(hashes_view(level@)) == root_of(hashes_view(leaves@)),
        decreases level@.len(),
    {
        proof {
            lemma_next_level_shorter(hashes_view(level@));
        }
        level = pair_level(&level);
    }
    level[0]
}

/// The authentication path of leaf `i`.
pub fn prove(leaves: &Vec<Hash32>, i: usize) -> (r: Vec<Hash32>)
    requires
        i < leaves.len(),
    ensures
        hashes_view(r@) == path_of(hashes_view(leaves@), i as int),
{
    let mut level: Vec<Hash32> = leaves.clone();
    assert(hashes_view(level@) =~= hashes_view(leaves@));
    let mut idx: usize = i;
    let mut acc: Vec<Hash32> = Vec::new();
    while level.len() > 1
        invariant
            idx < level@.len(),
            hashes_view(acc@) + path_of(hashes_view(level@), idx as int) == path_of(
                hashes_view(leaves@),
                i as int,
            ),
        decreases level@.len(),
    {
        let ghost lv = hashes_view(level@);
        proof {
            lemma_next_level_shorter(lv);
        }
        let s = if idx % 2 == 0 {
            if idx + 1 < level.len() {
                level[idx + 1]
            } else {
                empty_hash()
            }
        } else {
            level[idx - 1]
        };
        let ghost old_acc = hashes_view(acc@);
        let ghost old_idx = idx;
        acc.push(s);
        level = pair_level(&level);
        idx = idx / 2;
        assert(hashes_view(acc@) + path_of(hashes_view(level@), idx as int) =~= old_acc + path_of(lv, old_idx as int)) by {
            assert(hashes_view(acc@) =~= old_acc.push(s@));
        };
    }
    assert(hashes_view(acc@) =~= hashes_view(acc@) + path_of(hashes_view(level@), idx as int));
    acc
}

/// Checks an authentication path: accepts exactly when `accepts` holds.
pub fn verify(leaf: &Hash32, idx: usize, n: usize, path: &Vec<Hash32>, root: &Hash32) -> (r: bool)
    ensures
        r == accepts(leaf@, idx as nat, n as nat, hashes_view(path@), root@),
{
    if idx >= n {
        return false;
    }
    let d = depth(n);
    if path.len() != d {
        return false;
    }
    let ghost pv = hashes_view(path@);
    let mut h: Hash32 = *leaf;
    let mut j: usize = 0;
    let mut pos: usize = idx;
    assert(pv.subrange(0, pv.len() as int) =~= pv);
    while j < path.len()
        invariant
            pv == hashes_view(path@),
            0 <= j <= path@.len(),
            climb(h@, pos as nat, pv.subrange(j as int, pv.len() as int)) == climb(leaf@, idx as nat, pv),
        decreases path@.len() - j,
    {
        let ghost rest = pv.subrange(j as int, pv.len() as int);
        assert(rest.drop_first() =~= pv.subrange(j + 1, pv.len() as int));
        if pos % 2 == 0 {
            h = node(&h, &path[j]);
        } else {
            h = node(&path[j], &h);
        }
        pos = pos / 2;
        j = j + 1;
    }
    assert(pv.subrange(j as int, pv.len() as int) =~= Seq::<Seq<u8>>::empty());
    hash_eq(&h, root)
}

proof fn lemma_depth_bound(n: nat)
    ensures
        depth_of(n) <= n,
    decreases n,
{
    if n > 1 {
        lemma_depth_bound(((n + 1) / 2) as nat);
    }
}

/// The number of levels above `n` leaves.
pub fn depth(n: usize) -> (r: usize)
    ensures
        r == depth_of(n as nat),
{
    proof {
        lemma_depth_bound(n as nat);
    }
    let mut m: usize = n;
    let mut d: usize = 0;
    while m > 1
        invariant
            d + depth_of(m as nat) == depth_of(n as nat),
            depth_of(n as nat) <= n,
        decreases m,
    {
        m = m / 2 + m % 2;
        d = d + 1;
    }
    d
}

} // verus!
