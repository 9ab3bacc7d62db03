use vstd::prelude::*;

use vstd::arithmetic::div_mod::lemma_div_denominator;
use vstd::arithmetic::power2::lemma2_to64;
use vstd::arithmetic::power2::lemma_pow2_pos;
use vstd::arithmetic::power2::lemma_pow2_unfold;
use vstd::arithmetic::power2::pow2;

use crate::digest::sha256d;
use crate::digest::sha256d_of;
use crate::encode::push_bytes32;

verus! {

/// The byte sequences of a list of 32-byte nodes.
pub open spec fn level_view(s: Seq<[u8; 32]>) -> Seq<Seq<u8>> {
    s.map_values(|a: [u8; 32]| a@)
}

/// The Merkle combiner: the double-SHA256 of the left node followed by the
/// right node.
pub open spec fn combine(l: Seq<u8>, r: Seq<u8>) -> Seq<u8> {
    sha256d_of(l + r)
}

/// A level padded to even length by duplicating its last node.
pub open spec fn pad_level(level: Seq<Seq<u8>>) -> Seq<Seq<u8>> {
    if level.len() % 2 == 1 {
        level.push(level.last())
    } else {
        level
    }
}

/// The level above: the padded level hashed pairwise.
pub open spec fn next_level(level: Seq<Seq<u8>>) -> Seq<Seq<u8>> {
    let p = pad_level(level);
    Seq::new(p.len() / 2, |j: int| combine(p[2 * j], p[2 * j + 1]))
}

/// The Merkle root of a level: hash pairwise upwards until one node is left.
pub open spec fn merkle_root_of(level: Seq<Seq<u8>>) -> Seq<u8>
    recommends
        level.len() >= 1,
    decreases level.len(),
{
    if level.len() <= 1 {
        if level.len() == 1 {
            level[0]
        } else {
            Seq::empty()
        }
    } else {
        merkle_root_of(next_level(level))
    }
}

/// The number of levels above the leaves in a Merkle tree over `n` nodes:
/// the length of every authentication path.
pub open spec fn tree_depth(n: int) -> int
    decreases n,
{
    if n <= 1 {
        0
    } else {
        1 + tree_depth((n + 1) / 2)
    }
}

/// Folding an authentication path from a leaf: at each step the next branch
/// node is combined on the side chosen by the position's parity, and the
/// position is halved.
pub open spec fn fold_branch(h: Seq<u8>, branch: Seq<Seq<u8>>, pos: int) -> Seq<u8>
    decreases branch.len(),
{
    if branch.len() == 0 {
        h
    } else {
        let step = if pos % 2 == 0 {
            combine(h, branch[0])
        } else {
            combine(branch[0], h)
        };
        fold_branch(step, branch.drop_first(), pos / 2)
    }
}

/// Folding one more branch node applies the combiner at the position the
/// leaf's index has at that level.
pub proof fn lemma_fold_branch_push(h: Seq<u8>, b: Seq<Seq<u8>>, x: Seq<u8>, pos: int)
    requires
        pos >= 0,
    ensures
        fold_branch(h, b.push(x), pos) == ({
            let f = fold_branch(h, b, pos);
            let q = pos / pow2(b.len()) as int;
            if q % 2 == 0 {
                combine(f, x)
            } else {
                combine(x, f)
            }
        }),
    decreases b.len(),
{
    lemma2_to64();
    if b.len() == 0 {
        assert(b.push(x) =~= seq![x]);
        assert(b.push(x).drop_first() =~= Seq::<Seq<u8>>::empty());
        assert(pow2(0) == 1);
        assert(b.push(x)[0] == x);
        let stepped = if pos % 2 == 0 {
            combine(h, x)
        } else {
            combine(x, h)
        };
        assert(fold_branch(h, b.push(x), pos) == fold_branch(
            stepped,
            b.push(x).drop_first(),
            pos / 2,
        ));
        assert(fold_branch(stepped, b.push(x).drop_first(), pos / 2) == stepped);
        assert(fold_branch(h, b, pos) == h);
        assert(pos / pow2(0) as int == pos);
    } else {
        let step = if pos % 2 == 0 {
            combine(h, b[0])
        } else {
            combine(b[0], h)
        };
        assert(b.push(x)[0] == b[0]);
        assert(b.push(x).drop_first() =~= b.drop_first().push(x));
        lemma_fold_branch_push(step, b.drop_first(), x, pos / 2);
        lemma_pow2_pos((b.len() - 1) as nat);
        lemma_div_denominator(pos, 2, pow2((b.len() - 1) as nat) as int);
        lemma_pow2_unfold(b.len() as nat);
        assert((pos / 2) / pow2((b.len() - 1) as nat) as int == pos / pow2(b.len()) as int);
        assert(fold_branch(h, b.push(x), pos) == fold_branch(
            step,
            b.drop_first().push(x),
            pos / 2,
        ));
        assert(fold_branch(h, b, pos) == fold_branch(step, b.drop_first(), pos / 2));
    }
}

/// Appends the concatenation of two 32-byte nodes.
fn concat32(a: &[u8; 32], b: &[u8; 32]) -> (r: Vec<u8>)
    ensures
        r@ == a@ + b@,
{
    let mut out: Vec<u8> = Vec::new();
    push_bytes32(&mut out, a);
    push_bytes32(&mut out, b);
    proof {
        assert(out@ =~= a@ + b@);
    }
    out
}

/// Builds the Merkle authentication path for the node at `index`: at each
/// level the node's sibling is recorded and the level is hashed pairwise,
/// duplicating the last node of an odd level.  Folding the path from the
/// leaf reproduces the Merkle root of the whole list.
pub fn create_merkle_branch(hashes: &Vec<[u8; 32]>, index: usize) -> (r: Vec<[u8; 32]>)
    requires
        hashes@.len() >= 1,
        index < hashes@.len(),
    ensures
        fold_branch(hashes@[index as int]@, level_view(r@), index as int) == merkle_root_of(
            level_view(hashes@),
        ),
        r@.len() == tree_depth(hashes@.len() as int),
{
    let ghost leaf = hashes@[index as int]@;
    let ghost orig_root = merkle_root_of(level_view(hashes@));
    let mut cur: Vec<[u8; 32]> = Vec::new();
    let mut i: usize = 0;
    while i < hashes.len()
        invariant
            i <= hashes@.len(),
            cur@ == hashes@.subrange(0, i as int),
        decreases hashes@.len() - i,
    {
        cur.push(hashes[i]);
        proof {
            assert(cur@ =~= hashes@.subrange(0, i + 1 as int));
        }
        i += 1;
    }
    proof {
        assert(cur@ =~= hashes@);
        lemma2_to64();
        assert(pow2(0) == 1);
    }
    let mut pos: usize = index;
    let mut branch: Vec<[u8; 32]> = Vec::new();
    while cur.len() > 1
        invariant
            1 <= cur@.len(),
            pos < cur@.len(),
            leaf == hashes@[index as int]@,
            orig_root == merkle_root_of(level_view(hashes@)),
            pos as int == index as int / pow2(branch@.len() as nat) as int,
            branch@.len() + tree_depth(cur@.len() as int) == tree_depth(hashes@.len() as int),
            merkle_root_of(level_view(cur@)) == orig_root,
            fold_branch(leaf, level_view(branch@), index as int) == level_view(cur@)[pos as int],
        decreases cur@.len(),
    {
        let ghost lv_before = level_view(cur@);
        let ghost pre_len = cur@.len() as int;
        if cur.len() % 2 != 0 {
            let last = cur[cur.len() - 1];
            cur.push(last);
            proof {
                let lv = level_view(cur@);
                assert(lv =~= pad_level(lv_before));
                assert(pad_level(lv) =~= lv);
                assert(next_level(lv) =~= next_level(lv_before));
                assert(merkle_root_of(lv) == merkle_root_of(lv_before));
            }
        }
        proof {
            assert(pad_level(level_view(cur@)) =~= level_view(cur@));
            assert(cur@.len() / 2 == (pre_len + 1) / 2);
            assert(tree_depth(pre_len) == 1 + tree_depth((pre_len + 1) / 2));
        }
        let sibling = if pos % 2 == 0 {
            pos + 1
        } else {
            pos - 1
        };
        proof {
            assert(sibling < cur@.len());
        }
        let sib = cur[sibling];
        let ghost branch_before = branch@;
        branch.push(sib);
        let mut next: Vec<[u8; 32]> = Vec::new();
        let mut j: usize = 0;
        proof {
            assert(cur@.len() % 2 == 0);
        }
        while j < cur.len() / 2
            invariant
                cur@.len() % 2 == 0,
                j <= cur@.len() / 2,
                next@.len() == j,
                forall|jj: int|
                    0 <= jj < j ==> (#[trigger] next@[jj])@ == combine(
                        level_view(cur@)[2 * jj],
                        level_view(cur@)[2 * jj + 1],
                    ),
            decreases cur@.len() / 2 - j,
        {
            let cat = concat32(&cur[2 * j], &cur[2 * j + 1]);
            let h = sha256d(&cat);
            next.push(h);
            j += 1;
        }
        proof {
            let lv = level_view(cur@);
            let lvn = level_view(next@);
            assert(lvn =~= next_level(lv));
            assert(merkle_root_of(lv) == merkle_root_of(next_level(lv)));
            // The freshly recorded sibling extends the fold by one combiner
            // application at the current position.
            lemma_fold_branch_push(leaf, level_view(branch_before), sib@, index as int);
            assert(level_view(branch@) =~= level_view(branch_before).push(sib@));
            assert(index as int / pow2(branch_before.len() as nat) as int == pos as int);
            if pos % 2 == 0 {
                assert(2 * ((pos as int) / 2) == pos as int);
                assert(lvn[pos as int / 2] == combine(lv[pos as int], sib@));
            } else {
                assert(2 * ((pos as int) / 2) == pos as int - 1);
                assert(lvn[pos as int / 2] == combine(sib@, lv[pos as int]));
            }
            assert(fold_branch(leaf, level_view(branch@), index as int) == lvn[pos as int / 2]);
            // The position at the next level is the index shifted one more bit.
            lemma_pow2_pos(branch_before.len() as nat);
            lemma_div_denominator(index as int, pow2(branch_before.len() as nat) as int, 2);
            lemma_pow2_unfold(branch@.len() as nat);
            assert(pos as int / 2 == index as int / pow2(branch@.len() as nat) as int);
            assert(pos as int / 2 < lvn.len());
        }
        cur = next;
        pos = pos / 2;
    }
    proof {
        assert(cur@.len() == 1);
        assert(pos == 0);
        assert(merkle_root_of(level_view(cur@)) == level_view(cur@)[0]);
    }
    branch
}

/// Computes the Merkle root of a non-empty list of 32-byte nodes.
pub fn merkle_root(hashes: &Vec<[u8; 32]>) -> (r: [u8; 32])
    requires
        hashes@.len() >= 1,
    ensures
        r@ == merkle_root_of(level_view(hashes@)),
{
    let ghost orig_root = merkle_root_of(level_view(hashes@));
    let mut cur: Vec<[u8; 32]> = Vec::new();
    let mut i: usize = 0;
    while i < hashes.len()
        invariant
            i <= hashes@.len(),
            cur@ == hashes@.subrange(0, i as int),
        decreases hashes@.len() - i,
    {
        cur.push(hashes[i]);
        proof {
            assert(cur@ =~= hashes@.subrange(0, i + 1 as int));
        }
        i += 1;
    }
    proof {
        assert(cur@ =~= hashes@);
    }
    while cur.len() > 1
        invariant
            1 <= cur@.len(),
            orig_root == merkle_root_of(level_view(hashes@)),
            merkle_root_of(level_view(cur@)) == orig_root,
        decreases cur@.len(),
    {
        let ghost lv_before = level_view(cur@);
        if cur.len() % 2 != 0 {
            let last = cur[cur.len() - 1];
            cur.push(last);
            proof {
                let lv = level_view(cur@);
                assert(lv =~= pad_level(lv_before));
                assert(pad_level(lv) =~= lv);
                assert(next_level(lv) =~= next_level(lv_before));
                assert(merkle_root_of(lv) == merkle_root_of(lv_before));
            }
        }
        proof {
            assert(pad_level(level_view(cur@)) =~= level_view(cur@));
        }
        let mut next: Vec<[u8; 32]> = Vec::new();
        let mut j: usize = 0;
        while j < cur.len() / 2
            invariant
                cur@.len() % 2 == 0,
                j <= cur@.len() / 2,
                next@.len() == j,
                forall|jj: int|
                    0 <= jj < j ==> (#[trigger] next@[jj])@ == combine(
                        level_view(cur@)[2 * jj],
                        level_view(cur@)[2 * jj + 1],
                    ),
            decreases cur@.len() / 2 - j,
        {
            let cat = concat32(&cur[2 * j], &cur[2 * j + 1]);
            let h = sha256d(&cat);
            next.push(h);
            j += 1;
        }
        proof {
            let lv = level_view(cur@);
            let lvn = level_view(next@);
            assert(lvn =~= next_level(lv));
            assert(merkle_root_of(lv) == merkle_root_of(next_level(lv)));
        }
        cur = next;
    }
    proof {
        assert(merkle_root_of(level_view(cur@)) == level_view(cur@)[0]);
    }
    cur[0]
}

/// Folds an authentication path from a leaf, reproducing the root it
/// authenticates.
pub fn fold_merkle_branch(leaf: &[u8; 32], branch: &Vec<[u8; 32]>, pos: usize) -> (r: [u8; 32])
    ensures
        r@ == fold_branch(leaf@, level_view(branch@), pos as int),
{
    let mut acc: [u8; 32] = *leaf;
    let mut p: usize = pos;
    let mut i: usize = 0;
    proof {
        assert(level_view(branch@).skip(0) =~= level_view(branch@));
    }
    while i < branch.len()
        invariant
            i <= branch@.len(),
            fold_branch(leaf@, level_view(branch@), pos as int) == fold_branch(
                acc@,
                level_view(branch@).skip(i as int),
                p as int,
            ),
        decreases branch@.len() - i,
    {
        let ghost rest = level_view(branch@).skip(i as int);
        let cat = if p % 2 == 0 {
            concat32(&acc, &branch[i])
        } else {
            concat32(&branch[i], &acc)
        };
        acc = sha256d(&cat);
        proof {
            assert(rest[0] == level_view(branch@)[i as int]);
            assert(rest.drop_first() =~= level_view(branch@).skip(i + 1));
        }
        p = p / 2;
        i += 1;
    }
    proof {
        assert(level_view(branch@).skip(branch@.len() as int) =~= Seq::<Seq<u8>>::empty());
    }
    acc
}

} // verus!
