//! Block segmentation.
//!
//! The segmenter visits the sampled coordinates in a fixed column-major
//! order and grows a block list: a coordinate adjacent to no same-type block
//! starts a new block, one adjacent to a single same-type block joins it,
//! and one adjacent to several same-type blocks is an articulation point
//! that merges them all into one surviving entry. After every processed
//! coordinate the block list partitions the processed region into connected,
//! uniformly-typed regions, and no two same-type blocks touch.

use vstd::prelude::*;

verus! {

use crate::blocks::Block;
use crate::blocks::Blocks;
use crate::blocks::Coord;
use crate::blocks::DecodeError;
use crate::blocks::Type;
use crate::blocks::classify_at;
use crate::blocks::grid_member;
use crate::blocks::to_blocktype;
use crate::conn::adjacent;
use crate::conn::connected;
use crate::conn::lemma_concat_contains;
use crate::conn::lemma_connected_singleton;
use crate::conn::lemma_connected_union;

/// The invariant the segmenter maintains over the region of coordinates it
/// has processed so far: every listed block is nonempty, duplicate free,
/// connected, inside the region and uniformly typed (`fine`); the blocks
/// cover the region; no coordinate is in two blocks; and no two same-type
/// blocks touch.
pub open spec fn seg_inv(
    bs: Seq<Block>,
    pixels: Seq<(u8, u8, u8)>,
    w: int,
    cs: int,
    region: Set<Coord>,
) -> bool {
    &&& forall|i: int| 0 <= i < bs.len() ==> block_fine(#[trigger] bs[i], pixels, w, cs, region)
    &&& forall|pc: Coord| #[trigger] region.contains(pc)
            ==> exists|i: int| 0 <= i < bs.len() && #[trigger] bs[i].has(pc)
    &&& seq_disjoint(bs)
    &&& seq_joined(bs, cs)
}

/// One block's own part of the segmentation invariant.
pub open spec fn block_fine(
    b: Block,
    pixels: Seq<(u8, u8, u8)>,
    w: int,
    cs: int,
    region: Set<Coord>,
) -> bool {
    &&& b.coords@.len() >= 1
    &&& b.coords@.no_duplicates()
    &&& connected(b.coords@, cs)
    &&& forall|pc: Coord| #[trigger] b.has(pc)
            ==> region.contains(pc) && classify_at(pixels, w, pc) == Some(b.t)
}

/// No coordinate lies in two of the listed blocks.
pub open spec fn seq_disjoint(bs: Seq<Block>) -> bool {
    forall|i: int, j: int, pc: Coord|
        0 <= i < bs.len() && 0 <= j < bs.len()
            && #[trigger] bs[i].has(pc) && #[trigger] bs[j].has(pc)
        ==> i == j
}

/// Same-type 4-adjacent coordinates always lie in the same listed block.
pub open spec fn seq_joined(bs: Seq<Block>, cs: int) -> bool {
    forall|i: int, j: int, c1: Coord, c2: Coord|
        0 <= i < bs.len() && 0 <= j < bs.len()
            && #[trigger] bs[i].has(c1) && #[trigger] bs[j].has(c2)
            && bs[i].t == bs[j].t && adjacent(c1, c2, cs)
        ==> i == j
}

/// The sampled coordinates the column-major scan has already visited when
/// it stands at column `x`, row `y`: all sampled coordinates of earlier
/// columns, and the earlier rows of the current column.
pub open spec fn processed(w: int, h: int, cs: int, x: int, y: int, c: Coord) -> bool {
    grid_member(w, h, cs, c) && ((c.0 as int) < x || (c.0 as int == x && (c.1 as int) < y))
}

/// The visited coordinates as a set.
pub open spec fn processed_set(w: int, h: int, cs: int, x: int, y: int) -> Set<Coord> {
    Set::new(|c: Coord| processed(w, h, cs, x, y, c))
}

/// Between two multiples of `cs` lies at least one full step.
proof fn lemma_multiple_gap(a: int, b: int, cs: int)
    requires
        1 <= cs,
        a % cs == 0,
        b % cs == 0,
        b < a,
    ensures
        b + cs <= a,
{
    vstd::arithmetic::div_mod::lemma_fundamental_div_mod(a, cs);
    vstd::arithmetic::div_mod::lemma_fundamental_div_mod(b, cs);
    let qa = a / cs;
    let qb = b / cs;
    assert(b + cs <= a) by (nonlinear_arith)
        requires
            1 <= cs,
            a == cs * qa,
            b == cs * qb,
            b < a,
    {}
}

/// Concatenating duplicate-free sequences with no common member stays
/// duplicate free.
proof fn lemma_nodup_concat(u: Seq<Coord>, v: Seq<Coord>)
    requires
        u.no_duplicates(),
        v.no_duplicates(),
        forall|pc: Coord| !(#[trigger] u.contains(pc) && v.contains(pc)),
    ensures
        (u + v).no_duplicates(),
{
    let s = u + v;
    assert forall|i: int, j: int| 0 <= i < s.len() && 0 <= j < s.len() && i != j
        implies s[i] != s[j] by {
        if i < u.len() && j < u.len() {
            assert(s[i] == u[i] && s[j] == u[j]);
        } else if i >= u.len() && j >= u.len() {
            assert(s[i] == v[i - u.len()] && s[j] == v[j - u.len()]);
        } else if i < u.len() && j >= u.len() {
            assert(s[i] == u[i] && s[j] == v[j - u.len()]);
            if s[i] == s[j] {
                assert(u.contains(s[i]));
                assert(v.contains(s[i]));
            }
        } else {
            assert(s[i] == v[i - u.len()] && s[j] == u[j]);
            if s[i] == s[j] {
                assert(u.contains(s[i]));
                assert(v.contains(s[i]));
            }
        }
    }
}

/// Merges one newly sampled coordinate `c` of type `t` into a block list
/// that satisfies the segmentation invariant over a region not containing
/// `c`. Every same-type block 4-adjacent to `c` is absorbed into one block
/// together with `c`; all other blocks survive unchanged. The result
/// satisfies the invariant over the region extended by `c`.
fn merge_coord(
    blocks: Vec<Block>,
    c: Coord,
    t: Type,
    codel_size: i32,
    Ghost(pixels): Ghost<Seq<(u8, u8, u8)>>,
    Ghost(w): Ghost<int>,
    Ghost(region): Ghost<Set<Coord>>,
) -> (r: Vec<Block>)
    requires
        1 <= codel_size,
        seg_inv(blocks@, pixels, w, codel_size as int, region),
        !region.contains(c),
        classify_at(pixels, w, c) == Some(t),
    ensures
        seg_inv(r@, pixels, w, codel_size as int, region.insert(c)),
{
    let ghost b0 = blocks@;
    let ghost cs = codel_size as int;
    let mut blocks = blocks;
    let mut merged: Vec<Coord> = Vec::new();
    merged.push(c);
    let mut rest: Vec<Block> = Vec::new();
    proof {
        assert(merged@ =~= seq![c]);
        assert(merged@[0] == c);
        assert(merged@.contains(c));
        lemma_connected_singleton(c, cs);
        assert(blocks@ =~= b0.subrange(0, blocks@.len() as int));
    }
    while blocks.len() > 0
        invariant
            1 <= codel_size,
            cs == codel_size as int,
            seg_inv(b0, pixels, w, cs, region),
            !region.contains(c),
            classify_at(pixels, w, c) == Some(t),
            blocks@.len() <= b0.len(),
            blocks@ == b0.subrange(0, blocks@.len() as int),
            // the merged coordinate list
            merged@.contains(c),
            merged@.no_duplicates(),
            connected(merged@, cs),
            forall|pc: Coord| #[trigger] merged@.contains(pc)
                ==> classify_at(pixels, w, pc) == Some(t),
            forall|pc: Coord| #[trigger] merged@.contains(pc) && pc != c
                ==> exists|m: int|
                    blocks@.len() <= m < b0.len() && #[trigger] b0[m].has(pc),
            // the surviving blocks
            forall|k: int| 0 <= k < rest@.len()
                ==> block_fine(#[trigger] rest@[k], pixels, w, cs, region),
            forall|k: int| 0 <= k < rest@.len()
                ==> exists|m: int| blocks@.len() <= m < b0.len() && #[trigger] rest@[k] == b0[m],
            seq_disjoint(rest@),
            forall|k: int, pc: Coord| 0 <= k < rest@.len() && #[trigger] rest@[k].has(pc)
                ==> !merged@.contains(pc),
            forall|k: int, y: Coord|
                0 <= k < rest@.len() && rest@[k].t == t && #[trigger] rest@[k].has(y)
                ==> !adjacent(y, c, cs),
            // coverage of the region across the three collections
            forall|pc: Coord| #[trigger] region.contains(pc)
                ==> merged@.contains(pc)
                    || (exists|k: int| 0 <= k < rest@.len() && #[trigger] rest@[k].has(pc))
                    || (exists|m: int| 0 <= m < blocks@.len() && #[trigger] b0[m].has(pc)),
            // every consumed entry either survives in `rest` or was absorbed
            forall|m: int| blocks@.len() <= m < b0.len()
                ==> (exists|k: int| 0 <= k < rest@.len() && rest@[k] == #[trigger] b0[m])
                    || (forall|pc: Coord| b0[m].has(pc) ==> merged@.contains(pc)),
        decreases blocks@.len(),
    {
        let ghost pre_merged = merged@;
        let ghost pre_rest = rest@;
        let ghost lpre = blocks@.len() as int;
        let b = blocks.pop().unwrap();
        let ghost m_idx = blocks@.len() as int;
        proof {
            assert(b == b0.subrange(0, lpre)[lpre - 1]);
            assert(b == b0[m_idx]);
            assert(blocks@ =~= b0.subrange(0, m_idx));
            assert(block_fine(b, pixels, w, cs, region));
            // the popped block cannot hold `c`, which is outside the region
            assert forall|pc: Coord| #[trigger] b.has(pc) implies pc != c by {
                assert(region.contains(pc));
            }
            // the popped block shares nothing with `merged`
            assert forall|pc: Coord| #[trigger] b.has(pc) implies !pre_merged.contains(pc) by {
                if pre_merged.contains(pc) && pc != c {
                    let m2 = choose|m2: int|
                        lpre <= m2 < b0.len() && #[trigger] b0[m2].has(pc);
                    assert(b0[m2].has(pc) && b0[m_idx].has(pc));
                }
            }
            // nor with any survivor in `rest`
            assert forall|k: int, pc: Coord|
                0 <= k < pre_rest.len() && #[trigger] pre_rest[k].has(pc)
                implies !b.has(pc) by {
                let m2 = choose|m2: int|
                    lpre <= m2 < b0.len() && #[trigger] pre_rest[k] == b0[m2];
                if b.has(pc) {
                    assert(b0[m2].has(pc) && b0[m_idx].has(pc));
                }
            }
        }
        if b.t == t && b.is_next_to(c, codel_size) {
            let ghost bg = b;
            let mut bc = b.coords;
            proof {
                let yv = choose|yv: Coord| bg.has(yv) && adjacent(yv, c, cs);
                assert(adjacent(c, yv, cs));
                lemma_connected_union(pre_merged, bc@, cs, c, yv);
                assert forall|pc: Coord| !(#[trigger] pre_merged.contains(pc) && bc@.contains(pc)) by {
                    if bc@.contains(pc) {
                        assert(bg.has(pc));
                    }
                }
                lemma_nodup_concat(pre_merged, bc@);
            }
            merged.append(&mut bc);
            proof {
                assert(merged@ == pre_merged + bg.coords@);
                lemma_concat_contains(pre_merged, bg.coords@, c);
                assert(merged@.contains(c));
                assert forall|pc: Coord| #[trigger] merged@.contains(pc)
                    implies classify_at(pixels, w, pc) == Some(t) by {
                    lemma_concat_contains(pre_merged, bg.coords@, pc);
                    if bg.coords@.contains(pc) {
                        assert(bg.has(pc));
                    }
                }
                assert forall|pc: Coord| #[trigger] merged@.contains(pc) && pc != c
                    implies exists|m: int|
                        blocks@.len() <= m < b0.len() && #[trigger] b0[m].has(pc) by {
                    lemma_concat_contains(pre_merged, bg.coords@, pc);
                    if pre_merged.contains(pc) {
                        let m2 = choose|m2: int|
                            lpre <= m2 < b0.len() && #[trigger] b0[m2].has(pc);
                        assert(m_idx <= m2 < b0.len() && b0[m2].has(pc));
                    } else {
                        assert(bg.has(pc));
                        assert(b0[m_idx].has(pc));
                    }
                }
                assert forall|k: int, pc: Coord|
                    0 <= k < rest@.len() && #[trigger] rest@[k].has(pc)
                    implies !merged@.contains(pc) by {
                    lemma_concat_contains(pre_merged, bg.coords@, pc);
                }
                assert forall|pc: Coord| #[trigger] region.contains(pc)
                    implies merged@.contains(pc)
                        || (exists|k: int| 0 <= k < rest@.len() && #[trigger] rest@[k].has(pc))
                        || (exists|m: int| 0 <= m < blocks@.len() && #[trigger] b0[m].has(pc)) by {
                    lemma_concat_contains(pre_merged, bg.coords@, pc);
                    if exists|m: int| 0 <= m < lpre && #[trigger] b0[m].has(pc) {
                        let m2 = choose|m2: int| 0 <= m2 < lpre && #[trigger] b0[m2].has(pc);
                        if m2 == m_idx {
                            assert(bg.coords@.contains(pc));
                            assert(merged@.contains(pc));
                        } else {
                            assert(0 <= m2 < blocks@.len() && b0[m2].has(pc));
                        }
                    }
                }
                assert forall|m: int| blocks@.len() <= m < b0.len()
                    implies (exists|k: int| 0 <= k < rest@.len() && rest@[k] == #[trigger] b0[m])
                        || (forall|pc: Coord| b0[m].has(pc) ==> merged@.contains(pc)) by {
                    if m == m_idx {
                        assert forall|pc: Coord| b0[m].has(pc)
                            implies merged@.contains(pc) by {
                            lemma_concat_contains(pre_merged, bg.coords@, pc);
                        }
                    } else {
                        assert(lpre <= m < b0.len());
                        if !(exists|k: int| 0 <= k < rest@.len() && rest@[k] == #[trigger] b0[m]) {
                            assert forall|pc: Coord| b0[m].has(pc)
                                implies merged@.contains(pc) by {
                                assert(pre_merged.contains(pc));
                                lemma_concat_contains(pre_merged, bg.coords@, pc);
                            }
                        }
                    }
                }
            }
        } else {
            proof {
                // a same-type survivor is not adjacent to `c`
                if b.t == t {
                    assert forall|y: Coord| b.has(y) implies !adjacent(y, c, cs) by {}
                }
            }
            rest.push(b);
            proof {
                assert(rest@ == pre_rest.push(b));
                assert forall|k: int| 0 <= k < rest@.len()
                    implies exists|m: int|
                        blocks@.len() <= m < b0.len() && #[trigger] rest@[k] == b0[m] by {
                    if k < pre_rest.len() {
                        assert(rest@[k] == pre_rest[k]);
                        let m2 = choose|m2: int|
                            lpre <= m2 < b0.len() && #[trigger] pre_rest[k] == b0[m2];
                        assert(m_idx <= m2 < b0.len() && rest@[k] == b0[m2]);
                    } else {
                        assert(rest@[k] == b0[m_idx]);
                    }
                }
                assert forall|i: int, j: int, pc: Coord|
                    0 <= i < rest@.len() && 0 <= j < rest@.len()
                        && #[trigger] rest@[i].has(pc) && #[trigger] rest@[j].has(pc)
                    implies i == j by {
                    if i < pre_rest.len() && j < pre_rest.len() {
                        assert(pre_rest[i].has(pc) && pre_rest[j].has(pc));
                    } else if i < pre_rest.len() && j == pre_rest.len() {
                        assert(pre_rest[i].has(pc) && b.has(pc));
                    } else if i == pre_rest.len() && j < pre_rest.len() {
                        assert(pre_rest[j].has(pc) && b.has(pc));
                    }
                }
                assert forall|m: int| blocks@.len() <= m < b0.len()
                    implies (exists|k: int| 0 <= k < rest@.len() && rest@[k] == #[trigger] b0[m])
                        || (forall|pc: Coord| b0[m].has(pc) ==> merged@.contains(pc)) by {
                    if m == m_idx {
                        assert(rest@[pre_rest.len() as int] == b0[m_idx]);
                    } else {
                        assert(lpre <= m < b0.len());
                        if exists|k: int| 0 <= k < pre_rest.len() && pre_rest[k] == #[trigger] b0[m] {
                            let k2 = choose|k2: int|
                                0 <= k2 < pre_rest.len() && pre_rest[k2] == #[trigger] b0[m];
                            assert(rest@[k2] == b0[m]);
                        }
                    }
                }
            }
        }
    }
    let merged_block = Block { t, coords: merged };
    let ghost pre_rest = rest@;
    rest.push(merged_block);
    proof {
        let res = rest@;
        let mi = pre_rest.len() as int;
        let region2 = region.insert(c);
        assert(res[mi] == merged_block);
        assert(merged_block.has(c));
        // every entry is fine over the extended region
        assert forall|i: int| 0 <= i < res.len()
            implies block_fine(#[trigger] res[i], pixels, w, cs, region2) by {
            if i < mi {
                assert(res[i] == pre_rest[i]);
                assert(block_fine(pre_rest[i], pixels, w, cs, region));
                assert forall|pc: Coord| #[trigger] res[i].has(pc)
                    implies region2.contains(pc)
                        && classify_at(pixels, w, pc) == Some(res[i].t) by {
                    assert(region.contains(pc));
                }
            } else {
                assert(res[i] == merged_block);
                assert forall|pc: Coord| #[trigger] merged_block.has(pc)
                    implies region2.contains(pc)
                        && classify_at(pixels, w, pc) == Some(merged_block.t) by {
                    assert(merged_block.coords@.contains(pc));
                    if pc != c {
                        let m2 = choose|m2: int| 0 <= m2 < b0.len() && #[trigger] b0[m2].has(pc);
                        assert(block_fine(b0[m2], pixels, w, cs, region));
                        assert(region.contains(pc));
                    }
                }
            }
        }
        // the extended region is covered
        assert forall|pc: Coord| #[trigger] region2.contains(pc)
            implies exists|i: int| 0 <= i < res.len() && #[trigger] res[i].has(pc) by {
            if pc == c {
                assert(res[mi].has(pc));
            } else {
                assert(region.contains(pc));
                if merged_block.coords@.contains(pc) {
                    assert(res[mi].has(pc));
                } else {
                    let k = choose|k: int| 0 <= k < pre_rest.len() && #[trigger] pre_rest[k].has(pc);
                    assert(res[k].has(pc));
                }
            }
        }
        // disjointness
        assert forall|i: int, j: int, pc: Coord|
            0 <= i < res.len() && 0 <= j < res.len()
                && #[trigger] res[i].has(pc) && #[trigger] res[j].has(pc)
            implies i == j by {
            if i < mi && j < mi {
                assert(pre_rest[i].has(pc) && pre_rest[j].has(pc));
            } else if i < mi && j == mi {
                assert(pre_rest[i].has(pc) && merged_block.coords@.contains(pc));
            } else if i == mi && j < mi {
                assert(pre_rest[j].has(pc) && merged_block.coords@.contains(pc));
            }
        }
        // no two same-type entries touch
        assert forall|i: int, j: int, c1: Coord, c2: Coord|
            0 <= i < res.len() && 0 <= j < res.len()
                && #[trigger] res[i].has(c1) && #[trigger] res[j].has(c2)
                && res[i].t == res[j].t && adjacent(c1, c2, cs)
            implies i == j by {
            lemma_merge_joined(
                b0, pre_rest, merged_block, pixels, w, cs, region, c, t, i, j, c1, c2,
            );
        }
    }
    rest
}

/// After the merge pass, two touching same-type coordinates always sit in
/// the same entry of the final list `pre_rest + [mb]`: survivors inherit
/// this from the invariant over the old list, and anything touching the
/// merged block's type at `c` was absorbed into it.
#[verifier::spinoff_prover]
proof fn lemma_merge_joined(
    b0: Seq<Block>,
    pre_rest: Seq<Block>,
    mb: Block,
    pixels: Seq<(u8, u8, u8)>,
    w: int,
    cs: int,
    region: Set<Coord>,
    c: Coord,
    t: Type,
    i: int,
    j: int,
    c1: Coord,
    c2: Coord,
)
    requires
        seg_inv(b0, pixels, w, cs, region),
        !region.contains(c),
        classify_at(pixels, w, c) == Some(t),
        mb.t == t,
        mb.has(c),
        // facts carried out of the merge loop, for the empty-pending state
        forall|pc: Coord| #[trigger] mb.has(pc)
            ==> classify_at(pixels, w, pc) == Some(t),
        forall|pc: Coord| #[trigger] mb.has(pc) && pc != c
            ==> exists|m: int| 0 <= m < b0.len() && #[trigger] b0[m].has(pc),
        forall|k: int| 0 <= k < pre_rest.len()
            ==> block_fine(#[trigger] pre_rest[k], pixels, w, cs, region),
        forall|k: int| 0 <= k < pre_rest.len()
            ==> exists|m: int| 0 <= m < b0.len() && #[trigger] pre_rest[k] == b0[m],
        seq_disjoint(pre_rest),
        forall|k: int, pc: Coord| 0 <= k < pre_rest.len() && #[trigger] pre_rest[k].has(pc)
            ==> !mb.has(pc),
        forall|k: int, y: Coord|
            0 <= k < pre_rest.len() && pre_rest[k].t == t && #[trigger] pre_rest[k].has(y)
            ==> !adjacent(y, c, cs),
        forall|m: int| 0 <= m < b0.len()
            ==> (exists|k: int| 0 <= k < pre_rest.len() && pre_rest[k] == #[trigger] b0[m])
                || (forall|pc: Coord| b0[m].has(pc) ==> mb.has(pc)),
        0 <= i < pre_rest.len() + 1,
        0 <= j < pre_rest.len() + 1,
        (pre_rest + seq![mb])[i].has(c1),
        (pre_rest + seq![mb])[j].has(c2),
        (pre_rest + seq![mb])[i].t == (pre_rest + seq![mb])[j].t,
        adjacent(c1, c2, cs),
    ensures
        i == j,
{
    let res = pre_rest + seq![mb];
    let mi = pre_rest.len() as int;
    if i < mi && j < mi {
        // two survivors: trace both back to the old list
        assert(res[i] == pre_rest[i] && res[j] == pre_rest[j]);
        let m1 = choose|m: int| 0 <= m < b0.len() && pre_rest[i] == #[trigger] b0[m];
        let m2 = choose|m: int| 0 <= m < b0.len() && pre_rest[j] == #[trigger] b0[m];
        assert(b0[m1].has(c1) && b0[m2].has(c2));
        assert(b0[m1].t == b0[m2].t);
        assert(m1 == m2);
        assert(pre_rest[i].has(c2));
        assert(pre_rest[i].has(c2) && pre_rest[j].has(c2));
    } else if i < mi && j == mi {
        assert(res[i] == pre_rest[i] && res[j] == mb);
        assert(pre_rest[i].t == t);
        lemma_survivor_untouched(b0, pre_rest, mb, pixels, w, cs, region, c, t, i, c1, c2);
        assert(false);
    } else if i == mi && j < mi {
        assert(res[j] == pre_rest[j] && res[i] == mb);
        assert(pre_rest[j].t == t);
        assert(adjacent(c2, c1, cs));
        lemma_survivor_untouched(b0, pre_rest, mb, pixels, w, cs, region, c, t, j, c2, c1);
        assert(false);
    }
}

/// A survivor of the merged block's type cannot touch the merged block:
/// anything of that type it touched would have been absorbed.
proof fn lemma_survivor_untouched(
    b0: Seq<Block>,
    pre_rest: Seq<Block>,
    mb: Block,
    pixels: Seq<(u8, u8, u8)>,
    w: int,
    cs: int,
    region: Set<Coord>,
    c: Coord,
    t: Type,
    i: int,
    c1: Coord,
    c2: Coord,
)
    requires
        seg_inv(b0, pixels, w, cs, region),
        !region.contains(c),
        classify_at(pixels, w, c) == Some(t),
        mb.t == t,
        mb.has(c),
        forall|pc: Coord| #[trigger] mb.has(pc)
            ==> classify_at(pixels, w, pc) == Some(t),
        forall|pc: Coord| #[trigger] mb.has(pc) && pc != c
            ==> exists|m: int| 0 <= m < b0.len() && #[trigger] b0[m].has(pc),
        forall|k: int| 0 <= k < pre_rest.len()
            ==> block_fine(#[trigger] pre_rest[k], pixels, w, cs, region),
        forall|k: int| 0 <= k < pre_rest.len()
            ==> exists|m: int| 0 <= m < b0.len() && #[trigger] pre_rest[k] == b0[m],
        forall|k: int, pc: Coord| 0 <= k < pre_rest.len() && #[trigger] pre_rest[k].has(pc)
            ==> !mb.has(pc),
        forall|k: int, y: Coord|
            0 <= k < pre_rest.len() && pre_rest[k].t == t && #[trigger] pre_rest[k].has(y)
            ==> !adjacent(y, c, cs),
        forall|m: int| 0 <= m < b0.len()
            ==> (exists|k: int| 0 <= k < pre_rest.len() && pre_rest[k] == #[trigger] b0[m])
                || (forall|pc: Coord| b0[m].has(pc) ==> mb.has(pc)),
        0 <= i < pre_rest.len(),
        pre_rest[i].has(c1),
        mb.has(c2),
        pre_rest[i].t == mb.t,
    ensures
        !adjacent(c1, c2, cs),
{
    // the survivor has the merged type, so it cannot touch `c` itself
    assert(pre_rest[i].t == t);
    if !adjacent(c1, c2, cs) {
    } else if c2 == c {
        assert(!adjacent(c1, c, cs));
        assert(false);
    } else {
        // `c2` came out of an absorbed old block of type `t`
        let m2 = choose|m: int| 0 <= m < b0.len() && #[trigger] b0[m].has(c2);
        assert(block_fine(b0[m2], pixels, w, cs, region));
        assert(classify_at(pixels, w, c2) == Some(b0[m2].t));
        assert(classify_at(pixels, w, c2) == Some(t));
        assert(b0[m2].t == t);
        // absorbed, not survived: a survivor holding `c2` would overlap `mb`
        if exists|k: int| 0 <= k < pre_rest.len() && pre_rest[k] == #[trigger] b0[m2] {
            let k2 = choose|k: int| 0 <= k < pre_rest.len() && pre_rest[k] == #[trigger] b0[m2];
            assert(pre_rest[k2].has(c2) && mb.has(c2));
            assert(false);
        }
        assert(forall|pc: Coord| b0[m2].has(pc) ==> mb.has(pc));
        // the survivor also traces back to an old block
        let m1 = choose|m: int| 0 <= m < b0.len() && pre_rest[i] == #[trigger] b0[m];
        assert(b0[m1].has(c1) && b0[m1].t == t);
        // old same-type blocks touching at (c1, c2) must be one block
        assert(m1 == m2);
        // so the survivor's coordinates were absorbed too: overlap
        assert(pre_rest[i].has(c1) && mb.has(c1));
        assert(false);
    }
}

impl Blocks {
    /// Segments a sampled pixel grid into blocks. `pixels` is the full
    /// image, row major, one entry per pixel; the scan samples it at
    /// multiples of `codel_size` on both axes, column by column. Succeeds
    /// exactly when every sample is a palette color, and then returns a
    /// well-formed partition of the sampled grid into connected blocks whose
    /// types match the samples and in which no two same-type blocks touch.
    pub fn from_grid(
        width: i32,
        height: i32,
        codel_size: i32,
        pixels: &Vec<(u8, u8, u8)>,
    ) -> (r: Result<Blocks, DecodeError>)
        requires
            1 <= codel_size,
            0 <= width,
            0 <= height,
            (width as int) * (height as int) <= i32::MAX as int,
            width as int + codel_size as int <= i32::MAX,
            height as int + codel_size as int <= i32::MAX,
            pixels@.len() == (width as int) * (height as int),
        ensures
            match r {
                Ok(bs) => {
                    &&& bs.width == width
                    &&& bs.height == height
                    &&& bs.codel_size == codel_size
                    &&& bs.wf()
                    &&& bs.joined()
                    &&& bs.typed(pixels@)
                    &&& forall|c: Coord| #[trigger] bs.grid_has(c)
                            ==> classify_at(pixels@, width as int, c) is Some
                },
                Err(e) => {
                    &&& e == DecodeError::InvalidColor
                    &&& exists|c: Coord|
                        #[trigger] grid_member(width as int, height as int, codel_size as int, c)
                            && classify_at(pixels@, width as int, c) is None
                },
            },
    {
        let ghost wg = width as int;
        let ghost hg = height as int;
        let ghost cs = codel_size as int;
        let mut blocks: Vec<Block> = Vec::new();
        let mut x: i32 = 0;
        proof {
            assert forall|pc: Coord| !(#[trigger] processed_set(wg, hg, cs, 0, 0).contains(pc)) by {
                assert(!processed(wg, hg, cs, 0, 0, pc));
            }
            assert(seg_inv(blocks@, pixels@, wg, cs, processed_set(wg, hg, cs, 0, 0)));
        }
        while x < width
            invariant
                1 <= codel_size,
                wg == width as int && hg == height as int && cs == codel_size as int,
                0 <= width,
                0 <= height,
                wg * hg <= i32::MAX as int,
                wg + cs <= i32::MAX,
                hg + cs <= i32::MAX,
                pixels@.len() == wg * hg,
                0 <= x,
                x as int % cs == 0,
                seg_inv(blocks@, pixels@, wg, cs, processed_set(wg, hg, cs, x as int, 0)),
            decreases width + codel_size - x,
        {
            let mut y: i32 = 0;
            while y < height
                invariant
                    1 <= codel_size,
                    wg == width as int && hg == height as int && cs == codel_size as int,
                    0 <= width,
                    0 <= height,
                    wg * hg <= i32::MAX as int,
                    wg + cs <= i32::MAX,
                    hg + cs <= i32::MAX,
                    pixels@.len() == wg * hg,
                    0 <= x < width,
                    x as int % cs == 0,
                    0 <= y,
                    y as int % cs == 0,
                    seg_inv(blocks@, pixels@, wg, cs, processed_set(wg, hg, cs, x as int, y as int)),
                decreases height + codel_size - y,
            {
                let c: Coord = (x, y);
                let xi = x as usize;
                let yi = y as usize;
                let wi = width as usize;
                proof {
                    assert(yi * wi + xi < wg * hg && (yi * wi + xi) as int == (y as int) * wg
                        + x as int) by (nonlinear_arith)
                        requires
                            0 <= x as int && (x as int) < wg,
                            0 <= y as int && (y as int) < hg,
                            xi == x as int,
                            yi == y as int,
                            wi == wg,
                    {}
                }
                let p = pixels[yi * wi + xi];
                proof {
                    assert(classify_at(pixels@, wg, c) == crate::blocks::classify(p.0, p.1, p.2));
                }
                let t = match to_blocktype(&[p.0, p.1, p.2]) {
                    Some(t) => t,
                    None => {
                        proof {
                            assert(grid_member(wg, hg, cs, c));
                            assert(classify_at(pixels@, wg, c) is None);
                        }
                        return Err(DecodeError::InvalidColor);
                    },
                };
                proof {
                    assert(grid_member(wg, hg, cs, c));
                    assert(!processed(wg, hg, cs, x as int, y as int, c));
                    assert(!processed_set(wg, hg, cs, x as int, y as int).contains(c));
                }
                blocks = merge_coord(
                    blocks,
                    c,
                    t,
                    codel_size,
                    Ghost(pixels@),
                    Ghost(wg),
                    Ghost(processed_set(wg, hg, cs, x as int, y as int)),
                );
                proof {
                    let r_old = processed_set(wg, hg, cs, x as int, y as int);
                    let r_new = processed_set(wg, hg, cs, x as int, y as int + cs);
                    assert forall|pc: Coord| r_new.contains(pc)
                        implies #[trigger] r_old.insert(c).contains(pc) by {
                        if pc != c {
                            if pc.0 as int == x as int && y as int <= pc.1 as int {
                                lemma_multiple_gap(pc.1 as int, y as int, cs);
                                assert(pc.1 as int >= y as int + cs);
                                assert(false);
                            }
                            assert(processed(wg, hg, cs, x as int, y as int, pc));
                        }
                    }
                    assert forall|pc: Coord| r_old.insert(c).contains(pc)
                        implies #[trigger] r_new.contains(pc) by {
                        if pc == c {
                            assert(processed(wg, hg, cs, x as int, y as int + cs, c));
                        } else {
                            assert(processed(wg, hg, cs, x as int, y as int, pc));
                        }
                    }
                    assert(r_old.insert(c) =~= r_new);
                }
                proof {
                    vstd::arithmetic::div_mod::lemma_mod_multiples_vanish(
                        1, y as int, cs);
                    assert(cs * 1 + y as int == y as int + cs);
                    assert((y as int + cs) % cs == 0);
                }
                y += codel_size;
            }
            proof {
                let r_old = processed_set(wg, hg, cs, x as int, y as int);
                let r_new = processed_set(wg, hg, cs, x as int + cs, 0);
                assert forall|pc: Coord| r_new.contains(pc)
                    implies #[trigger] r_old.contains(pc) by {
                    assert(grid_member(wg, hg, cs, pc));
                    if pc.0 as int == x as int {
                        assert((pc.1 as int) < hg && hg <= y as int);
                    } else if (x as int) < pc.0 as int {
                        lemma_multiple_gap(pc.0 as int, x as int, cs);
                        assert(false);
                    }
                }
                assert forall|pc: Coord| r_old.contains(pc)
                    implies #[trigger] r_new.contains(pc) by {
                    assert(grid_member(wg, hg, cs, pc));
                }
                assert(r_old =~= r_new);
            }
            proof {
                vstd::arithmetic::div_mod::lemma_mod_multiples_vanish(
                    1, x as int, cs);
                assert(cs * 1 + x as int == x as int + cs);
                assert((x as int + cs) % cs == 0);
            }
            x += codel_size;
        }
        let bs = Blocks { blocks, width, height, codel_size };
        proof {
            let rg = processed_set(wg, hg, cs, x as int, 0);
            assert forall|c2: Coord| #[trigger] bs.grid_has(c2) implies rg.contains(c2) by {
                assert(grid_member(wg, hg, cs, c2));
                assert((c2.0 as int) < wg && wg <= x as int);
            }
            assert forall|c2: Coord| #[trigger] rg.contains(c2) implies bs.grid_has(c2) by {
                assert(processed(wg, hg, cs, x as int, 0, c2));
            }
            assert forall|i: int| 0 <= i < bs.blocks@.len() implies #[trigger] bs.block_ok(i) by {
                assert(block_fine(bs.blocks@[i], pixels@, wg, cs, rg));
                assert forall|c2: Coord| #[trigger] bs.blocks@[i].has(c2)
                    implies bs.grid_has(c2) by {
                    assert(rg.contains(c2));
                }
            }
            assert forall|c2: Coord| #[trigger] bs.grid_has(c2)
                implies exists|i: int|
                    0 <= i < bs.blocks@.len() && #[trigger] bs.blocks@[i].has(c2) by {
                assert(rg.contains(c2));
            }
            assert forall|i: int, j: int, c2: Coord|
                0 <= i < bs.blocks@.len() && 0 <= j < bs.blocks@.len()
                    && #[trigger] bs.blocks@[i].coords@.contains(c2)
                    && #[trigger] bs.blocks@[j].coords@.contains(c2)
                implies i == j by {
                assert(bs.blocks@[i].has(c2) && bs.blocks@[j].has(c2));
            }
            assert(bs.wf());
            assert forall|c2: Coord| #[trigger] bs.grid_has(c2)
                implies classify_at(pixels@, wg, c2) is Some by {
                assert(rg.contains(c2));
                let i = choose|i: int|
                    0 <= i < bs.blocks@.len() && #[trigger] bs.blocks@[i].has(c2);
                assert(block_fine(bs.blocks@[i], pixels@, wg, cs, rg));
                assert(classify_at(pixels@, wg, c2) == Some(bs.blocks@[i].t));
            }
        }
        Ok(bs)
    }
}

} // verus!
