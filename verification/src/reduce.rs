//! The block reducer: a majority vote among the opaque pixels of one block.
//!
//! A pixel votes when its alpha is above zero and the palette holds its exact
//! colour; it then votes for that colour's index. The block goes to the index
//! with the most votes. Where several indices share the most votes, the lowest
//! of them wins. A block without any vote goes to [`TRANSPARENT_PIXEL`].

use crate::palette::Palette;
use vstd::prelude::*;

verus! {

/// The byte that stands for a block in which no palette colour got a vote.
pub const TRANSPARENT_PIXEL: u8 = 255;

/// The colour channels of a pixel.
pub open spec fn color_of(pixel: [u8; 4]) -> (u8, u8, u8) {
    (pixel[0], pixel[1], pixel[2])
}

/// An opaque pixel: any alpha above zero counts as fully opaque.
pub open spec fn is_opaque(pixel: [u8; 4]) -> bool {
    pixel[3] > 0
}

/// An opaque pixel whose exact colour the table holds.
pub open spec fn is_matched(pixel: [u8; 4], table: Map<(u8, u8, u8), u8>) -> bool {
    is_opaque(pixel) && table.contains_key(color_of(pixel))
}

/// The pixel votes for `index`.
pub open spec fn casts_vote(pixel: [u8; 4], table: Map<(u8, u8, u8), u8>, index: int) -> bool {
    is_matched(pixel, table) && table[color_of(pixel)] == index
}

/// How many pixels of the block vote for `index`.
pub open spec fn votes(block: Seq<[u8; 4]>, table: Map<(u8, u8, u8), u8>, index: int) -> nat
    decreases block.len(),
{
    if block.len() == 0 {
        0
    } else {
        votes(block.drop_last(), table, index) + if casts_vote(block.last(), table, index) {
            1nat
        } else {
            0nat
        }
    }
}

/// `index` has at least one vote, no index has more, and no lower index has as
/// many.
pub open spec fn leads(block: Seq<[u8; 4]>, table: Map<(u8, u8, u8), u8>, index: int) -> bool {
    &&& votes(block, table, index) > 0
    &&& forall|other: int| votes(block, table, other) <= votes(block, table, index)
    &&& forall|lower: int|
        lower < index ==> votes(block, table, lower) < votes(block, table, index)
}

/// The byte that a block reduces to: the leading index, or the sentinel where
/// nothing leads.
pub open spec fn dominant(block: Seq<[u8; 4]>, table: Map<(u8, u8, u8), u8>) -> u8 {
    if exists|index: int| leads(block, table, index) {
        (choose|index: int| leads(block, table, index)) as u8
    } else {
        TRANSPARENT_PIXEL
    }
}

/// Only what a table maps to can have votes: a voted index is a byte.
pub proof fn lemma_voted_index_is_byte(
    block: Seq<[u8; 4]>,
    table: Map<(u8, u8, u8), u8>,
    index: int,
)
    requires
        votes(block, table, index) > 0,
    ensures
        0 <= index < 256,
        exists|i: int| 0 <= i < block.len() && casts_vote(#[trigger] block[i], table, index),
    decreases block.len(),
{
    if block.len() > 0 {
        if casts_vote(block.last(), table, index) {
            assert(casts_vote(block[block.len() - 1], table, index));
        } else {
            lemma_voted_index_is_byte(block.drop_last(), table, index);
            let i = choose|i: int|
                0 <= i < block.drop_last().len() && casts_vote(
                    #[trigger] block.drop_last()[i],
                    table,
                    index,
                );
            assert(casts_vote(block[i], table, index));
        }
    }
}

/// An index has no vote exactly when no pixel of the block votes for it.
pub proof fn lemma_no_votes(block: Seq<[u8; 4]>, table: Map<(u8, u8, u8), u8>, index: int)
    ensures
        votes(block, table, index) == 0 <==> forall|i: int|
            0 <= i < block.len() ==> !casts_vote(#[trigger] block[i], table, index),
    decreases block.len(),
{
    if block.len() > 0 {
        lemma_no_votes(block.drop_last(), table, index);
        if votes(block, table, index) == 0 {
            assert forall|i: int| 0 <= i < block.len() implies !casts_vote(
                #[trigger] block[i],
                table,
                index,
            ) by {
                if i < block.len() - 1 {
                    assert(block.drop_last()[i] == block[i]);
                }
            }
        } else {
            lemma_voted_index_is_byte(block, table, index);
        }
    }
}

/// No index has more votes than the block has pixels.
pub proof fn lemma_votes_bounded(block: Seq<[u8; 4]>, table: Map<(u8, u8, u8), u8>, index: int)
    ensures
        votes(block, table, index) <= block.len(),
    decreases block.len(),
{
    if block.len() > 0 {
        lemma_votes_bounded(block.drop_last(), table, index);
    }
}

/// At most one index leads, and the block reduces to it.
pub proof fn lemma_leader_is_dominant(
    block: Seq<[u8; 4]>,
    table: Map<(u8, u8, u8), u8>,
    index: int,
)
    requires
        leads(block, table, index),
    ensures
        0 <= index < 256,
        dominant(block, table) == index,
{
    lemma_voted_index_is_byte(block, table, index);
    let chosen = choose|i: int| leads(block, table, i);
    if chosen < index {
        assert(votes(block, table, chosen) < votes(block, table, index));
    } else if index < chosen {
        assert(votes(block, table, index) < votes(block, table, chosen));
    }
}

/// Where no index has a vote, the block reduces to the sentinel.
pub proof fn lemma_voteless_is_transparent(block: Seq<[u8; 4]>, table: Map<(u8, u8, u8), u8>)
    requires
        forall|index: int| votes(block, table, index) == 0,
    ensures
        dominant(block, table) == TRANSPARENT_PIXEL,
{
}

/// Blocks in which every index has the same votes reduce to the same byte.
pub proof fn lemma_same_votes_same_result(
    first: Seq<[u8; 4]>,
    second: Seq<[u8; 4]>,
    table: Map<(u8, u8, u8), u8>,
)
    requires
        forall|index: int| votes(first, table, index) == votes(second, table, index),
    ensures
        dominant(first, table) == dominant(second, table),
{
    if exists|index: int| leads(first, table, index) {
        let leader = choose|index: int| leads(first, table, index);
        assert(leads(second, table, leader));
        lemma_leader_is_dominant(first, table, leader);
        lemma_leader_is_dominant(second, table, leader);
    } else if exists|index: int| leads(second, table, index) {
        let leader = choose|index: int| leads(second, table, index);
        assert(leads(first, table, leader));
    }
}

/// The votes of a block are those of its front part plus those of the rest.
pub proof fn lemma_votes_split(
    front: Seq<[u8; 4]>,
    back: Seq<[u8; 4]>,
    table: Map<(u8, u8, u8), u8>,
    index: int,
)
    ensures
        votes(front + back, table, index) == votes(front, table, index) + votes(
            back,
            table,
            index,
        ),
    decreases back.len(),
{
    if back.len() == 0 {
        assert(front + back == front);
    } else {
        assert((front + back).drop_last() == front + back.drop_last());
        assert((front + back).last() == back.last());
        lemma_votes_split(front, back.drop_last(), table, index);
    }
}

/// A block of transparent pixels reduces to the sentinel, whatever the colours
/// of its pixels and whatever the table holds.
pub proof fn lemma_transparent_block(block: Seq<[u8; 4]>, table: Map<(u8, u8, u8), u8>)
    requires
        forall|i: int| 0 <= i < block.len() ==> (#[trigger] block[i])[3] == 0,
    ensures
        dominant(block, table) == TRANSPARENT_PIXEL,
{
    assert forall|index: int| votes(block, table, index) == 0 by {
        lemma_no_votes(block, table, index);
    }
}

/// A block whose opaque pixels all show one colour of the table reduces to the
/// index of that colour; where it has no opaque pixel at all, it reduces to the
/// sentinel.
pub proof fn lemma_uniform_block(
    block: Seq<[u8; 4]>,
    table: Map<(u8, u8, u8), u8>,
    color: (u8, u8, u8),
)
    requires
        table.contains_key(color),
        forall|i: int|
            0 <= i < block.len() && is_opaque(#[trigger] block[i]) ==> color_of(block[i])
                == color,
    ensures
        dominant(block, table) == if exists|i: int|
            0 <= i < block.len() && is_opaque(#[trigger] block[i]) {
            table[color]
        } else {
            TRANSPARENT_PIXEL
        },
{
    let winner = table[color] as int;
    if exists|i: int| 0 <= i < block.len() && is_opaque(#[trigger] block[i]) {
        let witness = choose|i: int| 0 <= i < block.len() && is_opaque(#[trigger] block[i]);
        assert(casts_vote(block[witness], table, winner));
        lemma_no_votes(block, table, winner);
        assert forall|other: int| other != winner implies votes(block, table, other) == 0 by {
            lemma_no_votes(block, table, other);
        }
        assert(leads(block, table, winner));
        lemma_leader_is_dominant(block, table, winner);
    } else {
        lemma_transparent_block(block, table);
    }
}

/// A block in which the index of one colour of the table has strictly more
/// votes than every other index reduces to that index, whatever else got votes.
pub proof fn lemma_strict_plurality(
    block: Seq<[u8; 4]>,
    table: Map<(u8, u8, u8), u8>,
    color: (u8, u8, u8),
)
    requires
        table.contains_key(color),
        forall|other: int|
            other != table[color] ==> #[trigger] votes(block, table, other) < votes(
                block,
                table,
                table[color] as int,
            ),
    ensures
        dominant(block, table) == table[color],
{
    let winner = table[color] as int;
    assert(votes(block, table, winner + 1) < votes(block, table, winner));
    assert(leads(block, table, winner));
    lemma_leader_is_dominant(block, table, winner);
}

/// A pixel that casts no vote, because it is transparent or because the table
/// does not hold its colour, changes nothing: the block reduces to the same
/// byte with the pixel as without it.
pub proof fn lemma_voteless_pixel_is_ignored(
    block: Seq<[u8; 4]>,
    table: Map<(u8, u8, u8), u8>,
    position: int,
)
    requires
        0 <= position < block.len(),
        !is_matched(block[position], table),
    ensures
        dominant(block.remove(position), table) == dominant(block, table),
{
    let front = block.take(position);
    let single = seq![block[position]];
    let back = block.skip(position + 1);
    assert(block == front + single + back);
    assert(block.remove(position) == front + back);
    assert forall|index: int|
        votes(block.remove(position), table, index) == votes(block, table, index) by {
        lemma_votes_split(front, back, table, index);
        lemma_votes_split(front + single, back, table, index);
        lemma_votes_split(front, single, table, index);
        lemma_no_votes(single, table, index);
    }
    lemma_same_votes_same_result(block.remove(position), block, table);
}

/// Reduces one block to the index of its dominant palette colour.
///
/// `block` holds the `block_width * block_height` pixels of the block, each as
/// red, green, blue, alpha. Among indices with equally many votes the lowest
/// wins; without any vote the result is [`TRANSPARENT_PIXEL`].
pub fn reduce_block(
    block: &Vec<[u8; 4]>,
    block_width: usize,
    block_height: usize,
    palette: &Palette,
) -> (index: u8)
    requires
        block@.len() == block_width * block_height,
    ensures
        index == dominant(block@, palette@),
{
    let entries: usize = palette.entries();
    let mut tally: Vec<usize> = vec![0usize; entries];
    let ghost table = palette@;
    let ghost mut seen: int = 0;

    let mut y: usize = 0;
    while y < block_height
        invariant
            y <= block_height,
            block@.len() == block_width * block_height,
            entries == palette.spec_entries(),
            table == palette@,
            tally@.len() == entries,
            seen == y * block_width,
            forall|i: int| 0 <= i < entries ==> tally@[i] == votes(block@.take(seen), table, i),
            forall|i: int| i < 0 || i >= entries ==> votes(block@.take(seen), table, i) == 0,
        decreases block_height - y,
    {
        proof {
            lemma_row_within(y as int, block_width as int, block_height as int);
            assert(y * block_width + block_width <= block.len());
        }
        let row_start: usize = y * block_width;
        let mut x: usize = 0;
        while x < block_width
            invariant
                x <= block_width,
                y < block_height,
                row_start == y * block_width,
                row_start + block_width <= block@.len() <= usize::MAX,
                block@.len() == block_width * block_height,
                entries == palette.spec_entries(),
                table == palette@,
                tally@.len() == entries,
                seen == row_start + x,
                forall|i: int|
                    0 <= i < entries ==> tally@[i] == votes(block@.take(seen), table, i),
                forall|i: int| i < 0 || i >= entries ==> votes(block@.take(seen), table, i) == 0,
            decreases block_width - x,
        {
            let i: usize = row_start + x;
            let pixel: [u8; 4] = block[i];
            let ghost before = block@.take(i as int);
            let ghost after = block@.take(i + 1);
            proof {
                assert(after.drop_last() == before);
                assert(after.last() == pixel);
                seen = seen + 1;
            }
            let alpha: u8 = pixel[3];
            if alpha > 0 {
                match palette.lookup(pixel[0], pixel[1], pixel[2]) {
                    Some(index) => {
                        proof {
                            lemma_votes_bounded(before, table, index as int);
                        }
                        let slot: usize = index as usize;
                        let count: usize = tally[slot];
                        tally.set(slot, count + 1);
                    },
                    None => {},
                }
            }
            proof {
                assert forall|j: int| j < 0 || j >= entries implies votes(after, table, j)
                    == 0 by {
                    assert(votes(before, table, j) == 0);
                    assert(!casts_vote(pixel, table, j));
                }
            }
            x += 1;
        }
        proof {
            assert((y + 1) * block_width == row_start + block_width) by (nonlinear_arith)
                requires
                    row_start == y * block_width,
            ;
        }
        y += 1;
    }

    proof {
        assert(seen == block@.len()) by (nonlinear_arith)
            requires
                seen == block_height * block_width,
                block@.len() == block_width * block_height,
        ;
        assert(block@.take(seen) == block@);
    }

    let mut best: usize = 0;
    let mut best_votes: usize = 0;
    let mut i: usize = 0;
    while i < entries
        invariant
            i <= entries,
            best <= i,
            tally@.len() == entries,
            forall|j: int| 0 <= j < entries ==> tally@[j] == votes(block@, table, j),
            forall|j: int| j < 0 || j >= entries ==> votes(block@, table, j) == 0,
            best_votes > 0 ==> best < i && tally@[best as int] == best_votes,
            forall|j: int| 0 <= j < i ==> tally@[j] <= best_votes,
            forall|j: int| 0 <= j < best ==> tally@[j] < best_votes,
        decreases entries - i,
    {
        if tally[i] > best_votes {
            best = i;
            best_votes = tally[i];
        }
        i += 1;
    }

    if best_votes > 0 {
        proof {
            assert forall|other: int| votes(block@, table, other) <= votes(
                block@,
                table,
                best as int,
            ) by {
                if 0 <= other < entries {
                    assert(tally@[other] <= best_votes);
                }
            }
            assert forall|lower: int| lower < best implies votes(block@, table, lower) < votes(
                block@,
                table,
                best as int,
            ) by {
                if 0 <= lower {
                    assert(tally@[lower] < best_votes);
                }
            }
            lemma_leader_is_dominant(block@, table, best as int);
        }
        best as u8
    } else {
        proof {
            assert forall|index: int| votes(block@, table, index) == 0 by {
                if 0 <= index < entries {
                    assert(tally@[index] <= best_votes);
                }
            }
            lemma_voteless_is_transparent(block@, table);
        }
        TRANSPARENT_PIXEL
    }
}

/// Row `y` of a block of `height` rows lies within the block.
proof fn lemma_row_within(y: int, width: int, height: int)
    requires
        0 <= y < height,
        0 <= width,
    ensures
        y * width + width <= width * height,
        0 <= y * width,
{
    assert(y * width + width <= width * height) by (nonlinear_arith)
        requires
            0 <= y < height,
            0 <= width,
    ;
    assert(0 <= y * width) by (nonlinear_arith)
        requires
            0 <= y,
            0 <= width,
    ;
}

} // verus!
