//! Indices of the unbounded channel.
//!
//! Positions are numbered through; a block holds `BLOCK_CAP` of them. In an index, each block takes
//! up one lap of `LAP` numbers, of which the last one stands for no position. The lowest bit of an
//! index is a mark. Indices wrap around.
use vstd::arithmetic::div_mod::{lemma_fundamental_div_mod, lemma_fundamental_div_mod_converse};
use vstd::prelude::*;

verus! {

/// Each block covers one "lap" of indices.
pub const LAP: usize = 32;

/// The maximum number of messages a block can hold.
pub const BLOCK_CAP: usize = 31;

/// How many lower bits are reserved for metadata.
pub const SHIFT: usize = 1;

/// Has two different purposes:
/// * If set in head, indicates that the block is not the last one.
/// * If set in tail, indicates the channel is disconnected.
pub const MARK_BIT: usize = 1;

/// More messages than this one cannot be in the channel at a time.
pub open spec fn max_len() -> int {
    usize::MAX as int / 4
}

/// How many laps there are before indices wrap around.
pub open spec fn laps() -> int {
    (usize::MAX + 1) / 64
}

/// The block in which `pos` lies.
pub open spec fn block_of(pos: nat) -> nat {
    pos / 31
}

/// The slot of the block in which `pos` lies.
pub open spec fn offset_of(pos: nat) -> nat {
    pos % 31
}

/// The lap of the index of `pos`.
pub open spec fn lap_of(pos: nat) -> int {
    block_of(pos) as int % laps()
}

/// The index of `pos`, without its mark.
pub open spec fn index_of(pos: nat) -> usize {
    (2 * (lap_of(pos) * 32 + offset_of(pos))) as usize
}

/// The index of `pos`, marked where `mark` holds.
pub open spec fn marked_index(pos: nat, mark: bool) -> usize {
    if mark {
        (index_of(pos) + 1) as usize
    } else {
        index_of(pos)
    }
}

/// The laps fill the range of `usize` exactly.
pub proof fn lemma_laps()
    ensures
        laps() * 64 == usize::MAX + 1,
        laps() >= 0x400_0000,
{
    vstd::layout::unsigned_int_max_values();
    vstd::arithmetic::power2::lemma2_to64();
    vstd::arithmetic::power2::lemma2_to64_rest();
}

/// The parts of an index can be told from each other.
pub proof fn lemma_index(pos: nat, mark: bool)
    ensures
        0 <= lap_of(pos) < laps(),
        marked_index(pos, mark) == 2 * (lap_of(pos) * 32 + offset_of(pos)) + if mark {
            1int
        } else {
            0
        },
        marked_index(pos, mark) / 2 == lap_of(pos) * 32 + offset_of(pos),
        marked_index(pos, mark) % 2 == if mark {
            1int
        } else {
            0
        },
        (marked_index(pos, mark) / 2) % 32 == offset_of(pos),
        (marked_index(pos, mark) / 2) / 32 == lap_of(pos),
        marked_index(pos, mark) + 2 <= usize::MAX,
{
    lemma_laps();
    vstd::arithmetic::div_mod::lemma_mod_bound(block_of(pos) as int, laps());
}

/// The index of the position that follows: two indices on where a block ends.
pub proof fn lemma_next(pos: nat)
    ensures
        offset_of(pos) < 30 ==> index_of(pos + 1) == index_of(pos) + 2,
        offset_of(pos) < 30 ==> block_of(pos + 1) == block_of(pos),
        offset_of(pos) < 30 ==> offset_of(pos + 1) == offset_of(pos) + 1,
        offset_of(pos) == 30 ==> index_of(pos + 1) == ((index_of(pos) + 2) as usize).wrapping_add(2),
        offset_of(pos) == 30 ==> block_of(pos + 1) == block_of(pos) + 1,
        offset_of(pos) == 30 ==> offset_of(pos + 1) == 0,
{
    lemma_laps();
    lemma_index(pos, false);
    lemma_index(pos + 1, false);
    let b = block_of(pos) as int;
    lemma_fundamental_div_mod(b, laps());
    if offset_of(pos) == 30 {
        if lap_of(pos) + 1 == laps() {
            assert(laps() * (b / laps() + 1) == laps() * (b / laps()) + laps()) by (nonlinear_arith);
            lemma_fundamental_div_mod_converse(b + 1, laps(), b / laps() + 1, 0);
        } else {
            assert((b / laps()) * laps() == laps() * (b / laps())) by (nonlinear_arith);
            lemma_fundamental_div_mod_converse(b + 1, laps(), b / laps(), lap_of(pos) + 1);
        }
    }
}

/// Blocks that are not too far apart have different laps.
pub proof fn lemma_same_lap(m: nat, n: nat)
    requires
        m <= n <= m + max_len(),
    ensures
        lap_of(m) == lap_of(n) <==> block_of(m) == block_of(n),
{
    lemma_laps();
    let (a, b) = (block_of(m) as int, block_of(n) as int);
    if lap_of(m) == lap_of(n) && a != b {
        lemma_fundamental_div_mod(a, laps());
        lemma_fundamental_div_mod(b, laps());
        let k = b / laps() - a / laps();
        assert(laps() * (b / laps()) - laps() * (a / laps()) == laps() * k) by (nonlinear_arith)
            requires
                k == b / laps() - a / laps(),
        ;
        assert(laps() * k >= laps() || laps() * k <= 0) by (nonlinear_arith)
            requires
                laps() > 0,
        ;
    }
}

/// Positions that are not too far apart have different indices.
pub proof fn lemma_distinct(m: nat, n: nat)
    requires
        m <= n <= m + max_len(),
    ensures
        index_of(m) == index_of(n) <==> m == n,
{
    lemma_index(m, false);
    lemma_index(n, false);
    lemma_same_lap(m, n);
}

/// The lower bits of an index, in arithmetic.
pub proof fn lemma_bits(index: usize)
    ensures
        index & MARK_BIT == index % 2,
        index >> SHIFT == index / 2,
        index & !MARK_BIT == index - index % 2,
        index % 2 == 0 ==> index | MARK_BIT == index + 1,
        index % 2 == 1 ==> index | MARK_BIT == index,
        1usize << SHIFT == 2,
{
    assert(1usize << 1usize == 2) by (bit_vector);
    assert(index & 1usize == index % 2) by (bit_vector);
    assert(index >> 1usize == index / 2) by (bit_vector);
    assert(index & !1usize == index - index % 2) by (bit_vector);
    assert(index % 2 == 0 ==> (index | 1usize) == index + 1) by (bit_vector);
    assert(index % 2 == 1 ==> (index | 1usize) == index) by (bit_vector);
}

} // verus!
