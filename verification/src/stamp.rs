//! Stamps of the bounded channel.
//!
//! A stamp packs an index into the buffer, a mark bit and a lap into one `usize`. The lowest bits
//! are the index, the bit above them is the mark, the rest is the lap, which wraps around.
use vstd::arithmetic::div_mod::{lemma_fundamental_div_mod, lemma_fundamental_div_mod_converse};
use vstd::arithmetic::power2::{
    lemma_pow2_adds, lemma_pow2_pos, lemma_pow2_strictly_increases, lemma_pow2_unfold, pow2,
};
use vstd::bits::lemma_usize_low_bits_mask_is_mod;
use vstd::prelude::*;

verus! {

/// How the stamps of a channel are laid out.
pub struct Layout {
    /// The number of slots in the buffer.
    pub cap: usize,
    /// The bit that marks a stamp: the smallest power of two above the capacity.
    pub mark_bit: usize,
    /// The stamp `{lap: 1, mark: 0, index: 0}`.
    pub one_lap: usize,
    /// How many bits an index has.
    pub index_bits: Ghost<nat>,
}

impl Layout {
    /// The bits of index, mark and lap do not overlap, and there is room for two laps.
    pub open spec fn wf(&self) -> bool {
        &&& 0 < self.cap < self.mark_bit
        &&& self.index_bits@ + 2 <= usize::BITS
        &&& self.mark_bit == pow2(self.index_bits@)
        &&& self.one_lap == pow2(self.index_bits@ + 1)
    }

    /// How many laps there are before they wrap around.
    pub open spec fn laps(&self) -> int {
        pow2((usize::BITS - self.index_bits@ - 1) as nat) as int
    }

    /// The lap in which `pos` lies.
    pub open spec fn lap_of(&self, pos: nat) -> int {
        (pos as int / self.cap as int) % self.laps()
    }

    /// The slot in which `pos` lies.
    pub open spec fn index_of(&self, pos: nat) -> int {
        pos as int % self.cap as int
    }

    /// The unmarked stamp of the position `pos`.
    pub open spec fn stamp(&self, pos: nat) -> usize {
        (self.lap_of(pos) * self.one_lap + self.index_of(pos)) as usize
    }

    /// The stamp of the position `pos`, marked where `mark` holds.
    pub open spec fn marked_stamp(&self, pos: nat, mark: bool) -> usize {
        if mark {
            (self.stamp(pos) + self.mark_bit) as usize
        } else {
            self.stamp(pos)
        }
    }

    /// The layout for a buffer of `cap` slots.
    pub fn new(cap: usize) -> (layout: Layout)
        requires
            0 < cap <= usize::MAX / 4,
        ensures
            layout.wf(),
            layout.cap == cap,
            layout.mark_bit <= 2 * cap,
    {
        let ghost mut bits: nat = 1;
        let mut mark_bit: usize = 2;
        proof {
            vstd::layout::unsigned_int_max_values();
            assert(pow2(1) == 2) by {
                vstd::arithmetic::power2::lemma2_to64();
            }
            assert(usize::BITS == 32 || usize::BITS == 64);
            lemma_pow2_unfold(usize::BITS as nat);
            lemma_pow2_unfold((usize::BITS - 1) as nat);
        }
        while mark_bit <= cap
            invariant
                1 <= bits,
                2 <= mark_bit,
                bits + 2 <= usize::BITS,
                mark_bit == pow2(bits),
                mark_bit <= 2 * cap,
                0 < cap <= usize::MAX / 4,
                usize::MAX == pow2(usize::BITS as nat) - 1,
                pow2(usize::BITS as nat) == 4 * pow2((usize::BITS - 2) as nat),
            decreases 2 * cap - mark_bit,
        {
            proof {
                lemma_pow2_unfold(bits + 1);
                assert(bits + 1 <= usize::BITS - 2) by {
                    if bits >= usize::BITS - 2 {
                        assert(bits == (usize::BITS - 2) as nat);
                    }
                }
                bits = bits + 1;
            }
            mark_bit = mark_bit * 2;
        }
        proof {
            lemma_pow2_unfold(bits + 1);
            lemma_pow2_strictly_increases(bits + 1, usize::BITS as nat);
        }
        Layout { cap, mark_bit, one_lap: mark_bit * 2, index_bits: Ghost(bits) }
    }

    /// The laps fill the range of `usize` exactly.
    pub proof fn lemma_laps(&self)
        requires
            self.wf(),
        ensures
            self.laps() * self.one_lap == usize::MAX + 1,
            self.laps() >= 2,
            self.one_lap == 2 * self.mark_bit,
    {
        vstd::layout::unsigned_int_max_values();
        let high = (usize::BITS - self.index_bits@ - 1) as nat;
        lemma_pow2_adds(high, self.index_bits@ + 1);
        lemma_pow2_unfold(self.index_bits@ + 1);
        lemma_pow2_unfold(high);
        lemma_pow2_pos((high - 1) as nat);
    }

    /// The parts of a stamp can be told from each other.
    pub proof fn lemma_stamp(&self, pos: nat)
        requires
            self.wf(),
        ensures
            0 <= self.lap_of(pos) < self.laps(),
            0 <= self.index_of(pos) < self.cap,
            self.stamp(pos) == self.lap_of(pos) * self.one_lap + self.index_of(pos),
            self.stamp(pos) as int / self.one_lap as int == self.lap_of(pos),
            self.stamp(pos) as int % self.one_lap as int == self.index_of(pos),
            self.stamp(pos) as int % self.mark_bit as int == self.index_of(pos),
            self.stamp(pos) + self.mark_bit <= usize::MAX,
    {
        self.lemma_laps();
        let (lap, index) = (self.lap_of(pos), self.index_of(pos));
        lemma_fundamental_div_mod(pos as int, self.cap as int);
        vstd::arithmetic::div_mod::lemma_mod_bound(
            pos as int / self.cap as int,
            self.laps(),
        );
        vstd::arithmetic::div_mod::lemma_mod_bound(pos as int, self.cap as int);
        assert(lap * self.one_lap + self.one_lap <= self.laps() * self.one_lap) by (nonlinear_arith)
            requires
                lap + 1 <= self.laps(),
                self.one_lap >= 0,
        ;
        assert(lap * self.one_lap >= 0) by (nonlinear_arith)
            requires
                lap >= 0,
                self.one_lap >= 0,
        ;
        lemma_fundamental_div_mod_converse(
            lap * self.one_lap + index,
            self.one_lap as int,
            lap,
            index,
        );
        assert(lap * self.one_lap == (2 * lap) * self.mark_bit) by (nonlinear_arith)
            requires
                self.one_lap == 2 * self.mark_bit,
        ;
        lemma_fundamental_div_mod_converse(
            lap * self.one_lap + index,
            self.mark_bit as int,
            2 * lap,
            index,
        );
    }

    /// The position that follows is in the next slot, or in the first one of the next lap.
    pub proof fn lemma_next(&self, pos: nat)
        requires
            self.wf(),
        ensures
            self.index_of(pos) + 1 < self.cap ==> self.stamp(pos + 1) == self.stamp(pos) + 1,
            self.index_of(pos) + 1 == self.cap ==> self.stamp(pos + 1) == ((self.stamp(pos)
                - self.index_of(pos)) as usize).wrapping_add(self.one_lap),
    {
        self.lemma_stamp(pos);
        self.lemma_stamp(pos + 1);
        self.lemma_laps();
        lemma_fundamental_div_mod(pos as int, self.cap as int);
        let q = pos as int / self.cap as int;
        if self.index_of(pos) + 1 < self.cap {
            lemma_fundamental_div_mod_converse(
                (pos + 1) as int,
                self.cap as int,
                q,
                self.index_of(pos) + 1,
            );
        } else {
            assert(self.cap * (q + 1) == self.cap * q + self.cap) by (nonlinear_arith);
            lemma_fundamental_div_mod_converse((pos + 1) as int, self.cap as int, q + 1, 0);
            self.lemma_next_lap(q);
        }
    }

    /// One lap further in stamps is one lap further modulo the number of laps.
    proof fn lemma_next_lap(&self, q: int)
        requires
            self.wf(),
            q >= 0,
        ensures
            ((q + 1) % self.laps()) * self.one_lap == if (q % self.laps()) + 1 == self.laps() {
                0
            } else {
                (q % self.laps()) * self.one_lap + self.one_lap
            },
            0 <= (q % self.laps()) < self.laps(),
            (q % self.laps()) + 1 == self.laps() ==> (q % self.laps()) * self.one_lap
                + self.one_lap == usize::MAX + 1,
            (q % self.laps()) + 1 < self.laps() ==> (q % self.laps()) * self.one_lap
                + 2 * self.one_lap <= usize::MAX + 1,
    {
        self.lemma_laps();
        let laps = self.laps();
        let l = q % laps;
        let lap = self.one_lap as int;
        lemma_fundamental_div_mod(q, laps);
        vstd::arithmetic::div_mod::lemma_mod_bound(q, laps);
        assert((l + 1) * lap == l * lap + lap) by (nonlinear_arith);
        assert((q / laps) * laps == laps * (q / laps)) by (nonlinear_arith);
        if l + 1 == laps {
            assert(laps * (q / laps + 1) == laps * (q / laps) + laps) by (nonlinear_arith);
            lemma_fundamental_div_mod_converse(q + 1, laps, q / laps + 1, 0);
            assert((q + 1) % laps == 0);
            assert(0 * lap == 0);
        } else {
            lemma_fundamental_div_mod_converse(q + 1, laps, q / laps, l + 1);
            assert((q + 1) % laps == l + 1);
            assert((l + 2) * lap <= laps * lap) by (nonlinear_arith)
                requires
                    l + 2 <= laps,
                    lap >= 0,
            ;
            assert((l + 2) * lap == l * lap + 2 * lap) by (nonlinear_arith);
        }
    }

    /// A position is in the slot of the one a buffer's length before it, one lap later.
    pub proof fn lemma_later_lap(&self, pos: nat)
        requires
            self.wf(),
        ensures
            self.index_of(pos + self.cap as nat) == self.index_of(pos),
            self.stamp(pos + self.cap as nat) == self.stamp(pos).wrapping_add(self.one_lap),
    {
        self.lemma_stamp(pos);
        self.lemma_stamp(pos + self.cap as nat);
        lemma_fundamental_div_mod(pos as int, self.cap as int);
        let q = pos as int / self.cap as int;
        assert(self.cap * (q + 1) == self.cap * q + self.cap) by (nonlinear_arith);
        lemma_fundamental_div_mod_converse(
            (pos + self.cap) as int,
            self.cap as int,
            q + 1,
            self.index_of(pos),
        );
        vstd::arithmetic::div_mod::lemma_div_pos_is_pos(pos as int, self.cap as int);
        self.lemma_next_lap(q);
    }

    /// Positions at most a buffer's length apart have different stamps.
    pub proof fn lemma_distinct(&self, p: nat, q: nat)
        requires
            self.wf(),
            p < q <= p + self.cap,
        ensures
            self.stamp(p) != self.stamp(q),
    {
        self.lemma_stamp(p);
        self.lemma_stamp(q);
        if self.stamp(p) == self.stamp(q) {
            assert(self.index_of(p) == self.index_of(q));
            lemma_same_slot(self.cap as int, p as int, q as int);
            self.lemma_later_lap(p);
            self.lemma_laps();
            assert(self.one_lap <= usize::MAX);
        }
    }

    /// The index part of a stamp.
    pub fn index(&self, stamp: usize) -> (index: usize)
        requires
            self.wf(),
        ensures
            index == stamp as int % self.mark_bit as int,
    {
        proof {
            lemma_mask(stamp, self.mark_bit, self.index_bits@);
        }
        stamp & (self.mark_bit - 1)
    }

    /// Whether the stamp is marked.
    pub fn is_marked(&self, stamp: usize) -> (marked: bool)
        requires
            self.wf(),
        ensures
            marked == (stamp as int % self.one_lap as int >= self.mark_bit),
    {
        proof {
            self.lemma_mark(stamp);
        }
        stamp & self.mark_bit != 0
    }

    /// The stamp without its mark.
    pub fn unmarked(&self, stamp: usize) -> (unmarked: usize)
        requires
            self.wf(),
        ensures
            unmarked == if stamp as int % self.one_lap as int >= self.mark_bit {
                stamp - self.mark_bit
            } else {
                stamp as int
            },
    {
        proof {
            self.lemma_mark(stamp);
            let mark = self.mark_bit;
            assert(stamp & !mark == stamp - (stamp & mark)) by (bit_vector);
        }
        stamp & !self.mark_bit
    }

    /// The stamp with its mark set.
    pub fn marked(&self, stamp: usize) -> (marked: usize)
        requires
            self.wf(),
        ensures
            marked == if stamp as int % self.one_lap as int >= self.mark_bit {
                stamp as int
            } else {
                stamp + self.mark_bit
            },
    {
        proof {
            self.lemma_mark(stamp);
            let mark = self.mark_bit;
            assert((stamp | mark) == stamp - (stamp & mark) + mark) by (bit_vector);
        }
        stamp | self.mark_bit
    }

    /// The stamp of the position that follows the one of the unmarked `stamp`.
    pub fn advance(&self, stamp: usize, Ghost(pos): Ghost<nat>) -> (next: usize)
        requires
            self.wf(),
            stamp == self.stamp(pos),
        ensures
            next == self.stamp(pos + 1),
    {
        proof {
            self.lemma_stamp(pos);
            self.lemma_next(pos);
            self.lemma_laps();
        }
        let index = self.index(stamp);
        if index + 1 < self.cap {
            // Same lap, incremented index.
            stamp + 1
        } else {
            // One lap forward, index wraps around to zero.
            let lap = stamp & !(self.one_lap - 1);
            proof {
                let mask = (self.one_lap - 1) as usize;
                assert(stamp & !mask == stamp - (stamp & mask)) by (bit_vector);
                lemma_mask(stamp, self.one_lap, self.index_bits@ + 1);
            }
            lap.wrapping_add(self.one_lap)
        }
    }

    /// What the mark bit of a stamp says.
    proof fn lemma_mark(&self, stamp: usize)
        requires
            self.wf(),
        ensures
            stamp & self.mark_bit == if stamp as int % self.one_lap as int >= self.mark_bit {
                self.mark_bit
            } else {
                0
            },
    {
        self.lemma_laps();
        let mark = self.mark_bit;
        let low = (self.mark_bit - 1) as usize;
        let both = (self.one_lap - 1) as usize;
        lemma_mask(stamp, self.mark_bit, self.index_bits@);
        lemma_mask(stamp, self.one_lap, self.index_bits@ + 1);
        lemma_mask(mark, self.mark_bit, self.index_bits@);
        assert(mark as int % mark as int == 0) by {
            vstd::arithmetic::div_mod::lemma_mod_self_0(mark as int);
        }
        assert((stamp & mark) + (stamp & low) == stamp & both && (stamp & mark == 0 || stamp & mark
            == mark)) by (bit_vector)
            requires
                mark & low == 0,
                low == mark - 1,
                both == mark + low,
        ;
        vstd::arithmetic::div_mod::lemma_mod_bound(stamp as int, mark as int);
        vstd::arithmetic::div_mod::lemma_mod_bound(stamp as int, self.one_lap as int);
    }
}

/// Two positions in one slot that are at most a buffer's length apart are exactly that apart.
pub proof fn lemma_same_slot(cap: int, p: int, q: int)
    requires
        cap > 0,
        p < q <= p + cap,
        p % cap == q % cap,
    ensures
        q == p + cap,
{
    lemma_fundamental_div_mod(p, cap);
    lemma_fundamental_div_mod(q, cap);
    let k = q / cap - p / cap;
    assert(cap * (q / cap) - cap * (p / cap) == cap * k) by (nonlinear_arith)
        requires
            k == q / cap - p / cap,
    ;
    assert(k == 1) by (nonlinear_arith)
        requires
            cap > 0,
            0 < cap * k <= cap,
    ;
}

/// The bits below a power of two are the remainder by it.
proof fn lemma_mask(x: usize, power: usize, bits: nat)
    requires
        bits < usize::BITS,
        power == pow2(bits),
    ensures
        x & ((power - 1) as usize) == x as int % power as int,
{
    lemma_usize_low_bits_mask_is_mod(x, bits);
    lemma_pow2_pos(bits);
}

} // verus!
