//! A fixed-capacity set of grid cells, one bit per cell.

use crate::coord::{Coord, ROOM_WIDTH};
use vstd::prelude::*;

verus! {

/// Bits per storage word.
pub const WORD_BITS: usize = 64;

/// Cells of the grid, and bits of a [`CoordSet`].
pub const CELL_COUNT: usize = 128;

/// Position of a cell's bit: rows are laid out one after another.
pub open spec fn bit_index(c: Coord) -> int {
    c.y * ROOM_WIDTH + c.x
}

/// Whether bit `bit` of `word` is set.
pub open spec fn has_bit(word: u64, bit: int) -> bool {
    word & (1u64 << (bit as u64)) != 0
}

/// A set of cells stored as two words: cell `(x, y)` is bit `y * 16 + x`,
/// bits 0 to 63 in the first word and bits 64 to 127 in the second.
#[derive(Debug, Clone, Copy, PartialEq, Eq, Hash)]
pub struct CoordSet {
    pub words: [u64; 2],
}

impl View for CoordSet {
    type V = Set<Coord>;

    /// The cells of the grid whose bit is set.
    open spec fn view(&self) -> Set<Coord> {
        Set::new(
            |c: Coord|
                c.in_bounds() && has_bit(self.words[bit_index(c) / 64], bit_index(c) % 64),
        )
    }
}

proof fn lemma_bit_set(w: u64, m: u64)
    requires
        m < 64,
    ensures
        (w | (1u64 << m)) & (1u64 << m) != 0,
        forall|n: u64| n < 64 && n != m ==> #[trigger] ((w | (1u64 << m)) & (1u64 << n)) == w & (1u64 << n),
{
    assert((w | (1u64 << m)) & (1u64 << m) != 0) by (bit_vector)
        requires
            m < 64,
    ;
    assert forall|n: u64| n < 64 && n != m implies #[trigger] ((w | (1u64 << m)) & (1u64 << n))
        == w & (1u64 << n) by {
        assert((w | (1u64 << m)) & (1u64 << n) == w & (1u64 << n)) by (bit_vector)
            requires
                m < 64,
                n < 64,
                n != m,
        ;
    }
}

proof fn lemma_bit_clear(w: u64, m: u64)
    requires
        m < 64,
    ensures
        (w & !(1u64 << m)) & (1u64 << m) == 0,
        forall|n: u64| n < 64 && n != m ==> #[trigger] ((w & !(1u64 << m)) & (1u64 << n)) == w & (1u64 << n),
{
    assert((w & !(1u64 << m)) & (1u64 << m) == 0) by (bit_vector)
        requires
            m < 64,
    ;
    assert forall|n: u64| n < 64 && n != m implies #[trigger] ((w & !(1u64 << m)) & (1u64 << n))
        == w & (1u64 << n) by {
        assert((w & !(1u64 << m)) & (1u64 << n) == w & (1u64 << n)) by (bit_vector)
            requires
                m < 64,
                n < 64,
                n != m,
        ;
    }
}

proof fn lemma_bit_idempotent(w: u64, m: u64)
    requires
        m < 64,
    ensures
        w & (1u64 << m) != 0 ==> w | (1u64 << m) == w,
        w & (1u64 << m) == 0 ==> w & !(1u64 << m) == w,
{
    assert(w & (1u64 << m) != 0 ==> w | (1u64 << m) == w) by (bit_vector)
        requires
            m < 64,
    ;
    assert(w & (1u64 << m) == 0 ==> w & !(1u64 << m) == w) by (bit_vector)
        requires
            m < 64,
    ;
}

/// Two words that agree on each of their lowest `n` bits agree under the
/// mask that keeps those bits.
proof fn lemma_low_bits_agree(a: u64, b: u64, n: u64)
    requires
        n <= 63,
        forall|k: int| 0 <= k < 64 ==> has_bit(a, k) == has_bit(b, k),
    ensures
        a & !(0xffff_ffff_ffff_ffffu64 << n) == b & !(0xffff_ffff_ffff_ffffu64 << n),
    decreases n,
{
    if n == 0 {
        assert(a & !(0xffff_ffff_ffff_ffffu64 << 0u64) == b & !(0xffff_ffff_ffff_ffffu64 << 0u64))
            by (bit_vector);
    } else {
        let p: u64 = (n - 1) as u64;
        lemma_low_bits_agree(a, b, p);
        assert(has_bit(a, p as int) == has_bit(b, p as int));
        assert(a & !(0xffff_ffff_ffff_ffffu64 << n) == b & !(0xffff_ffff_ffff_ffffu64 << n))
            by (bit_vector)
            requires
                1 <= n <= 63,
                p == n - 1,
                a & !(0xffff_ffff_ffff_ffffu64 << p) == b & !(0xffff_ffff_ffff_ffffu64 << p),
                (a & (1u64 << p) != 0) == (b & (1u64 << p) != 0),
        ;
    }
}

/// A word is determined by its 64 bits.
proof fn lemma_word_by_bits(a: u64, b: u64)
    requires
        forall|k: int| 0 <= k < 64 ==> has_bit(a, k) == has_bit(b, k),
    ensures
        a == b,
{
    lemma_low_bits_agree(a, b, 63);
    assert(has_bit(a, 63) == has_bit(b, 63));
    assert(a == b) by (bit_vector)
        requires
            a & !(0xffff_ffff_ffff_ffffu64 << 63u64) == b & !(0xffff_ffff_ffff_ffffu64 << 63u64),
            (a & (1u64 << 63u64) != 0) == (b & (1u64 << 63u64) != 0),
    ;
}

impl CoordSet {
    /// The set with the bit of `c` switched on.
    pub open spec fn with(self, c: Coord) -> CoordSet {
        let major = bit_index(c) / 64;
        let minor = (bit_index(c) % 64) as u64;
        CoordSet {
            words: vstd::array::spec_array_update(
                self.words,
                major,
                self.words[major] | (1u64 << minor),
            ),
        }
    }

    /// The set with the bit of `c` switched off.
    pub open spec fn without(self, c: Coord) -> CoordSet {
        let major = bit_index(c) / 64;
        let minor = (bit_index(c) % 64) as u64;
        CoordSet {
            words: vstd::array::spec_array_update(
                self.words,
                major,
                self.words[major] & !(1u64 << minor),
            ),
        }
    }

    /// `with` adds exactly the cell `c`.
    pub proof fn lemma_with(self, c: Coord)
        requires
            c.in_bounds(),
        ensures
            self.with(c)@ == self@.insert(c),
    {
        broadcast use vstd::array::axiom_spec_array_update;

        let major = bit_index(c) / 64;
        let minor = (bit_index(c) % 64) as u64;
        lemma_bit_set(self.words[major], minor);
        let r = self.with(c);
        assert forall|d: Coord| r@.contains(d) <==> self@.insert(c).contains(d) by {
            if d.in_bounds() {
                let dm = (bit_index(d) % 64) as u64;
                if bit_index(d) / 64 == major {
                    if dm == minor {
                        assert(d == c);
                    } else {
                        assert((self.words[major] | (1u64 << minor)) & (1u64 << dm)
                            == self.words[major] & (1u64 << dm));
                    }
                }
            }
        }
        assert(r@ =~= self@.insert(c));
    }

    /// `without` drops exactly the cell `c`.
    pub proof fn lemma_without(self, c: Coord)
        requires
            c.in_bounds(),
        ensures
            self.without(c)@ == self@.remove(c),
    {
        broadcast use vstd::array::axiom_spec_array_update;

        let major = bit_index(c) / 64;
        let minor = (bit_index(c) % 64) as u64;
        lemma_bit_clear(self.words[major], minor);
        let r = self.without(c);
        assert forall|d: Coord| r@.contains(d) <==> self@.remove(c).contains(d) by {
            if d.in_bounds() {
                let dm = (bit_index(d) % 64) as u64;
                if bit_index(d) / 64 == major {
                    if dm == minor {
                        assert(d == c);
                    } else {
                        assert((self.words[major] & !(1u64 << minor)) & (1u64 << dm)
                            == self.words[major] & (1u64 << dm));
                    }
                }
            }
        }
        assert(r@ =~= self@.remove(c));
    }

    /// Inserting a cell makes it a member and removing it makes it absent;
    /// neither touches any other cell; inserting a member or removing a
    /// non-member leaves the set as it was.
    pub proof fn law_insert_remove(self, c: Coord, d: Coord)
        requires
            c.in_bounds(),
            d.in_bounds(),
        ensures
            self.with(c)@.contains(c),
            !self.without(c)@.contains(c),
            c != d ==> self.with(c)@.contains(d) == self@.contains(d),
            c != d ==> self.without(c)@.contains(d) == self@.contains(d),
            self@.contains(c) ==> self.with(c) == self,
            !self@.contains(c) ==> self.without(c) == self,
    {
        broadcast use vstd::array::axiom_spec_array_update;

        self.lemma_with(c);
        self.lemma_without(c);
        let major = bit_index(c) / 64;
        let minor = (bit_index(c) % 64) as u64;
        lemma_bit_idempotent(self.words[major], minor);
        if self@.contains(c) {
            assert(self.with(c).words =~= self.words);
        } else {
            assert(self.without(c).words =~= self.words);
        }
    }

    /// Two sets with the same cells have the same words: every bit of the
    /// two words stands for a cell of the grid.
    pub proof fn law_equal_by_cells(self, other: CoordSet)
        requires
            self@ == other@,
        ensures
            self == other,
    {
        assert forall|j: int| 0 <= j < 2 implies self.words[j] == other.words[j] by {
            assert forall|k: int| 0 <= k < 64 implies has_bit(self.words[j], k) == has_bit(
                other.words[j],
                k,
            ) by {
                let bit = 64 * j + k;
                let c = Coord { x: (bit % 16) as u8, y: (bit / 16) as u8 };
                assert(c.in_bounds());
                assert(bit_index(c) == bit);
                assert(bit / 64 == j && bit % 64 == k);
                assert(self@.contains(c) == other@.contains(c));
                assert(self@.contains(c) == has_bit(self.words[j], k));
                assert(other@.contains(c) == has_bit(other.words[j], k));
            }
            lemma_word_by_bits(self.words[j], other.words[j]);
        }
        assert(self.words =~= other.words);
    }

    /// The set without any cell.
    pub fn empty() -> (s: CoordSet)
        ensures
            s@ == Set::<Coord>::empty(),
            s.words@ == seq![0u64, 0u64],
    {
        let s = CoordSet { words: [0u64, 0u64] };
        proof {
            assert forall|c: Coord| !s@.contains(c) by {
                let m = (bit_index(c) % 64) as u64;
                assert(0u64 & (1u64 << m) == 0) by (bit_vector);
            }
            assert(s@ =~= Set::<Coord>::empty());
            assert(s.words@ =~= seq![0u64, 0u64]);
        }
        s
    }

    /// The set of the cells listed in `coords`.
    pub fn from_coords(coords: &[Coord]) -> (s: CoordSet)
        requires
            forall|k: int| 0 <= k < coords@.len() ==> coords@[k].in_bounds(),
        ensures
            s@ == coords@.to_set(),
    {
        let mut s = CoordSet::empty();
        let mut i: usize = 0;
        while i < coords.len()
            invariant
                i <= coords@.len(),
                forall|k: int| 0 <= k < coords@.len() ==> coords@[k].in_bounds(),
                forall|c: Coord| s@.contains(c) <==> exists|k: int| 0 <= k < i && coords@[k] == c,
            decreases coords@.len() - i,
        {
            let ghost before = s@;
            s.insert(coords[i]);
            proof {
                assert forall|c: Coord| s@.contains(c) <==> exists|k: int|
                    0 <= k < i + 1 && coords@[k] == c by {
                    if s@.contains(c) {
                        if c == coords@[i as int] {
                        } else {
                            assert(before.contains(c));
                            let k = choose|k: int| 0 <= k < i && coords@[k] == c;
                            assert(0 <= k < i + 1 && coords@[k] == c);
                        }
                    }
                    if exists|k: int| 0 <= k < i + 1 && coords@[k] == c {
                        let k = choose|k: int| 0 <= k < i + 1 && coords@[k] == c;
                        if k < i {
                            assert(before.contains(c));
                        }
                    }
                }
            }
            i += 1;
        }
        proof {
            assert forall|c: Coord| s@.contains(c) <==> coords@.to_set().contains(c) by {
                if s@.contains(c) {
                    let k = choose|k: int| 0 <= k < i && coords@[k] == c;
                    assert(coords@.contains(c));
                }
                if coords@.contains(c) {
                    let k = choose|k: int| 0 <= k < coords@.len() && coords@[k] == c;
                    assert(0 <= k < i && coords@[k] == c);
                }
            }
            assert(s@ =~= coords@.to_set());
        }
        s
    }

    pub fn bit_index_of(coord: Coord) -> (bit: usize)
        requires
            coord.in_bounds(),
        ensures
            bit == bit_index(coord),
            bit < CELL_COUNT,
    {
        let y: usize = coord.y as usize;
        let width: usize = ROOM_WIDTH as usize;
        assert(y * width == y * 16 && y * 16 <= 7 * 16) by (nonlinear_arith)
            requires
                width == 16,
                y <= 7,
        ;
        y * width + coord.x as usize
    }

    /// Splits a cell's bit position into the index of its word and the
    /// offset of the bit inside that word.
    pub fn major_minor_of(coord: Coord) -> (mm: [usize; 2])
        requires
            coord.in_bounds(),
        ensures
            mm[0] == bit_index(coord) / 64,
            mm[1] == bit_index(coord) % 64,
            mm[0] < 2,
            mm[1] < 64,
    {
        let bit_index: usize = Self::bit_index_of(coord);
        [bit_index / WORD_BITS, bit_index % WORD_BITS]
    }

    pub fn contains(&self, coord: Coord) -> (b: bool)
        requires
            coord.in_bounds(),
        ensures
            b == self@.contains(coord),
    {
        let mm = Self::major_minor_of(coord);
        let major: usize = mm[0];
        let minor: usize = mm[1];
        self.words[major] & (1u64 << (minor as u64)) != 0
    }

    /// Adds `coord`; a no-op when it is already present.
    pub fn insert(&mut self, coord: Coord)
        requires
            coord.in_bounds(),
        ensures
            *final(self) == old(self).with(coord),
            final(self)@ == old(self)@.insert(coord),
    {
        let mm = Self::major_minor_of(coord);
        let major: usize = mm[0];
        let minor: usize = mm[1];
        proof {
            broadcast use vstd::array::axiom_spec_array_update;
            self.lemma_with(coord);
        }
        self.words[major] |= 1u64 << (minor as u64);
        assert(self.words =~= old(self).with(coord).words);
    }

    /// Removes `coord`; a no-op when it is absent.
    pub fn remove(&mut self, coord: Coord)
        requires
            coord.in_bounds(),
        ensures
            *final(self) == old(self).without(coord),
            final(self)@ == old(self)@.remove(coord),
    {
        let mm = Self::major_minor_of(coord);
        let major: usize = mm[0];
        let minor: usize = mm[1];
        proof {
            broadcast use vstd::array::axiom_spec_array_update;
            self.lemma_without(coord);
        }
        self.words[major] &= !(1u64 << (minor as u64));
        assert(self.words =~= old(self).without(coord).words);
    }
}

impl Default for CoordSet {
    fn default() -> (s: CoordSet)
        ensures
            s@ == Set::<Coord>::empty(),
    {
        CoordSet::empty()
    }
}

} // verus!
