//! Cell sets as 64-bit words.

use vstd::prelude::*;

verus! {

/// Whether bit `i` of the word `m` is set. False outside `0..64`.
pub open spec fn bit(m: u64, i: int) -> bool {
    0 <= i < 64 && (m >> (i as u64)) & 1 == 1
}

/// The word whose only set bit is bit `i`, for `i` in `0..64`.
pub open spec fn single(i: int) -> u64 {
    1u64 << (i as u64)
}

/// The word with the low `n` bits set: the full board of a cuboid of `n` cells.
pub open spec fn full_mask(n: int) -> u64 {
    if n <= 0 {
        0
    } else if n >= 64 {
        u64::MAX
    } else {
        ((1u64 << (n as u64)) - 1) as u64
    }
}

/// Set inclusion on words: every bit of `a` is a bit of `b`.
pub open spec fn within(a: u64, b: u64) -> bool {
    a & !b == 0
}

/// The number of set bits among the low `n` bits of `m`.
pub open spec fn count_bits(m: u64, n: int) -> nat
    decreases n,
{
    if n <= 0 {
        0
    } else {
        count_bits(m, n - 1) + if bit(m, n - 1) { 1nat } else { 0nat }
    }
}

/// The number of set bits of `m`.
pub open spec fn popcount(m: u64) -> nat {
    count_bits(m, 64)
}

/// The word of one cell has the bit of that cell set and no other.
pub proof fn lemma_bit_single(i: int, j: int)
    requires
        0 <= i < 64,
        0 <= j < 64,
    ensures
        bit(single(i), j) <==> i == j,
        single(i) != 0,
{
    let a = i as u64;
    let b = j as u64;
    assert(a < 64 && b < 64 ==> ((((1u64 << a) >> b) & 1 == 1) <==> a == b)) by (bit_vector);
    assert(a < 64 ==> (1u64 << a) != 0) by (bit_vector);
}

/// A bit of a union is set exactly when it is set in one of the parts.
pub proof fn lemma_bit_or(m: u64, n: u64, i: int)
    ensures
        bit(m | n, i) <==> bit(m, i) || bit(n, i),
{
    if 0 <= i < 64 {
        let a = i as u64;
        assert((((m | n) >> a) & 1 == 1) <==> (((m >> a) & 1 == 1) || ((n >> a) & 1 == 1)))
            by (bit_vector);
    }
}

/// A bit of an intersection is set exactly when it is set in both parts.
pub proof fn lemma_bit_and(m: u64, n: u64, i: int)
    ensures
        bit(m & n, i) <==> bit(m, i) && bit(n, i),
{
    if 0 <= i < 64 {
        let a = i as u64;
        assert((((m & n) >> a) & 1 == 1) <==> (((m >> a) & 1 == 1) && ((n >> a) & 1 == 1)))
            by (bit_vector);
    }
}

/// The empty word has no bit set.
pub proof fn lemma_bit_zero(i: int)
    ensures
        !bit(0, i),
{
    if 0 <= i < 64 {
        let a = i as u64;
        assert((0u64 >> a) & 1 == 0) by (bit_vector);
    }
}

/// A word meets `single(i)` exactly when its bit `i` is set.
pub proof fn lemma_bit_meets_single(m: u64, i: int)
    requires
        0 <= i < 64,
    ensures
        bit(m, i) <==> m & single(i) != 0,
{
    let a = i as u64;
    assert(a < 64 ==> (((m >> a) & 1 == 1) <==> (m & (1u64 << a)) != 0)) by (bit_vector);
}

/// Bit `i` of the full board of `n` cells is set exactly when `i < n`.
pub proof fn lemma_bit_full(n: int, i: int)
    requires
        0 <= n <= 64,
    ensures
        bit(full_mask(n), i) <==> 0 <= i < n,
{
    if 0 <= i < 64 {
        let a = i as u64;
        if n >= 64 {
            assert((0xffff_ffff_ffff_ffffu64 >> a) & 1 == 1) by (bit_vector)
                requires
                    a < 64,
            ;
        } else if n <= 0 {
            lemma_bit_zero(i);
        } else {
            let b = n as u64;
            assert(((((1u64 << b) - 1) as u64 >> a) & 1 == 1) <==> a < b) by (bit_vector)
                requires
                    a < 64,
                    0 < b < 64,
            ;
        }
    }
}

/// Setting a bit that was clear adds one to the number of set bits.
pub proof fn lemma_count_bits_insert(m: u64, i: int, n: int)
    requires
        0 <= i < 64,
        !bit(m, i),
        0 <= n <= 64,
    ensures
        count_bits(m | single(i), n) == count_bits(m, n) + if i < n { 1nat } else { 0nat },
    decreases n,
{
    if n > 0 {
        lemma_count_bits_insert(m, i, n - 1);
        lemma_bit_or(m, single(i), n - 1);
        lemma_bit_single(i, n - 1);
    }
}

/// The empty word has no set bits to count.
pub proof fn lemma_count_bits_zero(n: int)
    ensures
        count_bits(0, n) == 0,
    decreases n,
{
    if n > 0 {
        lemma_count_bits_zero(n - 1);
        lemma_bit_zero(n - 1);
    }
}

/// A set of cells of the cuboid, one bit per cell index.
#[derive(Clone, Copy, Debug, PartialEq, Eq, Hash, Structural)]
pub struct Bitset(pub u64);

/// The cells that are taken.
pub type Board = Bitset;

/// The cells that a piece takes in one position.
pub type Placement = Bitset;

impl Bitset {
    /// Whether cell `i` is in the set.
    pub open spec fn has(self, i: int) -> bool {
        bit(self.0, i)
    }

    /// The empty set.
    pub fn new() -> (r: Bitset)
        ensures
            r.0 == 0,
            forall|i: int| !r.has(i),
    {
        proof {
            assert forall|i: int| !bit(0u64, i) by {
                lemma_bit_zero(i);
            }
        }
        Bitset(0)
    }

    /// The set of the low `cells` cell indices: the completely filled board.
    pub fn full(cells: usize) -> (r: Bitset)
        requires
            cells <= 64,
        ensures
            r.0 == full_mask(cells as int),
            forall|i: int| r.has(i) <==> 0 <= i < cells,
    {
        proof {
            assert forall|i: int| bit(full_mask(cells as int), i) <==> 0 <= i < cells by {
                lemma_bit_full(cells as int, i);
            }
        }
        if cells >= 64 {
            Bitset(u64::MAX)
        } else if cells == 0 {
            Bitset(0)
        } else {
            let c: u64 = cells as u64;
            assert((1u64 << c) >= 1) by (bit_vector)
                requires
                    c < 64,
            ;
            Bitset((1u64 << c) - 1)
        }
    }

    /// Membership of the cell with index `index`.
    pub fn get(&self, index: usize) -> (r: bool)
        requires
            index < 64,
        ensures
            r == self.has(index as int),
    {
        (self.0 >> index) & 1 == 1
    }

    /// Adds the cell with index `index`.
    pub fn set(&mut self, index: usize)
        requires
            index < 64,
        ensures
            final(self).0 == old(self).0 | single(index as int),
            forall|i: int| final(self).has(i) <==> old(self).has(i) || i == index,
    {
        proof {
            let m = self.0;
            assert forall|i: int| bit(m | single(index as int), i) <==> bit(m, i) || i == index by {
                lemma_bit_or(m, single(index as int), i);
                if 0 <= i < 64 {
                    lemma_bit_single(index as int, i);
                }
            }
        }
        self.0 = self.0 | (1u64 << index);
    }

    /// The set as a picture of a cuboid of four by four by four cells: four
    /// rows by `y`, in each row four slices by `z`, in each slice four cells by
    /// `x`, and for each cell whether it is in the set.
    pub fn grid(&self) -> (rows: Vec<Vec<Vec<bool>>>)
        ensures
            rows@.len() == 4,
            forall|y: int| 0 <= y < 4 ==> (#[trigger] rows@[y])@.len() == 4,
            forall|y: int, z: int|
                0 <= y < 4 && 0 <= z < 4 ==> (#[trigger] rows@[y]@[z])@.len() == 4,
            forall|y: int, z: int, x: int|
                0 <= y < 4 && 0 <= z < 4 && 0 <= x < 4 ==> #[trigger] rows@[y]@[z]@[x] == self.has(
                    z * 16 + y * 4 + x,
                ),
    {
        let mut rows: Vec<Vec<Vec<bool>>> = Vec::new();
        let mut y: usize = 0;
        while y < 4
            invariant
                y <= 4,
                rows@.len() == y,
                forall|a: int| 0 <= a < y ==> (#[trigger] rows@[a])@.len() == 4,
                forall|a: int, z: int|
                    0 <= a < y && 0 <= z < 4 ==> (#[trigger] rows@[a]@[z])@.len() == 4,
                forall|a: int, z: int, x: int|
                    0 <= a < y && 0 <= z < 4 && 0 <= x < 4 ==> #[trigger] rows@[a]@[z]@[x]
                        == self.has(z * 16 + a * 4 + x),
            decreases 4 - y,
        {
            let mut row: Vec<Vec<bool>> = Vec::new();
            let mut z: usize = 0;
            while z < 4
                invariant
                    y < 4,
                    z <= 4,
                    row@.len() == z,
                    forall|c: int| 0 <= c < z ==> (#[trigger] row@[c])@.len() == 4,
                    forall|c: int, x: int|
                        0 <= c < z && 0 <= x < 4 ==> #[trigger] row@[c]@[x] == self.has(
                            c * 16 + y * 4 + x,
                        ),
                decreases 4 - z,
            {
                let mut slice: Vec<bool> = Vec::new();
                let mut x: usize = 0;
                while x < 4
                    invariant
                        y < 4,
                        z < 4,
                        x <= 4,
                        slice@.len() == x,
                        forall|c: int|
                            0 <= c < x ==> #[trigger] slice@[c] == self.has(z * 16 + y * 4 + c),
                    decreases 4 - x,
                {
                    slice.push(self.get(z * 16 + y * 4 + x));
                    x = x + 1;
                }
                row.push(slice);
                z = z + 1;
            }
            rows.push(row);
            y = y + 1;
        }
        rows
    }

    /// Whether the two sets share a cell.
    pub fn intersects(&self, other: Bitset) -> (r: bool)
        ensures
            r == (self.0 & other.0 != 0),
    {
        (self.0 & other.0) != 0
    }

    /// The cells that are in exactly one of the two sets.
    pub fn xor(&self, other: Bitset) -> (r: Bitset)
        ensures
            r.0 == self.0 ^ other.0,
    {
        Bitset(self.0 ^ other.0)
    }

    /// The cells that are in either set.
    pub fn union(&self, other: Bitset) -> (r: Bitset)
        ensures
            r.0 == self.0 | other.0,
    {
        Bitset(self.0 | other.0)
    }

    /// The cells that are in both sets.
    pub fn intersection(&self, other: Bitset) -> (r: Bitset)
        ensures
            r.0 == self.0 & other.0,
    {
        Bitset(self.0 & other.0)
    }
}

/// Two sets share a cell exactly when some index is a member of both.
pub proof fn lemma_intersects_has(a: Bitset, b: Bitset, i: int)
    requires
        a.has(i),
        b.has(i),
    ensures
        a.0 & b.0 != 0,
{
    let m = a.0;
    let n = b.0;
    let s = i as u64;
    assert(((m >> s) & 1 == 1) && ((n >> s) & 1 == 1) ==> (m & n) != 0) by (bit_vector)
        requires
            s < 64,
    ;
}

/// Inclusion is kept by union on the left.
pub proof fn lemma_within_or(a: u64, b: u64, c: u64)
    requires
        within(a, c),
        within(b, c),
    ensures
        within(a | b, c),
{
    assert(a & !c == 0 && b & !c == 0 ==> (a | b) & !c == 0) by (bit_vector);
}

/// A word is within any union that it is part of, and inclusion is
/// transitive.
pub proof fn lemma_within_grow(a: u64, b: u64, c: u64)
    ensures
        within(a, a | b),
        within(b, a | b),
        within(a, a),
        within(a, b) && within(b, c) ==> within(a, c),
        within(a, b) ==> within(a, b | c) && within(a, c | b),
{
    assert(a & !(a | b) == 0) by (bit_vector);
    assert(b & !(a | b) == 0) by (bit_vector);
    assert(a & !a == 0) by (bit_vector);
    assert(a & !b == 0 && b & !c == 0 ==> a & !c == 0) by (bit_vector);
    assert(a & !b == 0 ==> a & !(b | c) == 0 && a & !(c | b) == 0) by (bit_vector);
}

/// Two words that are within each other are equal.
pub proof fn lemma_within_both(a: u64, b: u64)
    requires
        within(a, b),
        within(b, a),
    ensures
        a == b,
{
    assert(a & !b == 0 && b & !a == 0 ==> a == b) by (bit_vector);
}

/// What misses both parts of a union misses the union; what misses a word
/// misses all within it.
pub proof fn lemma_disjoint_or(a: u64, b: u64, c: u64)
    ensures
        a & c == 0 && b & c == 0 <==> (a | b) & c == 0,
        c & a == 0 && c & b == 0 <==> c & (a | b) == 0,
        a & c == 0 <==> c & a == 0,
        within(a, b) && b & c == 0 ==> a & c == 0,
{
    assert((a & c == 0 && b & c == 0) <==> (a | b) & c == 0) by (bit_vector);
    assert((c & a == 0 && c & b == 0) <==> c & (a | b) == 0) by (bit_vector);
    assert(a & c == 0 <==> c & a == 0) by (bit_vector);
    assert(a & !b == 0 && b & c == 0 ==> a & c == 0) by (bit_vector);
}

/// Taking a disjoint word out of a union by exclusive-or leaves the rest.
pub proof fn lemma_xor_undoes_or(u: u64, p: u64)
    requires
        u & p == 0,
    ensures
        (u | p) ^ p == u,
{
    assert(u & p == 0 ==> (u | p) ^ p == u) by (bit_vector);
}

/// Intersection is commutative.
pub proof fn lemma_and_comm(a: u64, b: u64)
    ensures
        a & b == b & a,
{
    assert(a & b == b & a) by (bit_vector);
}

/// Union is associative and commutative, and zero is its unit.
pub proof fn lemma_or_laws(a: u64, b: u64, c: u64)
    ensures
        (a | b) | c == a | (b | c),
        a | b == b | a,
        a | 0 == a,
        0 | a == a,
        (a | b) | c == (a | c) | b,
{
    assert((a | b) | c == a | (b | c)) by (bit_vector);
    assert(a | b == b | a) by (bit_vector);
    assert(a | 0 == a) by (bit_vector);
    assert(0 | a == a) by (bit_vector);
    assert((a | b) | c == (a | c) | b) by (bit_vector);
}

/// A word that is not zero has a set bit.
pub proof fn lemma_nonzero_has_bit(m: u64) -> (i: int)
    requires
        m != 0,
    ensures
        0 <= i < 64,
        bit(m, i),
    decreases m,
{
    if m & 1 == 1 {
        assert(m & 1 == 1 ==> (m >> 0) & 1 == 1) by (bit_vector);
        0
    } else {
        let h = m >> 1;
        assert(m != 0 && m & 1 != 1 ==> (m >> 1) != 0 && (m >> 1) < m) by (bit_vector);
        let j = lemma_nonzero_has_bit(h);
        let s = j as u64;
        assert(s < 64 && ((m >> 1) >> s) & 1 == 1 ==> s < 63 && (m >> ((s + 1) as u64)) & 1 == 1)
            by (bit_vector);
        j + 1
    }
}

/// A set bit of a word is a set bit of every word that the word is within.
pub proof fn lemma_within_bit(a: u64, b: u64, i: int)
    requires
        within(a, b),
        bit(a, i),
    ensures
        bit(b, i),
{
    let s = i as u64;
    assert(a & !b == 0 && (a >> s) & 1 == 1 ==> (b >> s) & 1 == 1) by (bit_vector);
}

/// The word of one cell of the board is within the full board.
pub proof fn lemma_single_within_full(i: int, n: int)
    requires
        0 <= i < n <= 64,
    ensures
        within(single(i), full_mask(n)),
{
    let a = i as u64;
    let b = n as u64;
    if n >= 64 {
        assert((1u64 << a) & !0xffff_ffff_ffff_ffffu64 == 0) by (bit_vector);
    } else {
        assert((1u64 << a) & !(((1u64 << b) - 1) as u64) == 0) by (bit_vector)
            requires
                a < b,
                b < 64,
        ;
    }
}

/// Two words with the same set bits are the same word.
pub proof fn lemma_bits_equal(a: u64, b: u64)
    requires
        forall|i: int| 0 <= i < 64 ==> bit(a, i) == bit(b, i),
    ensures
        a == b,
{
    let x = a ^ b;
    if x != 0 {
        let i = lemma_nonzero_has_bit(x);
        let s = i as u64;
        assert(((a ^ b) >> s) & 1 == 1 ==> (((a >> s) & 1 == 1) != ((b >> s) & 1 == 1)))
            by (bit_vector);
        assert(bit(a, i) == bit(b, i));
    }
    assert(a ^ b == 0 ==> a == b) by (bit_vector);
}

} // verus!
