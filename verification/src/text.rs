//! The two text forms of the input: the dimension, as in `4x4x4`, and a cell
//! list, as in `000-100-010`.

use vstd::prelude::*;
use vstd::string::StringSliceAdditionalSpecFns;
use crate::coord::Coord;

verus! {

/// Whether the byte is a decimal digit.
pub open spec fn is_digit(b: u8) -> bool {
    48 <= b <= 57
}

/// Whether `s[lo..hi]` is a non-empty run of decimal digits.
pub open spec fn digits(s: Seq<u8>, lo: int, hi: int) -> bool {
    &&& 0 <= lo < hi <= s.len()
    &&& forall|i: int| lo <= i < hi ==> is_digit(#[trigger] s[i])
}

/// The number that the decimal digits `s[lo..hi]` write.
pub open spec fn number(s: Seq<u8>, lo: int, hi: int) -> int
    decreases hi - lo,
{
    if hi <= lo {
        0
    } else {
        number(s, lo, hi - 1) * 10 + (s[hi - 1] - 48)
    }
}

/// Whether `s` is three numbers that fit in an `i64`, with an `x` at `i` and at
/// `j` between them.
pub open spec fn dim_text(s: Seq<u8>, i: int, j: int) -> bool {
    &&& digits(s, 0, i)
    &&& digits(s, i + 1, j)
    &&& digits(s, j + 1, s.len() as int)
    &&& s[i] == 120
    &&& s[j] == 120
    &&& number(s, 0, i) <= i64::MAX
    &&& number(s, i + 1, j) <= i64::MAX
    &&& number(s, j + 1, s.len() as int) <= i64::MAX
}

/// The dimension that such a text gives.
pub open spec fn dim_of(s: Seq<u8>, i: int, j: int) -> Coord {
    Coord {
        x: number(s, 0, i) as i64,
        y: number(s, i + 1, j) as i64,
        z: number(s, j + 1, s.len() as int) as i64,
    }
}

/// Whether `s` is a list of cells: three digits for each cell, and a `-`
/// between one cell and the next.
pub open spec fn cells_text(s: Seq<u8>) -> bool {
    &&& s.len() % 4 == 3
    &&& forall|k: int|
        0 <= k && 4 * k < s.len() ==> {
            &&& is_digit(#[trigger] s[4 * k])
            &&& is_digit(s[4 * k + 1])
            &&& is_digit(s[4 * k + 2])
            &&& 4 * k + 3 < s.len() ==> s[4 * k + 3] == 45
        }
}

/// Cell `k` of such a list: one digit for each of x, y and z.
pub open spec fn cell_at(s: Seq<u8>, k: int) -> Coord {
    Coord {
        x: (s[4 * k] - 48) as i64,
        y: (s[4 * k + 1] - 48) as i64,
        z: (s[4 * k + 2] - 48) as i64,
    }
}

/// A run of digits writes a number that is not negative and not below that of
/// any shorter run from the same start.
pub proof fn lemma_number_grows(s: Seq<u8>, lo: int, mid: int, hi: int)
    requires
        0 <= lo <= mid <= hi <= s.len(),
        forall|i: int| lo <= i < hi ==> is_digit(#[trigger] s[i]),
    ensures
        0 <= number(s, lo, mid) <= number(s, lo, hi),
    decreases hi - mid, mid - lo,
{
    if hi > mid {
        lemma_number_grows(s, lo, mid, hi - 1);
        assert(is_digit(s[hi - 1]));
    } else if mid > lo {
        lemma_number_grows(s, lo, mid - 1, mid - 1);
        assert(is_digit(s[mid - 1]));
    }
}

/// Reads the longest run of digits from `start`. Gives the number and the end
/// of the run, or nothing if the run is empty or its number does not fit.
fn scan_number(bytes: &[u8], start: usize) -> (r: Option<(i64, usize)>)
    requires
        start <= bytes@.len(),
    ensures
        match r {
            Some((v, end)) => {
                &&& digits(bytes@, start as int, end as int)
                &&& end == bytes@.len() || !is_digit(bytes@[end as int])
                &&& v == number(bytes@, start as int, end as int)
            },
            None => forall|end: int|
                digits(bytes@, start as int, end) && (end == bytes@.len() || !is_digit(
                    bytes@[end],
                )) ==> number(bytes@, start as int, end) > i64::MAX,
        },
{
    let mut v: i64 = 0;
    let mut at: usize = start;
    while at < bytes.len() && 48 <= bytes[at] && bytes[at] <= 57
        invariant
            start <= at <= bytes@.len(),
            forall|i: int| start <= i < at ==> is_digit(#[trigger] bytes@[i]),
            0 <= v == number(bytes@, start as int, at as int),
        decreases bytes@.len() - at,
    {
        let d: i64 = (bytes[at] - 48) as i64;
        if v > (i64::MAX - d) / 10 {
            proof {
                assert(number(bytes@, start as int, at + 1) > i64::MAX);
                assert forall|end: int|
                    digits(bytes@, start as int, end) && (end == bytes@.len() || !is_digit(
                        bytes@[end],
                    )) implies number(bytes@, start as int, end) > i64::MAX by {
                    if end <= at {
                        assert(is_digit(bytes@[end]));
                    }
                    lemma_number_grows(bytes@, start as int, at + 1, end);
                }
            }
            return None;
        }
        v = v * 10 + d;
        at = at + 1;
    }
    if at == start {
        proof {
            assert forall|end: int| digits(bytes@, start as int, end) implies false by {
                assert(is_digit(bytes@[start as int]));
            }
        }
        return None;
    }
    Some((v, at))
}

impl Coord {
    /// Reads a dimension: three numbers with an `x` between them, as in
    /// `4x4x4`.
    pub fn from_str(s: &str) -> (r: Option<Coord>)
        ensures
            match r {
                Some(c) => exists|i: int, j: int|
                    #[trigger] dim_text(s.spec_bytes(), i, j) && c == dim_of(s.spec_bytes(), i, j),
                None => forall|i: int, j: int| !#[trigger] dim_text(s.spec_bytes(), i, j),
            },
    {
        let bytes = s.as_bytes();
        let ghost b = bytes@;
        let first = scan_number(bytes, 0);
        let (x, i) = match first {
            Some(p) => p,
            None => {
                proof {
                    assert forall|i: int, j: int| !#[trigger] dim_text(b, i, j) by {
                        if dim_text(b, i, j) {
                            assert(!is_digit(b[i]));
                        }
                    }
                }
                return None;
            },
        };
        proof {
            assert forall|i2: int, j: int| #[trigger] dim_text(b, i2, j) implies i2 == i by {
                if i2 < i {
                    assert(is_digit(b[i2]));
                }
                if i < i2 {
                    assert(is_digit(b[i as int]));
                }
            }
        }
        if i >= bytes.len() || bytes[i] != 120 {
            return None;
        }
        let second = scan_number(bytes, i + 1);
        let (y, j) = match second {
            Some(p) => p,
            None => {
                proof {
                    assert forall|i2: int, j: int| !#[trigger] dim_text(b, i2, j) by {
                        if dim_text(b, i2, j) {
                            assert(!is_digit(b[j]));
                        }
                    }
                }
                return None;
            },
        };
        proof {
            assert forall|i2: int, j2: int| #[trigger] dim_text(b, i2, j2) implies j2 == j by {
                if j2 < j {
                    assert(is_digit(b[j2]));
                }
                if j < j2 {
                    assert(is_digit(b[j as int]));
                }
            }
        }
        if j >= bytes.len() || bytes[j] != 120 {
            return None;
        }
        let third = scan_number(bytes, j + 1);
        let (z, end) = match third {
            Some(p) => p,
            None => {
                return None;
            },
        };
        if end != bytes.len() {
            proof {
                assert forall|i2: int, j2: int| !#[trigger] dim_text(b, i2, j2) by {
                    if dim_text(b, i2, j2) {
                        assert(is_digit(b[end as int]));
                    }
                }
            }
            return None;
        }
        assert(dim_text(b, i as int, j as int));
        Some(Coord { x, y, z })
    }

    /// Reads a list of cells: three digits for each, and a `-` between one cell
    /// and the next, as in `000-100-010`.
    pub fn from_str_list(s: &str) -> (r: Option<Vec<Coord>>)
        ensures
            r.is_some() == cells_text(s.spec_bytes()),
            match r {
                Some(v) => {
                    &&& 4 * v@.len() == s.spec_bytes().len() + 1
                    &&& forall|k: int|
                        0 <= k < v@.len() ==> #[trigger] v@[k] == cell_at(s.spec_bytes(), k)
                },
                None => true,
            },
    {
        let bytes = s.as_bytes();
        let ghost b = bytes@;
        let n = bytes.len();
        if n % 4 != 3 {
            return None;
        }
        let count: usize = n / 4 + 1;
        let mut cells: Vec<Coord> = Vec::new();
        let mut k: usize = 0;
        while k < count
            invariant
                n == b.len(),
                b == bytes@,
                b == s.spec_bytes(),
                n % 4 == 3,
                count == n / 4 + 1,
                k <= count,
                cells@.len() == k,
                forall|i: int|
                    0 <= i < k ==> {
                        &&& is_digit(#[trigger] b[4 * i])
                        &&& is_digit(b[4 * i + 1])
                        &&& is_digit(b[4 * i + 2])
                        &&& 4 * i + 3 < b.len() ==> b[4 * i + 3] == 45
                    },
                forall|i: int| 0 <= i < k ==> #[trigger] cells@[i] == cell_at(b, i),
            decreases count - k,
        {
            let at: usize = 4 * k;
            let (x, y, z) = (bytes[at], bytes[at + 1], bytes[at + 2]);
            if !(48 <= x && x <= 57 && 48 <= y && y <= 57 && 48 <= z && z <= 57) {
                assert(!(is_digit(b[4 * k]) && is_digit(b[4 * k + 1]) && is_digit(b[4 * k + 2])));
                return None;
            }
            if at + 3 < n && bytes[at + 3] != 45 {
                assert(b[4 * k + 3] != 45);
                return None;
            }
            cells.push(Coord { x: (x - 48) as i64, y: (y - 48) as i64, z: (z - 48) as i64 });
            k = k + 1;
        }
        proof {
            assert forall|i: int| 0 <= i && 4 * i < b.len() implies {
                &&& is_digit(#[trigger] b[4 * i])
                &&& is_digit(b[4 * i + 1])
                &&& is_digit(b[4 * i + 2])
                &&& 4 * i + 3 < b.len() ==> b[4 * i + 3] == 45
            } by {
                assert(i < cells@.len());
            }
        }
        Some(cells)
    }
}

} // verus!
