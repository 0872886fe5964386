//! 32-bit floating point numbers, held and compared as their bits.
use vstd::prelude::*;

verus! {

/// The place of a 32-bit floating point number among the others, going by its bits; something
/// that is not a number has none.
pub open spec fn rank(bits: u32) -> Option<int> {
    let magnitude = if bits >= 0x8000_0000 {
        bits - 0x8000_0000
    } else {
        bits as int
    };
    if magnitude > 0x7f80_0000 {
        None
    } else if bits >= 0x8000_0000 {
        Some(-magnitude)
    } else {
        Some(magnitude)
    }
}

/// Tells whether one floating point number is greater than another, going by their bits.
pub open spec fn exceeds(a: u32, b: u32) -> bool {
    rank(a) is Some && rank(b) is Some && rank(a)->0 > rank(b)->0
}

/// Tells whether one floating point number is greater than another, going by their bits.
pub fn is_greater(a: u32, b: u32) -> (r: bool)
    ensures
        r == exceeds(a, b),
{
    let x: i64 = if a >= 0x8000_0000 {
        0x8000_0000 - a as i64
    } else {
        a as i64
    };
    let y: i64 = if b >= 0x8000_0000 {
        0x8000_0000 - b as i64
    } else {
        b as i64
    };
    let limit: i64 = 0x7f80_0000;
    -limit <= x && x <= limit && -limit <= y && y <= limit && x > y
}

/// Tells whether two floating point numbers are equal, going by their bits: the two zeros are, and
/// something that is not a number equals nothing.
pub open spec fn equal_numbers(a: u32, b: u32) -> bool {
    rank(a) is Some && rank(a) == rank(b)
}

/// Tells whether two floating point numbers are equal, going by their bits.
pub fn is_equal(a: u32, b: u32) -> (r: bool)
    ensures
        r == equal_numbers(a, b),
{
    let x: u32 = if a >= 0x8000_0000 {
        a - 0x8000_0000
    } else {
        a
    };
    let y: u32 = if b >= 0x8000_0000 {
        b - 0x8000_0000
    } else {
        b
    };
    x <= 0x7f80_0000 && y <= 0x7f80_0000 && (a == b || (x == 0 && y == 0))
}

/// Tells whether two vectors of floating point numbers are equal, going by their bits.
pub open spec fn equal_vectors(a: Seq<u32>, b: Seq<u32>) -> bool {
    &&& a.len() == b.len()
    &&& forall|i: int| 0 <= i < a.len() ==> equal_numbers(#[trigger] a[i], b[i])
}

/// Tells whether two vectors of floating point numbers are equal, going by their bits.
pub fn are_equal(a: &[u32], b: &[u32]) -> (r: bool)
    ensures
        r == equal_vectors(a@, b@),
{
    if a.len() != b.len() {
        return false;
    }
    let n: usize = a.len();
    let mut i: usize = 0;
    while i < n
        invariant
            n == a@.len(),
            n == b@.len(),
            i <= n,
            forall|k: int| 0 <= k < i ==> equal_numbers(#[trigger] a@[k], b@[k]),
        decreases n - i,
    {
        if !is_equal(a[i], b[i]) {
            return false;
        }
        i = i + 1;
    }
    true
}

/// Of two values that are numbers, the first is greater, or the second, or they are equal, and no two
/// of these hold at once.
pub proof fn numbers_are_ordered(a: u32, b: u32)
    ensures
        !(exceeds(a, b) && exceeds(b, a)),
        !(exceeds(a, b) && equal_numbers(a, b)),
        !(exceeds(b, a) && equal_numbers(a, b)),
        equal_numbers(a, b) == equal_numbers(b, a),
        rank(a) is Some && rank(b) is Some ==> exceeds(a, b) || exceeds(b, a) || equal_numbers(
            a,
            b,
        ),
{
}

/// Positive numbers are ordered as their bits are, negative ones the other way round, and every
/// negative number but zero is less than every positive one. What has bits beyond those of infinity
/// is no number and is neither greater than, nor equal to anything.
pub proof fn bits_order_the_numbers(a: u32, b: u32)
    ensures
        a <= 0x7f80_0000 && b <= 0x7f80_0000 ==> (exceeds(a, b) <==> a > b) && (equal_numbers(a, b)
            <==> a == b),
        0x8000_0000 <= a <= 0xff80_0000 && 0x8000_0000 <= b <= 0xff80_0000 ==> (exceeds(a, b) <==> a
            < b) && (equal_numbers(a, b) <==> a == b),
        a <= 0x7f80_0000 && 0x8000_0000 <= b <= 0xff80_0000 ==> (exceeds(a, b) <==> a > 0 || b
            > 0x8000_0000) && !exceeds(b, a) && (equal_numbers(a, b) <==> a == 0 && b
            == 0x8000_0000),
        0x7f80_0000 < a < 0x8000_0000 || a > 0xff80_0000 ==> !exceeds(a, b) && !exceeds(b, a)
            && !equal_numbers(a, b) && !equal_numbers(b, a),
{
}

/// Vectors are equal if and only if they are equally long and equal at every place.
pub proof fn vectors_are_equal_place_by_place(a: Seq<u32>, x: u32, b: Seq<u32>, y: u32)
    ensures
        equal_vectors(a.push(x), b.push(y)) <==> equal_vectors(a, b) && equal_numbers(x, y),
        equal_vectors(seq![], seq![]),
        equal_vectors(a, b) ==> a.len() == b.len(),
{
    let p = a.push(x);
    let q = b.push(y);
    if equal_vectors(p, q) {
        assert forall|i: int| 0 <= i < a.len() implies equal_numbers(#[trigger] a[i], b[i]) by {
            assert(equal_numbers(p[i], q[i]));
        }
        assert(equal_numbers(p[a.len() as int], q[a.len() as int]));
    }
    if equal_vectors(a, b) && equal_numbers(x, y) {
        assert forall|i: int| 0 <= i < p.len() implies equal_numbers(#[trigger] p[i], q[i]) by {
            if i < a.len() {
                assert(equal_numbers(a[i], b[i]));
            }
        }
    }
}

} // verus!
