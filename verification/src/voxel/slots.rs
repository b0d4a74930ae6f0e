//! Slots of faces in powers of two, and where the stack of free slots of each size is.
use vstd::prelude::*;

verus! {

/// The faces of a slot of class `c`: 64, and twice as many for each class after.
pub open spec fn class_faces(c: int) -> int
    decreases c,
{
    if c <= 0 {
        64
    } else {
        2 * class_faces(c - 1)
    }
}

/// The entries that the stacks of the first `n` classes take, where a stack holds at
/// most as many slots as fit in `capacity` faces.
pub open spec fn stack_entries(capacity: int, n: int) -> int
    decreases n,
{
    if n <= 0 {
        0
    } else {
        stack_entries(capacity, n - 1) + capacity / class_faces(n - 1)
    }
}

/// A larger divisor gives no more.
proof fn no_more(a: int, b: int, c: int)
    requires
        0 <= a,
        0 < b <= c,
    ensures
        0 <= a / c <= a / b,
{
    vstd::arithmetic::div_mod::lemma_div_is_ordered_by_denominator(a, b, c);
    vstd::arithmetic::div_mod::lemma_div_pos_is_pos(a, c);
}

/// Where the stack of free slots of each class begins, and how many entries all of them
/// take.
pub fn stack_bases(capacity: usize) -> (out: ([u32; 10], usize))
    requires
        capacity <= u32::MAX,
    ensures
        forall|c: int| 0 <= c < 10 ==> #[trigger] out.0[c] == stack_entries(capacity as int, c),
        out.1 == stack_entries(capacity as int, 10),
{
    let mut base: [u32; 10] = [0; 10];
    let mut total: usize = 0;
    let mut size: usize = 64;
    let mut c: usize = 0;
    while c < 10
        invariant
            c <= 10,
            capacity <= u32::MAX,
            64 <= size <= 65536,
            size == class_faces(c as int),
            c == 0 ==> size == 64,
            c == 1 ==> size == 128,
            c == 2 ==> size == 256,
            c == 3 ==> size == 512,
            c == 4 ==> size == 1024,
            c == 5 ==> size == 2048,
            c == 6 ==> size == 4096,
            c == 7 ==> size == 8192,
            c == 8 ==> size == 16384,
            c == 9 ==> size == 32768,
            total == stack_entries(capacity as int, c as int),
            total <= c * 67108864,
            forall|k: int| 0 <= k < c ==> #[trigger] base[k] == stack_entries(capacity as int, k),
        decreases 10 - c,
    {
        base[c] = total as u32;
        proof {
            no_more(capacity as int, 64, size as int);
            assert(capacity as int / 64 <= 67108864);
        }
        total += capacity / size;
        size = size * 2;
        c += 1;
    }
    (base, total)
}

} // verus!
