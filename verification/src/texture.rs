use vstd::prelude::*;

verus! {

/// Whether the checker cell with integer coordinates `(x, y, z)` takes the
/// even texture: the coordinates sum to an even number.
pub fn checker_is_even(x: i32, y: i32, z: i32) -> (r: bool)
    requires
        i32::MIN <= x + y <= i32::MAX,
        i32::MIN <= x + y + z <= i32::MAX,
    ensures
        r == ((x + y + z) % 2 == 0),
{
    (x + y + z) % 2 == 0
}

} // verus!
