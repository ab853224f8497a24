//! Index arithmetic of the flat score buffers.
use vstd::prelude::*;
use crate::model::{idx, round_up};

verus! {

/// Flat position of `(x, y)` in rows of `width` entries.
pub fn index(x: usize, y: usize, width: usize) -> (r: usize)
    requires
        idx(x as int, y as int, width as int) <= usize::MAX,
    ensures
        r == idx(x as int, y as int, width as int),
{
    y * width + x
}

/// Column and row of a flat position in rows of `width` entries.
pub fn coord(index: usize, width: usize) -> (r: (usize, usize))
    requires
        width > 0,
    ensures
        r.0 < width,
        idx(r.0 as int, r.1 as int, width as int) == index,
        r.0 == index % width,
        r.1 == index / width,
{
    let x = index % width;
    let y = index / width;
    assert(idx(x as int, y as int, width as int) == index) by (nonlinear_arith)
        requires
            x == index % width,
            y == index / width,
            width > 0,
    ;
    (x, y)
}

/// `number` rounded up to a multiple of `multiple`; unchanged when `multiple` is 0.
pub fn roundup(number: usize, multiple: usize) -> (r: usize)
    requires
        multiple > 0 ==> number + multiple <= usize::MAX + 1,
    ensures
        r == round_up(number as int, multiple as int),
        multiple == 0 ==> r == number,
        multiple > 0 ==> r % multiple == 0 && number <= r < number + multiple,
{
    if multiple == 0 {
        return number;
    }
    let remainder = number % multiple;
    if remainder == 0 {
        return number;
    }
    let r = number + (multiple - remainder);
    assert(r % multiple == 0 && number <= r < number + multiple) by (nonlinear_arith)
        requires
            remainder == number % multiple,
            remainder != 0,
            multiple > 0,
            r == number + (multiple - remainder),
    ;
    r
}

} // verus!
