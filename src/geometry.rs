use vstd::prelude::*;

verus! {

/// A grid cell: row `y`, column `x`.
#[derive(PartialEq, Eq, Structural, Debug, Clone, Copy, Hash)]
pub struct Pos {
    pub y: i8,
    pub x: i8,
}

/// One atomic action: slide robot `c` in direction `d`.
#[derive(PartialEq, Eq, Structural, Debug, Clone, Copy)]
pub struct Move {
    pub c: usize,
    pub d: usize,
}

/// Row step of direction `d` (0 down, 1 right, 2 up, 3 left).
pub open spec fn dir_dy(d: int) -> int {
    if d == 0 {
        1
    } else if d == 2 {
        -1
    } else {
        0
    }
}

/// Column step of direction `d` (0 down, 1 right, 2 up, 3 left).
pub open spec fn dir_dx(d: int) -> int {
    if d == 1 {
        1
    } else if d == 3 {
        -1
    } else {
        0
    }
}

/// Row step of direction `d`.
pub fn direction_dy(d: usize) -> (r: i8)
    requires
        d < 4,
    ensures
        r as int == dir_dy(d as int),
{
    if d == 0 {
        1
    } else if d == 2 {
        -1
    } else {
        0
    }
}

/// Column step of direction `d`.
pub fn direction_dx(d: usize) -> (r: i8)
    requires
        d < 4,
    ensures
        r as int == dir_dx(d as int),
{
    if d == 1 {
        1
    } else if d == 3 {
        -1
    } else {
        0
    }
}

} // verus!
