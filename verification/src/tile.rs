use vstd::prelude::*;

verus! {

/// One numbered tile on the board: a value (a power of two, at least 2)
/// and the grid cell it occupies.
#[derive(Debug, Clone, Copy, PartialEq, Eq, Structural)]
pub struct Tile {
    pub value: u64,
    pub row: usize,
    pub col: usize,
}

impl Tile {
    pub fn new(value: u64, row: usize, col: usize) -> (t: Tile)
        ensures
            t.value == value,
            t.row == row,
            t.col == col,
    {
        Tile { value, row, col }
    }
}

/// The floor of the base-2 logarithm.
pub open spec fn log2(v: int) -> int
    decreases v when v >= 0
{
    if v <= 1 {
        0
    } else {
        1 + log2(v / 2)
    }
}

proof fn lemma_log2_nonneg(v: int)
    requires
        v >= 0,
    ensures
        log2(v) >= 0,
    decreases v,
{
    if v > 1 {
        lemma_log2_nonneg(v / 2);
    }
}

/// Which of the ten tile shades a value takes: shade `log2(value) - 1`,
/// and the last shade for every value of 2048 and above.
pub fn color_index(value: u64) -> (idx: usize)
    requires
        value >= 2,
    ensures
        idx as int == if log2(value as int) - 1 >= 9 {
            9int
        } else {
            log2(value as int) - 1
        },
{
    let mut v: u64 = value;
    let mut e: usize = 0;
    while v > 1 && e < 10
        invariant
            v >= 1,
            e <= 10,
            e + log2(v as int) == log2(value as int),
            e == 0 ==> v == value,
        decreases v,
    {
        v = v / 2;
        e = e + 1;
    }
    proof {
        if v > 1 {
            lemma_log2_nonneg(v as int / 2);
            assert(log2(v as int) >= 1);
        } else {
            assert(log2(v as int) == 0);
        }
    }
    let idx = e - 1;
    if idx >= 9 {
        9
    } else {
        idx
    }
}

} // verus!

