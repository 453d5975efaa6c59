use vstd::prelude::*;
use crate::direction::{Direction, dir_pos, grid, in_grid, line_of, lemma_dir_pos_bijection, slot_of};
use crate::line::{merge_line, lemma_merge_line_fixed, no_adjacent_equal};

verus! {

/// The values on line `line` of board `m` for direction `d`, read from slot
/// `from` away from the target edge, skipping free cells.
pub open spec fn extract_from(m: Map<(int, int), int>, d: Direction, line: int, from: int) -> Seq<int>
    decreases grid() - from when from <= grid()
{
    if from >= grid() {
        Seq::empty()
    } else if m.contains_key(dir_pos(d, line, from)) {
        seq![m[dir_pos(d, line, from)]] + extract_from(m, d, line, from + 1)
    } else {
        extract_from(m, d, line, from + 1)
    }
}

/// The values on line `line` of board `m`, ordered from the target edge.
pub open spec fn line_values(m: Map<(int, int), int>, d: Direction, line: int) -> Seq<int> {
    extract_from(m, d, line, 0)
}

/// The board after a move in direction `d`: on every line the occupied
/// values slide toward the target edge and merge, and the merged line fills
/// the slots nearest that edge.
pub open spec fn move_view(m: Map<(int, int), int>, d: Direction) -> Map<(int, int), int> {
    Map::new(
        |p: (int, int)| in_grid(p) && slot_of(d, p) < merge_line(line_values(m, d, line_of(d, p))).len(),
        |p: (int, int)| merge_line(line_values(m, d, line_of(d, p)))[slot_of(d, p)],
    )
}

/// Every value of board `m` is at most `bound`.
pub open spec fn values_below(m: Map<(int, int), int>, bound: int) -> bool {
    forall|p: (int, int)| #[trigger] m.contains_key(p) ==> m[p] <= bound
}

/// After a move every occupied cell lies on the grid, on both axes. The
/// board is a mapping from cells to values, so no two tiles can share a
/// cell.
pub proof fn lemma_move_view_on_grid(m: Map<(int, int), int>, d: Direction)
    ensures
        forall|p: (int, int)| #[trigger] move_view(m, d).contains_key(p) ==> in_grid(p),
{
}

/// A merged line never extends past the grid edge.
pub proof fn lemma_extract_len(m: Map<(int, int), int>, d: Direction, line: int, from: int)
    requires
        0 <= from <= grid(),
    ensures
        extract_from(m, d, line, from).len() <= grid() - from,
    decreases grid() - from,
{
    if from < grid() {
        lemma_extract_len(m, d, line, from + 1);
    }
}

/// After a move, reading a line back from the target edge returns exactly
/// the merged line: the slide left no gaps.
pub proof fn lemma_extract_of_move(m: Map<(int, int), int>, d: Direction, line: int)
    requires
        0 <= line < grid(),
    ensures
        line_values(move_view(m, d), d, line) == merge_line(line_values(m, d, line)),
{
    let ws = merge_line(line_values(m, d, line));
    lemma_extract_of_move_from(m, d, line, 0);
    assert(ws.skip(0) =~= ws);
}

proof fn lemma_extract_of_move_from(m: Map<(int, int), int>, d: Direction, line: int, from: int)
    requires
        0 <= line < grid(),
        0 <= from <= grid(),
    ensures
        extract_from(move_view(m, d), d, line, from)
            == if from <= merge_line(line_values(m, d, line)).len() {
                merge_line(line_values(m, d, line)).skip(from)
            } else {
                Seq::<int>::empty()
            },
    decreases grid() - from,
{
    let mv = move_view(m, d);
    let ws = merge_line(line_values(m, d, line));
    lemma_dir_pos_bijection(d);
    if from >= grid() {
        lemma_merge_len_within(m, d, line);
        if from <= ws.len() {
            assert(from == ws.len());
            assert(ws.skip(from) =~= Seq::<int>::empty());
        }
    } else {
        let p = dir_pos(d, line, from);
        assert(line_of(d, p) == line && slot_of(d, p) == from);
        lemma_extract_of_move_from(m, d, line, from + 1);
        lemma_merge_len_within(m, d, line);
        if from < ws.len() {
            assert(mv.contains_key(p));
            assert(mv[p] == ws[from]);
            assert(seq![ws[from]] + ws.skip(from + 1) =~= ws.skip(from));
        } else {
            assert(!mv.contains_key(p));
            if from == ws.len() {
                assert(ws.skip(from) =~= Seq::<int>::empty());
            }
        }
    }
}

/// A line holds at most `grid()` values, before or after merging.
pub proof fn lemma_merge_len_within(m: Map<(int, int), int>, d: Direction, line: int)
    ensures
        merge_line(line_values(m, d, line)).len() <= line_values(m, d, line).len() <= grid(),
{
    lemma_extract_len(m, d, line, 0);
    lemma_merge_shrinks(line_values(m, d, line));
}

proof fn lemma_merge_shrinks(vs: Seq<int>)
    ensures
        merge_line(vs).len() <= vs.len(),
    decreases vs.len(),
{
    if vs.len() == 0 {
    } else if vs.len() >= 2 && vs[0] == vs[1] {
        lemma_merge_shrinks(vs.skip(2));
    } else {
        lemma_merge_shrinks(vs.skip(1));
    }
}

/// Repeating a move changes nothing more when the first move left no two
/// equal values adjacent on any line: the tiles are already packed against
/// the target edge, so only a merge could still change the board.
///
/// Without that proviso the repetition can move again: a line of four equal
/// values merges to two equal adjacent values, which the repeated move
/// merges once more.
pub proof fn lemma_move_idempotent(m: Map<(int, int), int>, d: Direction)
    requires
        forall|line: int| 0 <= line < grid()
            ==> no_adjacent_equal(merge_line(#[trigger] line_values(m, d, line))),
    ensures
        move_view(move_view(m, d), d) =~= move_view(m, d),
{
    let mv = move_view(m, d);
    lemma_dir_pos_bijection(d);
    assert forall|l: int| 0 <= l < grid()
        implies merge_line(#[trigger] line_values(mv, d, l)) == merge_line(line_values(m, d, l)) by {
        lemma_extract_of_move(m, d, l);
        lemma_merge_line_fixed(merge_line(line_values(m, d, l)));
    }
    assert(move_view(mv, d) =~= mv);
}

} // verus!
