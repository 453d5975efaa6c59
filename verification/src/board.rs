use vstd::prelude::*;
use crate::GRID_SIZE;
use crate::direction::{Direction, dir_cell, dir_pos, in_grid, line_of, lemma_dir_pos_bijection, slot_of};
use crate::line::{MAX_MERGE_VALUE, int_seq, is_pow2, lemma_merge_line_bounds, merge_line, merge_line_vec};
use crate::moves::{line_values, extract_from, lemma_extract_len, move_view, values_below};
use crate::rng::gen_range_usize;
use crate::tile::Tile;
use vstd::set_lib::{lemma_int_range, lemma_len_subset, set_int_range};
use vstd::assert_sets_equal;

verus! {

/// Whether cell `p` comes before slot `slot` of line `line` in the order in
/// which a move lays the merged lines out.
spec fn placed_before(d: Direction, line: int, slot: int, p: (int, int)) -> bool {
    line_of(d, p) < line || (line_of(d, p) == line && slot_of(d, p) < slot)
}

/// The part of `move_view` that a move has laid out before reaching slot
/// `slot` of line `line`.
spec fn partial_view(m: Map<(int, int), int>, d: Direction, line: int, slot: int) -> Map<(int, int), int> {
    Map::new(
        |p: (int, int)| in_grid(p) && placed_before(d, line, slot, p)
            && slot_of(d, p) < merge_line(line_values(m, d, line_of(d, p))).len(),
        |p: (int, int)| merge_line(line_values(m, d, line_of(d, p)))[slot_of(d, p)],
    )
}

/// Whether the two boards agree on cell `p`: both free, or both occupied by
/// the same value.
spec fn agree(ma: Map<(int, int), int>, mb: Map<(int, int), int>, p: (int, int)) -> bool {
    (ma.contains_key(p) <==> mb.contains_key(p)) && (ma.contains_key(p) ==> ma[p] == mb[p])
}

/// Whether cell `p` comes before (row `r`, column `c`) in row-major order.
spec fn scanned(r: int, c: int, p: (int, int)) -> bool {
    p.0 < r || (p.0 == r && p.1 < c)
}

/// The indices of the tiles of `s` whose cell comes before (row `r`,
/// column `c`) in row-major order.
spec fn seen_set(s: Seq<Tile>, r: int, c: int) -> Set<int> {
    Set::new(|i: int| 0 <= i < s.len() && scanned(r, c, tile_pos(s[i])))
}

/// The grid cell a tile occupies, as a pair of mathematical integers.
pub open spec fn tile_pos(t: Tile) -> (int, int) {
    (t.row as int, t.col as int)
}

/// The mapping from occupied cells to tile values that a sequence of tiles
/// represents. A later tile overrides an earlier one at the same cell, but a
/// well-formed board never holds two tiles on one cell.
pub open spec fn tiles_map(s: Seq<Tile>) -> Map<(int, int), int>
    decreases s.len(),
{
    if s.len() == 0 {
        Map::empty()
    } else {
        tiles_map(s.drop_last()).insert(tile_pos(s.last()), s.last().value as int)
    }
}

/// No two tiles of the sequence occupy the same cell.
pub open spec fn distinct_positions(s: Seq<Tile>) -> bool {
    forall|i: int, j: int| 0 <= i < j < s.len() ==> tile_pos(#[trigger] s[i]) != tile_pos(#[trigger] s[j])
}

/// Every tile of the sequence lies on the grid and carries a power of two
/// of at least 2 as its value.
pub open spec fn tiles_ok(s: Seq<Tile>) -> bool {
    forall|i: int| 0 <= i < s.len() ==> {
        &&& in_grid(tile_pos(#[trigger] s[i]))
        &&& is_pow2(s[i].value as int)
        &&& s[i].value >= 2
    }
}

/// A cell of `tiles_map(s)` is occupied exactly when some tile of `s` sits
/// on it.
pub proof fn lemma_tiles_map_domain(s: Seq<Tile>)
    ensures
        forall|p: (int, int)|
            #[trigger] tiles_map(s).contains_key(p) <==> exists|i: int| 0 <= i < s.len() && tile_pos(#[trigger] s[i]) == p,
    decreases s.len(),
{
    if s.len() > 0 {
        lemma_tiles_map_domain(s.drop_last());
        assert forall|p: (int, int)| #[trigger] tiles_map(s).contains_key(p)
            implies exists|i: int| 0 <= i < s.len() && tile_pos(#[trigger] s[i]) == p by {
            if p == tile_pos(s.last()) {
                assert(tile_pos(s[s.len() - 1]) == p);
            } else {
                assert(tiles_map(s.drop_last()).contains_key(p));
                let i = choose|i: int| 0 <= i < s.drop_last().len() && tile_pos(#[trigger] s.drop_last()[i]) == p;
                assert(s.drop_last()[i] == s[i]);
                assert(tile_pos(s[i]) == p);
            }
        }
        assert forall|p: (int, int)|
            (exists|i: int| 0 <= i < s.len() && tile_pos(#[trigger] s[i]) == p)
            implies #[trigger] tiles_map(s).contains_key(p) by {
            let i = choose|i: int| 0 <= i < s.len() && tile_pos(#[trigger] s[i]) == p;
            if i < s.len() - 1 {
                assert(tile_pos(s.drop_last()[i]) == p);
                assert(exists|j: int|
                    0 <= j < s.drop_last().len() && tile_pos(#[trigger] s.drop_last()[j]) == p);
                assert(tiles_map(s.drop_last()).contains_key(p));
            } else {
                assert(p == tile_pos(s.last()));
            }
        }
    }
}

/// On a board with no doubly-occupied cell, the mapping sends each tile's
/// cell to that tile's value.
pub proof fn lemma_tiles_map_index(s: Seq<Tile>, i: int)
    requires
        distinct_positions(s),
        0 <= i < s.len(),
    ensures
        tiles_map(s).contains_key(tile_pos(s[i])),
        tiles_map(s)[tile_pos(s[i])] == s[i].value as int,
    decreases s.len(),
{
    if i == s.len() - 1 {
    } else {
        lemma_tiles_map_index(s.drop_last(), i);
        assert(tile_pos(s[i]) != tile_pos(s[s.len() - 1]));
    }
}

/// The board: every tile currently in play, each on its own grid cell.
pub struct Board {
    tiles: Vec<Tile>,
}

impl View for Board {
    type V = Map<(int, int), int>;

    closed spec fn view(&self) -> Map<(int, int), int> {
        tiles_map(self.tiles@)
    }
}

impl Board {
    /// The tiles in play, in insertion order.
    pub closed spec fn tiles_seq(&self) -> Seq<Tile> {
        self.tiles@
    }

    /// Board well-formedness: tiles lie on the grid, no cell holds two
    /// tiles, and every value is a power of two of at least 2.
    pub closed spec fn wf(&self) -> bool {
        distinct_positions(self.tiles@) && tiles_ok(self.tiles@)
    }

    /// An empty board.
    pub fn new() -> (b: Board)
        ensures
            b.wf(),
            b@ == Map::<(int, int), int>::empty(),
            b.tiles_seq() == Seq::<Tile>::empty(),
    {
        Board { tiles: Vec::new() }
    }

    /// How many tiles are in play.
    pub fn tile_count(&self) -> (n: usize)
        ensures
            n == self.tiles_seq().len(),
    {
        self.tiles.len()
    }

    /// The tile at index `i` of the board's tile list.
    pub fn tile(&self, i: usize) -> (t: Tile)
        requires
            i < self.tiles_seq().len(),
        ensures
            t == self.tiles_seq()[i as int],
    {
        self.tiles[i]
    }

    /// Place a tile on a free cell.
    pub fn insert_tile(&mut self, tile: Tile)
        requires
            old(self).wf(),
            tile.row < GRID_SIZE,
            tile.col < GRID_SIZE,
            !old(self)@.contains_key(tile_pos(tile)),
            is_pow2(tile.value as int),
            tile.value >= 2,
        ensures
            final(self).wf(),
            final(self).tiles_seq() == old(self).tiles_seq().push(tile),
            final(self)@ == old(self)@.insert(tile_pos(tile), tile.value as int),
    {
        proof {
            lemma_tiles_map_domain(self.tiles@);
            assert forall|i: int| 0 <= i < self.tiles@.len()
                implies tile_pos(#[trigger] self.tiles@[i]) != tile_pos(tile) by {
                if tile_pos(self.tiles@[i]) == tile_pos(tile) {
                    assert(tiles_map(self.tiles@).contains_key(tile_pos(tile)));
                }
            }
            assert(self.tiles@.push(tile).drop_last() =~= self.tiles@);
        }
        self.tiles.push(tile);
    }

    /// Look up the tile occupying (row, col), if any, by its index in the
    /// tile list.
    pub fn find_tile(&self, row: usize, col: usize) -> (r: Option<usize>)
        ensures
            match r {
                Some(i) => i < self.tiles_seq().len()
                    && self.tiles_seq()[i as int].row == row
                    && self.tiles_seq()[i as int].col == col,
                None => forall|i: int| 0 <= i < self.tiles_seq().len()
                    ==> tile_pos(#[trigger] self.tiles_seq()[i]) != (row as int, col as int),
            },
    {
        tile_index(&self.tiles, row, col)
    }

    /// The value on cell (row, col), or `None` when the cell is free.
    pub fn value_at(&self, row: usize, col: usize) -> (r: Option<u64>)
        requires
            self.wf(),
        ensures
            match r {
                Some(v) => self@.contains_key((row as int, col as int))
                    && self@[(row as int, col as int)] == v as int,
                None => !self@.contains_key((row as int, col as int)),
            },
    {
        proof {
            lemma_tiles_map_domain(self.tiles@);
        }
        match tile_index(&self.tiles, row, col) {
            Some(i) => {
                proof {
                    lemma_tiles_map_index(self.tiles@, i as int);
                }
                Some(self.tiles[i].value)
            },
            None => None,
        }
    }

    /// Resolve a move: on every line the tiles slide toward the target edge
    /// and equal adjacent values merge, nearest the edge first, each at most
    /// once. Returns whether anything slid or merged; when nothing did, the
    /// board is left untouched and no tile spawns.
    pub fn move_tiles(&mut self, d: Direction) -> (moved: bool)
        requires
            old(self).wf(),
            values_below(old(self)@, MAX_MERGE_VALUE as int),
        ensures
            final(self).wf(),
            final(self)@ == move_view(old(self)@, d),
            moved <==> final(self)@ != old(self)@,
            !moved ==> final(self).tiles_seq() == old(self).tiles_seq(),
    {
        let ghost s0 = self.tiles@;
        let ghost m0 = self@;
        proof {
            lemma_tiles_map_domain(s0);
            lemma_dir_pos_bijection(d);
            assert forall|p: (int, int)| #[trigger] m0.contains_key(p)
                implies in_grid(p) && 2 <= m0[p] <= MAX_MERGE_VALUE as int && is_pow2(m0[p]) by {
                let i = choose|i: int| 0 <= i < s0.len() && tile_pos(#[trigger] s0[i]) == p;
                lemma_tiles_map_index(s0, i);
            }
        }
        let mut new_tiles: Vec<Tile> = Vec::new();
        proof {
            assert(tiles_map(new_tiles@) =~= partial_view(m0, d, 0, 0));
        }
        let mut line: usize = 0;
        while line < GRID_SIZE
            invariant
                line <= GRID_SIZE,
                self.tiles@ == s0,
                m0 == tiles_map(s0),
                distinct_positions(s0),
                forall|p: (int, int)| #[trigger] m0.contains_key(p)
                    ==> in_grid(p) && 2 <= m0[p] <= MAX_MERGE_VALUE as int && is_pow2(m0[p]),
                tiles_map(new_tiles@) == partial_view(m0, d, line as int, 0),
                distinct_positions(new_tiles@),
                tiles_ok(new_tiles@),
            decreases GRID_SIZE - line,
        {
            let ghost l = line as int;
            // Gather the line's values, ordered from the target edge.
            let mut vals: Vec<u64> = Vec::new();
            proof {
                assert(int_seq(vals@) =~= Seq::<int>::empty());
                assert(Seq::<int>::empty() + extract_from(m0, d, l, 0) =~= extract_from(m0, d, l, 0));
            }
            let mut k: usize = 0;
            while k < GRID_SIZE
                invariant
                    k <= GRID_SIZE,
                    line < GRID_SIZE,
                    l == line as int,
                    self.tiles@ == s0,
                    m0 == tiles_map(s0),
                    distinct_positions(s0),
                    forall|p: (int, int)| #[trigger] m0.contains_key(p)
                        ==> in_grid(p) && 2 <= m0[p] <= MAX_MERGE_VALUE as int && is_pow2(m0[p]),
                    int_seq(vals@) + extract_from(m0, d, l, k as int) == line_values(m0, d, l),
                    forall|i: int| 0 <= i < vals@.len()
                        ==> 2 <= #[trigger] vals@[i] <= MAX_MERGE_VALUE && is_pow2(vals@[i] as int),
                decreases GRID_SIZE - k,
            {
                let (r, c) = dir_cell(d, line, k);
                let ghost p = dir_pos(d, l, k as int);
                match tile_index(&self.tiles, r, c) {
                    Some(i) => {
                        let v = self.tiles[i].value;
                        proof {
                            lemma_tiles_map_domain(s0);
                            lemma_tiles_map_index(s0, i as int);
                            assert(m0.contains_key(p) && m0[p] == v as int);
                            assert(extract_from(m0, d, l, k as int)
                                == seq![m0[p]] + extract_from(m0, d, l, k as int + 1));
                            assert(int_seq(vals@.push(v)) =~= int_seq(vals@) + seq![v as int]);
                            assert((int_seq(vals@) + seq![v as int]) + extract_from(m0, d, l, k as int + 1)
                                =~= int_seq(vals@) + (seq![v as int] + extract_from(m0, d, l, k as int + 1)));
                        }
                        vals.push(v);
                    },
                    None => {
                        proof {
                            lemma_tiles_map_domain(s0);
                            assert(!m0.contains_key(p));
                        }
                    },
                }
                k = k + 1;
            }
            proof {
                assert(extract_from(m0, d, l, GRID_SIZE as int) =~= Seq::<int>::empty());
                assert(int_seq(vals@) + Seq::<int>::empty() =~= int_seq(vals@));
                assert(int_seq(vals@) == line_values(m0, d, l));
            }
            // Slide and merge.
            let merged = merge_line_vec(&vals);
            proof {
                lemma_merge_line_bounds(int_seq(vals@), MAX_MERGE_VALUE as int);
                lemma_extract_len(m0, d, l, 0);
                assert(int_seq(merged@).len() == merged@.len());
                assert forall|j: int| 0 <= j < merged@.len()
                    implies 2 <= #[trigger] merged@[j] && is_pow2(merged@[j] as int) by {
                    assert(int_seq(merged@)[j] == merged@[j] as int);
                }
            }
            // Lay the merged line out from the target edge.
            let mut slot: usize = 0;
            while slot < merged.len()
                invariant
                    slot <= merged@.len(),
                    line < GRID_SIZE,
                    l == line as int,
                    merged@.len() <= GRID_SIZE,
                    int_seq(merged@) == merge_line(line_values(m0, d, l)),
                    forall|j: int| 0 <= j < merged@.len()
                        ==> 2 <= #[trigger] merged@[j] && is_pow2(merged@[j] as int),
                    tiles_map(new_tiles@) == partial_view(m0, d, l, slot as int),
                    distinct_positions(new_tiles@),
                    tiles_ok(new_tiles@),
                decreases merged@.len() - slot,
            {
                let (r, c) = dir_cell(d, line, slot);
                let t = Tile::new(merged[slot], r, c);
                proof {
                    lemma_dir_pos_bijection(d);
                    lemma_tiles_map_domain(new_tiles@);
                    let p = dir_pos(d, l, slot as int);
                    assert(tile_pos(t) == p);
                    assert(!placed_before(d, l, slot as int, p));
                    assert(!tiles_map(new_tiles@).contains_key(p));
                    assert forall|i: int| 0 <= i < new_tiles@.len()
                        implies tile_pos(#[trigger] new_tiles@[i]) != p by {
                        if tile_pos(new_tiles@[i]) == p {
                            assert(tiles_map(new_tiles@).contains_key(p));
                        }
                    }
                    assert(new_tiles@.push(t).drop_last() =~= new_tiles@);
                    assert(tiles_map(new_tiles@.push(t))
                        == tiles_map(new_tiles@).insert(p, merged@[slot as int] as int));
                    assert(merged@[slot as int] as int == int_seq(merged@)[slot as int]);
                    assert(tiles_map(new_tiles@).insert(p, merged@[slot as int] as int)
                        =~= partial_view(m0, d, l, slot as int + 1));
                }
                new_tiles.push(t);
                slot = slot + 1;
            }
            proof {
                assert(partial_view(m0, d, l, merged@.len() as int) =~= partial_view(m0, d, l + 1, 0));
            }
            line = line + 1;
        }
        proof {
            lemma_dir_pos_bijection(d);
            assert(partial_view(m0, d, GRID_SIZE as int, 0) =~= move_view(m0, d));
        }
        let same = boards_equal(&self.tiles, &new_tiles);
        if same {
            proof {
                assert(m0 == tiles_map(new_tiles@));
            }
            false
        } else {
            self.tiles = new_tiles;
            true
        }
    }

    /// Pick a free cell uniformly at random. The board is not full, so by
    /// counting cells against tiles at least one cell must be free.
    fn random_free_cell(&self) -> (rc: (usize, usize))
        requires
            self.wf(),
            self.tiles_seq().len() < GRID_SIZE * GRID_SIZE,
        ensures
            rc.0 < GRID_SIZE,
            rc.1 < GRID_SIZE,
            !self@.contains_key((rc.0 as int, rc.1 as int)),
    {
        let ghost s = self.tiles@;
        let ghost m = self@;
        let mut free: Vec<(usize, usize)> = Vec::new();
        proof {
            assert_sets_equal!(seen_set(s, 0, 0) == Set::<int>::empty());
        }
        let mut r: usize = 0;
        while r < GRID_SIZE
            invariant
                r <= GRID_SIZE,
                s == self.tiles@,
                m == tiles_map(s),
                distinct_positions(s),
                tiles_ok(s),
                seen_set(s, r as int, 0).finite(),
                free@.len() + seen_set(s, r as int, 0).len() == (r as int) * (GRID_SIZE as int),
                forall|j: int| 0 <= j < free@.len() ==> (#[trigger] free@[j]).0 < GRID_SIZE
                    && free@[j].1 < GRID_SIZE
                    && !m.contains_key((free@[j].0 as int, free@[j].1 as int)),
            decreases GRID_SIZE - r,
        {
            let mut c: usize = 0;
            while c < GRID_SIZE
                invariant
                    c <= GRID_SIZE,
                    r < GRID_SIZE,
                    s == self.tiles@,
                    m == tiles_map(s),
                    distinct_positions(s),
                    tiles_ok(s),
                    seen_set(s, r as int, c as int).finite(),
                    free@.len() + seen_set(s, r as int, c as int).len()
                        == (r as int) * (GRID_SIZE as int) + c,
                    forall|j: int| 0 <= j < free@.len() ==> (#[trigger] free@[j]).0 < GRID_SIZE
                        && free@[j].1 < GRID_SIZE
                        && !m.contains_key((free@[j].0 as int, free@[j].1 as int)),
                decreases GRID_SIZE - c,
            {
                let ghost old_seen = seen_set(s, r as int, c as int);
                let ghost p = (r as int, c as int);
                match tile_index(&self.tiles, r, c) {
                    Some(i) => {
                        proof {
                            assert(tile_pos(s[i as int]) == p);
                            assert(!old_seen.contains(i as int));
                            assert_sets_equal!(
                                seen_set(s, r as int, c as int + 1) == old_seen.insert(i as int),
                                j => {
                                    if 0 <= j < s.len() && tile_pos(s[j]) == p && j != i as int {
                                        assert(tile_pos(s[j]) != tile_pos(s[i as int]));
                                    }
                                }
                            );
                        }
                    },
                    None => {
                        proof {
                            lemma_tiles_map_domain(s);
                            assert(!m.contains_key(p));
                            assert_sets_equal!(
                                seen_set(s, r as int, c as int + 1) == old_seen,
                                j => {
                                    if 0 <= j < s.len() && tile_pos(s[j]) == p {
                                        assert(m.contains_key(p));
                                    }
                                }
                            );
                        }
                        free.push((r, c));
                    },
                }
                c = c + 1;
            }
            proof {
                assert_sets_equal!(
                    seen_set(s, r as int + 1, 0) == seen_set(s, r as int, GRID_SIZE as int),
                    j => {
                        if 0 <= j < s.len() {
                            assert(in_grid(tile_pos(s[j])));
                        }
                    }
                );
            }
            r = r + 1;
        }
        proof {
            let seen = seen_set(s, GRID_SIZE as int, 0);
            lemma_int_range(0, s.len() as int);
            assert(seen.subset_of(set_int_range(0, s.len() as int)));
            lemma_len_subset(seen, set_int_range(0, s.len() as int));
            assert(free@.len() >= 1);
        }
        let idx = gen_range_usize(0, free.len());
        free[idx]
    }

    /// Spawn one tile after a successful move: a no-op when the board is
    /// full, otherwise a tile of value 4 (one draw in nine) or 2 (the other
    /// eight) appears on a free cell chosen uniformly at random.
    pub fn spawn_tile(&mut self)
        requires
            old(self).wf(),
        ensures
            final(self).wf(),
            old(self).tiles_seq().len() >= GRID_SIZE * GRID_SIZE ==> *final(self) == *old(self),
            old(self).tiles_seq().len() < GRID_SIZE * GRID_SIZE ==> {
                &&& final(self).tiles_seq()
                    == old(self).tiles_seq().push(final(self).tiles_seq().last())
                &&& in_grid(tile_pos(final(self).tiles_seq().last()))
                &&& !old(self)@.contains_key(tile_pos(final(self).tiles_seq().last()))
                &&& (final(self).tiles_seq().last().value == 2
                    || final(self).tiles_seq().last().value == 4)
                &&& final(self)@ == old(self)@.insert(
                    tile_pos(final(self).tiles_seq().last()),
                    final(self).tiles_seq().last().value as int,
                )
            },
    {
        if self.tiles.len() >= GRID_SIZE * GRID_SIZE {
            return;
        }
        let (row, col) = self.random_free_cell();
        let draw = gen_range_usize(0, 9);
        let value: u64 = if draw == 0 { 4 } else { 2 };
        proof {
            assert(is_pow2(1));
            assert(is_pow2(2));
            assert(is_pow2(4));
        }
        self.insert_tile(Tile::new(value, row, col));
    }

    /// Start a game: two tiles of value 2, each on its own random cell.
    pub fn new_game() -> (b: Board)
        ensures
            b.wf(),
            b.tiles_seq().len() == 2,
            forall|i: int| 0 <= i < 2 ==> b.tiles_seq()[i].value == 2,
    {
        proof {
            assert(is_pow2(1));
            assert(is_pow2(2));
        }
        let mut b = Board::new();
        let (r0, c0) = b.random_free_cell();
        b.insert_tile(Tile::new(2, r0, c0));
        let (r1, c1) = b.random_free_cell();
        b.insert_tile(Tile::new(2, r1, c1));
        b
    }
}

/// Look up the tile occupying (row, col) in a tile list.
fn tile_index(tiles: &Vec<Tile>, row: usize, col: usize) -> (r: Option<usize>)
    ensures
        match r {
            Some(i) => i < tiles@.len() && tiles@[i as int].row == row && tiles@[i as int].col == col,
            None => forall|i: int| 0 <= i < tiles@.len()
                ==> tile_pos(#[trigger] tiles@[i]) != (row as int, col as int),
        },
{
    let mut i: usize = 0;
    while i < tiles.len()
        invariant
            i <= tiles@.len(),
            forall|j: int| 0 <= j < i ==> tile_pos(#[trigger] tiles@[j]) != (row as int, col as int),
        decreases tiles@.len() - i,
    {
        if tiles[i].row == row && tiles[i].col == col {
            return Some(i);
        }
        i = i + 1;
    }
    None
}

/// Whether the two tile lists put the same value on cell (row, col), or
/// both leave it free.
fn cell_agrees(a: &Vec<Tile>, b: &Vec<Tile>, row: usize, col: usize) -> (ok: bool)
    requires
        distinct_positions(a@),
        distinct_positions(b@),
    ensures
        ok <==> agree(tiles_map(a@), tiles_map(b@), (row as int, col as int)),
{
    proof {
        lemma_tiles_map_domain(a@);
        lemma_tiles_map_domain(b@);
    }
    match (tile_index(a, row, col), tile_index(b, row, col)) {
        (Some(i), Some(j)) => {
            proof {
                lemma_tiles_map_index(a@, i as int);
                lemma_tiles_map_index(b@, j as int);
            }
            a[i].value == b[j].value
        },
        (None, None) => true,
        (Some(i), None) => {
            proof {
                lemma_tiles_map_index(a@, i as int);
            }
            false
        },
        (None, Some(j)) => {
            proof {
                lemma_tiles_map_index(b@, j as int);
            }
            false
        },
    }
}

/// Whether the two tile lists occupy the same cells with the same values.
fn boards_equal(a: &Vec<Tile>, b: &Vec<Tile>) -> (same: bool)
    requires
        distinct_positions(a@),
        distinct_positions(b@),
        tiles_ok(a@),
        tiles_ok(b@),
    ensures
        same <==> tiles_map(a@) == tiles_map(b@),
{
    let ghost ma = tiles_map(a@);
    let ghost mb = tiles_map(b@);
    let mut same = true;
    let mut r: usize = 0;
    while r < GRID_SIZE
        invariant
            r <= GRID_SIZE,
            ma == tiles_map(a@),
            mb == tiles_map(b@),
            distinct_positions(a@),
            distinct_positions(b@),
            tiles_ok(a@),
            tiles_ok(b@),
            same <==> (forall|p: (int, int)| in_grid(p) && p.0 < r ==> #[trigger] agree(ma, mb, p)),
        decreases GRID_SIZE - r,
    {
        let mut c: usize = 0;
        while c < GRID_SIZE
            invariant
                c <= GRID_SIZE,
                r < GRID_SIZE,
                ma == tiles_map(a@),
                mb == tiles_map(b@),
                distinct_positions(a@),
                distinct_positions(b@),
                tiles_ok(a@),
                tiles_ok(b@),
                same <==> (forall|p: (int, int)|
                    in_grid(p) && scanned(r as int, c as int, p) ==> #[trigger] agree(ma, mb, p)),
            decreases GRID_SIZE - c,
        {
            let ok = cell_agrees(a, b, r, c);
            proof {
                assert forall|p: (int, int)|
                    in_grid(p) && scanned(r as int, c as int + 1, p) && !scanned(r as int, c as int, p)
                    implies p == (r as int, c as int) by {}
            }
            same = same && ok;
            c = c + 1;
        }
        proof {
            assert forall|p: (int, int)|
                in_grid(p) && scanned(r as int + 1, 0, p) implies scanned(r as int, GRID_SIZE as int, p) by {}
        }
        r = r + 1;
    }
    proof {
        lemma_tiles_map_domain(a@);
        lemma_tiles_map_domain(b@);
        if same {
            assert forall|p: (int, int)| true implies agree(ma, mb, p) by {
                if ma.contains_key(p) || mb.contains_key(p) {
                    if ma.contains_key(p) {
                        let i = choose|i: int| 0 <= i < a@.len() && tile_pos(#[trigger] a@[i]) == p;
                        assert(in_grid(p));
                    } else {
                        let j = choose|j: int| 0 <= j < b@.len() && tile_pos(#[trigger] b@[j]) == p;
                        assert(in_grid(p));
                    }
                    assert(p.0 < GRID_SIZE as int);
                    assert(agree(ma, mb, p));
                }
            }
            assert forall|p: (int, int)| #[trigger] ma.dom().contains(p) <==> mb.dom().contains(p) by {
                assert(agree(ma, mb, p));
            }
            assert forall|p: (int, int)| #[trigger] ma.dom().contains(p) implies ma[p] == mb[p] by {
                assert(agree(ma, mb, p));
            }
            assert(ma =~= mb);
        } else {
            let p = choose|p: (int, int)| !(in_grid(p) && p.0 < GRID_SIZE as int ==> agree(ma, mb, p));
            assert(!agree(ma, mb, p));
            if ma == mb {
                assert(agree(ma, mb, p));
            }
        }
    }
    same
}

} // verus!
