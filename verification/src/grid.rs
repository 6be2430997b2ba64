//! A fixed-size rectangular tile grid stored as a flat row-major buffer,
//! with cell access, straight-line rasterization and 8-connected flood fill.

use vstd::math::abs;
use vstd::prelude::*;

verus! {

/// One unit step of a coordinate toward a target coordinate.
pub open spec fn step_toward(from: int, to: int) -> int {
    if from < to {
        from + 1
    } else if from > to {
        from - 1
    } else {
        from
    }
}

/// The cells visited by the per-axis unit-step walk from `(sx, sy)` to
/// `(ex, ey)`: at each step every axis that has not reached its target moves
/// by one toward it. The starting cell itself is not part of the walk.
pub open spec fn connect_path(sx: int, sy: int, ex: int, ey: int) -> Seq<(int, int)>
    decreases abs(ex - sx) + abs(ey - sy),
{
    if sx == ex && sy == ey {
        Seq::empty()
    } else {
        let nx = step_toward(sx, ex);
        let ny = step_toward(sy, ey);
        seq![(nx, ny)] + connect_path(nx, ny, ex, ey)
    }
}

/// The buffer after writing `fill` at each cell of `cells`, in order;
/// out-of-bounds cells are ignored.
pub open spec fn stamp(tiles: Seq<char>, width: nat, cells: Seq<(int, int)>, fill: char) -> Seq<
    char,
>
    decreases cells.len(),
{
    if cells.len() == 0 {
        tiles
    } else {
        stamp(grid_set(tiles, width, cells[0].0, cells[0].1, fill), width, cells.skip(1), fill)
    }
}

/// How many entries of `tiles` differ from `t`.
pub open spec fn count_not_in(tiles: Seq<char>, t: char) -> nat
    decreases tiles.len(),
{
    if tiles.len() == 0 {
        0
    } else {
        count_not_in(tiles.drop_last(), t) + if tiles.last() != t {
            1nat
        } else {
            0nat
        }
    }
}

/// A coordinate decremented by one, clamping at zero: at the low edge the
/// "minus one" neighbor resolves to the cell's own coordinate.
pub open spec fn clamp_dec(v: int) -> int {
    if v > 0 {
        v - 1
    } else {
        0
    }
}

/// The singleton frontier entry for a candidate neighbor cell: kept exactly
/// when the cell is addressable, in bounds, and does not yet hold `fill`.
pub open spec fn keep_cell(tiles: Seq<char>, width: nat, cx: int, cy: int, fill: char) -> Seq<
    (usize, usize),
> {
    let cur = grid_get(tiles, width, cx, cy);
    if 0 <= cx <= usize::MAX && 0 <= cy <= usize::MAX && cur is Some && cur != Some(fill) {
        seq![(cx as usize, cy as usize)]
    } else {
        Seq::empty()
    }
}

/// The frontier entries contributed by the eight neighbors of `(x, y)`, in
/// a fixed order, with the low edge clamped at zero.
pub open spec fn pushable(tiles: Seq<char>, width: nat, x: int, y: int, fill: char) -> Seq<
    (usize, usize),
> {
    let xm = clamp_dec(x);
    let ym = clamp_dec(y);
    keep_cell(tiles, width, x, ym, fill) + keep_cell(tiles, width, x + 1, y, fill) + keep_cell(
        tiles,
        width,
        x,
        y + 1,
        fill,
    ) + keep_cell(tiles, width, xm, y, fill) + keep_cell(tiles, width, x + 1, y + 1, fill)
        + keep_cell(tiles, width, x + 1, ym, fill) + keep_cell(tiles, width, xm, ym, fill)
        + keep_cell(tiles, width, xm, y + 1, fill)
}

/// The work-list flood fill: pop the newest frontier cell; if it still does
/// not hold `fill`, write `fill` there and push the neighbors that do not
/// hold `fill` yet. A cell stops being pushed once its tile equals `fill`,
/// which bounds the work.
pub open spec fn fill_rec(
    tiles: Seq<char>,
    width: nat,
    frontier: Seq<(usize, usize)>,
    fill: char,
) -> Seq<char>
    decreases count_not_in(tiles, fill), frontier.len(),
{
    if frontier.len() == 0 {
        tiles
    } else {
        let c = frontier.last();
        let rest = frontier.drop_last();
        let cur = grid_get(tiles, width, c.0 as int, c.1 as int);
        if cur is Some && cur != Some(fill) {
            let t2 = grid_set(tiles, width, c.0 as int, c.1 as int, fill);
            proof {
                assert(c.1 as int * width >= 0) by (nonlinear_arith)
                    requires c.1 as int >= 0, width >= 0,
                ;
                lemma_count_not_in_update(tiles, c.1 as int * width + c.0 as int, fill);
            }
            fill_rec(t2, width, rest + pushable(t2, width, c.0 as int, c.1 as int, fill), fill)
        } else {
            fill_rec(tiles, width, rest, fill)
        }
    }
}

/// The whole fill operation: write `fill` at the seed (when addressable),
/// then run the work list seeded with the seed's eligible neighbors.
pub open spec fn spec_fill(tiles: Seq<char>, width: nat, sx: int, sy: int, fill: char) -> Seq<
    char,
> {
    let t1 = grid_set(tiles, width, sx, sy, fill);
    fill_rec(t1, width, pushable(t1, width, sx, sy, fill), fill)
}

/// Overwriting an entry that differed from `t` with `t` lowers the number
/// of entries that differ from `t` by one.
pub proof fn lemma_count_not_in_update(tiles: Seq<char>, i: int, t: char)
    requires
        0 <= i < tiles.len(),
        tiles[i] != t,
    ensures
        count_not_in(tiles, t) == count_not_in(tiles.update(i, t), t) + 1,
    decreases tiles.len(),
{
    let upd = tiles.update(i, t);
    if i == tiles.len() - 1 {
        assert(upd.drop_last() =~= tiles.drop_last());
    } else {
        assert(upd.drop_last() =~= tiles.drop_last().update(i, t));
        lemma_count_not_in_update(tiles.drop_last(), i, t);
    }
}

/// On a buffer whose every entry already equals `fill`, the work list
/// changes nothing, whatever the frontier holds.
pub proof fn lemma_fill_rec_all_filled(
    tiles: Seq<char>,
    width: nat,
    frontier: Seq<(usize, usize)>,
    fill: char,
)
    requires
        forall|i: int| 0 <= i < tiles.len() ==> tiles[i] == fill,
    ensures
        fill_rec(tiles, width, frontier, fill) == tiles,
    decreases frontier.len(),
{
    if frontier.len() > 0 {
        let c = frontier.last();
        assert(c.1 as int * width >= 0) by (nonlinear_arith)
            requires c.1 as int >= 0, width >= 0,
        ;
        lemma_fill_rec_all_filled(tiles, width, frontier.drop_last(), fill);
    }
}

/// The tile, if any, at coordinates `(x, y)` of a row-major buffer of the
/// given width. A coordinate pair is valid exactly when the derived index
/// `y * width + x` lies inside the buffer.
pub open spec fn grid_get(tiles: Seq<char>, width: nat, x: int, y: int) -> Option<char> {
    if 0 <= x && 0 <= y && y * width + x < tiles.len() {
        Some(tiles[y * width + x])
    } else {
        None
    }
}

/// The buffer after writing `t` at `(x, y)`; an out-of-bounds write leaves
/// the buffer unchanged.
pub open spec fn grid_set(tiles: Seq<char>, width: nat, x: int, y: int, t: char) -> Seq<char> {
    if 0 <= x && 0 <= y && y * width + x < tiles.len() {
        tiles.update(y * width + x, t)
    } else {
        tiles
    }
}

/// How many entries of `tiles` equal `t`.
pub open spec fn count_in(tiles: Seq<char>, t: char) -> nat
    decreases tiles.len(),
{
    if tiles.len() == 0 {
        0
    } else {
        count_in(tiles.drop_last(), t) + if tiles.last() == t {
            1nat
        } else {
            0nat
        }
    }
}

/// The textual dump of the buffer: the rows in order, each followed by one
/// newline character.
pub open spec fn render(tiles: Seq<char>, width: nat) -> Seq<char>
    decreases tiles.len(),
{
    if tiles.len() == 0 || width == 0 || tiles.len() < width {
        Seq::empty()
    } else {
        tiles.take(width as int) + seq!['\n'] + render(tiles.skip(width as int), width)
    }
}

/// The work list only ever writes the fill tile: the buffer keeps its
/// length, and every cell either keeps its old tile or holds `fill`.
pub proof fn lemma_fill_rec_frame(
    tiles: Seq<char>,
    width: nat,
    frontier: Seq<(usize, usize)>,
    fill: char,
)
    ensures
        fill_rec(tiles, width, frontier, fill).len() == tiles.len(),
        forall|i: int|
            0 <= i < tiles.len() ==> #[trigger] fill_rec(tiles, width, frontier, fill)[i]
                == tiles[i] || fill_rec(tiles, width, frontier, fill)[i] == fill,
    decreases count_not_in(tiles, fill), frontier.len(),
{
    if frontier.len() > 0 {
        let c = frontier.last();
        let rest = frontier.drop_last();
        let cur = grid_get(tiles, width, c.0 as int, c.1 as int);
        if cur is Some && cur != Some(fill) {
            let t2 = grid_set(tiles, width, c.0 as int, c.1 as int, fill);
            assert(c.1 as int * width >= 0) by (nonlinear_arith)
                requires c.1 as int >= 0, width >= 0,
            ;
            lemma_count_not_in_update(tiles, c.1 as int * width + c.0 as int, fill);
            lemma_fill_rec_frame(
                t2,
                width,
                rest + pushable(t2, width, c.0 as int, c.1 as int, fill),
                fill,
            );
        } else {
            lemma_fill_rec_frame(tiles, width, rest, fill);
        }
    }
}

/// A rectangular tile buffer. The buffer length is always an exact multiple
/// of the width; the height is derived as `len / width`.
#[derive(Clone)]
pub struct Grid {
    tiles: Vec<char>,
    width: usize,
}

impl Grid {
    /// The flat row-major tile buffer.
    pub closed spec fn tiles_seq(&self) -> Seq<char> {
        self.tiles@
    }

    /// The stored width.
    pub closed spec fn spec_width(&self) -> nat {
        self.width as nat
    }

    /// The derived height.
    pub open spec fn spec_height(&self) -> nat {
        self.tiles_seq().len() / self.spec_width()
    }

    /// Well-formedness: a positive width that divides the buffer length.
    pub open spec fn wf(&self) -> bool {
        &&& self.spec_width() >= 1
        &&& self.tiles_seq().len() % self.spec_width() == 0
        &&& self.tiles_seq().len() <= usize::MAX
    }

    /// Allocates a `width * height` grid with every tile set to `fill`.
    pub fn new_with_fill(width: usize, height: usize, fill: char) -> (g: Grid)
        requires
            width >= 1,
            height >= 1,
            width * height <= usize::MAX,
        ensures
            g.wf(),
            g.spec_width() == width,
            g.spec_height() == height,
            g.tiles_seq() == Seq::new((width * height) as nat, |i: int| fill),
    {
        let g = Grid { tiles: vec![fill; width * height], width };
        proof {
            assert(g.tiles_seq().len() == width * height);
            lemma_row_major_size(width as nat, height as nat);
        }
        g
    }

    /// Allocates a `width * height` grid of wall tiles (`'#'`).
    pub fn new(width: usize, height: usize) -> (g: Grid)
        requires
            width >= 1,
            height >= 1,
            width * height <= usize::MAX,
        ensures
            g.wf(),
            g.spec_width() == width,
            g.spec_height() == height,
            g.tiles_seq() == Seq::new((width * height) as nat, |i: int| '#'),
    {
        Grid::new_with_fill(width, height, '#')
    }

    /// The flat index of `(x, y)`, if it lies inside the buffer.
    fn cord_to_pos(&self, x: usize, y: usize) -> (r: Option<usize>)
        requires
            self.wf(),
        ensures
            match r {
                Some(pos) => pos == y * self.spec_width() + x && pos < self.tiles_seq().len(),
                None => y * self.spec_width() + x >= self.tiles_seq().len(),
            },
    {
        proof {
            assert((y as int) * (self.width as int) <= 0xffff_ffff_ffff_ffff
                * 0xffff_ffff_ffff_ffff) by (nonlinear_arith)
                requires
                    0 <= y as int <= 0xffff_ffff_ffff_ffff,
                    0 <= self.width as int <= 0xffff_ffff_ffff_ffff,
            ;
        }
        let pos: u128 = y as u128 * self.width as u128 + x as u128;
        if pos < self.tiles.len() as u128 {
            Some(pos as usize)
        } else {
            None
        }
    }

    /// The tile at `(x, y)`, or nothing when the coordinates are out of
    /// bounds.
    pub fn get(&self, x: usize, y: usize) -> (r: Option<char>)
        requires
            self.wf(),
        ensures
            r == grid_get(self.tiles_seq(), self.spec_width(), x as int, y as int),
    {
        match self.cord_to_pos(x, y) {
            Some(pos) => Some(self.tiles[pos]),
            None => None,
        }
    }

    /// Writes `new_tile` at `(x, y)` and reports whether the coordinates
    /// were in bounds; an out-of-bounds write changes nothing.
    pub fn set(&mut self, x: usize, y: usize, new_tile: char) -> (r: bool)
        requires
            old(self).wf(),
        ensures
            final(self).wf(),
            final(self).spec_width() == old(self).spec_width(),
            final(self).tiles_seq() == grid_set(
                old(self).tiles_seq(),
                old(self).spec_width(),
                x as int,
                y as int,
                new_tile,
            ),
            r == (y * old(self).spec_width() + x < old(self).tiles_seq().len()),
    {
        match self.cord_to_pos(x, y) {
            Some(pos) => {
                self.tiles.set(pos, new_tile);
                true
            }
            None => false,
        }
    }

    /// Rasterizes a path from `(start_x, start_y)` to `(end_x, end_y)` with
    /// the per-axis unit-step walk, writing `fill` at every visited cell.
    /// Both axes may move in one step, so the walk may take diagonal steps.
    /// The starting cell itself is never written; when start and end
    /// coincide, nothing is written at all.
    pub fn connect(
        &mut self,
        start_x: usize,
        start_y: usize,
        end_x: usize,
        end_y: usize,
        fill: char,
    )
        requires
            old(self).wf(),
        ensures
            final(self).wf(),
            final(self).spec_width() == old(self).spec_width(),
            final(self).tiles_seq() == stamp(
                old(self).tiles_seq(),
                old(self).spec_width(),
                connect_path(start_x as int, start_y as int, end_x as int, end_y as int),
                fill,
            ),
            start_x == end_x && start_y == end_y ==> final(self).tiles_seq() == old(
                self,
            ).tiles_seq(),
    {
        let ghost t0 = self.tiles_seq();
        let ghost w = self.spec_width();
        let mut x = start_x;
        let mut y = start_y;
        while x != end_x || y != end_y
            invariant
                self.wf(),
                self.spec_width() == w,
                stamp(
                    t0,
                    w,
                    connect_path(start_x as int, start_y as int, end_x as int, end_y as int),
                    fill,
                ) == stamp(
                    self.tiles_seq(),
                    w,
                    connect_path(x as int, y as int, end_x as int, end_y as int),
                    fill,
                ),
            decreases abs(end_x as int - x as int) + abs(end_y as int - y as int),
        {
            let ghost pre = self.tiles_seq();
            let ghost px = x as int;
            let ghost py = y as int;
            if x < end_x {
                x = x + 1;
            } else if x > end_x {
                x = x - 1;
            }
            if y < end_y {
                y = y + 1;
            } else if y > end_y {
                y = y - 1;
            }
            self.set(x, y, fill);
            proof {
                let path = connect_path(px, py, end_x as int, end_y as int);
                assert(x as int == step_toward(px, end_x as int));
                assert(y as int == step_toward(py, end_y as int));
                assert(path == seq![(x as int, y as int)] + connect_path(
                    x as int,
                    y as int,
                    end_x as int,
                    end_y as int,
                ));
                assert(path[0] == (x as int, y as int));
                assert(path.skip(1) =~= connect_path(
                    x as int,
                    y as int,
                    end_x as int,
                    end_y as int,
                ));
            }
        }
    }

    /// Appends to `v` the frontier entry for the cell `(cx, cy)`, if that
    /// cell is in bounds and does not hold `fill`.
    fn push_cell(&self, v: &mut Vec<(usize, usize)>, cx: usize, cy: usize, fill: char)
        requires
            self.wf(),
        ensures
            final(v)@ == old(v)@ + keep_cell(
                self.tiles_seq(),
                self.spec_width(),
                cx as int,
                cy as int,
                fill,
            ),
    {
        let ghost kc = keep_cell(self.tiles_seq(), self.spec_width(), cx as int, cy as int, fill);
        match self.get(cx, cy) {
            Some(c) => {
                if c != fill {
                    v.push((cx, cy));
                    proof {
                        assert(final(v)@ =~= old(v)@ + kc);
                    }
                } else {
                    proof {
                        assert(final(v)@ =~= old(v)@ + kc);
                    }
                }
            },
            None => {
                proof {
                    assert(final(v)@ =~= old(v)@ + kc);
                }
            },
        }
    }

    /// The frontier entries for the eight neighbors of `(x, y)`, in order.
    fn pushable_cells(&self, x: usize, y: usize, fill: char) -> (v: Vec<(usize, usize)>)
        requires
            self.wf(),
        ensures
            v@ == pushable(self.tiles_seq(), self.spec_width(), x as int, y as int, fill),
    {
        let ghost t = self.tiles_seq();
        let ghost w = self.spec_width();
        let xm = if x > 0 { x - 1 } else { 0 };
        let ym = if y > 0 { y - 1 } else { 0 };
        let mut v: Vec<(usize, usize)> = Vec::new();
        proof {
            assert(v@ =~= Seq::<(usize, usize)>::empty());
        }
        self.push_cell(&mut v, x, ym, fill);
        proof {
            assert(v@ =~= Seq::empty() + keep_cell(t, w, x as int, ym as int, fill));
        }
        if x < usize::MAX {
            self.push_cell(&mut v, x + 1, y, fill);
        }
        if y < usize::MAX {
            self.push_cell(&mut v, x, y + 1, fill);
        }
        self.push_cell(&mut v, xm, y, fill);
        if x < usize::MAX && y < usize::MAX {
            self.push_cell(&mut v, x + 1, y + 1, fill);
        }
        if x < usize::MAX {
            self.push_cell(&mut v, x + 1, ym, fill);
        }
        self.push_cell(&mut v, xm, ym, fill);
        if y < usize::MAX {
            self.push_cell(&mut v, xm, y + 1, fill);
        }
        proof {
            assert(v@ =~= pushable(t, w, x as int, y as int, fill));
        }
        v
    }

    /// Iterative 8-connected flood fill from `(start_x, start_y)`: the seed
    /// cell is written (when in bounds), and the fill spreads through the
    /// eight-neighborhood over cells that do not yet hold `fill`, never
    /// writing outside the grid. Filling a grid that already holds `fill`
    /// everywhere changes nothing.
    pub fn fill(&mut self, start_x: usize, start_y: usize, fill: char)
        requires
            old(self).wf(),
        ensures
            final(self).wf(),
            final(self).spec_width() == old(self).spec_width(),
            final(self).tiles_seq() == spec_fill(
                old(self).tiles_seq(),
                old(self).spec_width(),
                start_x as int,
                start_y as int,
                fill,
            ),
            forall|i: int|
                0 <= i < old(self).tiles_seq().len() ==> #[trigger] final(self).tiles_seq()[i]
                    == old(self).tiles_seq()[i] || final(self).tiles_seq()[i] == fill,
            start_y * old(self).spec_width() + start_x < old(self).tiles_seq().len()
                ==> grid_get(
                final(self).tiles_seq(),
                old(self).spec_width(),
                start_x as int,
                start_y as int,
            ) == Some(fill),
            (forall|i: int|
                0 <= i < old(self).tiles_seq().len() ==> old(self).tiles_seq()[i] == fill)
                ==> final(self).tiles_seq() == old(self).tiles_seq(),
    {
        let ghost t0 = self.tiles_seq();
        let ghost w = self.spec_width();
        self.set(start_x, start_y, fill);
        let ghost t1 = self.tiles_seq();
        let mut frontier = self.pushable_cells(start_x, start_y, fill);
        while frontier.len() > 0
            invariant
                self.wf(),
                self.spec_width() == w,
                self.tiles_seq().len() == t0.len(),
                fill_rec(self.tiles_seq(), w, frontier@, fill) == spec_fill(
                    t0,
                    w,
                    start_x as int,
                    start_y as int,
                    fill,
                ),
            decreases count_not_in(self.tiles_seq(), fill), frontier@.len(),
        {
            let ghost pre_tiles = self.tiles_seq();
            let ghost pre_frontier = frontier@;
            let c = frontier.pop().unwrap();
            proof {
                assert(pre_frontier.subrange(0, pre_frontier.len() - 1)
                    =~= pre_frontier.drop_last());
            }
            let (cx, cy) = c;
            let keep = match self.get(cx, cy) {
                Some(t) => t != fill,
                None => false,
            };
            if keep {
                proof {
                    assert(cy as int * w >= 0) by (nonlinear_arith)
                        requires cy as int >= 0, w >= 0,
                    ;
                    lemma_count_not_in_update(pre_tiles, cy as int * w + cx as int, fill);
                }
                self.set(cx, cy, fill);
                let mut more = self.pushable_cells(cx, cy, fill);
                frontier.append(&mut more);
                proof {
                    let t2 = grid_set(pre_tiles, w, cx as int, cy as int, fill);
                    assert(frontier@ =~= pre_frontier.drop_last() + pushable(
                        t2,
                        w,
                        cx as int,
                        cy as int,
                        fill,
                    ));
                    assert(fill_rec(pre_tiles, w, pre_frontier, fill) == fill_rec(
                        self.tiles_seq(),
                        w,
                        frontier@,
                        fill,
                    ));
                }
            } else {
                proof {
                    assert(fill_rec(pre_tiles, w, pre_frontier, fill) == fill_rec(
                        self.tiles_seq(),
                        w,
                        frontier@,
                        fill,
                    ));
                }
            }
        }
        proof {
            assert(frontier@.len() == 0);
            assert(fill_rec(self.tiles_seq(), w, frontier@, fill) == self.tiles_seq());
            lemma_fill_rec_frame(
                t1,
                w,
                pushable(t1, w, start_x as int, start_y as int, fill),
                fill,
            );
            if forall|i: int| 0 <= i < t0.len() ==> t0[i] == fill {
                assert(t1 =~= t0);
                lemma_fill_rec_all_filled(t1, w, pushable(t1, w, start_x as int, start_y as int, fill), fill);
            }
        }
    }

    /// The grid's width.
    pub fn width(&self) -> (w: usize)
        ensures
            w == self.spec_width(),
    {
        self.width
    }

    /// The grid's height, derived from the buffer length.
    pub fn height(&self) -> (h: usize)
        requires
            self.wf(),
        ensures
            h == self.spec_height(),
    {
        self.tiles.len() / self.width
    }

    /// How many tiles of the grid equal `tile`.
    pub fn count(&self, tile: char) -> (n: usize)
        requires
            self.wf(),
        ensures
            n == count_in(self.tiles_seq(), tile),
    {
        let mut n: usize = 0;
        let mut i: usize = 0;
        while i < self.tiles.len()
            invariant
                i <= self.tiles_seq().len(),
                self.tiles_seq().len() <= usize::MAX,
                n == count_in(self.tiles_seq().take(i as int), tile),
                n <= i,
            decreases self.tiles_seq().len() - i,
        {
            proof {
                assert(self.tiles_seq().take(i + 1).drop_last() =~= self.tiles_seq().take(
                    i as int,
                ));
                assert(self.tiles_seq().take(i + 1).last() == self.tiles_seq()[i as int]);
            }
            if self.tiles[i] == tile {
                n = n + 1;
            }
            i = i + 1;
        }
        proof {
            assert(self.tiles_seq().take(i as int) =~= self.tiles_seq());
        }
        n
    }

    /// The textual dump: rows in order, each terminated by a newline.
    pub fn to_string(&self) -> (s: String)
        requires
            self.wf(),
        ensures
            s@ == render(self.tiles_seq(), self.spec_width()),
    {
        let w = self.width;
        let mut out: Vec<char> = Vec::new();
        let mut row_start: usize = 0;
        proof {
            assert(self.tiles_seq().skip(0) =~= self.tiles_seq());
        }
        while row_start < self.tiles.len()
            invariant
                self.wf(),
                w == self.spec_width(),
                row_start <= self.tiles_seq().len(),
                (row_start as nat) % (w as nat) == 0,
                render(self.tiles_seq(), self.spec_width()) == out@ + render(
                    self.tiles_seq().skip(row_start as int),
                    self.spec_width(),
                ),
            decreases self.tiles_seq().len() - row_start,
        {
            proof {
                lemma_mod_gap(row_start as nat, self.tiles_seq().len(), w as nat);
            }
            let ghost rest = self.tiles_seq().skip(row_start as int);
            let ghost out_before = out@;
            let mut j: usize = 0;
            while j < w
                invariant
                    self.wf(),
                    w == self.spec_width(),
                    j <= w,
                    row_start + w <= self.tiles_seq().len(),
                    out@ == out_before + self.tiles_seq().subrange(
                        row_start as int,
                        row_start + j,
                    ),
                decreases w - j,
            {
                out.push(self.tiles[row_start + j]);
                proof {
                    assert(out@.drop_last() == out_before + self.tiles_seq().subrange(
                        row_start as int,
                        row_start + j,
                    ));
                    assert(out@ =~= out_before + self.tiles_seq().subrange(
                        row_start as int,
                        row_start + j + 1,
                    ));
                }
                j = j + 1;
            }
            out.push('\n');
            proof {
                assert(rest.len() >= w);
                assert(rest.take(w as int) =~= self.tiles_seq().subrange(
                    row_start as int,
                    row_start + w,
                ));
                assert(rest.skip(w as int) =~= self.tiles_seq().skip(row_start + w));
                assert(out@ =~= out_before + rest.take(w as int) + seq!['\n']);
                assert(render(rest, self.spec_width()) == rest.take(w as int) + seq!['\n']
                    + render(rest.skip(w as int), self.spec_width()));
                assert(out@ + render(self.tiles_seq().skip(row_start + w), self.spec_width())
                    =~= out_before + render(rest, self.spec_width()));
                assert(((row_start + w) as nat) % (w as nat) == 0) by (nonlinear_arith)
                    requires
                        (row_start as nat) % (w as nat) == 0,
                        w as nat >= 1,
                ;
            }
            row_start = row_start + w;
        }
        proof {
            assert(render(self.tiles_seq().skip(row_start as int), self.spec_width())
                =~= Seq::<char>::empty());
            assert(out@ + Seq::<char>::empty() =~= out@);
        }
        chars_to_string(&out)
    }
}

/// Relies on `String::from_iter` (through `collect`): the collected string
/// holds exactly the characters of the vector, in order.
#[verifier::external_body]
fn chars_to_string(v: &Vec<char>) -> (s: String)
    ensures
        s@ == v@,
{
    v.iter().collect()
}

/// A buffer of `width * height` tiles has height `height`.
proof fn lemma_row_major_size(width: nat, height: nat)
    requires
        width >= 1,
    ensures
        (width * height) % width == 0,
        (width * height) / width == height,
{
    assert((width * height) % width == 0 && (width * height) / width == height)
        by (nonlinear_arith)
        requires width >= 1;
}

/// Between a multiple of `w` and a larger buffer length that `w` divides
/// there is room for a whole row.
proof fn lemma_mod_gap(a: nat, len: nat, w: nat)
    requires
        w >= 1,
        a % w == 0,
        len % w == 0,
        a < len,
    ensures
        a + w <= len,
{
    assert(a + w <= len) by (nonlinear_arith)
        requires w >= 1, a % w == 0, len % w == 0, a < len;
}

/// Writing an in-bounds cell and reading it back yields the written tile.
pub proof fn lemma_set_then_get(tiles: Seq<char>, width: nat, x: int, y: int, t: char)
    requires
        0 <= x,
        0 <= y,
        y * width + x < tiles.len(),
    ensures
        grid_get(grid_set(tiles, width, x, y, t), width, x, y) == Some(t),
{
}

/// Reads and writes fail — the read is absent and the write changes
/// nothing — at any row at or beyond the grid's height, and at any column
/// beyond the width whose flat index passes the end of the buffer. (A
/// column beyond the width whose flat index stays inside the buffer wraps
/// into a later row: coordinates are valid exactly when their flat index
/// is.)
pub proof fn lemma_row_out_of_bounds(tiles: Seq<char>, width: nat, x: int, y: int, t: char)
    requires
        width >= 1,
        tiles.len() % width == 0,
        0 <= x,
        0 <= y,
        y >= tiles.len() / width || (x >= width && y * width + x >= tiles.len()),
    ensures
        grid_get(tiles, width, x, y) == None::<char>,
        grid_set(tiles, width, x, y, t) == tiles,
{
    if y >= tiles.len() / width {
        let h = tiles.len() / width;
        assert(tiles.len() == h * width) by (nonlinear_arith)
            requires width >= 1, tiles.len() % width == 0, h == tiles.len() / width;
        assert(y * width >= h * width) by (nonlinear_arith)
            requires y >= h, width >= 1;
    }
}

} // verus!
