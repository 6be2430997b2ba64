//! Generating an irregular room: a rectangle's corners are randomly offset,
//! consecutive corners are joined by distorted lines into a closed outline,
//! and the outline can be stamped onto a grid and its interior flood-filled.

use crate::grid::{grid_set, spec_fill, Grid};
use crate::line_gen::{
    all_within, axis_step, lemma_all_within_concat, no_diagonal, unit_path, unit_step, within,
    DistortedLineGnerator, CHANCE_SCALE,
};
use crate::point::Point;
use crate::rng::{chance, coin, pick_in_range};
use vstd::math::max;
use vstd::math::min;
use vstd::prelude::*;

verus! {

/// The smallest x coordinate among the points.
pub open spec fn min_x(s: Seq<Point>) -> int
    decreases s.len(),
{
    if s.len() == 0 {
        0
    } else if s.len() == 1 {
        s[0].x as int
    } else {
        min(s[0].x as int, min_x(s.skip(1)))
    }
}

/// The largest x coordinate among the points.
pub open spec fn max_x(s: Seq<Point>) -> int
    decreases s.len(),
{
    if s.len() == 0 {
        0
    } else if s.len() == 1 {
        s[0].x as int
    } else {
        max(s[0].x as int, max_x(s.skip(1)))
    }
}

/// The smallest y coordinate among the points.
pub open spec fn min_y(s: Seq<Point>) -> int
    decreases s.len(),
{
    if s.len() == 0 {
        0
    } else if s.len() == 1 {
        s[0].y as int
    } else {
        min(s[0].y as int, min_y(s.skip(1)))
    }
}

/// The largest y coordinate among the points.
pub open spec fn max_y(s: Seq<Point>) -> int
    decreases s.len(),
{
    if s.len() == 0 {
        0
    } else if s.len() == 1 {
        s[0].y as int
    } else {
        max(s[0].y as int, max_y(s.skip(1)))
    }
}

/// Appending a point extends each extreme by comparison with it.
proof fn lemma_minmax_snoc(s: Seq<Point>, q: Point)
    requires
        s.len() >= 1,
    ensures
        min_x(s.push(q)) == min(min_x(s), q.x as int),
        max_x(s.push(q)) == max(max_x(s), q.x as int),
        min_y(s.push(q)) == min(min_y(s), q.y as int),
        max_y(s.push(q)) == max(max_y(s), q.y as int),
    decreases s.len(),
{
    let t = s.push(q);
    assert(t[0] == s[0]);
    assert(t.len() == s.len() + 1);
    if s.len() == 1 {
        assert(t.skip(1) =~= seq![q]);
        assert(min_x(seq![q]) == q.x as int);
        assert(max_x(seq![q]) == q.x as int);
        assert(min_y(seq![q]) == q.y as int);
        assert(max_y(seq![q]) == q.y as int);
        assert(min_x(s) == s[0].x as int);
        assert(max_x(s) == s[0].x as int);
        assert(min_y(s) == s[0].y as int);
        assert(max_y(s) == s[0].y as int);
        assert(min_x(t) == min(s[0].x as int, q.x as int));
        assert(max_x(t) == max(s[0].x as int, q.x as int));
        assert(min_y(t) == min(s[0].y as int, q.y as int));
        assert(max_y(t) == max(s[0].y as int, q.y as int));
    } else {
        assert(t.skip(1) =~= s.skip(1).push(q));
        lemma_minmax_snoc(s.skip(1), q);
        assert(min_x(t) == min(s[0].x as int, min(min_x(s.skip(1)), q.x as int)));
        assert(max_x(t) == max(s[0].x as int, max(max_x(s.skip(1)), q.x as int)));
        assert(min_y(t) == min(s[0].y as int, min(min_y(s.skip(1)), q.y as int)));
        assert(max_y(t) == max(s[0].y as int, max(max_y(s.skip(1)), q.y as int)));
    }
}

/// Each extreme of a non-empty sequence lies within the coordinate range.
proof fn lemma_minmax_range(s: Seq<Point>)
    requires
        s.len() >= 1,
    ensures
        i32::MIN <= min_x(s) <= i32::MAX,
        i32::MIN <= max_x(s) <= i32::MAX,
        i32::MIN <= min_y(s) <= i32::MAX,
        i32::MIN <= max_y(s) <= i32::MAX,
    decreases s.len(),
{
    if s.len() > 1 {
        lemma_minmax_range(s.skip(1));
    }
}

/// The buffer after stamping `t` at each point, translated by `pos`;
/// points that land outside the grid are ignored.
pub open spec fn stamp_at(
    tiles: Seq<char>,
    width: nat,
    pts: Seq<Point>,
    pos: Point,
    t: char,
) -> Seq<char>
    decreases pts.len(),
{
    if pts.len() == 0 {
        tiles
    } else {
        stamp_at(
            grid_set(tiles, width, pos.x + pts[0].x, pos.y + pts[0].y, t),
            width,
            pts.skip(1),
            pos,
            t,
        )
    }
}

/// The whole draw operation: stamp every outline point as floor, then
/// flood-fill floor from the translated center of the bounding box. A
/// center that is not addressable as a grid coordinate is skipped.
pub open spec fn spec_draw(
    tiles: Seq<char>,
    width: nat,
    pts: Seq<Point>,
    pos: Point,
    rw: int,
    rh: int,
) -> Seq<char> {
    let stamped = stamp_at(tiles, width, pts, pos, '.');
    let sx = pos.x + rw / 2;
    let sy = pos.y + rh / 2;
    if 0 <= sx <= usize::MAX && 0 <= sy <= usize::MAX {
        spec_fill(stamped, width, sx, sy, '.')
    } else {
        stamped
    }
}

/// A generated room: the ordered closed outline and the extents of its
/// bounding box.
pub struct Room {
    points: Vec<Point>,
    width: usize,
    height: usize,
}

impl Room {
    /// The outline points, in drawing order.
    pub closed spec fn spec_points(&self) -> Seq<Point> {
        self.points@
    }

    /// The stored bounding-box width.
    pub closed spec fn spec_width(&self) -> int {
        self.width as int
    }

    /// The stored bounding-box height.
    pub closed spec fn spec_height(&self) -> int {
        self.height as int
    }

    /// The outline is non-empty and the stored extents are exactly the
    /// bounding-box extents of the outline.
    pub open spec fn wf(&self) -> bool {
        &&& self.spec_points().len() >= 1
        &&& self.spec_width() == max_x(self.spec_points()) - min_x(self.spec_points())
        &&& self.spec_height() == max_y(self.spec_points()) - min_y(self.spec_points())
    }

    /// Wraps an outline, deriving the bounding-box extents of its points.
    pub fn new(points: Vec<Point>) -> (r: Room)
        requires
            points@.len() >= 1,
        ensures
            r.wf(),
            r.spec_points() == points@,
            r.spec_width() == max_x(points@) - min_x(points@),
            r.spec_height() == max_y(points@) - min_y(points@),
    {
        let mut mnx = points[0].x;
        let mut mxx = points[0].x;
        let mut mny = points[0].y;
        let mut mxy = points[0].y;
        let mut i: usize = 1;
        proof {
            assert(points@.take(1) =~= seq![points@[0]]);
        }
        while i < points.len()
            invariant
                1 <= i <= points@.len(),
                points@.len() >= 1,
                mnx as int == min_x(points@.take(i as int)),
                mxx as int == max_x(points@.take(i as int)),
                mny as int == min_y(points@.take(i as int)),
                mxy as int == max_y(points@.take(i as int)),
                mnx <= mxx,
                mny <= mxy,
            decreases points@.len() - i,
        {
            proof {
                lemma_minmax_snoc(points@.take(i as int), points@[i as int]);
                assert(points@.take(i as int).push(points@[i as int]) =~= points@.take(i + 1));
            }
            let p = points[i];
            if p.x < mnx {
                mnx = p.x;
            }
            if p.x > mxx {
                mxx = p.x;
            }
            if p.y < mny {
                mny = p.y;
            }
            if p.y > mxy {
                mxy = p.y;
            }
            i = i + 1;
        }
        proof {
            assert(points@.take(points@.len() as int) =~= points@);
        }
        let w = (mxx as i64 - mnx as i64) as usize;
        let h = (mxy as i64 - mny as i64) as usize;
        Room { points, width: w, height: h }
    }

    /// Stamps every outline point onto `grid` at `pos + point` as floor
    /// (`'.'`), then flood-fills floor from the translated center of the
    /// bounding box. Points that land outside the grid are ignored, and a
    /// center that is not addressable as a grid coordinate is skipped.
    pub fn draw(&self, grid: &mut Grid, pos: &Point)
        requires
            old(grid).wf(),
            self.wf(),
        ensures
            final(grid).wf(),
            final(grid).spec_width() == old(grid).spec_width(),
            final(grid).tiles_seq() == spec_draw(
                old(grid).tiles_seq(),
                old(grid).spec_width(),
                self.spec_points(),
                *pos,
                self.spec_width(),
                self.spec_height(),
            ),
    {
        let ghost t0 = grid.tiles_seq();
        let ghost w = grid.spec_width();
        let ghost pts = self.spec_points();
        let mut i: usize = 0;
        proof {
            assert(pts.skip(0) =~= pts);
        }
        while i < self.points.len()
            invariant
                grid.wf(),
                grid.spec_width() == w,
                i <= pts.len(),
                pts == self.spec_points(),
                stamp_at(t0, w, pts, *pos, '.') == stamp_at(
                    grid.tiles_seq(),
                    w,
                    pts.skip(i as int),
                    *pos,
                    '.',
                ),
            decreases pts.len() - i,
        {
            let ghost pre = grid.tiles_seq();
            let p = &self.points[i];
            let tx: i64 = pos.x as i64 + p.x as i64;
            let ty: i64 = pos.y as i64 + p.y as i64;
            if 0 <= tx && 0 <= ty {
                grid.set(tx as usize, ty as usize, '.');
            }
            proof {
                let rest = pts.skip(i as int);
                assert(rest[0] == pts[i as int]);
                assert(rest.skip(1) =~= pts.skip(i + 1));
                assert(grid.tiles_seq() == grid_set(
                    pre,
                    w,
                    pos.x + pts[i as int].x,
                    pos.y + pts[i as int].y,
                    '.',
                ));
            }
            i = i + 1;
        }
        proof {
            assert(pts.skip(pts.len() as int) =~= Seq::<Point>::empty());
        }
        proof {
            lemma_minmax_range(pts);
        }
        let half_w: usize = self.width / 2;
        let half_h: usize = self.height / 2;
        let fx: i64 = pos.x as i64 + half_w as i64;
        let fy: i64 = pos.y as i64 + half_h as i64;
        if 0 <= fx && 0 <= fy {
            proof {
                assert(half_w as int == self.spec_width() / 2);
                assert(half_h as int == self.spec_height() / 2);
            }
            grid.fill(fx as usize, fy as usize, '.');
        }
    }
}

/// The reason a room-generator configuration was rejected.
#[derive(Clone, Copy, PartialEq, Eq, Structural, Debug)]
pub enum ConfigError {
    /// The room width is zero.
    ZeroWidth,
    /// The room height is zero.
    ZeroHeight,
    /// The vertex offset range is reversed.
    OffsetRange,
    /// A chance value lies beyond `CHANCE_SCALE`.
    ChanceRange,
    /// A dimension or offset so large that coordinates would not fit.
    TooLarge,
}

/// The configuration of the room generator: the target rectangle, the edge
/// distortion chance, and the corner offset range and chance. Chances are
/// read against `CHANCE_SCALE`.
#[derive(Debug)]
pub struct RoomGenerator {
    pub width: usize,
    pub height: usize,
    pub distortion_chance: u32,
    pub vertex_offset_min: i32,
    pub vertex_offset_max: i32,
    pub vertex_offset_chance: u32,
}

/// The first reason, in checking order, a configuration is rejected.
pub open spec fn spec_config_error(g: RoomGenerator) -> ConfigError {
    if g.width < 1 {
        ConfigError::ZeroWidth
    } else if g.height < 1 {
        ConfigError::ZeroHeight
    } else if g.vertex_offset_min > g.vertex_offset_max {
        ConfigError::OffsetRange
    } else if g.distortion_chance > CHANCE_SCALE || g.vertex_offset_chance > CHANCE_SCALE {
        ConfigError::ChanceRange
    } else {
        ConfigError::TooLarge
    }
}

/// `r` is the corner `v` either unchanged or moved along exactly one axis
/// by an offset drawn from the configured half-open offset range.
pub open spec fn offset_corner(g: RoomGenerator, v: Point, r: Point) -> bool {
    ||| r == v
    ||| (r.y == v.y && v.x + g.vertex_offset_min <= r.x <= v.x + g.vertex_offset_max - 1)
    ||| (r.x == v.x && v.y + g.vertex_offset_min <= r.y <= v.y + g.vertex_offset_max - 1)
}

/// The outline starts and closes at an offset image of the rectangle's
/// first corner and passes, in winding order, through offset images of the
/// other three corners `(width, 0)`, `(width, height)`, `(0, height)`.
pub open spec fn visits_offset_corners(g: RoomGenerator, pts: Seq<Point>) -> bool {
    &&& pts.len() >= 1
    &&& pts[0] == pts.last()
    &&& offset_corner(g, Point { x: 0, y: 0 }, pts[0])
    &&& exists|i1: int, i2: int, i3: int|
        #![trigger pts[i1], pts[i2], pts[i3]]
        (0 <= i1 <= i2 <= i3 < pts.len() && offset_corner(
            g,
            Point { x: g.width as i32, y: 0 },
            pts[i1],
        ) && offset_corner(g, Point { x: g.width as i32, y: g.height as i32 }, pts[i2])
            && offset_corner(g, Point { x: 0, y: g.height as i32 }, pts[i3]))
}

/// Appends everything after the first point of `src` to `dst`: stitching a
/// path onto one that already ends at the path's first point.
fn extend_from_second(dst: &mut Vec<Point>, src: &Vec<Point>)
    requires
        src@.len() >= 1,
    ensures
        final(dst)@ == old(dst)@ + src@.skip(1),
{
    let mut i: usize = 1;
    proof {
        assert(dst@ =~= old(dst)@ + src@.subrange(1, 1));
    }
    while i < src.len()
        invariant
            1 <= i <= src@.len(),
            dst@ == old(dst)@ + src@.subrange(1, i as int),
        decreases src@.len() - i,
    {
        dst.push(src[i]);
        proof {
            assert(src@.subrange(1, i + 1) =~= src@.subrange(1, i as int).push(src@[i as int]));
            assert(dst@ =~= old(dst)@ + src@.subrange(1, i + 1));
        }
        i = i + 1;
    }
    proof {
        assert(src@.subrange(1, src@.len() as int) =~= src@.skip(1));
    }
}

/// Stitching a unit path whose first point is the end of another unit path
/// yields a unit path from the first one's start to the second one's end.
proof fn lemma_unit_extend(p: Seq<Point>, e: Seq<Point>)
    requires
        unit_path(p),
        unit_path(e),
        p.len() >= 1,
        e.len() >= 1,
        p.last() == e[0],
    ensures
        unit_path(p + e.skip(1)),
        (p + e.skip(1)).len() == p.len() + e.len() - 1,
        (p + e.skip(1))[0] == p[0],
        (p + e.skip(1)).last() == e.last(),
{
    let c = p + e.skip(1);
    if e.len() == 1 {
        assert(e.skip(1) =~= Seq::<Point>::empty());
        assert(c =~= p);
        assert(e.last() == e[0]);
    } else {
        assert forall|i: int| 0 <= i < c.len() - 1 implies unit_step(#[trigger] c[i], c[i + 1]) by {
            if i < p.len() - 1 {
                assert(c[i] == p[i]);
                assert(c[i + 1] == p[i + 1]);
                assert(unit_step(p[i], p[i + 1]));
            } else if i == p.len() - 1 {
                assert(c[i] == p[p.len() - 1]);
                assert(c[i + 1] == e.skip(1)[0]);
                assert(e.skip(1)[0] == e[1]);
                assert(unit_step(e[0], e[1]));
            } else {
                let j = i - p.len();
                assert(c[i] == e.skip(1)[j]);
                assert(c[i + 1] == e.skip(1)[j + 1]);
                assert(e.skip(1)[j] == e[j + 1]);
                assert(e.skip(1)[j + 1] == e[j + 2]);
                assert(unit_step(e[j + 1], e[j + 2]));
            }
        };
        assert(c.last() == e.skip(1)[e.skip(1).len() - 1]);
        assert(c.last() == e[e.len() - 1]);
        assert(c.last() == e.last());
    }
}

impl RoomGenerator {
    /// A usable configuration: positive extents, an ordered offset range,
    /// chances within scale, and sizes and offsets small enough that every
    /// corner coordinate, offset included, stays a coordinate the line
    /// generator accepts.
    pub open spec fn valid(&self) -> bool {
        &&& 1 <= self.width
        &&& 1 <= self.height
        &&& self.vertex_offset_min <= self.vertex_offset_max
        &&& self.distortion_chance <= CHANCE_SCALE
        &&& self.vertex_offset_chance <= CHANCE_SCALE
        &&& self.width as int <= i32::MAX - 1
        &&& self.height as int <= i32::MAX - 1
        &&& i32::MIN + 1 <= self.vertex_offset_min
        &&& self.width as int + self.vertex_offset_max as int <= i32::MAX
        &&& self.height as int + self.vertex_offset_max as int <= i32::MAX
    }

    /// Validates a configuration, rejecting misconfiguration with the first
    /// applicable error.
    pub fn new(
        width: usize,
        height: usize,
        distortion_chance: u32,
        vertex_offset_min: i32,
        vertex_offset_max: i32,
        vertex_offset_chance: u32,
    ) -> (r: Result<RoomGenerator, ConfigError>)
        ensures
            ({
                let g = RoomGenerator {
                    width,
                    height,
                    distortion_chance,
                    vertex_offset_min,
                    vertex_offset_max,
                    vertex_offset_chance,
                };
                match r {
                    Ok(gg) => gg == g && g.valid(),
                    Err(e) => !g.valid() && e == spec_config_error(g),
                }
            }),
    {
        if width < 1 {
            return Err(ConfigError::ZeroWidth);
        }
        if height < 1 {
            return Err(ConfigError::ZeroHeight);
        }
        if vertex_offset_min > vertex_offset_max {
            return Err(ConfigError::OffsetRange);
        }
        if distortion_chance > CHANCE_SCALE || vertex_offset_chance > CHANCE_SCALE {
            return Err(ConfigError::ChanceRange);
        }
        if width as u64 > (i32::MAX - 1) as u64 || height as u64 > (i32::MAX - 1) as u64 {
            return Err(ConfigError::TooLarge);
        }
        if (vertex_offset_min as i64) < (i32::MIN as i64) + 1 {
            return Err(ConfigError::TooLarge);
        }
        if width as i64 + vertex_offset_max as i64 > i32::MAX as i64 || height as i64
            + vertex_offset_max as i64 > i32::MAX as i64 {
            return Err(ConfigError::TooLarge);
        }
        Ok(
            RoomGenerator {
                width,
                height,
                distortion_chance,
                vertex_offset_min,
                vertex_offset_max,
                vertex_offset_chance,
            },
        )
    }

    /// With the configured chance, moves the corner by a random offset drawn
    /// from the configured half-open range, along one randomly chosen axis.
    /// When the range is empty no offset exists and the corner stays.
    fn apply_vertex_offset(&self, v: Point) -> (r: Point)
        requires
            self.valid(),
            0 <= v.x,
            0 <= v.y,
            v.x as int <= i32::MAX - 1,
            v.y as int <= i32::MAX - 1,
            v.x as int + self.vertex_offset_max as int <= i32::MAX,
            v.y as int + self.vertex_offset_max as int <= i32::MAX,
        ensures
            i32::MIN + 1 <= r.x as int <= i32::MAX - 1,
            i32::MIN + 1 <= r.y as int <= i32::MAX - 1,
            ({
                ||| r == v
                ||| (r.y == v.y && v.x + self.vertex_offset_min <= r.x as int <= v.x
                    + self.vertex_offset_max - 1)
                ||| (r.x == v.x && v.y + self.vertex_offset_min <= r.y as int <= v.y
                    + self.vertex_offset_max - 1)
            }),
            self.vertex_offset_chance == 0 ==> r == v,
            self.vertex_offset_chance == CHANCE_SCALE && self.vertex_offset_min
                < self.vertex_offset_max ==> ({
                ||| (r.y == v.y && v.x + self.vertex_offset_min <= r.x as int <= v.x
                    + self.vertex_offset_max - 1)
                ||| (r.x == v.x && v.y + self.vertex_offset_min <= r.y as int <= v.y
                    + self.vertex_offset_max - 1)
            }),
    {
        let mut r = v;
        if self.vertex_offset_min < self.vertex_offset_max && chance(
            self.vertex_offset_chance,
            CHANCE_SCALE,
        ) {
            let off = pick_in_range(self.vertex_offset_min, self.vertex_offset_max);
            if coin() {
                r = Point { x: v.x + off, y: v.y };
            } else {
                r = Point { x: v.x, y: v.y + off };
            }
        }
        r
    }

    /// Generates a room: the four rectangle corners, in winding order, are
    /// each randomly offset, consecutive corners (wrapping around) are
    /// joined by distorted lines, and the concatenated outline is wrapped
    /// into a `Room`. The outline is closed — its first and last points
    /// coincide — takes no diagonal step, and stays inside the configured
    /// rectangle widened by the offset range plus one cell of jitter.
    pub fn generate(&self) -> (room: Room)
        requires
            self.valid(),
        ensures
            room.wf(),
            room.spec_points().len() >= 1,
            room.spec_points()[0] == room.spec_points().last(),
            no_diagonal(room.spec_points()),
            unit_path(room.spec_points()),
            visits_offset_corners(*self, room.spec_points()),
            all_within(
                room.spec_points(),
                min(0, self.vertex_offset_min as int) - 1,
                min(0, self.vertex_offset_min as int) - 1,
                self.width as int + max(0, self.vertex_offset_max as int - 1) + 1,
                self.height as int + max(0, self.vertex_offset_max as int - 1) + 1,
            ),
    {
        let line_gen = DistortedLineGnerator::new(self.distortion_chance);
        let w = self.width as i32;
        let h = self.height as i32;
        let c0 = self.apply_vertex_offset(Point { x: 0, y: 0 });
        let c1 = self.apply_vertex_offset(Point { x: w, y: 0 });
        let c2 = self.apply_vertex_offset(Point { x: w, y: h });
        let c3 = self.apply_vertex_offset(Point { x: 0, y: h });
        let mut points = line_gen.generate(&c0, &c1);
        let e2 = line_gen.generate(&c1, &c2);
        let e3 = line_gen.generate(&c2, &c3);
        let e4 = line_gen.generate(&c3, &c0);
        let ghost s1 = points@;
        let ghost s2 = e2@;
        let ghost s3 = e3@;
        let ghost s4 = e4@;
        extend_from_second(&mut points, &e2);
        proof {
            lemma_unit_extend(s1, s2);
        }
        extend_from_second(&mut points, &e3);
        proof {
            lemma_unit_extend(s1 + s2.skip(1), s3);
        }
        extend_from_second(&mut points, &e4);
        proof {
            lemma_unit_extend((s1 + s2.skip(1)) + s3.skip(1), s4);
            let t2 = s1 + s2.skip(1);
            let t3 = t2 + s3.skip(1);
            let t4 = t3 + s4.skip(1);
            assert(points@ == t4);
            assert(t4[0] == s1[0]);
            assert(t4.last() == s4.last());
            assert(unit_path(t4));
            assert forall|k: int| 0 <= k < t4.len() - 1 implies axis_step(
                #[trigger] t4[k],
                t4[k + 1],
            ) by {
                assert(unit_step(t4[k], t4[k + 1]));
            };
            let w1 = s1.len() - 1;
            let w2 = w1 + s2.len() - 1;
            let w3 = w2 + s3.len() - 1;
            assert(t2.len() == s1.len() + s2.len() - 1);
            assert(t3.len() == t2.len() + s3.len() - 1);
            assert(t4.len() == t3.len() + s4.len() - 1);
            assert(t2[w1] == s1[w1]);
            assert(t3[w1] == t2[w1]);
            assert(t4[w1] == t3[w1]);
            assert(t4[w1] == c1);
            if s2.len() >= 2 {
                assert(t2[w2] == s2.skip(1)[w2 - s1.len()]);
                assert(s2.skip(1)[w2 - s1.len()] == s2[w2 - s1.len() + 1]);
                assert(w2 - s1.len() + 1 == s2.len() - 1);
                assert(s2[s2.len() - 1] == s2.last());
                assert(t2[w2] == c2);
            } else {
                assert(c1 == c2);
                assert(t2[w2] == c2);
            }
            assert(t3[w2] == t2[w2]);
            assert(t4[w2] == t3[w2]);
            if s3.len() >= 2 {
                assert(t3[w3] == s3.skip(1)[w3 - t2.len()]);
                assert(s3.skip(1)[w3 - t2.len()] == s3[w3 - t2.len() + 1]);
                assert(w3 - t2.len() + 1 == s3.len() - 1);
                assert(s3[s3.len() - 1] == s3.last());
                assert(t3[w3] == c3);
            } else {
                assert(c2 == c3);
                assert(t3[w3] == c3);
            }
            assert(t4[w3] == t3[w3]);
            assert(0 <= w1 <= w2 <= w3 < t4.len());
            assert(offset_corner(*self, Point { x: 0, y: 0 }, t4[0]));
            assert(offset_corner(*self, Point { x: w, y: 0 }, t4[w1]));
            assert(offset_corner(*self, Point { x: w, y: h }, t4[w2]));
            assert(offset_corner(*self, Point { x: 0, y: h }, t4[w3]));
            assert(Point { x: w, y: 0 } == (Point { x: self.width as i32, y: 0 }));
            assert(Point { x: w, y: h } == (Point {
                x: self.width as i32,
                y: self.height as i32,
            }));
            assert(Point { x: 0, y: h } == (Point { x: 0, y: self.height as i32 }));
            assert(visits_offset_corners(*self, points@));
            let lo = min(0, self.vertex_offset_min as int) - 1;
            let hx = self.width as int + max(0, self.vertex_offset_max as int - 1) + 1;
            let hy = self.height as int + max(0, self.vertex_offset_max as int - 1) + 1;
            assert forall|k: int| 0 <= k < s1.len() implies within(#[trigger] s1[k], lo, lo, hx, hy) by {
                assert(within(
                    s1[k],
                    min(c0.x as int, c1.x as int) - 1,
                    min(c0.y as int, c1.y as int) - 1,
                    max(c0.x as int, c1.x as int) + 1,
                    max(c0.y as int, c1.y as int) + 1,
                ));
            };
            assert forall|k: int| 0 <= k < s2.len() implies within(#[trigger] s2[k], lo, lo, hx, hy) by {
                assert(within(
                    s2[k],
                    min(c1.x as int, c2.x as int) - 1,
                    min(c1.y as int, c2.y as int) - 1,
                    max(c1.x as int, c2.x as int) + 1,
                    max(c1.y as int, c2.y as int) + 1,
                ));
            };
            assert forall|k: int| 0 <= k < s3.len() implies within(#[trigger] s3[k], lo, lo, hx, hy) by {
                assert(within(
                    s3[k],
                    min(c2.x as int, c3.x as int) - 1,
                    min(c2.y as int, c3.y as int) - 1,
                    max(c2.x as int, c3.x as int) + 1,
                    max(c2.y as int, c3.y as int) + 1,
                ));
            };
            assert forall|k: int| 0 <= k < s4.len() implies within(#[trigger] s4[k], lo, lo, hx, hy) by {
                assert(within(
                    s4[k],
                    min(c3.x as int, c0.x as int) - 1,
                    min(c3.y as int, c0.y as int) - 1,
                    max(c3.x as int, c0.x as int) + 1,
                    max(c3.y as int, c0.y as int) + 1,
                ));
            };
            assert forall|k: int| 0 <= k < s2.skip(1).len() implies within(
                #[trigger] s2.skip(1)[k],
                lo,
                lo,
                hx,
                hy,
            ) by {
                assert(s2.skip(1)[k] == s2[k + 1]);
                assert(within(s2[k + 1], lo, lo, hx, hy));
            };
            assert forall|k: int| 0 <= k < s3.skip(1).len() implies within(
                #[trigger] s3.skip(1)[k],
                lo,
                lo,
                hx,
                hy,
            ) by {
                assert(s3.skip(1)[k] == s3[k + 1]);
                assert(within(s3[k + 1], lo, lo, hx, hy));
            };
            assert forall|k: int| 0 <= k < s4.skip(1).len() implies within(
                #[trigger] s4.skip(1)[k],
                lo,
                lo,
                hx,
                hy,
            ) by {
                assert(s4.skip(1)[k] == s4[k + 1]);
                assert(within(s4[k + 1], lo, lo, hx, hy));
            };
            lemma_all_within_concat(s1, s2.skip(1), lo, lo, hx, hy);
            lemma_all_within_concat(s1 + s2.skip(1), s3.skip(1), lo, lo, hx, hy);
            lemma_all_within_concat((s1 + s2.skip(1)) + s3.skip(1), s4.skip(1), lo, lo, hx, hy);
        }
        Room::new(points)
    }
}

} // verus!
