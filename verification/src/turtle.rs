use vstd::prelude::*;
use vstd::arithmetic::div_mod::{
    lemma_div_is_ordered, lemma_div_multiples_vanish, lemma_div_pos_is_pos,
    lemma_fundamental_div_mod, lemma_mod_bound,
};
use crate::rng::rng_range_usize;
use crate::{Parameters, FP, MAX_COORD, MAX_WRAP_HOPS};

verus! {

/// RGBA stroke colour with 8-bit channels.
#[derive(Clone, Copy, PartialEq, Eq, Structural, Debug)]
pub struct Colour {
    pub r: u8,
    pub g: u8,
    pub b: u8,
    pub a: u8,
}

/// Pen pose: fixed-point viewport coordinates together with the heading,
/// held as its unit vector (the cosine and sine of the heading angle, in
/// fixed point). Branch save and restore copy the whole pose, so a pop
/// recovers the saved heading exactly.
#[derive(Clone, Copy, PartialEq, Eq, Structural, Debug)]
pub struct Position {
    pub x: i64,
    pub y: i64,
    pub dir_x: i64,
    pub dir_y: i64,
}

/// One drawn line, in fixed-point viewport coordinates.
#[derive(Clone, Copy, PartialEq, Eq, Structural, Debug)]
pub struct Segment {
    pub x1: i64,
    pub y1: i64,
    pub x2: i64,
    pub y2: i64,
    pub width: i64,
    pub colour: Colour,
}

/// The pen state the scheduler persists between chunks: current pose,
/// stroke colour, and the branch stack.
#[derive(Clone, Debug)]
pub struct TurtleState {
    pub pos: Position,
    pub colour: Colour,
    pub position_stack: Vec<Position>,
}

/// Candidate stopping point for one boundary-wrap hop.
#[derive(Clone, Copy, Debug)]
pub struct PossibleMovement {
    pub x: i64,
    pub y: i64,
    pub length: i64,
    pub move_to_x: Option<i64>,
    pub move_to_y: Option<i64>,
}

pub ghost struct MoveSpec {
    pub x: int,
    pub y: int,
    pub len: int,
    pub wrap_x: Option<int>,
    pub wrap_y: Option<int>,
}

pub ghost struct PoseSpec {
    pub x: int,
    pub y: int,
    pub dir_x: int,
    pub dir_y: int,
}

pub ghost struct SegSpec {
    pub x1: int,
    pub y1: int,
    pub x2: int,
    pub y2: int,
    pub width: int,
    pub colour: Colour,
}

pub ghost struct TurtleSpec {
    pub pose: PoseSpec,
    pub stack: Seq<PoseSpec>,
}

impl View for Position {
    type V = PoseSpec;

    open spec fn view(&self) -> PoseSpec {
        PoseSpec { x: self.x as int, y: self.y as int, dir_x: self.dir_x as int, dir_y: self.dir_y as int }
    }
}

impl View for Segment {
    type V = SegSpec;

    open spec fn view(&self) -> SegSpec {
        SegSpec {
            x1: self.x1 as int,
            y1: self.y1 as int,
            x2: self.x2 as int,
            y2: self.y2 as int,
            width: self.width as int,
            colour: self.colour,
        }
    }
}

impl View for PossibleMovement {
    type V = MoveSpec;

    open spec fn view(&self) -> MoveSpec {
        MoveSpec {
            x: self.x as int,
            y: self.y as int,
            len: self.length as int,
            wrap_x: match self.move_to_x {
                Some(v) => Some(v as int),
                None => None,
            },
            wrap_y: match self.move_to_y {
                Some(v) => Some(v as int),
                None => None,
            },
        }
    }
}

impl View for TurtleState {
    type V = TurtleSpec;

    open spec fn view(&self) -> TurtleSpec {
        TurtleSpec { pose: self.pos@, stack: self.position_stack@.map_values(|p: Position| p@) }
    }
}

/// Fixed-point rescaling: divide by the scale, rounding toward zero.
pub open spec fn div_fp(a: int) -> int {
    if a >= 0 {
        a / (FP as int)
    } else {
        -((-a) / (FP as int))
    }
}

pub open spec fn in_viewport(x: int, y: int, w: int, h: int) -> bool {
    0 <= x <= w && 0 <= y <= h
}

pub open spec fn dir_ok(dx: int, dy: int) -> bool {
    -FP <= dx <= FP && -FP <= dy <= FP
}

pub open spec fn viewport_ok(w: int, h: int) -> bool {
    0 < w <= MAX_COORD && 0 < h <= MAX_COORD
}

pub open spec fn pose_wf(p: PoseSpec, w: int, h: int) -> bool {
    in_viewport(p.x, p.y, w, h) && dir_ok(p.dir_x, p.dir_y)
}

pub open spec fn turtle_wf(t: TurtleSpec, w: int, h: int) -> bool {
    &&& pose_wf(t.pose, w, h)
    &&& forall|i: int| 0 <= i < t.stack.len() ==> pose_wf(#[trigger] t.stack[i], w, h)
}

/// The three-candidate boundary resolution for one hop: the straight
/// endpoint; if it exits left or right, the stop at that x-edge with x
/// wrapped to the opposite edge; if it exits top or bottom, likewise for y.
/// The candidate with the strictly smallest travel length wins, the
/// straight one on ties.
pub open spec fn next_movement_spec(x: int, y: int, dx: int, dy: int, d: int, w: int, h: int) -> MoveSpec {
    let nx = x + div_fp(dx * d);
    let ny = y + div_fp(dy * d);
    let straight = MoveSpec { x: nx, y: ny, len: d, wrap_x: None, wrap_y: None };
    let m1 = if nx > w || nx < 0 {
        let t = if nx > w {
            ((w - x) * FP) / dx
        } else {
            (x * FP) / (-dx)
        };
        let ex = x + div_fp(dx * t);
        let ey = y + div_fp(dy * t);
        let cand = MoveSpec {
            x: ex,
            y: ey,
            len: t,
            wrap_x: Some(if nx > w { 0int } else { w }),
            wrap_y: Some(ey),
        };
        if cand.len < straight.len {
            cand
        } else {
            straight
        }
    } else {
        straight
    };
    if ny > h || ny < 0 {
        let t = if ny > h {
            ((h - y) * FP) / dy
        } else {
            (y * FP) / (-dy)
        };
        let ex = x + div_fp(dx * t);
        let ey = y + div_fp(dy * t);
        let cand = MoveSpec {
            x: ex,
            y: ey,
            len: t,
            wrap_x: Some(ex),
            wrap_y: Some(if ny > h { 0int } else { h }),
        };
        if cand.len < m1.len {
            cand
        } else {
            m1
        }
    } else {
        m1
    }
}

/// One full forward move: hop from edge to edge (thin preview segments,
/// teleporting across the exited edge) until the remaining distance fits
/// inside the viewport, then draw the remainder at the full stroke width.
/// `hops` is the safety cap on wrap hops.
pub open spec fn forward_spec(
    p: PoseSpec,
    rem: int,
    w: int,
    h: int,
    wfinal: int,
    colour: Colour,
    hops: nat,
) -> (Seq<SegSpec>, PoseSpec)
    decreases hops,
{
    let m = next_movement_spec(p.x, p.y, p.dir_x, p.dir_y, rem, w, h);
    if m.len < rem && hops > 0 && m.wrap_x is Some && m.wrap_y is Some {
        let p2 = PoseSpec { x: m.wrap_x->0, y: m.wrap_y->0, dir_x: p.dir_x, dir_y: p.dir_y };
        let rec = forward_spec(p2, rem - m.len, w, h, wfinal, colour, (hops - 1) as nat);
        (
            seq![SegSpec { x1: p.x, y1: p.y, x2: m.x, y2: m.y, width: FP as int, colour }] + rec.0,
            rec.1,
        )
    } else {
        let fx = match m.wrap_x {
            Some(v) => v,
            None => m.x,
        };
        let fy = match m.wrap_y {
            Some(v) => v,
            None => m.y,
        };
        (
            seq![SegSpec { x1: p.x, y1: p.y, x2: m.x, y2: m.y, width: wfinal, colour }],
            PoseSpec { x: fx, y: fy, dir_x: p.dir_x, dir_y: p.dir_y },
        )
    }
}

/// Clamp a freshly rotated heading component back into the unit range;
/// a true cosine or sine never exceeds it, this only absorbs the one-unit
/// rounding drift of fixed-point rotation.
pub open spec fn clamp_unit(a: int) -> int {
    if a > FP {
        FP as int
    } else if a < -FP {
        -FP as int
    } else {
        a
    }
}

/// Rotate the heading vector by the turn angle, given the angle's cosine
/// and sine; `sgn` is +1 for a left turn and -1 for a right turn.
pub open spec fn rotate_spec(dx: int, dy: int, ca: int, sa: int, sgn: int) -> (int, int) {
    (clamp_unit(div_fp(dx * ca - sgn * dy * sa)), clamp_unit(div_fp(sgn * dx * sa + dy * ca)))
}

/// One command character applied to the turtle: forward-move draws,
/// turns rotate the heading, brackets save and restore the pose (a pop on
/// an empty stack is a silent no-op), anything else is ignored.
pub open spec fn step_spec(
    st: TurtleSpec,
    ch: char,
    ca: int,
    sa: int,
    d: int,
    w: int,
    h: int,
    wfinal: int,
    colour: Colour,
) -> (Seq<SegSpec>, TurtleSpec) {
    if ch == 'F' {
        let (segs, pf) = forward_spec(st.pose, d, w, h, wfinal, colour, MAX_WRAP_HOPS as nat);
        (segs, TurtleSpec { pose: pf, stack: st.stack })
    } else if ch == '+' {
        let (ndx, ndy) = rotate_spec(st.pose.dir_x, st.pose.dir_y, ca, sa, 1);
        (Seq::empty(), TurtleSpec { pose: PoseSpec { dir_x: ndx, dir_y: ndy, ..st.pose }, stack: st.stack })
    } else if ch == '-' {
        let (ndx, ndy) = rotate_spec(st.pose.dir_x, st.pose.dir_y, ca, sa, -1);
        (Seq::empty(), TurtleSpec { pose: PoseSpec { dir_x: ndx, dir_y: ndy, ..st.pose }, stack: st.stack })
    } else if ch == '[' {
        (Seq::empty(), TurtleSpec { pose: st.pose, stack: st.stack.push(st.pose) })
    } else if ch == ']' {
        if st.stack.len() == 0 {
            (Seq::empty(), st)
        } else {
            (Seq::empty(), TurtleSpec { pose: st.stack.last(), stack: st.stack.drop_last() })
        }
    } else {
        (Seq::empty(), st)
    }
}

/// A whole command string applied character by character, concatenating
/// the drawn segments.
pub open spec fn interpret_spec(
    chars: Seq<char>,
    st: TurtleSpec,
    ca: int,
    sa: int,
    d: int,
    w: int,
    h: int,
    wfinal: int,
    colour: Colour,
) -> (Seq<SegSpec>, TurtleSpec)
    decreases chars.len(),
{
    if chars.len() == 0 {
        (Seq::empty(), st)
    } else {
        let (segs1, st1) = step_spec(st, chars[0], ca, sa, d, w, h, wfinal, colour);
        let (segs2, st2) = interpret_spec(chars.skip(1), st1, ca, sa, d, w, h, wfinal, colour);
        (segs1 + segs2, st2)
    }
}

/// Rounding toward zero is antisymmetric.
proof fn lemma_div_fp_neg(b: int)
    ensures
        div_fp(-b) == -div_fp(b),
{
}

/// A quotient scaled back by its own divisor cannot exceed the dividend:
/// travelling `(gap*FP)/dir` along a direction component `dir` covers at
/// most `gap` viewport units.
proof fn lemma_travel_in(gap: int, dir: int)
    requires
        0 <= gap,
        1 <= dir <= FP,
    ensures
        0 <= (gap * FP) / dir <= gap * FP,
        dir * ((gap * FP) / dir) <= gap * FP,
        0 <= div_fp(dir * ((gap * FP) / dir)) <= gap,
{
    let t = (gap * FP) / dir;
    assert(gap * FP >= 0);
    lemma_div_pos_is_pos(gap * FP, dir);
    lemma_fundamental_div_mod(gap * FP, dir);
    lemma_mod_bound(gap * FP, dir);
    assert(dir * t <= gap * FP);
    assert(t <= dir * t) by (nonlinear_arith)
        requires
            t >= 0,
            dir >= 1,
    ;
    assert(dir * t >= 0) by (nonlinear_arith)
        requires
            t >= 0,
            dir >= 1,
    ;
    lemma_div_is_ordered(dir * t, gap * FP, FP as int);
    lemma_div_multiples_vanish(gap, FP as int);
    assert((gap * FP) / (FP as int) == gap);
    lemma_div_pos_is_pos(dir * t, FP as int);
}

/// If moving the full distance `d` oversteps the edge `gap` units away,
/// the travel to that edge is strictly shorter than `d`.
proof fn lemma_exit_short(gap: int, dir: int, d: int)
    requires
        0 <= gap,
        1 <= dir <= FP,
        0 <= d,
        div_fp(dir * d) > gap,
    ensures
        0 <= (gap * FP) / dir < d,
{
    assert(dir * d >= 0) by (nonlinear_arith)
        requires
            dir >= 1,
            d >= 0,
    ;
    assert((dir * d) / (FP as int) >= gap + 1);
    lemma_fundamental_div_mod(dir * d, FP as int);
    lemma_mod_bound(dir * d, FP as int);
    assert(dir * d >= (FP as int) * (gap + 1));
    assert(gap * FP <= dir * d - FP);
    assert(dir * d - dir == dir * (d - 1)) by (nonlinear_arith);
    assert(gap * FP <= dir * (d - 1));
    lemma_div_is_ordered(gap * FP, dir * (d - 1), dir);
    lemma_div_multiples_vanish(d - 1, dir);
    lemma_div_pos_is_pos(gap * FP, dir);
}

/// A fixed-point product with a unit-range factor rescales to at most the
/// other factor.
proof fn lemma_fp_div_bound(b: int, t: int)
    requires
        0 <= t,
        -((FP as int) * t) <= b,
        b <= (FP as int) * t,
    ensures
        -t <= div_fp(b) <= t,
{
    lemma_div_multiples_vanish(t, FP as int);
    assert(((FP as int) * t) / (FP as int) == t);
    assert((FP as int) * t >= 0) by (nonlinear_arith)
        requires
            t >= 0,
    ;
    if b >= 0 {
        lemma_div_is_ordered(b, (FP as int) * t, FP as int);
        lemma_div_pos_is_pos(b, FP as int);
    } else {
        assert(-b <= (FP as int) * t);
        lemma_div_is_ordered(-b, (FP as int) * t, FP as int);
        lemma_div_pos_is_pos(-b, FP as int);
    }
}

/// Euclidean division of non-negative fixed-point values.
fn div_pos(num: i64, den: i64) -> (r: i64)
    requires
        0 <= num,
        1 <= den,
    ensures
        r == num as int / den as int,
        0 <= r <= num,
{
    proof {
        lemma_div_pos_is_pos(num as int, den as int);
        lemma_fundamental_div_mod(num as int, den as int);
        lemma_mod_bound(num as int, den as int);
        let q = num as int / den as int;
        assert(q <= den * q) by (nonlinear_arith)
            requires
                q >= 0,
                den >= 1,
        ;
    }
    ((num as u64) / (den as u64)) as i64
}

/// Rescale a fixed-point product, rounding toward zero.
fn fp_div(a: i64) -> (r: i64)
    requires
        -0x7fff_ffff_ffff_0000 < a < 0x7fff_ffff_ffff_0000,
    ensures
        r == div_fp(a as int),
        a >= 0 ==> 0 <= r <= a,
        a <= 0 ==> a <= r <= 0,
{
    if a >= 0 {
        div_pos(a, FP)
    } else {
        let q = div_pos(-a, FP);
        -q
    }
}

/// Compute the stopping point of one boundary-wrap hop: the candidate
/// (straight endpoint, nearest x-edge crossing, nearest y-edge crossing)
/// with the smallest travel length. The chosen stopping point always lies
/// inside the viewport, and so do its wrap targets; a candidate that
/// carries wrap targets carries both, and is strictly shorter than the
/// requested distance.
pub fn get_next_pen_movement(x: i64, y: i64, dx: i64, dy: i64, d: i64, w: i64, h: i64) -> (m:
    PossibleMovement)
    requires
        in_viewport(x as int, y as int, w as int, h as int),
        dir_ok(dx as int, dy as int),
        viewport_ok(w as int, h as int),
        0 < d <= MAX_COORD,
    ensures
        m@ == next_movement_spec(x as int, y as int, dx as int, dy as int, d as int, w as int, h as int),
        0 <= m.length <= d,
        in_viewport(m.x as int, m.y as int, w as int, h as int),
        m.move_to_x is Some ==> 0 <= m.move_to_x->0 <= w,
        m.move_to_y is Some ==> 0 <= m.move_to_y->0 <= h,
        m.move_to_x is Some <==> m.move_to_y is Some,
        m.length < d ==> m.move_to_x is Some,
        m.move_to_x is None ==> m.length == d,
{
    proof {
        assert(-(FP as int) * (d as int) <= dx * d <= (FP as int) * (d as int)) by (nonlinear_arith)
            requires
                -FP <= dx <= FP,
                0 < d,
        ;
        assert(-(FP as int) * (d as int) <= dy * d <= (FP as int) * (d as int)) by (nonlinear_arith)
            requires
                -FP <= dy <= FP,
                0 < d,
        ;
        lemma_fp_div_bound(dx * d, d as int);
        lemma_fp_div_bound(dy * d, d as int);
    }
    let sdx = fp_div(dx * d);
    let sdy = fp_div(dy * d);
    let nx = x + sdx;
    let ny = y + sdy;
    let straight = PossibleMovement { x: nx, y: ny, length: d, move_to_x: None, move_to_y: None };
    let mut m = straight;
    let ghost mut which: int = 0;
    let ghost mut xcand = m;
    if nx > w || nx < 0 {
        let gap: i64 = if nx > w {
            w - x
        } else {
            x
        };
        let dir: i64 = if nx > w {
            dx
        } else {
            -dx
        };
        proof {
            if nx > w {
                assert(div_fp(dx * d) > w - x);
                assert(dx * d > 0);
                assert(dx >= 1) by (nonlinear_arith)
                    requires
                        d >= 1,
                        dx * d >= 1,
                ;
                lemma_exit_short(gap as int, dir as int, d as int);
            } else {
                assert(div_fp(dx * d) < -x && -x <= 0);
                assert(dx * d < 0);
                assert(dx <= -1) by (nonlinear_arith)
                    requires
                        d >= 1,
                        dx * d <= -1,
                ;
                lemma_div_fp_neg(dx * d);
                assert(-(dx * d) == dir * d) by (nonlinear_arith)
                    requires
                        dir == -dx,
                ;
                assert(div_fp(dir * d) > gap);
                lemma_exit_short(gap as int, dir as int, d as int);
            }
            lemma_travel_in(gap as int, dir as int);
        }
        let t = div_pos(gap * FP, dir);
        proof {
            assert(dir * t == dir * ((gap * FP) as int / dir as int));
            if nx > w {
                assert(dx * t == dir * t);
            } else {
                assert(dx * t == -(dir * t)) by (nonlinear_arith)
                    requires
                        dx == -dir,
                ;
                lemma_div_fp_neg(dir * t);
            }
            assert(-(FP as int) * t <= dy * t <= (FP as int) * t) by (nonlinear_arith)
                requires
                    -FP <= dy <= FP,
                    t >= 0,
            ;
            lemma_fp_div_bound(dy * t, t as int);
        }
        let ex = x + fp_div(dx * t);
        let ey = y + fp_div(dy * t);
        let cand = PossibleMovement {
            x: ex,
            y: ey,
            length: t,
            move_to_x: Some(if nx > w { 0 } else { w }),
            move_to_y: Some(ey),
        };
        proof {
            xcand = cand;
        }
        if cand.length < m.length {
            m = cand;
            proof {
                which = 1;
            }
        }
        proof {
            assert(t < d);
            assert(which == 1 && m == cand);
        }
    }
    if ny > h || ny < 0 {
        let gap: i64 = if ny > h {
            h - y
        } else {
            y
        };
        let dir: i64 = if ny > h {
            dy
        } else {
            -dy
        };
        proof {
            if ny > h {
                assert(div_fp(dy * d) > h - y);
                assert(dy >= 1) by (nonlinear_arith)
                    requires
                        d >= 1,
                        dy * d >= 1,
                ;
                lemma_exit_short(gap as int, dir as int, d as int);
            } else {
                assert(div_fp(dy * d) < -y && -y <= 0);
                assert(dy <= -1) by (nonlinear_arith)
                    requires
                        d >= 1,
                        dy * d <= -1,
                ;
                lemma_div_fp_neg(dy * d);
                assert(-(dy * d) == dir * d) by (nonlinear_arith)
                    requires
                        dir == -dy,
                ;
                assert(div_fp(dir * d) > gap);
                lemma_exit_short(gap as int, dir as int, d as int);
            }
            lemma_travel_in(gap as int, dir as int);
        }
        let t = div_pos(gap * FP, dir);
        proof {
            if ny > h {
                assert(dy * t == dir * t);
            } else {
                assert(dy * t == -(dir * t)) by (nonlinear_arith)
                    requires
                        dy == -dir,
                ;
                lemma_div_fp_neg(dir * t);
            }
            assert(-(FP as int) * t <= dx * t <= (FP as int) * t) by (nonlinear_arith)
                requires
                    -FP <= dx <= FP,
                    t >= 0,
            ;
            lemma_fp_div_bound(dx * t, t as int);
        }
        let ex = x + fp_div(dx * t);
        let ey = y + fp_div(dy * t);
        let cand = PossibleMovement {
            x: ex,
            y: ey,
            length: t,
            move_to_x: Some(ex),
            move_to_y: Some(if ny > h { 0 } else { h }),
        };
        if cand.length < m.length {
            m = cand;
            proof {
                which = 2;
            }
        }
        proof {
            if which == 2 {
                // The cross-axis coordinate of the chosen y-edge stop stays
                // inside [0, w]: were it outside, the x-edge stop would have
                // been strictly shorter and would have been chosen instead.
                if dx >= 0 {
                    assert(div_fp(dx * t) >= 0);
                    if ex > w {
                        assert(dx >= 1) by (nonlinear_arith)
                            requires
                                dx >= 0,
                                t >= 0,
                                dx * t >= 1,
                        ;
                        assert(dx * t <= dx * d) by (nonlinear_arith)
                            requires
                                dx >= 0,
                                t <= d,
                        ;
                        assert(dx * t >= 0) by (nonlinear_arith)
                            requires
                                dx >= 0,
                                t >= 0,
                        ;
                        lemma_div_is_ordered(dx * t, dx * d, FP as int);
                        assert(nx > w);
                        lemma_exit_short((w - x) as int, dx as int, t as int);
                        assert(xcand.length < t);
                        assert(false);
                    }
                } else {
                    lemma_div_fp_neg(dx * t);
                    assert(-(dx * t) == (-dx) * t) by (nonlinear_arith);
                    assert(div_fp(dx * t) <= 0);
                    if ex < 0 {
                        assert(div_fp((-dx) * t) > x);
                        assert((-dx) * t <= (-dx) * d) by (nonlinear_arith)
                            requires
                                -dx >= 0,
                                t <= d,
                        ;
                        assert((-dx) * t >= 0) by (nonlinear_arith)
                            requires
                                -dx >= 0,
                                t >= 0,
                        ;
                        lemma_div_is_ordered((-dx) * t, (-dx) * d, FP as int);
                        lemma_div_fp_neg(dx * d);
                        assert(-(dx * d) == (-dx) * d) by (nonlinear_arith);
                        assert(nx < 0);
                        lemma_exit_short(x as int, (-dx) as int, t as int);
                        assert(xcand.length < t);
                        assert(false);
                    }
                }
            }
        }
    }
    proof {
        if which == 1 {
            // Same argument in the other direction: the chosen x-edge stop's
            // y-coordinate stays inside [0, h].
            let t = m.length as int;
            if dy >= 0 {
                assert(div_fp(dy * t) >= 0);
                if m.y > h {
                    assert(dy >= 1) by (nonlinear_arith)
                        requires
                            dy >= 0,
                            t >= 0,
                            dy * t >= 1,
                    ;
                    assert(dy * t <= dy * d) by (nonlinear_arith)
                        requires
                            dy >= 0,
                            t <= d,
                    ;
                    assert(dy * t >= 0) by (nonlinear_arith)
                        requires
                            dy >= 0,
                            t >= 0,
                    ;
                    lemma_div_is_ordered(dy * t, dy * d, FP as int);
                    assert(ny > h);
                    lemma_exit_short((h - y) as int, dy as int, t);
                    assert(false);
                }
            } else {
                lemma_div_fp_neg(dy * t);
                assert(-(dy * t) == (-dy) * t) by (nonlinear_arith);
                assert(div_fp(dy * t) <= 0);
                if m.y < 0 {
                    assert(div_fp((-dy) * t) > y);
                    assert((-dy) * t <= (-dy) * d) by (nonlinear_arith)
                        requires
                            -dy >= 0,
                            t <= d,
                    ;
                    assert((-dy) * t >= 0) by (nonlinear_arith)
                        requires
                            -dy >= 0,
                            t >= 0,
                    ;
                    lemma_div_is_ordered((-dy) * t, (-dy) * d, FP as int);
                    lemma_div_fp_neg(dy * d);
                    assert(-(dy * d) == (-dy) * d) by (nonlinear_arith);
                    assert(ny < 0);
                    lemma_exit_short(y as int, (-dy) as int, t);
                    assert(false);
                }
            }
        }
    }
    m
}

/// One forward move of `d` fixed-point units from `(px, py)` along
/// `(dx, dy)`, appending the drawn segments and returning the final pen
/// coordinates; hops across viewport edges with thin preview segments
/// until the remainder fits, then draws it at the full stroke width.
fn forward(
    px: i64,
    py: i64,
    dx: i64,
    dy: i64,
    d: i64,
    w: i64,
    h: i64,
    wfinal: i64,
    colour: Colour,
    segs: &mut Vec<Segment>,
) -> (r: (i64, i64))
    requires
        in_viewport(px as int, py as int, w as int, h as int),
        dir_ok(dx as int, dy as int),
        viewport_ok(w as int, h as int),
        0 < d <= MAX_COORD,
    ensures
        ({
            let (ss, pf) = forward_spec(
                PoseSpec { x: px as int, y: py as int, dir_x: dx as int, dir_y: dy as int },
                d as int,
                w as int,
                h as int,
                wfinal as int,
                colour,
                MAX_WRAP_HOPS as nat,
            );
            &&& final(segs)@.map_values(|s: Segment| s@) == old(segs)@.map_values(|s: Segment| s@)
                + ss
            &&& r.0 == pf.x && r.1 == pf.y
            &&& in_viewport(r.0 as int, r.1 as int, w as int, h as int)
        }),
{
    let ghost p0 = PoseSpec { x: px as int, y: py as int, dir_x: dx as int, dir_y: dy as int };
    let ghost base = segs@.map_values(|s: Segment| s@);
    let ghost fw0 = forward_spec(p0, d as int, w as int, h as int, wfinal as int, colour, MAX_WRAP_HOPS as nat);
    let mut cx = px;
    let mut cy = py;
    let mut rem = d;
    let mut hops: u64 = MAX_WRAP_HOPS;
    let mut m = get_next_pen_movement(cx, cy, dx, dy, rem, w, h);
    while m.length < rem && hops > 0
        invariant
            in_viewport(cx as int, cy as int, w as int, h as int),
            dir_ok(dx as int, dy as int),
            viewport_ok(w as int, h as int),
            0 < rem <= MAX_COORD,
            m@ == next_movement_spec(cx as int, cy as int, dx as int, dy as int, rem as int, w as int, h as int),
            0 <= m.length <= rem,
            in_viewport(m.x as int, m.y as int, w as int, h as int),
            m.move_to_x is Some ==> 0 <= m.move_to_x->0 <= w,
            m.move_to_y is Some ==> 0 <= m.move_to_y->0 <= h,
            m.move_to_x is Some <==> m.move_to_y is Some,
            m.length < rem ==> m.move_to_x is Some,
            m.move_to_x is None ==> m.length == rem,
            ({
                let fw = forward_spec(
                    PoseSpec { x: cx as int, y: cy as int, dir_x: dx as int, dir_y: dy as int },
                    rem as int,
                    w as int,
                    h as int,
                    wfinal as int,
                    colour,
                    hops as nat,
                );
                &&& fw0.0 == segs@.map_values(|s: Segment| s@).skip(base.len() as int) + fw.0
                &&& fw0.1 == fw.1
                &&& base == segs@.map_values(|s: Segment| s@).take(base.len() as int)
                &&& base.len() <= segs@.len()
            }),
        decreases hops,
    {
        let ghost segs_pre = segs@.map_values(|s: Segment| s@);
        let ghost fw_pre = forward_spec(
            PoseSpec { x: cx as int, y: cy as int, dir_x: dx as int, dir_y: dy as int },
            rem as int,
            w as int,
            h as int,
            wfinal as int,
            colour,
            hops as nat,
        );
        let seg = Segment { x1: cx, y1: cy, x2: m.x, y2: m.y, width: FP, colour };
        segs.push(seg);
        cx = m.move_to_x.unwrap();
        cy = m.move_to_y.unwrap();
        rem = rem - m.length;
        hops = hops - 1;
        proof {
            assert(segs@.map_values(|s: Segment| s@) =~= segs_pre.push(seg@));
            let fw = forward_spec(
                PoseSpec { x: cx as int, y: cy as int, dir_x: dx as int, dir_y: dy as int },
                rem as int,
                w as int,
                h as int,
                wfinal as int,
                colour,
                hops as nat,
            );
            assert(fw_pre.0 =~= seq![seg@] + fw.0);
            assert(fw_pre.1 == fw.1);
            assert(segs_pre.skip(base.len() as int) + fw_pre.0 =~= segs_pre.push(seg@).skip(
                base.len() as int,
            ) + fw.0);
            assert(segs_pre.push(seg@).take(base.len() as int) =~= segs_pre.take(
                base.len() as int,
            ));
        }
        m = get_next_pen_movement(cx, cy, dx, dy, rem, w, h);
    }
    let ghost segs_pre = segs@.map_values(|s: Segment| s@);
    let seg = Segment { x1: cx, y1: cy, x2: m.x, y2: m.y, width: wfinal, colour };
    segs.push(seg);
    let fx = match m.move_to_x {
        Some(v) => v,
        None => m.x,
    };
    let fy = match m.move_to_y {
        Some(v) => v,
        None => m.y,
    };
    proof {
        assert(segs@.map_values(|s: Segment| s@) =~= segs_pre.push(seg@));
        let fw = forward_spec(
            PoseSpec { x: cx as int, y: cy as int, dir_x: dx as int, dir_y: dy as int },
            rem as int,
            w as int,
            h as int,
            wfinal as int,
            colour,
            hops as nat,
        );
        assert(fw.0 =~= seq![seg@]);
        assert(fw0.0 =~= segs_pre.skip(base.len() as int) + fw.0);
        assert(segs_pre.push(seg@).skip(base.len() as int) =~= segs_pre.skip(base.len() as int)
            + seq![seg@]);
        assert(fw0.0 =~= segs_pre.push(seg@).skip(base.len() as int));
        assert(base + fw0.0 =~= segs_pre.push(seg@));
    }
    (fx, fy)
}

/// Clamp a rotated heading component back into the unit range.
fn clamp_fp(a: i64) -> (r: i64)
    ensures
        r == clamp_unit(a as int),
{
    if a > FP {
        FP
    } else if a < -FP {
        -FP
    } else {
        a
    }
}

/// Rotate the heading vector by the turn angle (given by its cosine and
/// sine); `left` selects the turn direction.
fn rotate(dx: i64, dy: i64, ca: i64, sa: i64, left: bool) -> (r: (i64, i64))
    requires
        dir_ok(dx as int, dy as int),
        dir_ok(ca as int, sa as int),
    ensures
        ({
            let rs = rotate_spec(dx as int, dy as int, ca as int, sa as int, if left { 1int } else { -1int });
            r.0 == rs.0 && r.1 == rs.1
        }),
        dir_ok(r.0 as int, r.1 as int),
{
    proof {
        assert(-((FP as int) * (FP as int)) <= dx * ca <= (FP as int) * (FP as int)) by (nonlinear_arith)
            requires
                -FP <= dx <= FP,
                -FP <= ca <= FP,
        ;
        assert(-((FP as int) * (FP as int)) <= dy * sa <= (FP as int) * (FP as int)) by (nonlinear_arith)
            requires
                -FP <= dy <= FP,
                -FP <= sa <= FP,
        ;
        assert(-((FP as int) * (FP as int)) <= dx * sa <= (FP as int) * (FP as int)) by (nonlinear_arith)
            requires
                -FP <= dx <= FP,
                -FP <= sa <= FP,
        ;
        assert(-((FP as int) * (FP as int)) <= dy * ca <= (FP as int) * (FP as int)) by (nonlinear_arith)
            requires
                -FP <= dy <= FP,
                -FP <= ca <= FP,
        ;
    }
    let rawx = if left {
        dx * ca - dy * sa
    } else {
        dx * ca + dy * sa
    };
    let rawy = if left {
        dx * sa + dy * ca
    } else {
        dy * ca - dx * sa
    };
    proof {
        let sgn: int = if left { 1 } else { -1 };
        assert(rawx as int == dx * ca - sgn * (dy as int) * (sa as int)) by (nonlinear_arith)
            requires
                sgn == if left { 1int } else { -1int },
                rawx == if left { (dx * ca - dy * sa) as int } else { (dx * ca + dy * sa) as int },
        ;
        assert(rawy as int == sgn * (dx as int) * (sa as int) + dy * ca) by (nonlinear_arith)
            requires
                sgn == if left { 1int } else { -1int },
                rawy == if left { (dx * sa + dy * ca) as int } else { (dy * ca - dx * sa) as int },
        ;
    }
    let ndx = clamp_fp(fp_div(rawx));
    let ndy = clamp_fp(fp_div(rawy));
    (ndx, ndy)
}

/// A forward move never changes the heading, only the coordinates.
proof fn lemma_forward_keeps_dir(
    p: PoseSpec,
    rem: int,
    w: int,
    h: int,
    wfinal: int,
    colour: Colour,
    hops: nat,
)
    ensures
        forward_spec(p, rem, w, h, wfinal, colour, hops).1.dir_x == p.dir_x,
        forward_spec(p, rem, w, h, wfinal, colour, hops).1.dir_y == p.dir_y,
    decreases hops,
{
    let m = next_movement_spec(p.x, p.y, p.dir_x, p.dir_y, rem, w, h);
    if m.len < rem && hops > 0 && m.wrap_x is Some && m.wrap_y is Some {
        let p2 = PoseSpec { x: m.wrap_x->0, y: m.wrap_y->0, dir_x: p.dir_x, dir_y: p.dir_y };
        lemma_forward_keeps_dir(p2, rem - m.len, w, h, wfinal, colour, (hops - 1) as nat);
    }
}

/// Interpreting one more character extends the segment list by that
/// character's own segments and steps the state once.
proof fn lemma_interpret_snoc(
    chars: Seq<char>,
    c: char,
    st: TurtleSpec,
    ca: int,
    sa: int,
    d: int,
    w: int,
    h: int,
    wfinal: int,
    colour: Colour,
)
    ensures
        ({
            let a = interpret_spec(chars, st, ca, sa, d, w, h, wfinal, colour);
            let b = step_spec(a.1, c, ca, sa, d, w, h, wfinal, colour);
            let whole = interpret_spec(chars.push(c), st, ca, sa, d, w, h, wfinal, colour);
            whole.0 == a.0 + b.0 && whole.1 == b.1
        }),
    decreases chars.len(),
{
    let a = interpret_spec(chars, st, ca, sa, d, w, h, wfinal, colour);
    let b = step_spec(a.1, c, ca, sa, d, w, h, wfinal, colour);
    if chars.len() == 0 {
        assert(chars.push(c)[0] == c);
        assert(chars.push(c).skip(1) =~= chars);
        assert(a.0 == Seq::<SegSpec>::empty() && a.1 == st);
        let b0 = step_spec(st, c, ca, sa, d, w, h, wfinal, colour);
        let inner = interpret_spec(chars, b0.1, ca, sa, d, w, h, wfinal, colour);
        assert(inner.0 == Seq::<SegSpec>::empty() && inner.1 == b0.1);
        let whole = interpret_spec(chars.push(c), st, ca, sa, d, w, h, wfinal, colour);
        assert(whole.0 == b0.0 + inner.0 && whole.1 == inner.1);
        assert(b0.0 + Seq::<SegSpec>::empty() =~= b0.0);
        assert(a.0 + b0.0 =~= b0.0);
    } else {
        assert(chars.push(c)[0] == chars[0]);
        assert(chars.push(c).skip(1) =~= chars.skip(1).push(c));
        let s1 = step_spec(st, chars[0], ca, sa, d, w, h, wfinal, colour);
        let a1 = interpret_spec(chars.skip(1), s1.1, ca, sa, d, w, h, wfinal, colour);
        lemma_interpret_snoc(chars.skip(1), c, s1.1, ca, sa, d, w, h, wfinal, colour);
        let b1 = step_spec(a1.1, c, ca, sa, d, w, h, wfinal, colour);
        assert(s1.0 + (a1.0 + b1.0) =~= (s1.0 + a1.0) + b1.0);
    }
}

/// Execute one command chunk against the pen state, returning the drawn
/// segments in order and updating pose and branch stack in place; the
/// stroke colour is read but never changed.
pub fn draw_lsystem_substring(
    string: &Vec<char>,
    angle_cos: i64,
    angle_sin: i64,
    turtle_state: &mut TurtleState,
    params: &Parameters,
    width: i64,
    height: i64,
) -> (segments: Vec<Segment>)
    requires
        dir_ok(angle_cos as int, angle_sin as int),
        viewport_ok(width as int, height as int),
        turtle_wf(old(turtle_state)@, width as int, height as int),
        0 < params.distance_per_movement <= MAX_COORD,
    ensures
        ({
            let r = interpret_spec(
                string@,
                old(turtle_state)@,
                angle_cos as int,
                angle_sin as int,
                params.distance_per_movement as int,
                width as int,
                height as int,
                params.line_width as int,
                old(turtle_state).colour,
            );
            &&& segments@.map_values(|s: Segment| s@) == r.0
            &&& final(turtle_state)@ == r.1
        }),
        final(turtle_state).colour == old(turtle_state).colour,
        turtle_wf(final(turtle_state)@, width as int, height as int),
{
    let ghost st0 = turtle_state@;
    let colour = turtle_state.colour;
    let d = params.distance_per_movement;
    let lw = params.line_width;
    let mut segments: Vec<Segment> = Vec::new();
    let mut cx = turtle_state.pos.x;
    let mut cy = turtle_state.pos.y;
    let mut cdx = turtle_state.pos.dir_x;
    let mut cdy = turtle_state.pos.dir_y;
    proof {
        assert(forall|j: int|
            0 <= j < turtle_state.position_stack@.len() ==> (
            #[trigger] turtle_state.position_stack@[j])@ == st0.stack[j]);
    }
    let mut i: usize = 0;
    while i < string.len()
        invariant
            i <= string.len(),
            in_viewport(cx as int, cy as int, width as int, height as int),
            dir_ok(cdx as int, cdy as int),
            dir_ok(angle_cos as int, angle_sin as int),
            viewport_ok(width as int, height as int),
            0 < d <= MAX_COORD,
            turtle_state.colour == colour,
            forall|j: int|
                0 <= j < turtle_state.position_stack@.len() ==> pose_wf(
                    (#[trigger] turtle_state.position_stack@[j])@,
                    width as int,
                    height as int,
                ),
            ({
                let r = interpret_spec(
                    string@.take(i as int),
                    st0,
                    angle_cos as int,
                    angle_sin as int,
                    d as int,
                    width as int,
                    height as int,
                    lw as int,
                    colour,
                );
                &&& segments@.map_values(|s: Segment| s@) == r.0
                &&& r.1 == (TurtleSpec {
                    pose: PoseSpec { x: cx as int, y: cy as int, dir_x: cdx as int, dir_y: cdy as int },
                    stack: turtle_state.position_stack@.map_values(|p: Position| p@),
                })
            }),
        decreases string.len() - i,
    {
        let ghost pre_take = string@.take(i as int);
        let ghost pre_state = TurtleSpec {
            pose: PoseSpec { x: cx as int, y: cy as int, dir_x: cdx as int, dir_y: cdy as int },
            stack: turtle_state.position_stack@.map_values(|p: Position| p@),
        };
        let ghost pre_segs = segments@.map_values(|s: Segment| s@);
        let ch = string[i];
        proof {
            assert(string@.take((i + 1) as int) =~= pre_take.push(ch));
            lemma_interpret_snoc(
                pre_take,
                ch,
                st0,
                angle_cos as int,
                angle_sin as int,
                d as int,
                width as int,
                height as int,
                lw as int,
                colour,
            );
        }
        if ch == 'F' {
            proof {
                lemma_forward_keeps_dir(
                    pre_state.pose,
                    d as int,
                    width as int,
                    height as int,
                    lw as int,
                    colour,
                    MAX_WRAP_HOPS as nat,
                );
            }
            let r = forward(cx, cy, cdx, cdy, d, width, height, lw, colour, &mut segments);
            cx = r.0;
            cy = r.1;
        } else if ch == '+' {
            let r = rotate(cdx, cdy, angle_cos, angle_sin, true);
            cdx = r.0;
            cdy = r.1;
            proof {
                assert(pre_segs + Seq::<SegSpec>::empty() =~= pre_segs);
            }
        } else if ch == '-' {
            let r = rotate(cdx, cdy, angle_cos, angle_sin, false);
            cdx = r.0;
            cdy = r.1;
            proof {
                assert(pre_segs + Seq::<SegSpec>::empty() =~= pre_segs);
            }
        } else if ch == '[' {
            let saved = Position { x: cx, y: cy, dir_x: cdx, dir_y: cdy };
            turtle_state.position_stack.push(saved);
            proof {
                assert(turtle_state.position_stack@.map_values(|p: Position| p@)
                    =~= pre_state.stack.push(saved@));
                assert(pre_segs + Seq::<SegSpec>::empty() =~= pre_segs);
            }
        } else if ch == ']' {
            let popped = turtle_state.position_stack.pop();
            match popped {
                Some(p) => {
                    cx = p.x;
                    cy = p.y;
                    cdx = p.dir_x;
                    cdy = p.dir_y;
                    proof {
                        assert(turtle_state.position_stack@.map_values(|p: Position| p@)
                            =~= pre_state.stack.drop_last());
                        assert(p@ == pre_state.stack.last());
                        assert(pose_wf(pre_state.stack.last(), width as int, height as int));
                        assert(pre_segs + Seq::<SegSpec>::empty() =~= pre_segs);
                    }
                },
                None => {
                    proof {
                        assert(pre_segs + Seq::<SegSpec>::empty() =~= pre_segs);
                    }
                },
            }
        } else {
            proof {
                assert(pre_segs + Seq::<SegSpec>::empty() =~= pre_segs);
            }
        }
        i = i + 1;
    }
    proof {
        assert(string@.take(string.len() as int) =~= string@);
    }
    turtle_state.pos = Position { x: cx, y: cy, dir_x: cdx, dir_y: cdy };
    segments
}

/// Random bright stroke colour: each channel uniform in the upper half of
/// the 8-bit range, fully opaque.
pub fn rand_colour(rng: &mut rand::rngs::ThreadRng) -> (c: Colour)
    ensures
        128 <= c.r,
        128 <= c.g,
        128 <= c.b,
        c.a == 255,
{
    let r = rng_range_usize(rng, 128, 256);
    let g = rng_range_usize(rng, 128, 256);
    let b = rng_range_usize(rng, 128, 256);
    Colour { r: r as u8, g: g as u8, b: b as u8, a: 255 }
}

impl TurtleState {
    /// Fresh pen at the origin, heading along the positive x-axis, with a
    /// random bright colour and an empty branch stack.
    pub fn new(rng: &mut rand::rngs::ThreadRng) -> (t: TurtleState)
        ensures
            t.pos.x == 0 && t.pos.y == 0 && t.pos.dir_x == FP && t.pos.dir_y == 0,
            t.position_stack@.len() == 0,
            128 <= t.colour.r && 128 <= t.colour.g && 128 <= t.colour.b && t.colour.a == 255,
            forall|w: int, h: int| viewport_ok(w, h) ==> turtle_wf(t@, w, h),
    {
        TurtleState {
            pos: Position { x: 0, y: 0, dir_x: FP, dir_y: 0 },
            colour: rand_colour(rng),
            position_stack: Vec::new(),
        }
    }
}

} // verus!
