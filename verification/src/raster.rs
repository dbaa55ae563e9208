//! Integer-only line rasterization: the single-accumulator midpoint error
//! algorithm over all eight octants. The exact pixel path is captured by the
//! spec function `line_trace`; `PPM::draw_line` paints exactly that path.

use vstd::prelude::*;

use crate::canvas::Colour;
use crate::canvas::PPM;
use crate::canvas::Point;
use crate::canvas::lemma_pix_idx_bounds;
use crate::canvas::lemma_write_pixel;
use crate::canvas::pixel_at;
use crate::canvas::write_pixel;

verus! {

/// Absolute value.
pub open spec fn abs_val(a: int) -> int {
    if a >= 0 {
        a
    } else {
        -a
    }
}

/// The unit step that moves `from` toward `to`; -1 when the two are equal.
pub open spec fn step_dir(from: int, to: int) -> int {
    if from < to {
        1
    } else {
        -1
    }
}

/// The pixel path from (x, y) to (x1, y1) as traced by the error-accumulator
/// stepper: plot the current position; while it differs from the target,
/// double the accumulator and advance x and/or y, adjusting the accumulator
/// after each advance. `dx` and `dy` are the non-negative x-distance and the
/// non-positive y-distance of the whole segment; `fuel` bounds the recursion
/// and is never exhausted when it starts at `dx - dy`.
pub open spec fn bres_trace(
    x: int,
    y: int,
    x1: int,
    y1: int,
    dx: int,
    dy: int,
    sx: int,
    sy: int,
    err: int,
    fuel: nat,
) -> Seq<(int, int)>
    decreases fuel,
{
    if x == x1 && y == y1 {
        seq![(x, y)]
    } else if fuel == 0 {
        seq![(x, y)]
    } else {
        let e2 = 2 * err;
        let xa = if e2 >= dy {
            x + sx
        } else {
            x
        };
        let ea = if e2 >= dy {
            err + dy
        } else {
            err
        };
        let yb = if e2 <= dx {
            y + sy
        } else {
            y
        };
        let eb = if e2 <= dx {
            ea + dx
        } else {
            ea
        };
        seq![(x, y)] + bres_trace(xa, yb, x1, y1, dx, dy, sx, sy, eb, (fuel - 1) as nat)
    }
}

/// The sequence of pixels plotted for the segment from (x0, y0) to (x1, y1),
/// both endpoints included.
pub open spec fn line_trace(x0: int, y0: int, x1: int, y1: int) -> Seq<(int, int)> {
    bres_trace(
        x0,
        y0,
        x1,
        y1,
        abs_val(x1 - x0),
        -abs_val(y1 - y0),
        step_dir(x0, x1),
        step_dir(y0, y1),
        abs_val(x1 - x0) - abs_val(y1 - y0),
        (abs_val(x1 - x0) + abs_val(y1 - y0)) as nat,
    )
}

/// The stepper's state invariant: the remaining distances fit under the
/// segment distances, the unit steps point at the target, and the
/// accumulator carries its closed form in the number of steps taken so far.
pub open spec fn state_ok(
    x: int,
    y: int,
    x1: int,
    y1: int,
    dx: int,
    dy: int,
    sx: int,
    sy: int,
    err: int,
) -> bool {
    let rx = abs_val(x1 - x);
    let ry = abs_val(y1 - y);
    &&& dx >= 0
    &&& dy <= 0
    &&& rx <= dx
    &&& ry <= -dy
    &&& (sx == 1 || sx == -1)
    &&& (sy == 1 || sy == -1)
    &&& (x != x1 ==> (if x < x1 {
        sx == 1
    } else {
        sx == -1
    }))
    &&& (y != y1 ==> (if y < y1 {
        sy == 1
    } else {
        sy == -1
    }))
    &&& err == (1 + (-dy - ry)) * dx - (1 + (dx - rx)) * (-dy)
}

/// One iteration of the stepper, from a valid state short of the target,
/// advances at least one coordinate toward the target, never past it, and
/// keeps the state invariant.
proof fn lemma_bres_step(
    x: int,
    y: int,
    x1: int,
    y1: int,
    dx: int,
    dy: int,
    sx: int,
    sy: int,
    err: int,
)
    requires
        state_ok(x, y, x1, y1, dx, dy, sx, sy, err),
        !(x == x1 && y == y1),
    ensures
        ({
            let e2 = 2 * err;
            let xa = if e2 >= dy {
                x + sx
            } else {
                x
            };
            let ea = if e2 >= dy {
                err + dy
            } else {
                err
            };
            let yb = if e2 <= dx {
                y + sy
            } else {
                y
            };
            let eb = if e2 <= dx {
                ea + dx
            } else {
                ea
            };
            &&& (e2 >= dy ==> x != x1 && abs_val(x1 - xa) == abs_val(x1 - x) - 1)
            &&& (e2 <= dx ==> y != y1 && abs_val(y1 - yb) == abs_val(y1 - y) - 1)
            &&& (e2 >= dy || e2 <= dx)
            &&& state_ok(xa, yb, x1, y1, dx, dy, sx, sy, eb)
            &&& abs_val(x1 - xa) + abs_val(y1 - yb) < abs_val(x1 - x) + abs_val(y1 - y)
        }),
{
    let d = -dy;
    let rx = abs_val(x1 - x);
    let ry = abs_val(y1 - y);
    let i = dx - rx;
    let j = d - ry;
    let e2 = 2 * err;
    assert(e2 >= dy || e2 <= dx);
    if e2 >= dy {
        // the x-advance never fires once x has reached the target
        if rx == 0 {
            assert(ry >= 1);
            assert(j < d);
            assert(false) by (nonlinear_arith)
                requires
                    err == (1 + j) * dx - (1 + i) * d,
                    i == dx,
                    0 <= j < d,
                    dx >= 0,
                    2 * err >= -d,
            ;
        }
    }
    if e2 <= dx {
        // the y-advance never fires once y has reached the target
        if ry == 0 {
            assert(rx >= 1);
            assert(i < dx);
            assert(false) by (nonlinear_arith)
                requires
                    err == (1 + j) * dx - (1 + i) * d,
                    j == d,
                    0 <= i < dx,
                    d >= 0,
                    2 * err <= dx,
            ;
        }
    }
    let ax: int = if e2 >= dy {
        1
    } else {
        0
    };
    let ay: int = if e2 <= dx {
        1
    } else {
        0
    };
    let xa = if e2 >= dy {
        x + sx
    } else {
        x
    };
    let yb = if e2 <= dx {
        y + sy
    } else {
        y
    };
    let eb = err + ax * dy + ay * dx;
    assert(abs_val(x1 - xa) == rx - ax);
    assert(abs_val(y1 - yb) == ry - ay);
    assert(eb == (1 + (d - (ry - ay))) * dx - (1 + (dx - (rx - ax))) * d) by (nonlinear_arith)
        requires
            err == (1 + (d - ry)) * dx - (1 + (dx - rx)) * d,
            eb == err + ax * (-d) + ay * dx,
    ;
}

/// From a valid state, the trace does not depend on the fuel, as long as the
/// fuel covers the remaining distance.
proof fn lemma_bres_fuel(
    x: int,
    y: int,
    x1: int,
    y1: int,
    dx: int,
    dy: int,
    sx: int,
    sy: int,
    err: int,
    f1: nat,
    f2: nat,
)
    requires
        state_ok(x, y, x1, y1, dx, dy, sx, sy, err),
        f1 >= abs_val(x1 - x) + abs_val(y1 - y),
        f2 >= abs_val(x1 - x) + abs_val(y1 - y),
    ensures
        bres_trace(x, y, x1, y1, dx, dy, sx, sy, err, f1) == bres_trace(
            x,
            y,
            x1,
            y1,
            dx,
            dy,
            sx,
            sy,
            err,
            f2,
        ),
    decreases f1,
{
    if x == x1 && y == y1 {
    } else {
        lemma_bres_step(x, y, x1, y1, dx, dy, sx, sy, err);
        let e2 = 2 * err;
        let xa = if e2 >= dy {
            x + sx
        } else {
            x
        };
        let ea = if e2 >= dy {
            err + dy
        } else {
            err
        };
        let yb = if e2 <= dx {
            y + sy
        } else {
            y
        };
        let eb = if e2 <= dx {
            ea + dx
        } else {
            ea
        };
        lemma_bres_fuel(xa, yb, x1, y1, dx, dy, sx, sy, eb, (f1 - 1) as nat, (f2 - 1) as nat);
    }
}

/// From a valid state with enough fuel, the trace is non-empty, begins at
/// the current position, ends at the target, and stays inside the bounding
/// box of the two.
proof fn lemma_bres_props(
    x: int,
    y: int,
    x1: int,
    y1: int,
    dx: int,
    dy: int,
    sx: int,
    sy: int,
    err: int,
    fuel: nat,
)
    requires
        state_ok(x, y, x1, y1, dx, dy, sx, sy, err),
        fuel >= abs_val(x1 - x) + abs_val(y1 - y),
    ensures
        ({
            let t = bres_trace(x, y, x1, y1, dx, dy, sx, sy, err, fuel);
            &&& t.len() >= 1
            &&& t[0] == (x, y)
            &&& t[t.len() - 1] == (x1, y1)
            &&& forall|k: int|
                0 <= k < t.len() ==> (if x <= x1 {
                    x <= #[trigger] t[k].0 <= x1
                } else {
                    x1 <= t[k].0 <= x
                }) && (if y <= y1 {
                    y <= t[k].1 <= y1
                } else {
                    y1 <= t[k].1 <= y
                })
        }),
    decreases fuel,
{
    let t = bres_trace(x, y, x1, y1, dx, dy, sx, sy, err, fuel);
    if x == x1 && y == y1 {
    } else {
        lemma_bres_step(x, y, x1, y1, dx, dy, sx, sy, err);
        let e2 = 2 * err;
        let xa = if e2 >= dy {
            x + sx
        } else {
            x
        };
        let ea = if e2 >= dy {
            err + dy
        } else {
            err
        };
        let yb = if e2 <= dx {
            y + sy
        } else {
            y
        };
        let eb = if e2 <= dx {
            ea + dx
        } else {
            ea
        };
        lemma_bres_props(xa, yb, x1, y1, dx, dy, sx, sy, eb, (fuel - 1) as nat);
        let t2 = bres_trace(xa, yb, x1, y1, dx, dy, sx, sy, eb, (fuel - 1) as nat);
        assert(t == seq![(x, y)] + t2);
        assert forall|k: int| 0 <= k < t.len() implies (if x <= x1 {
            x <= #[trigger] t[k].0 <= x1
        } else {
            x1 <= t[k].0 <= x
        }) && (if y <= y1 {
            y <= t[k].1 <= y1
        } else {
            y1 <= t[k].1 <= y
        }) by {
            if k > 0 {
                assert(t[k] == t2[k - 1]);
            }
        }
    }
}

/// The pixel path of a segment begins at its start point, ends at its end
/// point, and never leaves the bounding box of the two endpoints.
pub proof fn lemma_line_trace_props(x0: int, y0: int, x1: int, y1: int)
    ensures
        ({
            let t = line_trace(x0, y0, x1, y1);
            &&& t.len() >= 1
            &&& t[0] == (x0, y0)
            &&& t[t.len() - 1] == (x1, y1)
            &&& forall|k: int|
                0 <= k < t.len() ==> (if x0 <= x1 {
                    x0 <= #[trigger] t[k].0 <= x1
                } else {
                    x1 <= t[k].0 <= x0
                }) && (if y0 <= y1 {
                    y0 <= t[k].1 <= y1
                } else {
                    y1 <= t[k].1 <= y0
                })
        }),
{
    lemma_line_start_ok(x0, y0, x1, y1);
    lemma_bres_props(
        x0,
        y0,
        x1,
        y1,
        abs_val(x1 - x0),
        -abs_val(y1 - y0),
        step_dir(x0, x1),
        step_dir(y0, y1),
        abs_val(x1 - x0) - abs_val(y1 - y0),
        (abs_val(x1 - x0) + abs_val(y1 - y0)) as nat,
    );
}

/// The stepper's start state is valid.
proof fn lemma_line_start_ok(x0: int, y0: int, x1: int, y1: int)
    ensures
        state_ok(
            x0,
            y0,
            x1,
            y1,
            abs_val(x1 - x0),
            -abs_val(y1 - y0),
            step_dir(x0, x1),
            step_dir(y0, y1),
            abs_val(x1 - x0) - abs_val(y1 - y0),
        ),
{
    let dx = abs_val(x1 - x0);
    let d = abs_val(y1 - y0);
    assert((1 + (d - d)) * dx - (1 + (dx - dx)) * d == dx - d) by (nonlinear_arith);
}

/// The buffer after painting every pixel of `pts`, in order, with colour `c`.
pub open spec fn paint(s: Seq<u8>, width: int, pts: Seq<(int, int)>, c: Colour) -> Seq<u8>
    decreases pts.len(),
{
    if pts.len() == 0 {
        s
    } else {
        paint(write_pixel(s, width, pts[0].0, pts[0].1, c), width, pts.drop_first(), c)
    }
}

/// Painting one more pixel after a sequence is one more pixel write.
pub proof fn lemma_paint_push(s: Seq<u8>, width: int, pts: Seq<(int, int)>, p: (int, int), c: Colour)
    ensures
        paint(s, width, pts.push(p), c) == write_pixel(paint(s, width, pts, c), width, p.0, p.1, c),
    decreases pts.len(),
{
    let q = pts.push(p);
    if pts.len() == 0 {
        assert(q[0] == p);
        assert(q.drop_first() =~= Seq::<(int, int)>::empty());
        let s1 = write_pixel(s, width, p.0, p.1, c);
        assert(paint(s, width, q, c) == paint(s1, width, q.drop_first(), c));
        assert(paint(s1, width, q.drop_first(), c) == s1);
        assert(paint(s, width, pts, c) == s);
    } else {
        assert(q[0] == pts[0]);
        assert(q.drop_first() =~= pts.drop_first().push(p));
        let s1 = write_pixel(s, width, pts[0].0, pts[0].1, c);
        lemma_paint_push(s1, width, pts.drop_first(), p, c);
        assert(paint(s, width, q, c) == paint(s1, width, q.drop_first(), c));
        assert(paint(s, width, pts, c) == paint(s1, width, pts.drop_first(), c));
    }
}


/// Splitting the last element off a non-empty prefix of a concatenation.
proof fn lemma_regroup<A>(a: Seq<A>, b: Seq<A>)
    requires
        a.len() >= 1,
    ensures
        a.drop_last() + (seq![a.last()] + b) == a + b,
{
    assert(a.drop_last() + (seq![a.last()] + b) =~= a + b);
}

/// In a valid state the accumulator fits under the pixel count of any grid
/// whose dimensions strictly bound the segment distances.
proof fn lemma_err_range(
    x: int,
    y: int,
    x1: int,
    y1: int,
    dx: int,
    dy: int,
    sx: int,
    sy: int,
    err: int,
    w: int,
    h: int,
)
    requires
        state_ok(x, y, x1, y1, dx, dy, sx, sy, err),
        dx < w,
        -dy < h,
    ensures
        -(w * h) <= err,
        err <= w * h,
{
    let d = -dy;
    let rx = abs_val(x1 - x);
    let ry = abs_val(y1 - y);
    let ii = dx - rx;
    let jj = d - ry;
    assert(-((1 + dx) * d) <= err && err <= (1 + d) * dx) by (nonlinear_arith)
        requires
            err == (1 + jj) * dx - (1 + ii) * d,
            0 <= ii && ii <= dx,
            0 <= jj && jj <= d,
    ;
    assert((1 + d) * dx <= w * h && (1 + dx) * d <= w * h) by (nonlinear_arith)
        requires
            0 <= dx,
            dx < w,
            0 <= d,
            d < h,
    ;
}

/// The trace at a valid state short of the target, with the remaining
/// distance as fuel, is the current pixel followed by the trace of the
/// advanced state, again with its remaining distance as fuel.
proof fn lemma_trace_advance(
    x: int,
    y: int,
    x1: int,
    y1: int,
    dx: int,
    dy: int,
    sx: int,
    sy: int,
    err: int,
)
    requires
        state_ok(x, y, x1, y1, dx, dy, sx, sy, err),
        !(x == x1 && y == y1),
    ensures
        ({
            let e2 = 2 * err;
            let xa = if e2 >= dy {
                x + sx
            } else {
                x
            };
            let ea = if e2 >= dy {
                err + dy
            } else {
                err
            };
            let yb = if e2 <= dx {
                y + sy
            } else {
                y
            };
            let eb = if e2 <= dx {
                ea + dx
            } else {
                ea
            };
            let f0 = (abs_val(x1 - x) + abs_val(y1 - y)) as nat;
            let f1 = (abs_val(x1 - xa) + abs_val(y1 - yb)) as nat;
            &&& (e2 >= dy ==> x != x1 && abs_val(x1 - xa) == abs_val(x1 - x) - 1)
            &&& (e2 <= dx ==> y != y1 && abs_val(y1 - yb) == abs_val(y1 - y) - 1)
            &&& (e2 >= dy || e2 <= dx)
            &&& state_ok(xa, yb, x1, y1, dx, dy, sx, sy, eb)
            &&& f1 < f0
            &&& bres_trace(x, y, x1, y1, dx, dy, sx, sy, err, f0) == seq![(x, y)] + bres_trace(
                xa,
                yb,
                x1,
                y1,
                dx,
                dy,
                sx,
                sy,
                eb,
                f1,
            )
        }),
{
    lemma_bres_step(x, y, x1, y1, dx, dy, sx, sy, err);
    let e2 = 2 * err;
    let xa = if e2 >= dy {
        x + sx
    } else {
        x
    };
    let ea = if e2 >= dy {
        err + dy
    } else {
        err
    };
    let yb = if e2 <= dx {
        y + sy
    } else {
        y
    };
    let eb = if e2 <= dx {
        ea + dx
    } else {
        ea
    };
    let f0 = (abs_val(x1 - x) + abs_val(y1 - y)) as nat;
    let f1 = (abs_val(x1 - xa) + abs_val(y1 - yb)) as nat;
    assert(f0 >= 1);
    assert(bres_trace(x, y, x1, y1, dx, dy, sx, sy, err, f0) == seq![(x, y)] + bres_trace(
        xa,
        yb,
        x1,
        y1,
        dx,
        dy,
        sx,
        sy,
        eb,
        (f0 - 1) as nat,
    ));
    lemma_bres_fuel(xa, yb, x1, y1, dx, dy, sx, sy, eb, (f0 - 1) as nat, f1);
}

/// An element is in a non-empty sequence exactly when it is the head or in
/// the rest.
proof fn lemma_contains_split<A>(s: Seq<A>, a: A)
    requires
        s.len() >= 1,
    ensures
        s.contains(a) <==> (a == s[0] || s.drop_first().contains(a)),
{
    if s.contains(a) {
        let i = choose|i: int| 0 <= i < s.len() && s[i] == a;
        if i > 0 {
            assert(s.drop_first()[i - 1] == a);
        }
    }
    if s.drop_first().contains(a) {
        let i = choose|i: int| 0 <= i < s.drop_first().len() && s.drop_first()[i] == a;
        assert(s[i + 1] == a);
    }
}

/// Painting a sequence of in-range pixels keeps the buffer length, gives
/// every painted pixel the colour's three channel bytes, and leaves the
/// bytes of every other pixel unchanged.
pub proof fn lemma_paint_effect(
    s: Seq<u8>,
    width: int,
    height: int,
    pts: Seq<(int, int)>,
    c: Colour,
)
    requires
        s.len() == width * height * 3,
        forall|k: int|
            0 <= k < pts.len() ==> 0 <= (#[trigger] pts[k]).0 < width && 0 <= pts[k].1 < height,
    ensures
        paint(s, width, pts, c).len() == s.len(),
        forall|px: int, py: int|
            0 <= px < width && 0 <= py < height ==> pixel_at(
                paint(s, width, pts, c),
                width,
                px,
                py,
            ) == (if pts.contains((px, py)) {
                (c.0, c.1, c.2)
            } else {
                pixel_at(s, width, px, py)
            }),
    decreases pts.len(),
{
    if pts.len() == 0 {
    } else {
        let p = pts[0];
        let s1 = write_pixel(s, width, p.0, p.1, c);
        lemma_pix_idx_bounds(width, height, p.0, p.1);
        assert(s1.len() == s.len());
        assert(forall|k: int|
            0 <= k < pts.drop_first().len() ==> 0 <= (#[trigger] pts.drop_first()[k]).0 < width
                && 0 <= pts.drop_first()[k].1 < height);
        lemma_paint_effect(s1, width, height, pts.drop_first(), c);
        assert forall|px: int, py: int| 0 <= px < width && 0 <= py < height implies pixel_at(
            paint(s, width, pts, c),
            width,
            px,
            py,
        ) == (if pts.contains((px, py)) {
            (c.0, c.1, c.2)
        } else {
            pixel_at(s, width, px, py)
        }) by {
            lemma_write_pixel(s, width, height, p.0, p.1, c, px, py);
            lemma_contains_split(pts, (px, py));
        }
    }
}

/// A segment whose endpoints coincide plots exactly the one pixel at that
/// point: painting its trace is a single pixel write.
pub proof fn lemma_line_point(s: Seq<u8>, width: int, x: int, y: int, c: Colour)
    ensures
        line_trace(x, y, x, y) == seq![(x, y)],
        paint(s, width, line_trace(x, y, x, y), c) == write_pixel(s, width, x, y, c),
{
    assert(line_trace(x, y, x, y) == seq![(x, y)]);
    assert(seq![(x, y)].drop_first() =~= Seq::<(int, int)>::empty());
    assert(paint(s, width, seq![(x, y)], c) == paint(
        write_pixel(s, width, x, y, c),
        width,
        seq![(x, y)].drop_first(),
        c,
    ));
}

/// On a horizontal segment the stepper walks straight along the row: the
/// accumulator stays at `dx` and only x advances.
proof fn lemma_bres_horizontal(x: int, y: int, x1: int, dx: int, sx: int, sy: int, fuel: nat)
    requires
        dx >= 0,
        abs_val(x1 - x) <= dx,
        sx == 1 || sx == -1,
        x != x1 ==> (if x < x1 {
            sx == 1
        } else {
            sx == -1
        }),
        fuel >= abs_val(x1 - x),
    ensures
        bres_trace(x, y, x1, y, dx, 0, sx, sy, dx, fuel) == Seq::new(
            (abs_val(x1 - x) + 1) as nat,
            |k: int| (x + k * sx, y),
        ),
    decreases fuel,
{
    let t = bres_trace(x, y, x1, y, dx, 0, sx, sy, dx, fuel);
    let m = Seq::new((abs_val(x1 - x) + 1) as nat, |k: int| (x + k * sx, y));
    if x == x1 {
        assert(t == seq![(x, y)]);
        assert(m =~= t);
    } else {
        assert(abs_val(x1 - x) >= 1);
        assert(dx >= 1);
        lemma_bres_horizontal(x + sx, y, x1, dx, sx, sy, (fuel - 1) as nat);
        let t2 = bres_trace(x + sx, y, x1, y, dx, 0, sx, sy, dx, (fuel - 1) as nat);
        assert(t == seq![(x, y)] + t2);
        assert forall|k: int| 0 <= k < m.len() implies t[k] == m[k] by {
            if k > 0 {
                assert(t[k] == t2[k - 1]);
                assert(t2[k - 1] == (x + sx + (k - 1) * sx, y));
                assert(x + sx + (k - 1) * sx == x + k * sx) by (nonlinear_arith);
            }
        }
        assert(t =~= m);
    }
}

/// On a vertical segment the stepper walks straight down the column: the
/// accumulator stays at `dy` and only y advances.
proof fn lemma_bres_vertical(x: int, y: int, y1: int, dy: int, sx: int, sy: int, fuel: nat)
    requires
        dy <= 0,
        abs_val(y1 - y) <= -dy,
        sy == 1 || sy == -1,
        y != y1 ==> (if y < y1 {
            sy == 1
        } else {
            sy == -1
        }),
        fuel >= abs_val(y1 - y),
    ensures
        bres_trace(x, y, x, y1, 0, dy, sx, sy, dy, fuel) == Seq::new(
            (abs_val(y1 - y) + 1) as nat,
            |k: int| (x, y + k * sy),
        ),
    decreases fuel,
{
    let t = bres_trace(x, y, x, y1, 0, dy, sx, sy, dy, fuel);
    let m = Seq::new((abs_val(y1 - y) + 1) as nat, |k: int| (x, y + k * sy));
    if y == y1 {
        assert(t == seq![(x, y)]);
        assert(m =~= t);
    } else {
        assert(abs_val(y1 - y) >= 1);
        assert(dy <= -1);
        lemma_bres_vertical(x, y + sy, y1, dy, sx, sy, (fuel - 1) as nat);
        let t2 = bres_trace(x, y + sy, x, y1, 0, dy, sx, sy, dy, (fuel - 1) as nat);
        assert(t == seq![(x, y)] + t2);
        assert forall|k: int| 0 <= k < m.len() implies t[k] == m[k] by {
            if k > 0 {
                assert(t[k] == t2[k - 1]);
                assert(t2[k - 1] == (x, y + sy + (k - 1) * sy));
                assert(y + sy + (k - 1) * sy == y + k * sy) by (nonlinear_arith);
            }
        }
        assert(t =~= m);
    }
}

/// On an exactly diagonal segment the stepper advances both coordinates at
/// every step: the accumulator stays at zero.
proof fn lemma_bres_diagonal(
    x: int,
    y: int,
    x1: int,
    y1: int,
    dx: int,
    sx: int,
    sy: int,
    fuel: nat,
)
    requires
        dx >= 1,
        abs_val(x1 - x) == abs_val(y1 - y),
        abs_val(x1 - x) <= dx,
        sx == 1 || sx == -1,
        sy == 1 || sy == -1,
        x != x1 ==> (if x < x1 {
            sx == 1
        } else {
            sx == -1
        }),
        y != y1 ==> (if y < y1 {
            sy == 1
        } else {
            sy == -1
        }),
        fuel >= abs_val(x1 - x),
    ensures
        bres_trace(x, y, x1, y1, dx, -dx, sx, sy, 0, fuel) == Seq::new(
            (abs_val(x1 - x) + 1) as nat,
            |k: int| (x + k * sx, y + k * sy),
        ),
    decreases fuel,
{
    let t = bres_trace(x, y, x1, y1, dx, -dx, sx, sy, 0, fuel);
    let m = Seq::new((abs_val(x1 - x) + 1) as nat, |k: int| (x + k * sx, y + k * sy));
    if x == x1 {
        assert(y == y1);
        assert(t == seq![(x, y)]);
        assert(m =~= t);
    } else {
        assert(abs_val(x1 - x) >= 1);
        assert(y != y1);
        lemma_bres_diagonal(x + sx, y + sy, x1, y1, dx, sx, sy, (fuel - 1) as nat);
        let t2 = bres_trace(x + sx, y + sy, x1, y1, dx, -dx, sx, sy, 0, (fuel - 1) as nat);
        assert(t == seq![(x, y)] + t2);
        assert forall|k: int| 0 <= k < m.len() implies t[k] == m[k] by {
            if k > 0 {
                assert(t[k] == t2[k - 1]);
                assert(t2[k - 1] == (x + sx + (k - 1) * sx, y + sy + (k - 1) * sy));
                assert(x + sx + (k - 1) * sx == x + k * sx && y + sy + (k - 1) * sy == y + k * sy)
                    by (nonlinear_arith);
            }
        }
        assert(t =~= m);
    }
}

/// Swapping the two endpoints of a degenerate, horizontal, vertical or
/// exactly diagonal segment plots the same set of pixels (in the opposite
/// order). For other slopes the tie-breaking of the doubled accumulator can
/// choose different interior pixels in the two directions, so nothing is
/// claimed of them here.
pub proof fn lemma_line_symmetric(x0: int, y0: int, x1: int, y1: int)
    requires
        x0 == x1 || y0 == y1 || abs_val(x1 - x0) == abs_val(y1 - y0),
    ensures
        forall|p: (int, int)|
            line_trace(x0, y0, x1, y1).contains(p) <==> line_trace(x1, y1, x0, y0).contains(p),
{
    let t1 = line_trace(x0, y0, x1, y1);
    let t2 = line_trace(x1, y1, x0, y0);
    let n = abs_val(x1 - x0);
    let ny = abs_val(y1 - y0);
    let sx = step_dir(x0, x1);
    let sy = step_dir(y0, y1);
    let rx = step_dir(x1, x0);
    let ry = step_dir(y1, y0);
    if x0 == x1 && y0 == y1 {
        assert(t1 == seq![(x0, y0)]);
        assert(t2 == seq![(x0, y0)]);
    } else if y0 == y1 {
        lemma_bres_horizontal(x0, y0, x1, n, sx, sy, n as nat);
        lemma_bres_horizontal(x1, y0, x0, n, rx, ry, n as nat);
        assert(rx == -sx);
        assert(x1 == x0 + n * sx) by (nonlinear_arith)
            requires
                n == abs_val(x1 - x0),
                sx == step_dir(x0, x1),
                x0 != x1,
        ;
        assert forall|p: (int, int)| t1.contains(p) implies t2.contains(p) by {
            let k = choose|k: int| 0 <= k < t1.len() && t1[k] == p;
            assert(t1[k] == (x0 + k * sx, y0));
            assert(t2[n - k] == (x1 + (n - k) * rx, y0));
            assert(x1 + (n - k) * rx == x0 + k * sx) by (nonlinear_arith)
                requires
                    x1 == x0 + n * sx,
                    rx == -sx,
            ;
        }
        assert forall|p: (int, int)| t2.contains(p) implies t1.contains(p) by {
            let k = choose|k: int| 0 <= k < t2.len() && t2[k] == p;
            assert(t2[k] == (x1 + k * rx, y0));
            assert(t1[n - k] == (x0 + (n - k) * sx, y0));
            assert(x0 + (n - k) * sx == x1 + k * rx) by (nonlinear_arith)
                requires
                    x1 == x0 + n * sx,
                    rx == -sx,
            ;
        }
    } else if x0 == x1 {
        lemma_bres_vertical(x0, y0, y1, -ny, sx, sy, ny as nat);
        lemma_bres_vertical(x0, y1, y0, -ny, rx, ry, ny as nat);
        assert(ry == -sy);
        assert(y1 == y0 + ny * sy) by (nonlinear_arith)
            requires
                ny == abs_val(y1 - y0),
                sy == step_dir(y0, y1),
                y0 != y1,
        ;
        assert forall|p: (int, int)| t1.contains(p) implies t2.contains(p) by {
            let k = choose|k: int| 0 <= k < t1.len() && t1[k] == p;
            assert(t1[k] == (x0, y0 + k * sy));
            assert(t2[ny - k] == (x0, y1 + (ny - k) * ry));
            assert(y1 + (ny - k) * ry == y0 + k * sy) by (nonlinear_arith)
                requires
                    y1 == y0 + ny * sy,
                    ry == -sy,
        ;
        }
        assert forall|p: (int, int)| t2.contains(p) implies t1.contains(p) by {
            let k = choose|k: int| 0 <= k < t2.len() && t2[k] == p;
            assert(t2[k] == (x0, y1 + k * ry));
            assert(t1[ny - k] == (x0, y0 + (ny - k) * sy));
            assert(y0 + (ny - k) * sy == y1 + k * ry) by (nonlinear_arith)
                requires
                    y1 == y0 + ny * sy,
                    ry == -sy,
        ;
        }
    } else {
        assert(n == ny && n >= 1);
        lemma_bres_diagonal(x0, y0, x1, y1, n, sx, sy, (n + n) as nat);
        lemma_bres_diagonal(x1, y1, x0, y0, n, rx, ry, (n + n) as nat);
        assert(rx == -sx && ry == -sy);
        assert(x1 == x0 + n * sx && y1 == y0 + n * sy) by (nonlinear_arith)
            requires
                n == abs_val(x1 - x0),
                n == abs_val(y1 - y0),
                sx == step_dir(x0, x1),
                sy == step_dir(y0, y1),
                x0 != x1,
                y0 != y1,
        ;
        assert forall|p: (int, int)| t1.contains(p) implies t2.contains(p) by {
            let k = choose|k: int| 0 <= k < t1.len() && t1[k] == p;
            assert(t1[k] == (x0 + k * sx, y0 + k * sy));
            assert(t2[n - k] == (x1 + (n - k) * rx, y1 + (n - k) * ry));
            assert(x1 + (n - k) * rx == x0 + k * sx && y1 + (n - k) * ry == y0 + k * sy)
                by (nonlinear_arith)
                requires
                    x1 == x0 + n * sx,
                    y1 == y0 + n * sy,
                    rx == -sx,
                    ry == -sy,
            ;
        }
        assert forall|p: (int, int)| t2.contains(p) implies t1.contains(p) by {
            let k = choose|k: int| 0 <= k < t2.len() && t2[k] == p;
            assert(t2[k] == (x1 + k * rx, y1 + k * ry));
            assert(t1[n - k] == (x0 + (n - k) * sx, y0 + (n - k) * sy));
            assert(x0 + (n - k) * sx == x1 + k * rx && y0 + (n - k) * sy == y1 + k * ry)
                by (nonlinear_arith)
                requires
                    x1 == x0 + n * sx,
                    y1 == y0 + n * sy,
                    rx == -sx,
                    ry == -sy,
            ;
        }
    }
}

impl PPM {
    /// Rasterize the straight segment from `start` to `end`, painting every
    /// pixel of `line_trace`, in order, with `colour`. Both endpoints must
    /// lie inside the grid; the whole path then does, since it never leaves
    /// the endpoints' bounding box.
    #[verifier::loop_isolation(false)]
    #[verifier::rlimit(100)]
    pub fn draw_line(&mut self, start: &Point, end: &Point, colour: &Colour)
        requires
            old(self).wf(),
            old(self).in_bounds(start.0 as int, start.1 as int),
            old(self).in_bounds(end.0 as int, end.1 as int),
        ensures
            final(self).wf(),
            final(self).width == old(self).width,
            final(self).height == old(self).height,
            final(self).image@ == paint(
                old(self).image@,
                old(self).width as int,
                line_trace(start.0 as int, start.1 as int, end.0 as int, end.1 as int),
                *colour,
            ),
    {
        let n_bytes = self.image.len();  // the buffer length fits a machine word, bounding the accumulator
        let x0 = start.0;
        let y0 = start.1;
        let x1 = end.0;
        let y1 = end.1;

        let mut x = x0;
        let mut y = y0;
        let dx: i128 = if x1 >= x0 {
            x1 as i128 - x0 as i128
        } else {
            x0 as i128 - x1 as i128
        };
        let dy: i128 = if y1 >= y0 {
            y0 as i128 - y1 as i128
        } else {
            y1 as i128 - y0 as i128
        };
        let sx: isize = if x0 < x1 {
            1
        } else {
            -1
        };
        let sy: isize = if y0 < y1 {
            1
        } else {
            -1
        };
        let mut err: i128 = dx + dy;

        let ghost w = old(self).width as int;
        let ghost h = old(self).height as int;
        let ghost old_img = old(self).image@;
        let ghost trace = line_trace(x0 as int, y0 as int, x1 as int, y1 as int);
        let ghost mut done: Seq<(int, int)> = Seq::empty();

        proof {
            assert((dx as int) < w && -(dy as int) < h);
            lemma_line_start_ok(x0 as int, y0 as int, x1 as int, y1 as int);
            lemma_paint_push(old_img, w, done, (x as int, y as int), *colour);
            done = done.push((x as int, y as int));
            assert(done.drop_last() =~= Seq::<(int, int)>::empty());
            assert(done.drop_last() + bres_trace(
                x as int,
                y as int,
                x1 as int,
                y1 as int,
                dx as int,
                dy as int,
                sx as int,
                sy as int,
                err as int,
                (abs_val(x1 as int - x as int) + abs_val(y1 as int - y as int)) as nat,
            ) =~= bres_trace(
                x as int,
                y as int,
                x1 as int,
                y1 as int,
                dx as int,
                dy as int,
                sx as int,
                sy as int,
                err as int,
                (abs_val(x1 as int - x as int) + abs_val(y1 as int - y as int)) as nat,
            ));
        }
        self.set_pixel_unchecked(&Point(x, y), colour);
        while !(x == x1 && y == y1)
            invariant
                self.wf(),
                self.width == old(self).width,
                self.height == old(self).height,
                state_ok(
                    x as int,
                    y as int,
                    x1 as int,
                    y1 as int,
                    dx as int,
                    dy as int,
                    sx as int,
                    sy as int,
                    err as int,
                ),
                if x0 <= x1 {
                    x0 <= x && x <= x1
                } else {
                    x1 <= x && x <= x0
                },
                if y0 <= y1 {
                    y0 <= y && y <= y1
                } else {
                    y1 <= y && y <= y0
                },
                self.image@ == paint(old_img, w, done, *colour),
                done.len() >= 1,
                done.last() == (x as int, y as int),
                trace == done.drop_last() + bres_trace(
                    x as int,
                    y as int,
                    x1 as int,
                    y1 as int,
                    dx as int,
                    dy as int,
                    sx as int,
                    sy as int,
                    err as int,
                    (abs_val(x1 as int - x as int) + abs_val(y1 as int - y as int)) as nat,
                ),
            decreases abs_val(x1 as int - x as int) + abs_val(y1 as int - y as int),
        {
            proof {
                lemma_err_range(
                    x as int,
                    y as int,
                    x1 as int,
                    y1 as int,
                    dx as int,
                    dy as int,
                    sx as int,
                    sy as int,
                    err as int,
                    w,
                    h,
                );
                assert(w * h <= w * h * 3) by (nonlinear_arith)
                    requires
                        0 <= w,
                        0 <= h,
                ;
                assert(w * h * 3 <= usize::MAX as int);
            }
            let e2: i128 = 2 * err;
            proof {
                lemma_trace_advance(
                    x as int,
                    y as int,
                    x1 as int,
                    y1 as int,
                    dx as int,
                    dy as int,
                    sx as int,
                    sy as int,
                    err as int,
                );
                let ge2 = 2 * (err as int);
                let xa = if ge2 >= dy as int {
                    x as int + sx as int
                } else {
                    x as int
                };
                let ea = if ge2 >= dy as int {
                    err as int + dy as int
                } else {
                    err as int
                };
                let yb = if ge2 <= dx as int {
                    y as int + sy as int
                } else {
                    y as int
                };
                let eb = if ge2 <= dx as int {
                    ea + dx as int
                } else {
                    ea
                };
                let f1 = (abs_val(x1 as int - xa) + abs_val(y1 as int - yb)) as nat;
                lemma_regroup(
                    done,
                    bres_trace(
                        xa,
                        yb,
                        x1 as int,
                        y1 as int,
                        dx as int,
                        dy as int,
                        sx as int,
                        sy as int,
                        eb,
                        f1,
                    ),
                );
                assert(trace == done + bres_trace(
                    xa,
                    yb,
                    x1 as int,
                    y1 as int,
                    dx as int,
                    dy as int,
                    sx as int,
                    sy as int,
                    eb,
                    f1,
                ));
            }
            if e2 >= dy {
                err = err + dy;
                x = x + sx;
            }
            if e2 <= dx {
                err = err + dx;
                y = y + sy;
            }
            proof {
                lemma_paint_push(old_img, w, done, (x as int, y as int), *colour);
                assert(done.push((x as int, y as int)).drop_last() =~= done);
                done = done.push((x as int, y as int));
            }
            self.set_pixel_unchecked(&Point(x, y), colour);
        }
        proof {
            assert(done.drop_last() + seq![(x as int, y as int)] =~= done);
            assert(trace == done);
        }
    }
}

} // verus!
