//! The picture of an instance and an answer, as a list of shapes to draw: the
//! containers waiting to be put and those taken out in two rows of slots above
//! the yard, then the yard itself with its squares, obstacles and containers.
//! Drawing the shapes (as SVG) is left to the caller.

use vstd::prelude::*;

use crate::grid::{cell_index, EMPTY, OBSTACLE};
use crate::input::Input;
use crate::score::{
    container_count, counts_agree, details_match, holds_container, lemma_containers_conserved,
    lemma_last_in_storage,
    put_total, run, score_faults, try_compute_score_details, Progress, ScoreDetails, ScoreError,
    Yard,
};

verus! {

/// How a square is filled.
#[derive(Clone, Copy, Debug, PartialEq, Eq, Structural)]
pub enum Paint {
    /// The colour of container `v`: the colour scale at `v / (D * D - 1)`.
    Shade(usize),
    /// Opaque white.
    White,
    /// Light gray.
    LightGray,
    /// No fill.
    Clear,
}

/// The colour of a square's outline.
#[derive(Clone, Copy, Debug, PartialEq, Eq, Structural)]
pub enum Ink {
    Black,
    LightGray,
}

/// An axis-parallel rectangle.
#[derive(Clone, Copy, Debug, PartialEq, Eq, Structural)]
pub struct Square {
    pub x: usize,
    pub y: usize,
    pub w: usize,
    pub h: usize,
    pub fill: Paint,
    pub stroke: Ink,
    pub stroke_width: usize,
}

/// A number written centred at `(x, y)`.
#[derive(Clone, Copy, Debug, PartialEq, Eq, Structural)]
pub struct Label {
    pub x: usize,
    pub y: usize,
    pub size: usize,
    pub value: usize,
}

/// One element of the picture.
#[derive(Clone, Copy, Debug, PartialEq, Eq, Structural)]
pub enum Shape {
    /// A black line of width 3 from `(x1, y1)` to `(x2, y2)`.
    Line(usize, usize, usize, usize),
    /// A rectangle.
    Box(Square),
    /// A number.
    Text(Label),
    /// Yard square `(i, j)`: its rectangle and maybe a number, grouped with the
    /// title `(i, j)` and a click handler for that square.
    Cell(usize, usize, Square, Option<Label>),
}

/// What the picture shows.
pub struct VisPlan {
    /// The score as a ratio, as `ScoreDetails::ratio`.
    pub ratio: Option<(usize, usize)>,
    /// The error, as `ScoreDetails::error`.
    pub error: Option<ScoreError>,
    /// Width of the picture.
    pub width: usize,
    /// Height of the picture.
    pub height: usize,
    /// The shapes, in drawing order.
    pub shapes: Vec<Shape>,
}

/// The side of a yard square in the picture.
pub open spec fn unit(d: int) -> int {
    720int / d
}

/// Where the yard starts below the slots.
pub open spec fn top(d: int) -> int {
    unit(d) / 2 * (d * d - 1 + 2 * d - 1) / (2 * d) + 5 + unit(d) / 2
}

/// The shapes `f(0)`, ..., `f(n - 1)`, one after the other.
pub open spec fn flat(n: int, f: spec_fn(int) -> Seq<Shape>) -> Seq<Shape>
    decreases n,
{
    if n <= 0 {
        seq![]
    } else {
        flat(n - 1, f) + f(n - 1)
    }
}

/// The border of the yard, open at the entrance.
pub open spec fn frame(d: int, w: int, h0: int) -> Seq<Shape> {
    seq![
        Shape::Line(0, h0 as usize, (w * (d / 2)) as usize, h0 as usize),
        Shape::Line((w * (d / 2 + 1)) as usize, h0 as usize, (w * d) as usize, h0 as usize),
        Shape::Line(0, h0 as usize, 0, (h0 + w * d) as usize),
        Shape::Line((w * d) as usize, h0 as usize, (w * d) as usize, (h0 + w * d) as usize),
        Shape::Line(0, (h0 + w * d) as usize, (w * d) as usize, (h0 + w * d) as usize),
    ]
}

/// Slot `i` of the rows above the yard: `2 * d` slots of half a square per row.
pub open spec fn slot(d: int, w: int, i: int, fill: Paint, stroke_width: int) -> Square {
    Square {
        x: ((i % (2 * d)) * (w / 2)) as usize,
        y: ((i / (2 * d)) * (w / 2)) as usize,
        w: (w / 2) as usize,
        h: (w / 2) as usize,
        fill,
        stroke: Ink::Black,
        stroke_width: stroke_width as usize,
    }
}

/// The number `value` written in slot `i`.
pub open spec fn slot_label(d: int, w: int, i: int, value: usize) -> Label {
    Label {
        x: ((i % (2 * d)) * (w / 2) + w / 4) as usize,
        y: ((i / (2 * d)) * (w / 2) + w / 4) as usize,
        size: (w / 4) as usize,
        value,
    }
}

/// Which container numbers `0..m` stand somewhere in the yard `cs`.
pub open spec fn in_yard(cs: Seq<usize>, m: int) -> Seq<bool> {
    Seq::new(
        m as nat,
        |v: int| exists|k: int| 0 <= k < cs.len() && holds_container(#[trigger] cs[k]) && cs[k] == v,
    )
}

/// Slot `i` for container `i` still to come: its colour, or gray once it is in
/// the yard.
pub open spec fn waiting_fn(d: int, w: int, used: Seq<bool>, show: bool) -> spec_fn(int) -> Seq<
    Shape,
> {
    |i: int|
        seq![
            Shape::Box(
                slot(
                    d,
                    w,
                    i,
                    if !used[i] {
                        Paint::Shade(i as usize)
                    } else {
                        Paint::LightGray
                    },
                    1,
                ),
            ),
        ] + if show {
            seq![Shape::Text(slot_label(d, w, i, i as usize))]
        } else {
            seq![]
        }
}

/// Slot `i` for the `i`-th container taken out.
pub open spec fn taken_fn(d: int, w: int, order: Seq<usize>, show: bool) -> spec_fn(int) -> Seq<
    Shape,
> {
    |i: int|
        seq![Shape::Box(slot(d, w, i, Paint::Shade(order[i]), 1))] + if show {
            seq![Shape::Text(slot_label(d, w, i, order[i]))]
        } else {
            seq![]
        }
}

/// Yard square `(i, j)` drawn at full size.
pub open spec fn yard_square(w: int, h0: int, i: int, j: int, fill: Paint, stroke: Ink) -> Square {
    Square {
        x: (j * w) as usize,
        y: (h0 + i * w) as usize,
        w: w as usize,
        h: w as usize,
        fill,
        stroke,
        stroke_width: 1,
    }
}

/// Yard square `(i, j)` when it is empty or an obstacle.
pub open spec fn ground_fn(d: int, w: int, h0: int, cs: Seq<usize>, i: int) -> spec_fn(int) -> Seq<
    Shape,
> {
    |j: int|
        if cs[cell_index(d, (i, j))] == EMPTY {
            seq![
                Shape::Cell(
                    i as usize,
                    j as usize,
                    yard_square(w, h0, i, j, Paint::White, Ink::LightGray),
                    None,
                ),
            ]
        } else if cs[cell_index(d, (i, j))] == OBSTACLE {
            seq![
                Shape::Cell(
                    i as usize,
                    j as usize,
                    yard_square(w, h0, i, j, Paint::LightGray, Ink::LightGray),
                    None,
                ),
            ]
        } else {
            seq![]
        }
}

/// Yard row `i` for the empty squares and obstacles.
pub open spec fn ground_rows(d: int, w: int, h0: int, cs: Seq<usize>) -> spec_fn(int) -> Seq<Shape> {
    |i: int| flat(d, ground_fn(d, w, h0, cs, i))
}

/// Yard square `(i, j)` when it holds a container.
pub open spec fn container_fn(d: int, w: int, h0: int, cs: Seq<usize>, i: int, show: bool) -> spec_fn(
    int,
) -> Seq<Shape> {
    |j: int|
        {
            let c = cs[cell_index(d, (i, j))];
            if holds_container(c) {
                seq![
                    Shape::Cell(
                        i as usize,
                        j as usize,
                        yard_square(w, h0, i, j, Paint::Shade(c), Ink::Black),
                        if show {
                            Some(
                                Label {
                                    x: (j * w + w / 2) as usize,
                                    y: (h0 + i * w + w / 2) as usize,
                                    size: (w / 2) as usize,
                                    value: c,
                                },
                            )
                        } else {
                            None
                        },
                    ),
                ]
            } else {
                seq![]
            }
        }
}

/// Yard row `i` for the containers.
pub open spec fn container_rows(d: int, w: int, h0: int, cs: Seq<usize>, show: bool) -> spec_fn(
    int,
) -> Seq<Shape> {
    |i: int| flat(d, container_fn(d, w, h0, cs, i, show))
}

/// A thick outline around the square of the last action.
pub open spec fn last_mark(w: int, h0: int, last: Option<(usize, usize)>) -> Seq<Shape> {
    match last {
        Some((i, j)) => seq![
            Shape::Box(
                Square {
                    x: (j * w) as usize,
                    y: (h0 + i * w) as usize,
                    w: w as usize,
                    h: w as usize,
                    fill: Paint::Clear,
                    stroke: Ink::Black,
                    stroke_width: 5,
                },
            ),
        ],
        None => seq![],
    }
}

/// The yard at the end of carrying out the actions.
pub open spec fn final_yard(input: Input, out: Seq<(usize, usize)>) -> Yard {
    match run(input, out, out.len()) {
        Progress::Running(y) => y,
        Progress::Stopped(y, _) => y,
        Progress::Fault => arbitrary(),
    }
}

/// How many containers the picture counts as put: those in the yard and those
/// taken out.
pub open spec fn shown_put(y: Yard) -> int {
    container_count(y.cs) + y.order.len() as int
}

/// The picture's shapes, in drawing order.
pub open spec fn plan_shapes(input: Input, out: Seq<(usize, usize)>, show: bool) -> Seq<Shape> {
    let d = input.D as int;
    let w = unit(d);
    let h0 = top(d);
    let m = put_total(input);
    let y = final_yard(input, out);
    let np = shown_put(y);
    frame(d, w, h0) + (if np < m {
        flat(m, waiting_fn(d, w, in_yard(y.cs, m), show))
    } else {
        seq![]
    }) + flat(y.order.len() as int, taken_fn(d, w, y.order, show)) + flat(
        d,
        ground_rows(d, w, h0, y.cs),
    ) + flat(d, container_rows(d, w, h0, y.cs, show)) + last_mark(w, h0, y.last) + (if np < m {
        seq![Shape::Box(slot(d, w, input.ts@[np] as int, Paint::Clear, 5))]
    } else {
        seq![]
    })
}

/// The picture is undefined: the answer cannot be scored, the height of the slot
/// rows overflows, a container number in the yard is not
/// below the number of containers, or the next container is missing from `ts`
/// or its slot lies beyond the `usize` range.
pub open spec fn vis_faults(input: Input, out: Seq<(usize, usize)>) -> bool {
    let d = input.D as int;
    let m = put_total(input);
    let y = final_yard(input, out);
    let np = shown_put(y);
    ||| score_faults(input, out)
    ||| d * d + 2 * d - 1 > usize::MAX
    ||| exists|k: int| 0 <= k < y.cs.len() && holds_container(#[trigger] y.cs[k]) && y.cs[k] >= m
    ||| (np < m && (np >= input.ts@.len() || (input.ts@[np] as int / (2 * d)) * (unit(d) / 2)
        > usize::MAX))
}

/// `p` is the picture of `out` on `input`.
pub open spec fn plan_matches(input: Input, out: Seq<(usize, usize)>, show: bool, p: VisPlan) -> bool {
    let d = input.D as int;
    &&& exists|r: ScoreDetails|
        details_match(input, out, r) && #[trigger] r.ratio == p.ratio && r.error == p.error
    &&& p.width == unit(d) * d + 10
    &&& p.height == unit(d) * d + top(d) + 10
    &&& p.shapes@ == plan_shapes(input, out, show)
}

/// The sizes in the picture stay small: a yard row is at most 720 wide, the slot
/// rows at most 905 high, and every coordinate fits in a `usize`.
proof fn lemma_picture_bounds(d: int)
    requires
        d >= 1,
        d * d + 2 * d - 1 <= usize::MAX,
    ensures
        0 <= unit(d) <= 720,
        unit(d) * d <= 720,
        0 <= top(d) <= 905,
        720 * d + 2000 <= usize::MAX,
        2 * d <= usize::MAX,
        (unit(d) / 2) * (d * d + 2 * d - 2) <= 720 * d + 1440,
{
    let w = unit(d);
    vstd::arithmetic::div_mod::lemma_fundamental_div_mod(720, d);
    vstd::arithmetic::div_mod::lemma_mod_pos_bound(720, d);
    vstd::arithmetic::div_mod::lemma_div_pos_is_pos(720, d);
    assert(w * d <= 720) by (nonlinear_arith)
        requires
            720 == d * w + 720int % d,
            720int % d >= 0,
    ;
    assert(w <= 720) by (nonlinear_arith)
        requires
            w * d <= 720,
            d >= 1,
            w >= 0,
    ;
    let a = w / 2;
    let x = d * d + 2 * d - 2;
    assert(x >= 1) by (nonlinear_arith)
        requires
            d >= 1,
            x == d * d + 2 * d - 2,
    ;
    let p = a * x;
    assert(p >= 0) by (nonlinear_arith)
        requires
            a >= 0,
            x >= 1,
            p == a * x,
    ;
    let q = p / (2 * d);
    vstd::arithmetic::div_mod::lemma_fundamental_div_mod(p, 2 * d);
    vstd::arithmetic::div_mod::lemma_mod_pos_bound(p, 2 * d);
    vstd::arithmetic::div_mod::lemma_div_pos_is_pos(p, 2 * d);
    assert(2 * a * x <= w * x) by (nonlinear_arith)
        requires
            2 * a <= w,
            x >= 0,
    ;
    assert(w * x <= 720 * d + 1440) by (nonlinear_arith)
        requires
            w * d <= 720,
            x == d * d + 2 * d - 2,
            w >= 0,
            d >= 1,
    ;
    assert(q <= 540) by (nonlinear_arith)
        requires
            p == (2 * d) * q + p % (2 * d),
            p % (2 * d) >= 0,
            p == a * x,
            2 * a * x <= 720 * d + 1440,
            d >= 1,
            q >= 0,
    ;
    assert(top(d) == q + 5 + a);
    assert(a * x <= 720 * d + 1440) by (nonlinear_arith)
        requires
            2 * a * x <= 720 * d + 1440,
            a >= 0,
            x >= 0,
    ;
    assert(usize::MAX >= 0xffff_ffff);
    if d >= 1000 {
        assert(720 * d + 2000 <= d * d) by (nonlinear_arith)
            requires
                d >= 1000,
        ;
    }
}

fn slot_exec(d: usize, w: usize, i: usize, fill: Paint, sw: usize) -> (r: Square)
    requires
        d >= 1,
        w == unit(d as int),
        2 * d <= usize::MAX,
        w * d <= 720,
        (i as int / (2 * d)) * (w / 2) <= usize::MAX,
    ensures
        r == slot(d as int, w as int, i as int, fill, sw as int),
{
    let two_d = 2 * d;
    let r = i % two_d;
    proof {
        assert(r * (w / 2) <= 720) by (nonlinear_arith)
            requires
                r < 2 * d,
                w * d <= 720,
        ;
    }
    Square {
        x: r * (w / 2),
        y: (i / two_d) * (w / 2),
        w: w / 2,
        h: w / 2,
        fill,
        stroke: Ink::Black,
        stroke_width: sw,
    }
}

fn slot_label_exec(d: usize, w: usize, i: usize, value: usize) -> (r: Label)
    requires
        d >= 1,
        w == unit(d as int),
        2 * d <= usize::MAX,
        w * d <= 720,
        i < d * d,
    ensures
        r == slot_label(d as int, w as int, i as int, value),
{
    let two_d = 2 * d;
    let r = i % two_d;
    let q = i / two_d;
    proof {
        assert(r * (w / 2) <= 720) by (nonlinear_arith)
            requires
                r < 2 * d,
                w * d <= 720,
        ;
        lemma_slot_fits(d as int, w as int, i as int);
    }
    Label { x: r * (w / 2) + w / 4, y: q * (w / 2) + w / 4, size: w / 4, value }
}

proof fn lemma_slot_fits(d: int, w: int, i: int)
    requires
        d >= 1,
        w * d <= 720,
        0 <= w,
        0 <= i < d * d,
    ensures
        (i / (2 * d)) * (w / 2) <= 720,
{
    let q = i / (2 * d);
    vstd::arithmetic::div_mod::lemma_fundamental_div_mod(i, 2 * d);
    vstd::arithmetic::div_mod::lemma_mod_pos_bound(i, 2 * d);
    vstd::arithmetic::div_mod::lemma_div_pos_is_pos(i, 2 * d);
    assert(q < d) by (nonlinear_arith)
        requires
            i == (2 * d) * q + i % (2 * d),
            i % (2 * d) >= 0,
            i < d * d,
            d >= 1,
    ;
    assert(q * (w / 2) <= 720) by (nonlinear_arith)
        requires
            0 <= q < d,
            w * d <= 720,
            w >= 0,
    ;
}

/// The sizes of the picture for a yard of side `d`, as `lemma_picture_bounds` bounds them.
spec fn dims_ok(d: usize, w: usize, h0: usize) -> bool {
    &&& d >= 1
    &&& w == unit(d as int)
    &&& h0 == top(d as int)
    &&& w <= 720
    &&& w * d <= 720
    &&& h0 <= 905
    &&& 2 * d <= usize::MAX
    &&& 720 * d + 2000 <= usize::MAX
}

fn push_waiting(
    shapes: &mut Vec<Shape>,
    d: usize,
    w: usize,
    h0: usize,
    used: &Vec<bool>,
    show: bool,
)
    requires
        dims_ok(d, w, h0),
        used@.len() < d * d,
    ensures
        final(shapes)@ == old(shapes)@ + flat(used@.len() as int, waiting_fn(d as int, w as int, used@, show)),
{
    let ghost f = waiting_fn(d as int, w as int, used@, show);
    let ghost base = shapes@;
    let m = used.len();
    let mut i: usize = 0;
    while i < m
        invariant
            dims_ok(d, w, h0),
            m == used@.len() < d * d,
            i <= m,
            f == waiting_fn(d as int, w as int, used@, show),
            shapes@ == base + flat(i as int, f),
        decreases m - i,
    {
        let ghost before = shapes@;
        let fill = if !used[i] {
            Paint::Shade(i)
        } else {
            Paint::LightGray
        };
        proof {
            lemma_slot_fits(d as int, w as int, i as int);
        }
        shapes.push(Shape::Box(slot_exec(d, w, i, fill, 1)));
        if show {
            shapes.push(Shape::Text(slot_label_exec(d, w, i, i)));
        }
        proof {
            assert(shapes@ =~= before + f(i as int));
            assert(flat(i + 1, f) == flat(i as int, f) + f(i as int));
            assert(shapes@ =~= base + flat(i + 1, f));
        }
        i += 1;
    }
}

fn push_taken(shapes: &mut Vec<Shape>, d: usize, w: usize, h0: usize, order: &Vec<usize>, show: bool)
    requires
        dims_ok(d, w, h0),
        order@.len() < d * d,
    ensures
        final(shapes)@ == old(shapes)@ + flat(order@.len() as int, taken_fn(d as int, w as int, order@, show)),
{
    let ghost f = taken_fn(d as int, w as int, order@, show);
    let ghost base = shapes@;
    let n = order.len();
    let mut i: usize = 0;
    while i < n
        invariant
            dims_ok(d, w, h0),
            n == order@.len() < d * d,
            i <= n,
            f == taken_fn(d as int, w as int, order@, show),
            shapes@ == base + flat(i as int, f),
        decreases n - i,
    {
        let ghost before = shapes@;
        proof {
            lemma_slot_fits(d as int, w as int, i as int);
        }
        shapes.push(Shape::Box(slot_exec(d, w, i, Paint::Shade(order[i]), 1)));
        if show {
            shapes.push(Shape::Text(slot_label_exec(d, w, i, order[i])));
        }
        proof {
            assert(shapes@ =~= before + f(i as int));
            assert(flat(i + 1, f) == flat(i as int, f) + f(i as int));
            assert(shapes@ =~= base + flat(i + 1, f));
        }
        i += 1;
    }
}

fn yard_square_exec(d: usize, w: usize, h0: usize, i: usize, j: usize, fill: Paint, stroke: Ink) -> (r: Square)
    requires
        dims_ok(d, w, h0),
        i < d,
        j < d,
    ensures
        r == yard_square(w as int, h0 as int, i as int, j as int, fill, stroke),
{
    proof {
        assert(j * w <= 720 && i * w <= 720) by (nonlinear_arith)
            requires
                i < d,
                j < d,
                w * d <= 720,
        ;
    }
    Square { x: j * w, y: h0 + i * w, w, h: w, fill, stroke, stroke_width: 1 }
}

fn push_ground(shapes: &mut Vec<Shape>, d: usize, w: usize, h0: usize, cs: &Vec<usize>)
    requires
        dims_ok(d, w, h0),
        cs@.len() == d * d,
    ensures
        final(shapes)@ == old(shapes)@ + flat(d as int, ground_rows(d as int, w as int, h0 as int, cs@)),
{
    let ghost rows = ground_rows(d as int, w as int, h0 as int, cs@);
    let ghost base = shapes@;
    let mut i: usize = 0;
    while i < d
        invariant
            dims_ok(d, w, h0),
            cs@.len() == d * d,
            i <= d,
            rows == ground_rows(d as int, w as int, h0 as int, cs@),
            shapes@ == base + flat(i as int, rows),
        decreases d - i,
    {
        let ghost f = ground_fn(d as int, w as int, h0 as int, cs@, i as int);
        let ghost row_base = shapes@;
        let mut j: usize = 0;
        while j < d
            invariant
                dims_ok(d, w, h0),
                cs@.len() == d * d,
                i < d,
                j <= d,
                f == ground_fn(d as int, w as int, h0 as int, cs@, i as int),
                shapes@ == row_base + flat(j as int, f),
            decreases d - j,
        {
            let ghost before = shapes@;
            proof {
                crate::grid::lemma_index_bounds(d as int, (i as int, j as int));
                assert(d * d == cs.len());
            }
            let c = cs[i * d + j];
            if c == EMPTY {
                shapes.push(
                    Shape::Cell(i, j, yard_square_exec(d, w, h0, i, j, Paint::White, Ink::LightGray), None),
                );
            } else if c == OBSTACLE {
                shapes.push(
                    Shape::Cell(
                        i,
                        j,
                        yard_square_exec(d, w, h0, i, j, Paint::LightGray, Ink::LightGray),
                        None,
                    ),
                );
            }
            proof {
                assert(shapes@ =~= before + f(j as int));
                assert(flat(j + 1, f) == flat(j as int, f) + f(j as int));
                assert(shapes@ =~= row_base + flat(j + 1, f));
            }
            j += 1;
        }
        proof {
            assert(rows(i as int) == flat(d as int, f));
            assert(flat(i + 1, rows) == flat(i as int, rows) + rows(i as int));
            assert(shapes@ =~= base + flat(i + 1, rows));
        }
        i += 1;
    }
}

fn push_containers(shapes: &mut Vec<Shape>, d: usize, w: usize, h0: usize, cs: &Vec<usize>, show: bool)
    requires
        dims_ok(d, w, h0),
        cs@.len() == d * d,
    ensures
        final(shapes)@ == old(shapes)@ + flat(
            d as int,
            container_rows(d as int, w as int, h0 as int, cs@, show),
        ),
{
    let ghost rows = container_rows(d as int, w as int, h0 as int, cs@, show);
    let ghost base = shapes@;
    let mut i: usize = 0;
    while i < d
        invariant
            dims_ok(d, w, h0),
            cs@.len() == d * d,
            i <= d,
            rows == container_rows(d as int, w as int, h0 as int, cs@, show),
            shapes@ == base + flat(i as int, rows),
        decreases d - i,
    {
        let ghost f = container_fn(d as int, w as int, h0 as int, cs@, i as int, show);
        let ghost row_base = shapes@;
        let mut j: usize = 0;
        while j < d
            invariant
                dims_ok(d, w, h0),
                cs@.len() == d * d,
                i < d,
                j <= d,
                f == container_fn(d as int, w as int, h0 as int, cs@, i as int, show),
                shapes@ == row_base + flat(j as int, f),
            decreases d - j,
        {
            let ghost before = shapes@;
            proof {
                crate::grid::lemma_index_bounds(d as int, (i as int, j as int));
                assert(d * d == cs.len());
                assert(j * w <= 720 && i * w <= 720) by (nonlinear_arith)
                    requires
                        i < d,
                        j < d,
                        w * d <= 720,
                ;
            }
            let c = cs[i * d + j];
            if c != EMPTY && c != OBSTACLE {
                let label = if show {
                    Some(Label { x: j * w + w / 2, y: h0 + i * w + w / 2, size: w / 2, value: c })
                } else {
                    None
                };
                shapes.push(
                    Shape::Cell(i, j, yard_square_exec(d, w, h0, i, j, Paint::Shade(c), Ink::Black), label),
                );
            }
            proof {
                assert(shapes@ =~= before + f(j as int));
                assert(flat(j + 1, f) == flat(j as int, f) + f(j as int));
                assert(shapes@ =~= row_base + flat(j + 1, f));
            }
            j += 1;
        }
        proof {
            assert(rows(i as int) == flat(d as int, f));
            assert(flat(i + 1, rows) == flat(i as int, rows) + rows(i as int));
            assert(shapes@ =~= base + flat(i + 1, rows));
        }
        i += 1;
    }
}

/// The picture of the answer `out` on `input` (see `plan_shapes`). `None`
/// exactly when the picture is undefined (see `vis_faults`).
pub fn try_vis_plan(input: &Input, out: &[(usize, usize)], show_number: bool) -> (r: Option<VisPlan>)
    ensures
        r is None <==> vis_faults(*input, out@),
        r matches Some(p) ==> plan_matches(*input, out@, show_number, p),
{
    let details = match try_compute_score_details(input, out) {
        Some(x) => x,
        None => {
            return None;
        },
    };
    let ghost y = final_yard(*input, out@);
    let ghost m0 = put_total(*input);
    proof {
        lemma_containers_conserved(*input, out@, out@.len());
        lemma_last_in_storage(*input, out@, out@.len());
        assert(details.cs@ == y.cs && details.order@ == y.order && details.last == y.last);
        assert(counts_agree(y, m0));
        assert(y.cs.len() == input.D * input.D);
    }
    let d = input.D;
    let dd = d * d;
    proof {
        if d >= 2 {
            assert(2 * d <= d * d) by (nonlinear_arith)
                requires
                    d >= 2,
            ;
        }
        assert(dd >= 1) by (nonlinear_arith)
            requires
                dd == d * d,
                d >= 1,
        ;
    }
    if dd - 1 > usize::MAX - 2 * d {
        return None;
    }
    proof {
        lemma_picture_bounds(d as int);
    }
    let w = 720 / d;
    let h0 = w / 2 * (dd - 1 + 2 * d - 1) / (2 * d) + 5 + w / 2;
    let m = dd - 1 - input.rs.len();
    let cs = &details.cs;
    let order = &details.order;
    let mut cnt: usize = 0;
    let mut k: usize = 0;
    proof {
        assert(cs@.take(0) =~= Seq::<usize>::empty());
    }
    while k < dd
        invariant
            dd == cs@.len(),
            k <= dd,
            cnt <= k,
            cnt == container_count(cs@.take(k as int)),
        decreases dd - k,
    {
        proof {
            assert(cs@.take(k + 1).drop_last() =~= cs@.take(k as int));
        }
        if cs[k] != EMPTY && cs[k] != OBSTACLE {
            cnt += 1;
        }
        k += 1;
    }
    proof {
        assert(cs@.take(dd as int) =~= cs@);
    }
    let np = cnt + order.len();
    let mut used: Vec<bool> = vec![false; m];
    let mut k: usize = 0;
    while k < dd
        invariant
            dd == cs@.len(),
            cs@ == y.cs,
            y == final_yard(*input, out@),
            m0 == put_total(*input),
            m == m0,
            k <= dd,
            used@.len() == m,
            forall|q: int| 0 <= q < k && holds_container(#[trigger] cs@[q]) ==> cs@[q] < m,
            forall|v: int|
                0 <= v < m ==> #[trigger] used@[v] == exists|q: int|
                    0 <= q < k && holds_container(#[trigger] cs@[q]) && cs@[q] == v,
        decreases dd - k,
    {
        let c = cs[k];
        let ghost before = used@;
        if c != EMPTY && c != OBSTACLE {
            if c >= m {
                proof {
                    assert(holds_container(y.cs[k as int]) && y.cs[k as int] >= m0);
                }
                return None;
            }
            used.set(c, true);
        }
        proof {
            assert forall|v: int| 0 <= v < m implies #[trigger] used@[v] == exists|q: int|
                0 <= q < k + 1 && holds_container(#[trigger] cs@[q]) && cs@[q] == v by {
                if holds_container(c) && c == v {
                    assert(holds_container(cs@[k as int]) && cs@[k as int] == v);
                } else {
                    assert(used@[v] == before[v]);
                    if exists|q: int| 0 <= q < k + 1 && holds_container(#[trigger] cs@[q]) && cs@[q] == v {
                        let q = choose|q: int| 0 <= q < k + 1 && holds_container(#[trigger] cs@[q]) && cs@[q] == v;
                        assert(q != k);
                    }
                }
            }
        }
        k += 1;
    }
    proof {
        assert(used@ =~= in_yard(cs@, m as int));
        assert(!(exists|q: int| 0 <= q < y.cs.len() && holds_container(#[trigger] y.cs[q]) && y.cs[q] >= m0)) by {
            if exists|q: int| 0 <= q < y.cs.len() && holds_container(#[trigger] y.cs[q]) && y.cs[q] >= m0 {
                let q = choose|q: int| 0 <= q < y.cs.len() && holds_container(#[trigger] y.cs[q]) && y.cs[q] >= m0;
                assert(cs@[q] < m);
            }
        }
    }
    let mut shapes: Vec<Shape> = Vec::new();
    proof {
        assert(w * (d / 2) <= w * d && w * (d / 2 + 1) <= w * d + w) by (nonlinear_arith)
            requires
                d >= 1,
                w >= 0,
        ;
    }
    shapes.push(Shape::Line(0, h0, w * (d / 2), h0));
    shapes.push(Shape::Line(w * (d / 2 + 1), h0, w * d, h0));
    shapes.push(Shape::Line(0, h0, 0, h0 + w * d));
    shapes.push(Shape::Line(w * d, h0, w * d, h0 + w * d));
    shapes.push(Shape::Line(0, h0 + w * d, w * d, h0 + w * d));
    proof {
        assert(shapes@ =~= frame(d as int, w as int, h0 as int));
    }
    if np < m {
        push_waiting(&mut shapes, d, w, h0, &used, show_number);
    }
    push_taken(&mut shapes, d, w, h0, order, show_number);
    push_ground(&mut shapes, d, w, h0, cs);
    push_containers(&mut shapes, d, w, h0, cs, show_number);
    let ghost before_last = shapes@;
    match details.last {
        Some((i, j)) => {
            proof {
                assert(i * d + j < d * d);
                assert(i < d && j * w <= 720 * d && i * w <= 720) by (nonlinear_arith)
                    requires
                        i * d + j < d * d,
                        w * d <= 720,
                        d >= 1,
                        j >= 0,
                        i >= 0,
                ;
            }
            shapes.push(
                Shape::Box(
                    Square {
                        x: j * w,
                        y: h0 + i * w,
                        w,
                        h: w,
                        fill: Paint::Clear,
                        stroke: Ink::Black,
                        stroke_width: 5,
                    },
                ),
            );
        },
        None => {},
    }
    proof {
        assert(shapes@ =~= before_last + last_mark(w as int, h0 as int, y.last));
    }
    let ghost before_next = shapes@;
    if np < m {
        if np >= input.ts.len() {
            return None;
        }
        let t = input.ts[np];
        match (t / (2 * d)).checked_mul(w / 2) {
            Some(_) => {},
            None => {
                return None;
            },
        }
        shapes.push(Shape::Box(slot_exec(d, w, t, Paint::Clear, 5)));
    }
    proof {
        assert(shapes@ =~= plan_shapes(*input, out@, show_number));
    }
    Some(
        VisPlan {
            ratio: details.ratio,
            error: details.error,
            width: w * d + 10,
            height: w * d + h0 + 10,
            shapes,
        },
    )
}

/// The picture of the answer `out` on `input`, when it is defined (see
/// `try_vis_plan`).
pub fn vis_plan(input: &Input, out: &[(usize, usize)], show_number: bool) -> (r: VisPlan)
    requires
        !vis_faults(*input, out@),
    ensures
        plan_matches(*input, out@, show_number, r),
{
    try_vis_plan(input, out, show_number).unwrap()
}

/// If `x` is yard square `(i, j)` of a `d x d` yard, it is drawn in its place: a
/// square of side `unit(d)` whose top left corner is `(j * unit(d), top(d) + i *
/// unit(d))`; and a number on it, if any, is the content `cs` gives that
/// square, written at half the side and centred in the square.
pub open spec fn drawn_in_place(d: int, cs: Seq<usize>, x: Shape) -> bool {
    match x {
        Shape::Cell(i, j, sq, lab) => {
            &&& i < d && j < d
            &&& sq.x == j * unit(d) && sq.y == top(d) + i * unit(d)
            &&& sq.w == unit(d) && sq.h == unit(d)
            &&& match lab {
                Some(l) => {
                    &&& l.x == sq.x + sq.w / 2
                    &&& l.y == sq.y + sq.h / 2
                    &&& l.size == sq.w / 2
                    &&& l.value == cs[cell_index(d, (i as int, j as int))]
                },
                None => true,
            }
        },
        _ => true,
    }
}

spec fn all_in_place(d: int, cs: Seq<usize>, s: Seq<Shape>) -> bool {
    forall|k: int| 0 <= k < s.len() ==> drawn_in_place(d, cs, #[trigger] s[k])
}

proof fn lemma_in_place_concat(d: int, cs: Seq<usize>, a: Seq<Shape>, b: Seq<Shape>)
    requires
        all_in_place(d, cs, a),
        all_in_place(d, cs, b),
    ensures
        all_in_place(d, cs, a + b),
{
    assert forall|k: int| 0 <= k < (a + b).len() implies drawn_in_place(d, cs, #[trigger] (a + b)[k]) by {
        if k < a.len() {
            assert((a + b)[k] == a[k]);
        } else {
            assert((a + b)[k] == b[k - a.len()]);
        }
    }
}

proof fn lemma_in_place_flat(d: int, cs: Seq<usize>, n: int, f: spec_fn(int) -> Seq<Shape>)
    requires
        forall|k: int| 0 <= k < n ==> all_in_place(d, cs, #[trigger] f(k)),
    ensures
        all_in_place(d, cs, flat(n, f)),
    decreases n,
{
    if n > 0 {
        lemma_in_place_flat(d, cs, n - 1, f);
        lemma_in_place_concat(d, cs, flat(n - 1, f), f(n - 1));
    }
}

/// Every yard square of the picture is drawn in its place, and the number of a
/// container is written centred on the container's own square (see
/// `drawn_in_place`), for the yard at the end of the actions.
pub proof fn lemma_cells_in_place(input: Input, out: Seq<(usize, usize)>, show: bool)
    requires
        input.D >= 1,
        input.D * input.D + 2 * input.D - 1 <= usize::MAX,
    ensures
        forall|k: int|
            0 <= k < plan_shapes(input, out, show).len() ==> drawn_in_place(
                input.D as int,
                final_yard(input, out).cs,
                #[trigger] plan_shapes(input, out, show)[k],
            ),
{
    let d = input.D as int;
    let w = unit(d);
    let h0 = top(d);
    let m = put_total(input);
    let y = final_yard(input, out);
    let cs = y.cs;
    let np = shown_put(y);
    lemma_picture_bounds(d);
    let fr = frame(d, w, h0);
    assert(all_in_place(d, cs, fr));
    let wf = waiting_fn(d, w, in_yard(y.cs, m), show);
    assert forall|k: int| 0 <= k < m implies all_in_place(d, cs, #[trigger] wf(k)) by {}
    lemma_in_place_flat(d, cs, m, wf);
    let waiting = if np < m {
        flat(m, wf)
    } else {
        seq![]
    };
    let tf = taken_fn(d, w, y.order, show);
    assert forall|k: int| 0 <= k < y.order.len() implies all_in_place(d, cs, #[trigger] tf(k)) by {}
    lemma_in_place_flat(d, cs, y.order.len() as int, tf);
    assert forall|i: int| 0 <= i < d implies all_in_place(d, cs, #[trigger] ground_rows(d, w, h0, cs)(i)) by {
        let gf = ground_fn(d, w, h0, cs, i);
        assert forall|j: int| 0 <= j < d implies all_in_place(d, cs, #[trigger] gf(j)) by {
            assert(j * w <= 720 && i * w <= 720) by (nonlinear_arith)
                requires
                    0 <= i < d,
                    0 <= j < d,
                    w * d <= 720,
                    w >= 0,
            ;
        }
        lemma_in_place_flat(d, cs, d, gf);
    }
    lemma_in_place_flat(d, cs, d, ground_rows(d, w, h0, cs));
    assert forall|i: int| 0 <= i < d implies all_in_place(d, cs, #[trigger] container_rows(d, w, h0, cs, show)(i)) by {
        let cf = container_fn(d, w, h0, cs, i, show);
        assert forall|j: int| 0 <= j < d implies all_in_place(d, cs, #[trigger] cf(j)) by {
            assert(j * w <= 720 && i * w <= 720) by (nonlinear_arith)
                requires
                    0 <= i < d,
                    0 <= j < d,
                    w * d <= 720,
                    w >= 0,
            ;
        }
        lemma_in_place_flat(d, cs, d, cf);
    }
    lemma_in_place_flat(d, cs, d, container_rows(d, w, h0, cs, show));
    let lm = last_mark(w, h0, y.last);
    assert(all_in_place(d, cs, lm));
    let nx = if np < m {
        seq![Shape::Box(slot(d, w, input.ts@[np] as int, Paint::Clear, 5))]
    } else {
        seq![]
    };
    assert(all_in_place(d, cs, nx));
    let s1 = fr + waiting;
    lemma_in_place_concat(d, cs, fr, waiting);
    let s2 = s1 + flat(y.order.len() as int, tf);
    lemma_in_place_concat(d, cs, s1, flat(y.order.len() as int, tf));
    let s3 = s2 + flat(d, ground_rows(d, w, h0, cs));
    lemma_in_place_concat(d, cs, s2, flat(d, ground_rows(d, w, h0, cs)));
    let s4 = s3 + flat(d, container_rows(d, w, h0, cs, show));
    lemma_in_place_concat(d, cs, s3, flat(d, container_rows(d, w, h0, cs, show)));
    lemma_in_place_concat(d, cs, s4, lm);
    lemma_in_place_concat(d, cs, s4 + lm, nx);
    assert(plan_shapes(input, out, show) == s4 + lm + nx);
}

} // verus!
