use tools::input::Input;
use tools::vis::{try_vis_plan, vis_plan, Ink, Label, Paint, Shape, Square};

fn drawn_instance() -> Input {
    Input { D: 3, rs: vec![(2, 2)], ts: vec![3, 1, 0, 4, 6, 5, 2] }
}

const PUTS: [(usize, usize); 7] = [(2, 0), (2, 1), (1, 0), (1, 2), (0, 0), (0, 2), (1, 1)];
const TAKES: [(usize, usize); 7] = [(1, 1), (1, 0), (2, 1), (2, 0), (1, 2), (0, 0), (0, 2)];

#[test]
fn picture_of_a_full_run() {
    let mut out = PUTS.to_vec();
    out.extend_from_slice(&TAKES);
    let plan = vis_plan(&drawn_instance(), &out, true);
    // W = 720 / 3 = 240, H0 = 120 * 13 / 6 + 5 + 120 = 385.
    assert_eq!(plan.width, 730);
    assert_eq!(plan.height, 1115);
    assert_eq!(plan.ratio, Some((25, 28)));
    assert_eq!(plan.error, None);
    // 5 frame lines, 7 taken slots with numbers, 9 yard squares, the last mark.
    assert_eq!(plan.shapes.len(), 5 + 14 + 9 + 1);
    assert_eq!(plan.shapes[0], Shape::Line(0, 385, 240, 385));
    assert_eq!(plan.shapes[1], Shape::Line(480, 385, 720, 385));
    assert_eq!(plan.shapes[4], Shape::Line(0, 1105, 720, 1105));
    assert_eq!(
        plan.shapes[5],
        Shape::Box(Square {
            x: 0,
            y: 0,
            w: 120,
            h: 120,
            fill: Paint::Shade(2),
            stroke: Ink::Black,
            stroke_width: 1
        })
    );
    assert_eq!(plan.shapes[6], Shape::Text(Label { x: 60, y: 60, size: 60, value: 2 }));
    // The seventh slot starts the second row of six.
    assert_eq!(
        plan.shapes[17],
        Shape::Box(Square {
            x: 0,
            y: 120,
            w: 120,
            h: 120,
            fill: Paint::Shade(5),
            stroke: Ink::Black,
            stroke_width: 1
        })
    );
    assert_eq!(
        plan.shapes[27],
        Shape::Cell(
            2,
            2,
            Square {
                x: 480,
                y: 865,
                w: 240,
                h: 240,
                fill: Paint::LightGray,
                stroke: Ink::LightGray,
                stroke_width: 1
            },
            None
        )
    );
    assert_eq!(
        plan.shapes[28],
        Shape::Box(Square {
            x: 480,
            y: 385,
            w: 240,
            h: 240,
            fill: Paint::Clear,
            stroke: Ink::Black,
            stroke_width: 5
        })
    );
}

#[test]
fn picture_while_putting() {
    let plan = vis_plan(&drawn_instance(), &PUTS[..2], false);
    assert_eq!(plan.ratio, Some((28, 28)));
    // 5 lines, 7 waiting slots, 7 free or blocked squares, 2 containers, last
    // mark, next mark.
    assert_eq!(plan.shapes.len(), 5 + 7 + 7 + 2 + 1 + 1);
    // Containers 3 and 1 are in the yard: their slots are gray.
    assert_eq!(
        plan.shapes[5 + 3],
        Shape::Box(Square {
            x: 360,
            y: 0,
            w: 120,
            h: 120,
            fill: Paint::LightGray,
            stroke: Ink::Black,
            stroke_width: 1
        })
    );
    assert_eq!(
        plan.shapes[5 + 0],
        Shape::Box(Square {
            x: 0,
            y: 0,
            w: 120,
            h: 120,
            fill: Paint::Shade(0),
            stroke: Ink::Black,
            stroke_width: 1
        })
    );
    // The container at (2, 0) holds 3.
    assert_eq!(
        plan.shapes[19],
        Shape::Cell(
            2,
            0,
            Square {
                x: 0,
                y: 865,
                w: 240,
                h: 240,
                fill: Paint::Shade(3),
                stroke: Ink::Black,
                stroke_width: 1
            },
            None
        )
    );
    // The next container, 0, is marked in its slot.
    assert_eq!(
        plan.shapes[22],
        Shape::Box(Square {
            x: 0,
            y: 0,
            w: 120,
            h: 120,
            fill: Paint::Clear,
            stroke: Ink::Black,
            stroke_width: 5
        })
    );
}

#[test]
fn picture_fails_where_scoring_fails() {
    assert!(try_vis_plan(&drawn_instance(), &[(3, 0)], true).is_none());
    // A container number beyond the containers cannot be drawn.
    let odd = Input { D: 2, rs: vec![], ts: vec![7, 0, 1] };
    assert!(try_vis_plan(&odd, &[(1, 1)], true).is_none());
}
