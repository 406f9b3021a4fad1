use fly_sim_core::ieee::{Float32, Float64};
use fly_sim_core::render::{
    arrow_length, backdrop, bounding_box, fill_row, grid_lines, in_view, is_moving, ned_to_render,
    paint_row, point_in_quad, rotor_color, rotor_state, Backdrop, GridLine, Pixel, RotorState,
};

fn f(x: f64) -> Float64 {
    Float64::from_bits(x.to_bits())
}

fn g(x: f32) -> Float32 {
    Float32::from_bits(x.to_bits())
}

fn px(x: i32, y: i32) -> Pixel {
    Pixel { x, y }
}

const DIAMOND: [Pixel; 4] = [
    Pixel { x: 0, y: -2 },
    Pixel { x: 2, y: 0 },
    Pixel { x: 0, y: 2 },
    Pixel { x: -2, y: 0 },
];

#[test]
fn a_quadrilateral_holds_its_inside_and_its_edges() {
    assert!(point_in_quad(px(0, 0), &DIAMOND));
    assert!(point_in_quad(px(1, 1), &DIAMOND));
    assert!(point_in_quad(px(2, 0), &DIAMOND));
    assert!(!point_in_quad(px(2, 1), &DIAMOND));
    assert!(!point_in_quad(px(3, 0), &DIAMOND));
}

#[test]
fn the_order_of_corners_makes_no_difference() {
    let turned = [DIAMOND[1], DIAMOND[2], DIAMOND[3], DIAMOND[0]];
    let reversed = [DIAMOND[3], DIAMOND[2], DIAMOND[1], DIAMOND[0]];
    for x in -3..=3 {
        for y in -3..=3 {
            let want = point_in_quad(px(x, y), &DIAMOND);
            assert_eq!(point_in_quad(px(x, y), &turned), want);
            assert_eq!(point_in_quad(px(x, y), &reversed), want);
        }
    }
}

#[test]
fn far_corners_do_not_overflow() {
    let q = [
        px(i32::MIN, i32::MIN),
        px(i32::MAX, i32::MIN),
        px(i32::MAX, i32::MAX),
        px(i32::MIN, i32::MAX),
    ];
    assert!(point_in_quad(px(0, 0), &q));
    let b = bounding_box(&q);
    assert_eq!((b.min, b.max), (px(i32::MIN, i32::MIN), px(i32::MAX, i32::MAX)));
}

#[test]
fn rows_are_filled_from_left_to_right() {
    let b = bounding_box(&DIAMOND);
    assert_eq!((b.min, b.max), (px(-2, -2), px(2, 2)));
    let rows: Vec<Vec<i32>> = (-2..=2).map(|y| fill_row(&DIAMOND, y, b.min.x, b.max.x)).collect();
    assert_eq!(rows[0], vec![0]);
    assert_eq!(rows[1], vec![-1, 0, 1]);
    assert_eq!(rows[2], vec![-2, -1, 0, 1, 2]);
    assert_eq!(rows[4], vec![0]);
    assert!(fill_row(&DIAMOND, 0, 3, 2).is_empty());
}

#[test]
fn the_grid_has_its_lines() {
    let lines = grid_lines();
    assert_eq!(lines.len(), 42);
    assert_eq!(lines[0], GridLine { from: (-10, -10), to: (-10, 10) });
    assert_eq!(lines[1], GridLine { from: (-10, -10), to: (10, -10) });
    assert_eq!(lines[20], GridLine { from: (0, -10), to: (0, 10) });
    assert_eq!(lines[41], GridLine { from: (-10, 10), to: (10, 10) });
}

#[test]
fn what_is_behind_or_too_far_is_not_seen() {
    assert!(in_view(g(1.0), g(0.0)));
    assert!(in_view(g(1.0), g(1.0)));
    assert!(!in_view(g(1e-5), g(0.0)));
    assert!(!in_view(g(-1.0), g(0.0)));
    assert!(!in_view(g(1.0), g(1.5)));
    assert!(!in_view(g(1.0), g(-1.5)));
}

#[test]
fn rotors_show_their_state() {
    assert_eq!(rotor_state(g(0.02), g(1.0)), RotorState::Dead);
    assert_eq!(rotor_state(g(0.5), g(1.0)), RotorState::Weak);
    assert_eq!(rotor_state(g(1.0), g(0.06)), RotorState::Turning);
    assert_eq!(rotor_state(g(0.98), g(0.05)), RotorState::Idle);
    assert_eq!(rotor_color(RotorState::Dead, true), [230, 50, 50]);
    assert_eq!(rotor_color(RotorState::Dead, false), [120, 30, 30]);
    assert_eq!(rotor_color(RotorState::Weak, false), [230, 150, 40]);
    assert_eq!(rotor_color(RotorState::Turning, true), [70, 200, 120]);
    assert_eq!(rotor_color(RotorState::Idle, true), [110, 110, 110]);
}

#[test]
fn arrows_are_drawn_for_what_moves() {
    assert!(is_moving(f(0.06)));
    assert!(!is_moving(f(0.05)));
    assert_eq!(arrow_length(f(9.0)), f(3.0));
    assert_eq!(arrow_length(f(1.5)), f(1.5));
}

#[test]
fn the_backdrop_has_three_parts() {
    assert_eq!(backdrop(0, 58, 90), Backdrop::Sky { num: 0, den: 58 });
    assert_eq!(backdrop(57, 58, 90), Backdrop::Sky { num: 57, den: 58 });
    assert_eq!(backdrop(58, 58, 90), Backdrop::Land { num: 0, den: 32 });
    assert_eq!(backdrop(90, 58, 90), Backdrop::Floor);
    assert_eq!(backdrop(0, 0, 0), Backdrop::Floor);
}

#[test]
fn a_row_is_painted_and_nothing_else() {
    let mut p = vec![0u32; 12];
    paint_row(&mut p, 4, 1, 7);
    assert_eq!(p, vec![0, 0, 0, 0, 7, 7, 7, 7, 0, 0, 0, 0]);
}

#[test]
fn down_is_up_in_the_picture() {
    assert_eq!(ned_to_render([f(1.0), f(2.0), f(-5.0)]), [f(1.0), f(5.0), f(2.0)]);
}
