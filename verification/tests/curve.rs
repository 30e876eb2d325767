use dragon_curve::curve::{
    dragon, order_fits, subdivide, Color, Segment, FIRST_SUB_TURN, LEAF_DISTANCE, SECOND_SUB_TURN,
};

const BLACK: Color = Color { red: 0, green: 0, blue: 0 };
const WHITE: Color = Color { red: 255, green: 255, blue: 255 };

fn grey(level: u8) -> Color {
    Color { red: level, green: level, blue: level }
}

#[test]
fn order_zero_is_one_leaf_with_the_outer_turn_and_the_start_color() {
    let segments = dragon(0, -90, BLACK, WHITE);
    assert_eq!(segments, vec![Segment { turn_delta: -90, distance: 1, color: BLACK }]);
}

#[test]
fn order_one_is_two_leaves_around_one_joint() {
    let segments = dragon(1, -90, BLACK, WHITE);
    assert_eq!(
        segments,
        vec![
            Segment { turn_delta: 45, distance: 1, color: BLACK },
            Segment { turn_delta: -90, distance: 0, color: grey(127) },
            Segment { turn_delta: -45, distance: 1, color: grey(127) },
        ]
    );
}

#[test]
fn order_two_nests_two_curves_of_order_one() {
    let segments = dragon(2, -90, BLACK, WHITE);
    assert_eq!(
        segments,
        vec![
            Segment { turn_delta: 45, distance: 1, color: BLACK },
            Segment { turn_delta: -90, distance: 0, color: grey(63) },
            Segment { turn_delta: -45, distance: 1, color: grey(63) },
            Segment { turn_delta: -90, distance: 0, color: grey(127) },
            Segment { turn_delta: 45, distance: 1, color: grey(127) },
            Segment { turn_delta: -90, distance: 0, color: grey(191) },
            Segment { turn_delta: -45, distance: 1, color: grey(191) },
        ]
    );
}

#[test]
fn segment_count_is_two_to_the_order_plus_one_less_one() {
    assert_eq!(dragon(0, -90, BLACK, WHITE).len(), 1);
    for order in 1..=12u32 {
        let segments = dragon(order, -90, BLACK, WHITE);
        assert_eq!(segments.len(), (1usize << (order + 1)) - 1);
    }
}

#[test]
fn every_joint_carries_the_outer_turn() {
    for outer in [-90, 90, 60, 0, i32::MIN, i32::MAX] {
        let segments = dragon(6, outer, BLACK, WHITE);
        for (i, segment) in segments.iter().enumerate() {
            if i % 2 == 1 {
                assert_eq!(segment.turn_delta, outer);
                assert_eq!(segment.distance, 0);
            } else {
                assert_eq!(segment.distance, LEAF_DISTANCE);
            }
        }
    }
}

#[test]
fn the_joint_at_the_midpoint_splits_the_curve_into_two_curves() {
    let start = Color { red: 10, green: 200, blue: 0 };
    let end = Color { red: 250, green: 20, blue: 0 };
    let mid = start.midpoint(end);
    let whole = subdivide(5, 7, -90, start, end);
    let half = whole.len() / 2;
    assert_eq!(whole[half], Segment { turn_delta: -90, distance: 0, color: mid });
    assert_eq!(whole[..half].to_vec(), subdivide(4, FIRST_SUB_TURN, -90, start, mid));
    assert_eq!(whole[half + 1..].to_vec(), subdivide(4, SECOND_SUB_TURN, -90, mid, end));
}

#[test]
fn leaf_turns_alternate_above_order_zero() {
    let segments = subdivide(4, 7, -90, BLACK, WHITE);
    for (i, segment) in segments.iter().enumerate() {
        if i % 2 == 0 {
            let expected = if (i / 2) % 2 == 0 { 45 } else { -45 };
            assert_eq!(segment.turn_delta, expected);
        }
    }
    assert_eq!(subdivide(0, 7, -90, BLACK, WHITE)[0].turn_delta, 7);
}

#[test]
fn the_opening_turn_only_shows_at_order_zero() {
    assert_eq!(subdivide(3, 7, -90, BLACK, WHITE), dragon(3, -90, BLACK, WHITE));
    assert_ne!(subdivide(0, 7, -90, BLACK, WHITE), dragon(0, -90, BLACK, WHITE));
}

#[test]
fn midpoint_rounds_toward_the_start() {
    assert_eq!(BLACK.midpoint(WHITE), grey(127));
    assert_eq!(WHITE.midpoint(BLACK), grey(128));
    assert_eq!(grey(3).midpoint(grey(4)), grey(3));
    assert_eq!(grey(4).midpoint(grey(3)), grey(4));
    assert_eq!(grey(9).midpoint(grey(9)), grey(9));
    let start = Color { red: 0, green: 255, blue: 40 };
    let end = Color { red: 255, green: 0, blue: 50 };
    assert_eq!(start.midpoint(end), Color { red: 127, green: 128, blue: 45 });
}

#[test]
fn colors_never_move_back_toward_the_start() {
    let start = Color { red: 0, green: 255, blue: 77 };
    let end = Color { red: 255, green: 3, blue: 77 };
    let segments = dragon(9, -90, start, end);
    for pair in segments.windows(2) {
        assert!(pair[0].color.red <= pair[1].color.red);
        assert!(pair[0].color.green >= pair[1].color.green);
        assert_eq!(pair[0].color.blue, 77);
    }
    for segment in &segments {
        assert!(segment.color.green >= 3);
    }
    assert_eq!(segments[0].color, start);
}

#[test]
fn a_range_of_one_color_stays_that_color() {
    let segments = dragon(5, 90, grey(200), grey(200));
    assert!(segments.iter().all(|segment| segment.color == grey(200)));
}

#[test]
fn leaves_differ_where_the_range_is_wide_enough() {
    let start = Color { red: 0, green: 255, blue: 100 };
    let end = Color { red: 128, green: 0, blue: 100 };
    let leaves: Vec<Segment> =
        dragon(7, -90, start, end).into_iter().filter(|segment| segment.distance > 0).collect();
    assert_eq!(leaves.len(), 128);
    for pair in leaves.windows(2) {
        assert!(pair[0].color.red < pair[1].color.red);
        assert!(pair[0].color.green > pair[1].color.green);
    }
    assert_eq!(leaves[127].color.red, 127);
    assert_eq!(leaves[127].color.green, 2);

    let crowded: Vec<Segment> =
        dragon(8, -90, start, end).into_iter().filter(|segment| segment.distance > 0).collect();
    assert!(crowded.windows(2).any(|pair| pair[0].color.red == pair[1].color.red));
}

#[test]
fn an_order_fits_while_its_segments_can_be_counted() {
    assert!(order_fits(0));
    assert!(order_fits(11));
    assert!(order_fits(usize::BITS - 1));
    assert!(!order_fits(usize::BITS));
    assert!(!order_fits(usize::BITS + 1));
    assert!(!order_fits(u32::MAX));
}
