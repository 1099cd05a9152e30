use storygraph::color::{auto_color, Color};
use storygraph::curve::{emit, Point, Primitive, Shape, Stroke};
use storygraph::layout::{
    apply_slots, beat_in_range, first_repeat, layout_beat, slots_of, Beat, LayoutError, Slot, Spacing,
};
use storygraph::timeline::{draw, emit_beat, label_beat, render, story_in_range, Label, Settings};
use storygraph::track::{TrackState, Transition};

fn beat(groups: &[&[&str]]) -> Beat {
    Beat {
        groups: groups
            .iter()
            .map(|g| g.iter().map(|n| n.to_string()).collect())
            .collect(),
    }
}

fn name(s: &str) -> String {
    s.to_string()
}

fn spacing() -> Spacing {
    Spacing { vertical_origin: 10, in_group_gap: 5, inter_group_gap: 24 }
}

fn settings() -> Settings {
    Settings {
        spacing: spacing(),
        horizontal_origin: 100,
        curve_span: 70,
        straight_span: 50,
        stroke_width: 5,
        label_every: 2,
    }
}

fn moves_of(r: Result<Vec<Transition>, LayoutError>) -> Vec<(String, i64, i64, Color)> {
    match r {
        Ok(ts) => ts.into_iter().map(|t| (t.entity, t.previous_y, t.new_y, t.color)).collect(),
        Err(_) => panic!("the beat has no repeated entity"),
    }
}

fn curve_points(p: &Primitive) -> (Point, Point, Point, Point) {
    match p.shape {
        Shape::Curve { start, first_control, second_control, end } => (start, first_control, second_control, end),
        Shape::Segment { .. } => panic!("a curve stands here"),
    }
}

fn segment_points(p: &Primitive) -> (Point, Point) {
    match p.shape {
        Shape::Segment { from, to } => (from, to),
        Shape::Curve { .. } => panic!("a segment stands here"),
    }
}

#[test]
fn hues_follow_the_golden_step() {
    assert_eq!(auto_color(0), Color { hue: 0 });
    assert_eq!(auto_color(1), Color { hue: 2654435769 });
    assert_eq!(auto_color(2), Color { hue: 1013904242 });
    assert_eq!(auto_color(3).hue as u64, (3u64 * 2654435769) % 4294967296);
    assert_eq!(auto_color(4294967296usize), Color { hue: 0 });
    assert_eq!(auto_color(4294967297usize), Color { hue: 2654435769 });
}

#[test]
fn first_twenty_colors_differ() {
    let colors: Vec<Color> = (0..20usize).map(auto_color).collect();
    for i in 0..20 {
        for j in 0..i {
            assert_ne!(colors[i], colors[j]);
        }
    }
}

#[test]
fn two_beats_regroup_three_entities() {
    let mut state = TrackState::new();
    let first = moves_of(layout_beat(&beat(&[&["A", "B"], &["C"]]), 0, &spacing(), &mut state));
    assert_eq!(
        first,
        vec![
            (name("A"), 10, 10, auto_color(0)),
            (name("B"), 15, 15, auto_color(1)),
            (name("C"), 44, 44, auto_color(2)),
        ]
    );
    let second = moves_of(layout_beat(&beat(&[&["A"], &["B", "C"]]), 1, &spacing(), &mut state));
    assert_eq!(
        second,
        vec![
            (name("A"), 10, 10, auto_color(0)),
            (name("B"), 15, 39, auto_color(1)),
            (name("C"), 44, 44, auto_color(2)),
        ]
    );
    assert_eq!(state.len(), 3);
    assert_eq!(state.position(&name("A")), Some(10));
    assert_eq!(state.position(&name("B")), Some(39));
    assert_eq!(state.position(&name("C")), Some(44));
    assert_eq!(state.position(&name("D")), None);
}

#[test]
fn one_group_of_three_gives_three_pairs() {
    let shapes = render(&vec![beat(&[&["A", "B", "C"]])], &settings()).unwrap();
    assert_eq!(shapes.len(), 12);
    for k in 0..3usize {
        let y = 10 + 5 * k as i64;
        let halo = Stroke { width: 9, color: None };
        let line = Stroke { width: 5, color: Some(auto_color(k)) };
        let curve = Shape::Curve {
            start: Point { x: 100, y },
            first_control: Point { x: 135, y },
            second_control: Point { x: 135, y },
            end: Point { x: 170, y },
        };
        let segment = Shape::Segment { from: Point { x: 170, y }, to: Point { x: 220, y } };
        assert_eq!(shapes[4 * k], Primitive { shape: curve, stroke: halo, halo: true });
        assert_eq!(shapes[4 * k + 1], Primitive { shape: curve, stroke: line, halo: false });
        assert_eq!(shapes[4 * k + 2], Primitive { shape: segment, stroke: halo, halo: true });
        assert_eq!(shapes[4 * k + 3], Primitive { shape: segment, stroke: line, halo: false });
    }
}

#[test]
fn one_pair_per_occurrence() {
    let beats = vec![
        beat(&[&["A", "B"], &["C"]]),
        beat(&[&["A"], &[], &["D"]]),
        beat(&[]),
        beat(&[&["B", "C", "D", "E"]]),
    ];
    let shapes = render(&beats, &settings()).unwrap();
    assert_eq!(shapes.len(), 4 * 9);
    let curves = shapes.iter().filter(|p| !p.halo && matches!(p.shape, Shape::Curve { .. })).count();
    let segments = shapes.iter().filter(|p| !p.halo && matches!(p.shape, Shape::Segment { .. })).count();
    let halos = shapes.iter().filter(|p| p.halo && p.stroke.color.is_none()).count();
    assert_eq!((curves, segments, halos), (9, 9, 18));
}

#[test]
fn cursor_moves_right_with_every_beat() {
    let beats = vec![beat(&[&["A"]]), beat(&[&["A"]]), beat(&[&["A"]])];
    let shapes = render(&beats, &settings()).unwrap();
    assert_eq!(shapes.len(), 12);
    let starts: Vec<i64> = (0..3usize).map(|b| curve_points(&shapes[4 * b + 1]).0.x).collect();
    assert_eq!(starts, vec![100, 220, 340]);
    let ends: Vec<i64> = (0..3usize).map(|b| segment_points(&shapes[4 * b + 3]).1.x).collect();
    assert_eq!(ends, vec![220, 340, 460]);
}

#[test]
fn colors_stay_through_the_run() {
    let beats = vec![
        beat(&[&["A", "B"], &["C"]]),
        beat(&[&["C"], &["B", "A"]]),
        beat(&[&["D", "B"], &["A"]]),
    ];
    let shapes = render(&beats, &settings()).unwrap();
    let color_of = |k: usize| shapes[4 * k + 1].stroke.color;
    assert_eq!(color_of(0), Some(auto_color(0)));
    assert_eq!(color_of(1), Some(auto_color(1)));
    assert_eq!(color_of(2), Some(auto_color(2)));
    assert_eq!(color_of(3), Some(auto_color(2)));
    assert_eq!(color_of(4), Some(auto_color(1)));
    assert_eq!(color_of(5), Some(auto_color(0)));
    assert_eq!(color_of(6), Some(auto_color(3)));
    assert_eq!(color_of(7), Some(auto_color(1)));
    assert_eq!(color_of(8), Some(auto_color(0)));
}

#[test]
fn absent_entity_resumes_where_it_rested() {
    let mut state = TrackState::new();
    let sp = spacing();
    moves_of(layout_beat(&beat(&[&["A"], &["B"]]), 0, &sp, &mut state));
    assert_eq!(state.position(&name("B")), Some(39));
    let second = moves_of(layout_beat(&beat(&[&["A"]]), 1, &sp, &mut state));
    assert_eq!(second.len(), 1);
    assert_eq!(state.position(&name("B")), Some(39));
    assert_eq!(state.color(&name("B")), Some(auto_color(1)));
    let third = moves_of(layout_beat(&beat(&[&["B", "A"]]), 2, &sp, &mut state));
    assert_eq!(third[0], (name("B"), 39, 10, auto_color(1)));
    assert_eq!(third[1], (name("A"), 10, 15, auto_color(0)));
}

#[test]
fn repeated_entity_is_reported() {
    let mut state = TrackState::new();
    let sp = spacing();
    moves_of(layout_beat(&beat(&[&["X"]]), 0, &sp, &mut state));
    let r = layout_beat(&beat(&[&["A", "X"], &["B"], &["X", "A"]]), 7, &sp, &mut state);
    match r {
        Err(LayoutError::DuplicateEntityInBeat { beat_index, entity }) => {
            assert_eq!(beat_index, 7);
            assert_eq!(entity, "X");
        }
        Ok(_) => panic!("the beat lists X twice"),
    }
    assert_eq!(state.len(), 1);
    assert_eq!(state.position(&name("X")), Some(10));
    assert_eq!(state.position(&name("A")), None);
}

#[test]
fn repeated_entity_in_one_group_is_reported() {
    let mut state = TrackState::new();
    let r = layout_beat(&beat(&[&["A", "A"]]), 0, &spacing(), &mut state);
    assert!(matches!(r, Err(LayoutError::DuplicateEntityInBeat { beat_index: 0, .. })));
}

#[test]
fn render_stops_at_the_first_bad_beat() {
    let beats = vec![beat(&[&["A"], &["B"]]), beat(&[&["A"], &["B", "A"]]), beat(&[&["C", "C"]])];
    match render(&beats, &settings()) {
        Err(LayoutError::DuplicateEntityInBeat { beat_index, entity }) => {
            assert_eq!(beat_index, 1);
            assert_eq!(entity, "A");
        }
        Ok(_) => panic!("the second beat lists A twice"),
    }
}

#[test]
fn disjoint_beats_raise_nothing() {
    let beats = vec![beat(&[&["A"], &["B"]]), beat(&[&["B"], &["A"]])];
    assert!(render(&beats, &settings()).is_ok());
}

#[test]
fn no_beats_give_no_shapes() {
    let shapes = render(&Vec::new(), &settings()).unwrap();
    assert!(shapes.is_empty());
}

#[test]
fn empty_groups_only_add_their_gap() {
    let slots = slots_of(&beat(&[&[], &["A"], &[], &[], &["B", "C"]]), &spacing());
    let got: Vec<(String, i64)> = slots.into_iter().map(|s| (s.entity, s.y)).collect();
    assert_eq!(got, vec![(name("A"), 34), (name("B"), 111), (name("C"), 116)]);
}

#[test]
fn first_repeat_is_the_earliest_second_occurrence() {
    let slot = |n: &str, y: i64| Slot { entity: name(n), y };
    assert_eq!(first_repeat(&vec![slot("A", 0), slot("B", 1), slot("C", 2)]), None);
    assert_eq!(first_repeat(&vec![slot("A", 0), slot("B", 1), slot("B", 2), slot("A", 3)]), Some(2));
    assert_eq!(first_repeat(&Vec::new()), None);
}

#[test]
fn apply_slots_moves_known_and_adds_new() {
    let mut state = TrackState::new();
    state.place(&name("A"), 3);
    let slots = vec![Slot { entity: name("B"), y: 8 }, Slot { entity: name("A"), y: -4 }];
    let moves = apply_slots(&mut state, &slots);
    assert_eq!(moves.len(), 2);
    assert_eq!((moves[0].previous_y, moves[0].new_y, moves[0].color), (8, 8, auto_color(1)));
    assert_eq!((moves[1].previous_y, moves[1].new_y, moves[1].color), (3, -4, auto_color(0)));
    assert_eq!(state.find(&name("A")), Some(0));
    assert_eq!(state.find(&name("B")), Some(1));
    assert_eq!(state.find(&name("C")), None);
}

#[test]
fn emit_bends_halfway() {
    let t = Transition { entity: name("A"), previous_y: 40, new_y: -10, color: Color { hue: 7 } };
    let shapes = emit(&t, -5, 7, 2, 3);
    assert_eq!(shapes.len(), 4);
    let (a, b, c, d) = curve_points(&shapes[1]);
    assert_eq!(a, Point { x: -5, y: 40 });
    assert_eq!(b, Point { x: -2, y: 40 });
    assert_eq!(c, Point { x: -2, y: -10 });
    assert_eq!(d, Point { x: 2, y: -10 });
    assert_eq!(curve_points(&shapes[0]), (a, b, c, d));
    let (from, to) = segment_points(&shapes[3]);
    assert_eq!((from, to), (Point { x: 2, y: -10 }, Point { x: 4, y: -10 }));
    assert_eq!(segment_points(&shapes[2]), (from, to));
    assert_eq!(shapes[0].stroke, Stroke { width: 7, color: None });
    assert_eq!(shapes[1].stroke, Stroke { width: 3, color: Some(Color { hue: 7 }) });
    assert!(shapes[0].halo && !shapes[1].halo && shapes[2].halo && !shapes[3].halo);
}

#[test]
fn emit_beat_keeps_the_order_of_moves() {
    let moves = vec![
        Transition { entity: name("A"), previous_y: 1, new_y: 2, color: Color { hue: 1 } },
        Transition { entity: name("B"), previous_y: 3, new_y: 4, color: Color { hue: 2 } },
    ];
    let shapes = emit_beat(&moves, 0, &settings());
    assert_eq!(shapes.len(), 8);
    assert_eq!(shapes[1].stroke.color, Some(Color { hue: 1 }));
    assert_eq!(shapes[5].stroke.color, Some(Color { hue: 2 }));
    assert_eq!(curve_points(&shapes[5]).3, Point { x: 70, y: 4 });
}

#[test]
fn standard_measures() {
    let s = Settings::standard();
    assert_eq!((s.spacing.vertical_origin, s.spacing.in_group_gap, s.spacing.inter_group_gap), (10, 10, 50));
    assert_eq!((s.horizontal_origin, s.curve_span, s.straight_span, s.stroke_width), (10, 70, 50, 5));
    assert_eq!(s.label_every, 4);
}

#[test]
fn names_are_written_at_every_second_beat() {
    let beats = vec![beat(&[&["A"], &["B"]]), beat(&[&["B", "A"]]), beat(&[&["A"], &["C"]])];
    let drawing = draw(&beats, &settings()).unwrap();
    assert_eq!(drawing.shapes, render(&beats, &settings()).unwrap());
    assert_eq!(
        drawing.labels,
        vec![
            Label { beat_index: 0, entity: name("A"), anchor: Point { x: 170, y: 10 } },
            Label { beat_index: 0, entity: name("B"), anchor: Point { x: 170, y: 39 } },
            Label { beat_index: 2, entity: name("A"), anchor: Point { x: 410, y: 10 } },
            Label { beat_index: 2, entity: name("C"), anchor: Point { x: 410, y: 39 } },
        ]
    );
}

#[test]
fn no_names_without_a_label_step() {
    let mut s = settings();
    s.label_every = 0;
    let drawing = draw(&vec![beat(&[&["A"]]), beat(&[&["A"]])], &s).unwrap();
    assert_eq!(drawing.shapes.len(), 8);
    assert!(drawing.labels.is_empty());
}

#[test]
fn label_beat_anchors_at_the_straight_run() {
    let moves = vec![Transition { entity: name("A"), previous_y: 1, new_y: 2, color: Color { hue: 1 } }];
    let labels = label_beat(&moves, 5, -70, &settings());
    assert_eq!(labels, vec![Label { beat_index: 5, entity: name("A"), anchor: Point { x: 0, y: 2 } }]);
}

#[test]
fn range_of_a_beat() {
    let b = beat(&[&["A", "B"], &["C"]]);
    assert!(beat_in_range(&b, &spacing()));
    let top = i64::MAX;
    assert!(beat_in_range(&b, &Spacing { vertical_origin: top - 63, in_group_gap: 5, inter_group_gap: 24 }));
    assert!(!beat_in_range(&b, &Spacing { vertical_origin: top - 62, in_group_gap: 5, inter_group_gap: 24 }));
    assert!(beat_in_range(&beat(&[]), &Spacing { vertical_origin: top, in_group_gap: 5, inter_group_gap: 24 }));
}

#[test]
fn range_of_a_story() {
    let beats = vec![beat(&[&["A"]]), beat(&[&["A"]])];
    assert!(story_in_range(&beats, &settings()));
    let mut wide = settings();
    wide.horizontal_origin = i64::MAX - 240;
    assert!(story_in_range(&beats, &wide));
    wide.horizontal_origin = i64::MAX - 239;
    assert!(!story_in_range(&beats, &wide));
    let mut tall = settings();
    tall.spacing.vertical_origin = i64::MAX - 28;
    assert!(!story_in_range(&beats, &tall));
    tall.spacing.vertical_origin = i64::MAX - 29;
    assert!(story_in_range(&beats, &tall));
    assert!(render(&beats, &tall).is_ok());
}

#[test]
fn two_beats_regroup_three_entities_in_the_drawing() {
    let beats = vec![beat(&[&["A", "B"], &["C"]]), beat(&[&["A"], &["B", "C"]])];
    let shapes = render(&beats, &settings()).unwrap();
    assert_eq!(shapes.len(), 24);
    let ys: Vec<(i64, i64)> = (0..6usize)
        .map(|k| {
            let (start, _, _, end) = curve_points(&shapes[4 * k + 1]);
            (start.y, end.y)
        })
        .collect();
    assert_eq!(ys, vec![(10, 10), (15, 15), (44, 44), (10, 10), (15, 39), (44, 44)]);
    let xs: Vec<i64> = (0..6usize).map(|k| curve_points(&shapes[4 * k + 1]).0.x).collect();
    assert_eq!(xs, vec![100, 100, 100, 220, 220, 220]);
}
