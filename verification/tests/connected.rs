//! Moving a symbol with everything attached to its pins.

use konnect::connected::{
    plan_drag, wire_passes_through, JunctionFate, JunctionSite, WireContact, WireEnds,
};

const TOL: f64 = 0.01;

type Segment = ((f64, f64), (f64, f64));

fn near(a: (f64, f64), b: (f64, f64)) -> bool {
    (a.0 - b.0).abs() <= TOL && (a.1 - b.1).abs() <= TOL
}

/// How each of the axis-parallel `segs` meets the point.
fn contacts(segs: &[Segment], x: f64, y: f64) -> Vec<WireContact> {
    segs.iter()
        .map(|(s, e)| {
            let on = if (s.0 - e.0).abs() <= TOL {
                (x - s.0).abs() <= TOL && y >= s.1.min(e.1) - TOL && y <= s.1.max(e.1) + TOL
            } else {
                (y - s.1).abs() <= TOL && x >= s.0.min(e.0) - TOL && x <= s.0.max(e.0) + TOL
            };
            WireContact {
                on_segment: on,
                at_start: near((x, y), *s),
                at_end: near((x, y), *e),
            }
        })
        .collect()
}

#[test]
fn a_wire_ending_at_the_point_is_not_passing_through() {
    let segs = [((10.0, 10.0), (20.0, 10.0)), ((20.0, 10.0), (20.0, 30.0))];
    assert!(!wire_passes_through(&contacts(&segs, 20.0, 10.0)));
}

#[test]
fn a_wire_crossing_the_point_is_passing_through() {
    let segs = [((0.0, 10.0), (40.0, 10.0)), ((20.0, 10.0), (20.0, 30.0))];
    assert!(wire_passes_through(&contacts(&segs, 20.0, 10.0)));
}

#[test]
fn a_point_off_every_wire_is_not_passing_through() {
    let segs = [((0.0, 10.0), (40.0, 10.0))];
    assert!(!wire_passes_through(&contacts(&segs, 20.0, 25.0)));
}

#[test]
fn vertical_wires_are_handled_too() {
    let segs = [((5.0, 0.0), (5.0, 50.0))];
    assert!(wire_passes_through(&contacts(&segs, 5.0, 25.0)), "midpoint");
    assert!(!wire_passes_through(&contacts(&segs, 5.0, 0.0)), "endpoint");
    assert!(!wire_passes_through(&contacts(&segs, 5.0, 50.0)), "endpoint");
}

#[test]
fn no_wires_at_all_means_nothing_passes_through() {
    assert!(!wire_passes_through(&contacts(&[], 175.26, 99.06)));
}

#[test]
fn only_what_sits_on_a_pin_is_dragged() {
    let through = WireContact { on_segment: true, at_start: false, at_end: false };
    let ending = WireContact { on_segment: true, at_start: true, at_end: false };
    let wires = [
        WireEnds { start_on_pin: true, end_on_pin: false },
        WireEnds { start_on_pin: true, end_on_pin: true },
        WireEnds { start_on_pin: false, end_on_pin: false },
    ];
    let junctions = [
        JunctionSite { on_pin: true, contacts: vec![ending, through] },
        JunctionSite { on_pin: true, contacts: vec![ending] },
        JunctionSite { on_pin: false, contacts: vec![through] },
    ];
    let drag = plan_drag(&wires, &[true, false, true], &[false], &junctions);
    assert_eq!(drag.wire_endpoints_moved, 3);
    assert_eq!(drag.labels_moved, 2);
    assert_eq!(drag.no_connects_moved, 0);
    assert_eq!(
        drag.junctions,
        vec![JunctionFate::LeftBehind, JunctionFate::Moved, JunctionFate::Untouched]
    );
    assert_eq!(drag.junctions_moved, 1);
    assert_eq!(drag.junctions_left_behind, 1);
}
