use key_capture::aggregate::{Aggregator, TraceStep};
use key_capture::codec::{CountItem, KeyId};
use key_capture::store::{Config, KeyCounts};

fn k(name: &str) -> KeyId {
    KeyId::new(name.to_string()).unwrap()
}

fn chord(names: &[&str]) -> Vec<KeyId> {
    names.iter().map(|n| k(n)).collect()
}

fn run(agg: &mut Aggregator, snapshots: &[&[&str]]) -> Vec<CountItem> {
    let mut all = Vec::new();
    let mut now = 0u64;
    for snap in snapshots {
        now += 100;
        let (incs, _traces) = agg.tick(chord(snap), now);
        all.extend(incs);
    }
    all
}

#[test]
fn chord_mode_single_counting_scenario() {
    // snapshots {A}, {A}, {A,B}, {}, {C} in chord mode, single-counting
    let mut agg = Aggregator::new(false, false);
    let incs = run(&mut agg, &[&["A"], &["A"], &["A", "B"], &[], &["C"]]);
    let mut kc = KeyCounts::new();
    kc.config = Some(Config::new(false, false, "0.2.0".to_string()));
    for item in incs {
        kc.record(item);
    }
    assert_eq!(kc.count_of(&CountItem::Single(chord(&["A"]))), Some(1));
    assert_eq!(kc.count_of(&CountItem::Single(chord(&["A", "B"]))), Some(1));
    assert_eq!(kc.count_of(&CountItem::Single(chord(&["C"]))), Some(1));
    assert_eq!(kc.len(), 3);
}

#[test]
fn chordless_pair_counting_scenario() {
    // the same snapshots in chordless, pair-counting mode: A seeds the
    // left side, B pairs with A, the release produces nothing, C pairs
    // with B
    let mut agg = Aggregator::new(true, true);
    let incs = run(&mut agg, &[&["A"], &["A"], &["A", "B"], &[], &["C"]]);
    assert_eq!(
        incs,
        vec![
            CountItem::Pair(chord(&["A"]), chord(&["B"])),
            CountItem::Pair(chord(&["B"]), chord(&["C"])),
        ]
    );
}

#[test]
fn holding_a_key_never_counts() {
    let mut agg = Aggregator::new(false, false);
    let incs = run(&mut agg, &[&["A"], &["A"], &["A"], &["A"]]);
    assert_eq!(incs.len(), 1);
}

#[test]
fn re_press_counts_once_per_transition() {
    let mut agg = Aggregator::new(false, false);
    let incs = run(&mut agg, &[&["A"], &["A"], &[], &["A"], &[], &["A"]]);
    assert_eq!(incs.len(), 3);
    assert!(incs.iter().all(|i| *i == CountItem::Single(chord(&["A"]))));
}

#[test]
fn first_unit_seeds_but_does_not_pair() {
    // in pair mode the very first unit produces no increment but is
    // retained as the left side of the next pair
    let mut agg = Aggregator::new(true, false);
    let (incs, _) = agg.tick(chord(&["A"]), 100);
    assert!(incs.is_empty());
    let (incs, _) = agg.tick(chord(&[]), 200);
    assert!(incs.is_empty());
    let (incs, _) = agg.tick(chord(&["B"]), 300);
    assert_eq!(incs, vec![CountItem::Pair(chord(&["A"]), chord(&["B"]))]);
}

#[test]
fn chordless_counts_each_new_key() {
    let mut agg = Aggregator::new(false, true);
    let (incs, _) = agg.tick(chord(&["A", "B"]), 100);
    assert_eq!(
        incs,
        vec![CountItem::Single(chord(&["A"])), CountItem::Single(chord(&["B"]))]
    );
}

#[test]
fn chordless_pairs_within_one_snapshot() {
    let mut agg = Aggregator::new(true, true);
    let (incs, _) = agg.tick(chord(&["A", "B", "C"]), 100);
    assert_eq!(
        incs,
        vec![
            CountItem::Pair(chord(&["A"]), chord(&["B"])),
            CountItem::Pair(chord(&["B"]), chord(&["C"])),
        ]
    );
}

#[test]
fn trace_marks_first_then_elapsed() {
    let mut agg = Aggregator::new(false, false);
    let (_, traces) = agg.tick(chord(&["A"]), 100);
    assert!(matches!(traces[0], TraceStep::First(_)));
    let (_, traces) = agg.tick(chord(&["A", "B"]), 250);
    match &traces[0] {
        TraceStep::Regular(u, ms) => {
            assert_eq!(*u, chord(&["A", "B"]));
            assert_eq!(*ms, 150);
        },
        other => panic!("expected Regular, got {:?}", other),
    }
}

#[test]
fn trace_lines_render() {
    let first = TraceStep::First(chord(&["LShift", "A"]));
    assert_eq!(key_capture::aggregate::trace_line(&first, false).unwrap(), "LShift+A\n");
    assert_eq!(key_capture::aggregate::trace_line(&first, true).unwrap(), "LShift+A ");
    let reg = TraceStep::Regular(chord(&["A"]), 52);
    assert_eq!(key_capture::aggregate::trace_line(&reg, false).unwrap(), "A after 52ms\n");
    assert_eq!(key_capture::aggregate::trace_line(&reg, true).unwrap(), "A ");
    assert!(key_capture::aggregate::trace_line(&TraceStep::Empty, false).is_none());
}
