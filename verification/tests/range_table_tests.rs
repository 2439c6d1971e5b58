use velocity_mapper::range_table::{RangeRule, RangeTable, matches_range};

fn rule(bypassed: bool, lo: u8, hi: u8, pitch: u8) -> RangeRule {
    RangeRule { bypassed, velocity_lo: lo, velocity_hi: hi, output_pitch: pitch }
}

#[test]
fn matches_range_inside_range() {
    let r = rule(false, 10, 20, 40);
    assert_eq!(matches_range(15, &r), Some(40));
    assert_eq!(matches_range(10, &r), Some(40));
    assert_eq!(matches_range(20, &r), Some(40));
}

#[test]
fn matches_range_outside_range() {
    let r = rule(false, 10, 20, 40);
    assert_eq!(matches_range(9, &r), None);
    assert_eq!(matches_range(21, &r), None);
}

#[test]
fn matches_range_reversed_bounds() {
    let r = rule(false, 20, 10, 40);
    assert_eq!(matches_range(15, &r), Some(40));
    assert_eq!(matches_range(10, &r), Some(40));
    assert_eq!(matches_range(20, &r), Some(40));
    assert_eq!(matches_range(9, &r), None);
}

#[test]
fn matches_range_bypassed_rule_never_matches() {
    let r = rule(true, 0, 127, 40);
    assert_eq!(matches_range(64, &r), None);
}

#[test]
fn first_matching_rule_wins() {
    let table = RangeTable::new(vec![rule(false, 0, 63, 40), rule(false, 64, 127, 80)]);
    assert_eq!(table.get_remapped_pitch(30), Some(40));
    assert_eq!(table.get_remapped_pitch(63), Some(40));
    assert_eq!(table.get_remapped_pitch(64), Some(80));
    assert_eq!(table.get_remapped_pitch(127), Some(80));
}

#[test]
fn overlapping_rules_earlier_wins() {
    let table = RangeTable::new(vec![rule(false, 0, 63, 40), rule(false, 0, 127, 99)]);
    assert_eq!(table.get_remapped_pitch(30), Some(40));
    assert_eq!(table.get_remapped_pitch(100), Some(99));
}

#[test]
fn bypassed_rule_skipped_for_later_match() {
    let table = RangeTable::new(vec![rule(true, 0, 127, 40), rule(false, 0, 127, 80)]);
    assert_eq!(table.get_remapped_pitch(50), Some(80));
}

#[test]
fn no_rule_matches_velocity() {
    let table = RangeTable::new(vec![rule(false, 0, 20, 40), rule(false, 100, 127, 80)]);
    assert_eq!(table.get_remapped_pitch(50), None);
}

#[test]
fn all_rules_bypassed_no_match() {
    let table = RangeTable::new(vec![rule(true, 0, 127, 40), rule(true, 0, 127, 80)]);
    assert_eq!(table.get_remapped_pitch(50), None);
}

#[test]
fn empty_table_no_match() {
    let table = RangeTable::new(vec![]);
    assert_eq!(table.get_remapped_pitch(50), None);
}

#[test]
fn default_table_four_bypassed_rules() {
    let table = RangeTable::default();
    assert_eq!(table.rules.len(), 4);
    for r in &table.rules {
        assert!(r.bypassed);
        assert_eq!(r.velocity_lo, 0);
        assert_eq!(r.velocity_hi, 127);
        assert_eq!(r.output_pitch, 60);
    }
    assert_eq!(table.get_remapped_pitch(64), None);
}
