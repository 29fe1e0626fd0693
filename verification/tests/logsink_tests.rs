use ni_watcher::logsink::{rotation_plan, LogAction};

#[test]
fn full_rotation_with_two_segments() {
    // active segment over the 100-byte cap with max_segments = 2:
    // log1 moves to log2, log0 to log1, and the segment at rank 2 is
    // deleted as the retention ceiling
    let present = vec![true, true, true];
    let plan = rotation_plan(&present, 120, 100, 2);
    assert_eq!(
        plan,
        vec![
            LogAction::Rename(1, 2),
            LogAction::Rename(0, 1),
            LogAction::Delete(2)
        ]
    );
}

#[test]
fn rotation_skips_missing_sources() {
    let present = vec![true, false, true];
    let plan = rotation_plan(&present, 200, 100, 2);
    assert_eq!(plan, vec![LogAction::Rename(0, 1), LogAction::Delete(2)]);
}

#[test]
fn rotation_at_exact_cap() {
    let present = vec![true, false, false];
    let plan = rotation_plan(&present, 100, 100, 2);
    assert_eq!(plan, vec![LogAction::Rename(0, 1), LogAction::Delete(2)]);
}

#[test]
fn no_rotation_under_cap() {
    let present = vec![true, true, true];
    assert_eq!(rotation_plan(&present, 99, 100, 2), vec![]);
}

#[test]
fn no_rotation_without_active_segment() {
    let present = vec![false, true, true];
    assert_eq!(rotation_plan(&present, 0, 100, 2), vec![]);
}

#[test]
fn deeper_retention_chain() {
    let present = vec![true, true, true, true];
    let plan = rotation_plan(&present, 1_000, 100, 3);
    assert_eq!(
        plan,
        vec![
            LogAction::Rename(2, 3),
            LogAction::Rename(1, 2),
            LogAction::Rename(0, 1),
            LogAction::Delete(3)
        ]
    );
}
