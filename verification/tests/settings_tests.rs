use clog_core::settings::{
    release_notes_of, update_status, FoundUpdate, PerFileRulesFile, Settings, SettingsPatch, UpdateState,
    UserHighlightRule, RECENT_FILES_CAP,
};

fn epoch_plus(secs: u64) -> i128 {
    i128::from(secs) * 1_000_000_000
}

#[test]
fn recent_files_dedupes_and_caps() {
    let mut s = Settings::default();
    for i in 0..30 {
        s.touch_recent(&format!("/tmp/f{i}.log"));
    }
    assert_eq!(s.recent_files.len(), RECENT_FILES_CAP);
    assert_eq!(s.recent_files[0], "/tmp/f29.log");
    s.touch_recent("/tmp/f25.log");
    assert_eq!(s.recent_files[0], "/tmp/f25.log");
    assert_eq!(s.recent_files.len(), RECENT_FILES_CAP);
}

#[test]
fn silent_check_due_when_never_checked() {
    let s = UpdateState::default();
    assert!(s.should_silent_check(epoch_plus(1_000_000)));
}

#[test]
fn silent_check_suppressed_within_24h() {
    let mut s = UpdateState::default();
    s.mark_checked(epoch_plus(1_000_000));
    assert!(!s.should_silent_check(epoch_plus(1_000_000 + 23 * 3600 + 59 * 60)));
}

#[test]
fn silent_check_due_after_24h() {
    let mut s = UpdateState::default();
    s.mark_checked(epoch_plus(1_000_000));
    assert!(s.should_silent_check(epoch_plus(1_000_000 + 24 * 3600)));
}

#[test]
fn snooze_blocks_same_version_inside_window() {
    let mut s = UpdateState::default();
    s.snooze("1.2.3", epoch_plus(1_000_000));
    assert!(s.is_snoozed("1.2.3", epoch_plus(1_000_000 + 6 * 24 * 3600)));
}

#[test]
fn snooze_expires_after_seven_days() {
    let mut s = UpdateState::default();
    s.snooze("1.2.3", epoch_plus(1_000_000));
    assert!(!s.is_snoozed("1.2.3", epoch_plus(1_000_000 + 7 * 24 * 3600 + 1)));
}

#[test]
fn snooze_ignores_different_version() {
    let mut s = UpdateState::default();
    s.snooze("1.2.3", epoch_plus(1_000_000));
    assert!(!s.is_snoozed("1.2.4", epoch_plus(1_000_000 + 1)));
}

#[test]
fn forget_recent_drops_every_copy() {
    let mut s = Settings::default();
    s.touch_recent("/a.log");
    s.touch_recent("/b.log");
    s.forget_recent("/a.log");
    assert_eq!(s.recent_files, vec!["/b.log".to_string()]);
    s.touch_recent("");
    assert_eq!(s.recent_files.len(), 1);
}

#[test]
fn touch_recent_moves_without_duplicating() {
    let mut s = Settings::default();
    s.touch_recent("/a.log");
    s.touch_recent("/b.log");
    s.touch_recent("/a.log");
    assert_eq!(s.recent_files, vec!["/a.log".to_string(), "/b.log".to_string()]);
}

#[test]
fn clock_before_epoch_is_never_snoozed_and_always_due() {
    let mut s = UpdateState::default();
    s.mark_checked(epoch_plus(10));
    assert!(s.should_silent_check(-5));
    s.snooze("9.9.9", epoch_plus(10));
    assert!(!s.is_snoozed("9.9.9", -5));
    assert_eq!(s.snoozed_until_unix, Some(10 + 7 * 24 * 3600));
}

#[test]
fn normalise_tabs_folds_legacy_last_file() {
    let (tabs, last, active) = clog_core::settings::normalise_tabs(Vec::<u32>::new(), Some(7), 4);
    assert_eq!(tabs, vec![7]);
    assert_eq!(last, None);
    assert_eq!(active, 0);
    let (tabs, last, active) = clog_core::settings::normalise_tabs(vec![1, 2, 3], Some(9), 10);
    assert_eq!(tabs, vec![1, 2, 3]);
    assert_eq!(last, Some(9));
    assert_eq!(active, 2);
}

#[test]
fn apply_patch_clamps_font_size_and_keeps_the_rest() {
    let mut s = Settings::default();
    s.touch_recent("/logs/a.log");
    s.apply_patch(SettingsPatch { theme: Some("dark".to_string()), font_size: Some(40), follow_tail_default: None });
    assert_eq!(s.theme, "dark");
    assert_eq!(s.font_size, 24);
    assert!(s.follow_tail_default);
    assert_eq!(s.recent_files, vec!["/logs/a.log".to_string()]);
    s.apply_patch(SettingsPatch { theme: None, font_size: Some(3), follow_tail_default: Some(false) });
    assert_eq!(s.theme, "dark");
    assert_eq!(s.font_size, 9);
    assert!(!s.follow_tail_default);
    s.apply_patch(SettingsPatch { theme: None, font_size: Some(15), follow_tail_default: None });
    assert_eq!(s.font_size, 15);
}

#[test]
fn release_notes_take_the_first_trimmed_line() {
    assert_eq!(release_notes_of(None), None);
    assert_eq!(release_notes_of(Some("  \n\t ")), None);
    assert_eq!(release_notes_of(Some("\n  Fixes tail lag\r\nMore text\n")), Some("Fixes tail lag".to_string()));
    assert_eq!(release_notes_of(Some("\u{a0}One line only\u{3000}")), Some("One line only".to_string()));
}

#[test]
fn update_status_reports_skips_snoozes_and_finds() {
    let now = epoch_plus(1_000_000);
    let mut st = UpdateState::default();
    st.mark_checked(now);
    let skipped = update_status(&st, false, now, "1.0.0".to_string(), false, None);
    assert!(skipped.skipped_by_cadence && !skipped.available && !skipped.snoozed);
    assert_eq!(skipped.mode, "installer");
    st.snooze("1.2.3", now);
    let found = FoundUpdate { version: "1.2.3".to_string(), body: Some("Faster search\nand more".to_string()) };
    let forced = update_status(&st, true, now, "1.0.0".to_string(), true, Some(found.clone()));
    assert!(forced.available && !forced.snoozed && !forced.skipped_by_cadence);
    assert_eq!(forced.available_version.as_deref(), Some("1.2.3"));
    assert_eq!(forced.notes.as_deref(), Some("Faster search"));
    assert_eq!(forced.mode, "portable");
    let later = epoch_plus(1_000_000 + 86_400);
    let snoozed = update_status(&st, false, later, "1.0.0".to_string(), false, Some(found));
    assert!(snoozed.snoozed && !snoozed.available);
    let none = update_status(&st, true, later, "1.0.0".to_string(), false, None);
    assert!(!none.available && none.available_version.is_none() && !none.skipped_by_cadence);
}

#[test]
fn per_file_rules_for_another_file_are_not_handed_over() {
    let rule = UserHighlightRule {
        name: "db".to_string(),
        pattern: "SQL".to_string(),
        flags: String::new(),
        priority: 0,
        colour: "red".to_string(),
        background: String::new(),
        bold: true,
        italic: false,
        underline: false,
        enabled: true,
    };
    let saved = PerFileRulesFile { schema: 1, path: "/logs/a.log".to_string(), rules: vec![rule.clone()] };
    assert_eq!(saved.clone().for_source("/logs/a.log").rules.len(), 1);
    let other = saved.clone().for_source("/logs/b.log");
    assert!(other.rules.is_empty() && other.path.is_empty() && other.schema == 0);
    let unrecorded = PerFileRulesFile { schema: 1, path: String::new(), rules: vec![rule] };
    assert_eq!(unrecorded.for_source("/logs/b.log").rules.len(), 1);
}
