use std::path::Path;

use dcx::git::{absorption_label, audit_label, listing_limits, AuditPane, AuditRow, DeleteKind};
use dcx::path_order::path_le_exec;
use dcx::path_set::PathSet;
use dcx::git::{WorktreeAudit, WorktreeProtection, WorktreeState};
use dcx::git_worktree_cleanup_tui::{
    protection_text, state_badge, state_text, App, Outcome, WorktreeSelection,
};
use dcx::keys::{KeyCode, KeyEvent, KeyModifiers, Tone};

fn worktree(path: &str, protection: Option<WorktreeProtection>) -> WorktreeAudit {
    WorktreeAudit {
        path: path.to_owned(),
        branch: "topic".to_owned(),
        short_object: "1234567".to_owned(),
        state: WorktreeState::Clean,
        protection,
        subject: "test".to_owned(),
        diff_base: "origin/main".to_owned(),
        diffstat: "1 file changed".to_owned(),
        bases: Vec::new(),
    }
}

fn key(code: KeyCode) -> KeyEvent {
    KeyEvent::new(code, KeyModifiers::Plain)
}

#[test]
fn never_selects_the_main_worktree() {
    let mut app = App::new(vec![worktree("/main", Some(WorktreeProtection::Main))]);
    app.handle_key(KeyEvent::new(KeyCode::Char(' '), KeyModifiers::Plain));
    app.handle_key(KeyEvent::new(KeyCode::Char('a'), KeyModifiers::Plain));
    assert!(app.selected.is_empty());
}

#[test]
fn requires_a_second_enter_before_removal() {
    let mut app = App::new(vec![worktree("/topic", None)]);
    app.handle_key(KeyEvent::new(KeyCode::Char(' '), KeyModifiers::Plain));
    assert_eq!(
        app.handle_key(KeyEvent::new(KeyCode::Enter, KeyModifiers::Plain)),
        Outcome::Continue
    );
    assert!(app.confirming);
    assert_eq!(
        app.handle_key(KeyEvent::new(KeyCode::Enter, KeyModifiers::Plain)),
        Outcome::Remove
    );
}

#[test]
fn force_removal_must_be_explicitly_toggled() {
    let mut app = App::new(vec![worktree("/topic", None)]);
    app.handle_key(KeyEvent::new(KeyCode::Char(' '), KeyModifiers::Plain));
    app.handle_key(KeyEvent::new(KeyCode::Enter, KeyModifiers::Plain));

    assert!(!app.force);
    app.handle_key(KeyEvent::new(KeyCode::Char('f'), KeyModifiers::Plain));
    assert!(app.force);
    assert_eq!(
        app.handle_key(KeyEvent::new(KeyCode::Enter, KeyModifiers::Plain)),
        Outcome::Remove
    );
}

#[test]
fn selection_lists_paths_in_order_with_the_force_flag() {
    let mut app = App::new(vec![
        worktree("/z", None),
        worktree("/main", Some(WorktreeProtection::Current)),
        worktree("/a", None),
    ]);
    app.handle_key(key(KeyCode::Char('a')));
    app.handle_key(key(KeyCode::Char('f')));
    let selection = app.selection();
    assert_eq!(selection.paths, ["/a", "/z"]);
    assert!(selection.force);
    let none = WorktreeSelection::default();
    assert!(none.paths.is_empty() && !none.force);
}

#[test]
fn cursor_moves_within_the_worktrees() {
    let mut app = App::new(vec![worktree("/a", None), worktree("/b", None)]);
    app.handle_key(key(KeyCode::Down));
    app.handle_key(key(KeyCode::Down));
    assert_eq!(app.cursor, 1);
    app.handle_key(key(KeyCode::Char(' ')));
    assert!(app.selected.contains("/b"));
    app.handle_key(key(KeyCode::PageUp));
    assert_eq!(app.cursor, 0);
    let mut empty = App::new(Vec::new());
    empty.handle_key(key(KeyCode::End));
    assert_eq!(empty.cursor, 0);
    assert!(empty.current().is_none());
}

#[test]
fn quitting_from_the_confirmation_only_returns() {
    let mut app = App::new(vec![worktree("/a", None)]);
    app.handle_key(key(KeyCode::Char(' ')));
    app.handle_key(key(KeyCode::Enter));
    assert_eq!(app.handle_key(key(KeyCode::Char('q'))), Outcome::Continue);
    assert!(!app.confirming);
    assert_eq!(app.handle_key(key(KeyCode::Char('q'))), Outcome::Cancel);
}

#[test]
fn worktree_labels() {
    let mut w = worktree("/a", None);
    assert_eq!(state_badge(&w), ("干净    ", Tone::Green));
    assert_eq!(state_text(&w), "干净 — 可以选择");
    w.state = WorktreeState::Missing;
    assert_eq!(state_badge(&w), ("丢失    ", Tone::Yellow));
    w.state = WorktreeState::Dirty;
    assert_eq!(state_text(&w), "有本地改动 — 禁止删除");
    assert_eq!(protection_text(None), "无 — 可以选择");
    assert_eq!(
        protection_text(Some(&WorktreeProtection::Locked(Some("busy".to_owned())))),
        "锁定 — Git worktree lock"
    );
    assert_eq!(protection_text(Some(&WorktreeProtection::Main)), "锁定 — main worktree");
    let mut app = App::new(vec![w]);
    assert_eq!(app.force_label(), "[ ] 强制  ");
    app.handle_key(key(KeyCode::Char('f')));
    assert_eq!(app.force_label(), "[x] 强制  ");
    assert_eq!(app.force_confirmation().2, Tone::LightRed);
}

#[test]
fn shared_audit_layout() {
    assert_eq!(audit_label("分支"), "分支      ");
    assert_eq!(audit_label("提交时间"), "提交时间  ");
    assert_eq!(audit_label("abcdef"), "abcdef");
    assert_eq!(absorption_label(Some(DeleteKind::Merged)), ("已合并", Tone::Green));
    assert_eq!(absorption_label(None), ("无法确认", Tone::LightRed));
    assert_eq!(listing_limits(20, 8, 15), (12, 3));
    assert_eq!(listing_limits(5, 8, 2), (0, 2));
    assert_eq!(listing_limits(30, 11, 4), (19, 0));
}

#[test]
fn paths_are_ordered_component_by_component() {
    let mut app = App::new(vec![
        worktree("/w/a-b", None),
        worktree("/w/a/b", None),
        worktree("/w/a", None),
    ]);
    app.handle_key(key(KeyCode::Char('a')));
    assert_eq!(app.selected_paths(), ["/w/a", "/w/a/b", "/w/a-b"]);
    assert_eq!(app.selection().paths, ["/w/a", "/w/a/b", "/w/a-b"]);
}

#[test]
fn path_order_follows_std() {
    let samples = [
        "/w/a/b", "/w/a-b", "/w/a", "a/b", "./a", "../a", "a//b", "/", "", "a/./b", "b", ".",
        "a/", "/a/b/", "..", "a.b", "a/..",
    ];
    for a in samples {
        for b in samples {
            assert_eq!(path_le_exec(a, b), Path::new(a) <= Path::new(b), "{a} {b}");
        }
    }
    let mut set = PathSet::new();
    for s in samples {
        set.insert(s.to_string());
    }
    let sorted = set.to_sorted_vec();
    assert_eq!(sorted.len(), set.len());
    for pair in sorted.windows(2) {
        assert!(Path::new(&pair[0]) < Path::new(&pair[1]));
    }
    for s in samples {
        assert!(set.contains(s));
        assert!(sorted.iter().any(|m| Path::new(m) == Path::new(s)));
    }
    assert!(sorted.contains(&"a/b".to_string()));
    assert!(!sorted.contains(&"a//b".to_string()));
}

#[test]
fn worktree_list_rows_and_audit_pane() {
    let mut app = App::new(vec![
        worktree("/main", Some(WorktreeProtection::Main)),
        worktree("/topic", None),
    ]);
    app.handle_key(key(KeyCode::Down));
    app.handle_key(key(KeyCode::Char(' ')));
    let rows = app.list_rows();
    assert_eq!(rows.len(), 2);
    assert_eq!((rows[0].marker, rows[0].marker_tone), ("[-]", Tone::DarkGray));
    assert_eq!((rows[1].marker, rows[1].marker_tone), ("[x]", Tone::Green));
    assert_eq!((rows[1].state, rows[1].state_tone), ("干净    ", Tone::Green));
    assert_eq!(rows[1].branch, "topic");
    match app.audit_pane() {
        AuditPane::Details(lines) => {
            assert_eq!(lines.len(), 11);
            match &lines[0] {
                AuditRow::Field { label, value, tone } => {
                    assert_eq!(label, "路径      ");
                    assert_eq!(value, "/topic");
                    assert_eq!(*tone, Tone::White);
                }
                _ => panic!("expected the path field"),
            }
            match &lines[8] {
                AuditRow::Note { text, tone } => {
                    assert_eq!(text, "  未检测到可用的 branch 审计信息");
                    assert_eq!(*tone, Tone::Yellow);
                }
                _ => panic!("expected the missing-base note"),
            }
            match &lines[10] {
                AuditRow::Text(text) => assert_eq!(text, "  1 file changed"),
                _ => panic!("expected the diffstat"),
            }
        }
        AuditPane::Empty(_) => panic!("a worktree is under the cursor"),
    }
    match App::new(Vec::new()).audit_pane() {
        AuditPane::Empty(text) => assert_eq!(text, "没有已注册的 worktree"),
        AuditPane::Details(_) => panic!("no worktree"),
    }
}

#[test]
fn paths_with_the_same_components_are_one_selection() {
    let mut app = App::new(vec![worktree("/w/a", None), worktree("/w//a/", None)]);
    app.handle_key(key(KeyCode::Char(' ')));
    assert!(app.selected.contains("/w//a/"));
    assert_eq!(app.selected.len(), 1);
    app.handle_key(key(KeyCode::Down));
    app.handle_key(key(KeyCode::Char(' ')));
    assert!(app.selected.is_empty());
    app.handle_key(key(KeyCode::Char('a')));
    assert_eq!(app.selected_paths(), ["/w/a"]);
}

#[test]
fn a_selected_path_keeps_its_first_spelling() {
    let mut app = App::new(vec![
        worktree("/w/a", None),
        worktree("/w//a/", None),
        worktree("/w/b", None),
    ]);
    app.handle_key(key(KeyCode::Down));
    app.handle_key(key(KeyCode::Char(' ')));
    assert_eq!(app.selected_paths(), ["/w//a/"]);
    app.handle_key(key(KeyCode::Char('a')));
    assert_eq!(app.selected_paths(), ["/w//a/", "/w/b"]);
    app.handle_key(key(KeyCode::Char('a')));
    assert!(app.selected.is_empty());
    app.handle_key(key(KeyCode::Char('a')));
    assert_eq!(app.selected_paths(), ["/w/a", "/w/b"]);
    let selection = app.selection();
    assert_eq!(selection.paths, ["/w/a", "/w/b"]);
}
