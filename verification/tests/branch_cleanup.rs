use dcx::git::{fits_screen, highlighted_row, AuditPane, AuditRow, BaseAudit, BranchAudit, DeleteKind};
use dcx::git_branch_cleanup_tui::{
    audit_badge, protection_text, tracking_text, upstream_badge, upstream_text, App, Outcome,
};
use dcx::keys::{KeyCode, KeyEvent, KeyModifiers, Tone};
use dcx::name_set::NameSet;

fn branch(name: &str, tracking: &str, protected: bool) -> BranchAudit {
    BranchAudit {
        name: name.to_owned(),
        short_object: "1234567".to_owned(),
        upstream: format!("origin/{name}"),
        tracking: tracking.to_owned(),
        worktree: String::new(),
        protected_reason: protected.then(|| "base branch".to_owned()),
        author: "Test User".to_owned(),
        committed_at: "2026-08-12T00:00:00+08:00".to_owned(),
        subject: "test".to_owned(),
        diff_base: "origin/main".to_owned(),
        diffstat: "1 file changed".to_owned(),
        bases: Vec::new(),
    }
}

fn key(code: KeyCode) -> KeyEvent {
    KeyEvent::new(code, KeyModifiers::Plain)
}

#[test]
fn defaults_to_all_branches_and_can_filter_to_gone() {
    let mut app = App::new(vec![
        branch("gone", "[gone]", false),
        branch("live", "", false),
    ]);

    assert_eq!(app.visible_indices(), vec![0, 1]);
    app.handle_key(KeyEvent::new(KeyCode::Char(' '), KeyModifiers::Plain));
    assert!(app.selected.contains("gone"));

    app.handle_key(KeyEvent::new(KeyCode::Char('g'), KeyModifiers::Plain));
    assert_eq!(app.visible_indices(), vec![0]);
}

#[test]
fn never_selects_protected_branches() {
    let mut app = App::new(vec![branch("main", "[gone]", true)]);

    app.handle_key(KeyEvent::new(KeyCode::Char(' '), KeyModifiers::Plain));
    app.handle_key(KeyEvent::new(KeyCode::Char('a'), KeyModifiers::Plain));

    assert!(app.selected.is_empty());
}

#[test]
fn requires_a_second_enter_before_deletion() {
    let mut app = App::new(vec![branch("gone", "[gone]", false)]);
    app.handle_key(KeyEvent::new(KeyCode::Char(' '), KeyModifiers::Plain));

    assert_eq!(
        app.handle_key(KeyEvent::new(KeyCode::Enter, KeyModifiers::Plain)),
        Outcome::Continue
    );
    assert!(app.confirming);
    assert_eq!(
        app.handle_key(KeyEvent::new(KeyCode::Enter, KeyModifiers::Plain)),
        Outcome::Delete
    );
}

#[test]
fn enter_without_a_selection_does_not_confirm() {
    let mut app = App::new(vec![branch("a", "", false)]);
    assert_eq!(app.handle_key(key(KeyCode::Enter)), Outcome::Continue);
    assert!(!app.confirming);
}

#[test]
fn escape_leaves_the_confirmation_and_keeps_the_selection() {
    let mut app = App::new(vec![branch("a", "", false)]);
    app.handle_key(key(KeyCode::Char(' ')));
    app.handle_key(key(KeyCode::Enter));
    assert_eq!(app.handle_key(key(KeyCode::Char('x'))), Outcome::Continue);
    assert!(app.selected.contains("a"));
    assert_eq!(app.handle_key(key(KeyCode::Esc)), Outcome::Continue);
    assert!(!app.confirming);
    assert_eq!(app.handle_key(key(KeyCode::Esc)), Outcome::Cancel);
}

#[test]
fn control_c_and_q_cancel() {
    let mut app = App::new(vec![branch("a", "", false)]);
    assert_eq!(
        app.handle_key(KeyEvent::new(KeyCode::Char('c'), KeyModifiers::Control)),
        Outcome::Cancel
    );
    assert_eq!(app.handle_key(key(KeyCode::Char('c'))), Outcome::Continue);
    assert_eq!(app.handle_key(key(KeyCode::Char('q'))), Outcome::Cancel);
}

#[test]
fn cursor_stays_on_the_list() {
    let mut app = App::new(vec![
        branch("a", "", false),
        branch("b", "", false),
        branch("c", "", false),
    ]);
    app.handle_key(key(KeyCode::Up));
    assert_eq!(app.cursor, 0);
    app.handle_key(key(KeyCode::PageDown));
    assert_eq!(app.cursor, 2);
    app.handle_key(key(KeyCode::Char('k')));
    assert_eq!(app.cursor, 1);
    app.handle_key(key(KeyCode::Home));
    assert_eq!(app.cursor, 0);
    app.handle_key(key(KeyCode::End));
    assert_eq!(app.cursor, 2);
    app.move_down(usize::MAX);
    assert_eq!(app.cursor, 2);
    app.handle_key(key(KeyCode::Char('g')));
    assert_eq!(app.cursor, 0);
    app.handle_key(key(KeyCode::End));
    assert_eq!(app.cursor, 0);
    assert!(app.current().is_none());
}

#[test]
fn select_all_toggles_the_visible_unprotected_branches() {
    let mut app = App::new(vec![
        branch("b", "[gone]", false),
        branch("a", "", false),
        branch("main", "", true),
    ]);
    app.handle_key(key(KeyCode::Char('a')));
    assert_eq!(app.selected_names(), ["a", "b"]);
    app.handle_key(key(KeyCode::Char('a')));
    assert!(app.selected.is_empty());
    app.handle_key(key(KeyCode::Char('g')));
    app.handle_key(key(KeyCode::Char('a')));
    assert_eq!(app.selected_names(), ["b"]);
    app.handle_key(key(KeyCode::Char('x')));
    assert!(app.selected.is_empty());
}

#[test]
fn space_twice_restores_the_selection() {
    let mut app = App::new(vec![branch("a", "", false), branch("b", "", false)]);
    app.handle_key(key(KeyCode::Char('j')));
    app.handle_key(key(KeyCode::Char(' ')));
    assert_eq!(app.selected_names(), ["b"]);
    app.handle_key(key(KeyCode::Char(' ')));
    assert!(app.selected.is_empty());
}

#[test]
fn labels_follow_the_audit() {
    let mut gone = branch("g", "[gone]", false);
    assert_eq!(upstream_badge(&gone), ("丢失  ", Tone::LightRed));
    assert_eq!(tracking_text(&gone).1, Tone::LightRed);
    gone.tracking = String::new();
    assert_eq!(upstream_badge(&gone), ("正常  ", Tone::Cyan));
    gone.upstream = String::new();
    assert_eq!(upstream_badge(&gone), ("未设  ", Tone::Yellow));
    assert_eq!(upstream_text(&gone), "未设置");

    let mut audited = branch("m", "", false);
    assert_eq!(audit_badge(&audited), ("待复核  ", Tone::LightRed));
    audited.bases.push(BaseAudit {
        name: "origin/main".to_owned(),
        absorption: Some(DeleteKind::Equivalent),
        ahead: 1,
        behind: 0,
    });
    assert_eq!(audit_badge(&audited), ("等价    ", Tone::LightGreen));
    audited.bases.push(BaseAudit {
        name: "origin/dev".to_owned(),
        absorption: Some(DeleteKind::Merged),
        ahead: 0,
        behind: 2,
    });
    assert_eq!(audit_badge(&audited), ("已合并  ", Tone::Green));
    assert_eq!(audit_badge(&branch("p", "", true)), ("锁定    ", Tone::DarkGray));
}

#[test]
fn protection_text_names_the_reason() {
    assert_eq!(protection_text(Some("base branch")), "锁定 — 基准分支");
    assert_eq!(
        protection_text(Some("checked out in a worktree")),
        "锁定 — 正在工作树中使用"
    );
    assert_eq!(protection_text(Some("excluded by rule")), "锁定 — 匹配排除规则");
    assert_eq!(protection_text(Some("current")), "锁定 — 受保护分支");
    assert_eq!(protection_text(None), "无 — 可以选择");
}

#[test]
fn header_and_footer_labels() {
    let mut app = App::new(vec![branch("a", "", false)]);
    assert_eq!(app.filter_label(), "全部本地分支");
    assert_eq!(app.enter_label(), "查看");
    app.handle_key(key(KeyCode::Char(' ')));
    app.handle_key(key(KeyCode::Char('g')));
    assert_eq!(app.filter_label(), "仅跟踪分支已丢失");
    assert_eq!(app.enter_label(), "确认");
}

#[test]
fn branch_list_rows_follow_the_filter() {
    let mut app = App::new(vec![
        branch("gone", "[gone]", false),
        branch("main", "", true),
    ]);
    app.handle_key(key(KeyCode::Char(' ')));
    let rows = app.list_rows();
    assert_eq!(rows.len(), 2);
    assert_eq!((rows[0].marker, rows[0].marker_tone), ("[x]", Tone::Green));
    assert_eq!((rows[0].upstream, rows[0].upstream_tone), ("丢失  ", Tone::LightRed));
    assert_eq!((rows[0].audit, rows[0].audit_tone), ("待复核  ", Tone::LightRed));
    assert_eq!((rows[1].marker, rows[1].audit), ("[-]", "锁定    "));
    assert_eq!(rows[1].name, "main");
    app.handle_key(key(KeyCode::Char('g')));
    let rows = app.list_rows();
    assert_eq!(rows.len(), 1);
    assert_eq!(rows[0].name, "gone");
}

#[test]
fn branch_audit_pane_lines() {
    let mut b = branch("topic", "", false);
    b.worktree = "/w/topic".to_owned();
    b.bases.push(BaseAudit {
        name: "origin/main".to_owned(),
        absorption: Some(DeleteKind::Merged),
        ahead: 3,
        behind: 12,
    });
    let app = App::new(vec![b]);
    match app.audit_pane(30) {
        AuditPane::Details(lines) => {
            assert_eq!(lines.len(), 16);
            match &lines[10] {
                AuditRow::Base {
                    name,
                    verdict,
                    tone,
                    counts,
                } => {
                    assert_eq!(name, "  origin/main  ");
                    assert_eq!(*verdict, "已合并");
                    assert_eq!(*tone, Tone::Green);
                    assert_eq!(counts, "  领先 3 / 落后 12");
                }
                _ => panic!("expected the base line"),
            }
            match &lines[11] {
                AuditRow::Heading(text) => assert_eq!(text, "相对 origin/main 的差异"),
                _ => panic!("expected the diff heading"),
            }
            match &lines[13] {
                AuditRow::Field { label, value, .. } => {
                    assert_eq!(label, "工作树    ");
                    assert_eq!(value, "/w/topic");
                }
                _ => panic!("expected the worktree field"),
            }
            match &lines[15] {
                AuditRow::Note { tone, .. } => assert_eq!(*tone, Tone::LightRed),
                _ => panic!("expected the reminder"),
            }
        }
        AuditPane::Empty(_) => panic!("a branch is under the cursor"),
    }
    match app.audit_pane(23) {
        AuditPane::Details(lines) => assert_eq!(lines.len(), 14),
        AuditPane::Empty(_) => panic!("a branch is under the cursor"),
    }
    let mut filtered = App::new(vec![branch("live", "", false)]);
    filtered.handle_key(key(KeyCode::Char('g')));
    match filtered.audit_pane(30) {
        AuditPane::Empty(text) => {
            assert_eq!(text, "没有符合当前筛选条件的分支\n按 g 显示全部本地分支")
        }
        AuditPane::Details(_) => panic!("nothing is listed"),
    }
}

#[test]
fn screen_size_and_highlight() {
    assert!(fits_screen(72, 20));
    assert!(!fits_screen(71, 40));
    assert!(!fits_screen(100, 19));
    assert_eq!(highlighted_row(0, 0), None);
    assert_eq!(highlighted_row(5, 3), Some(2));
    assert_eq!(highlighted_row(1, 3), Some(1));
}

#[test]
fn name_set_keeps_names_once_and_in_order() {
    let mut set = NameSet::new();
    for name in ["topic", "feature/b", "main", "feature/a", "topic", "é", "e", "feature"] {
        set.insert(name.to_owned());
    }
    assert_eq!(set.len(), 7);
    assert_eq!(
        set.to_sorted_vec(),
        ["e", "feature", "feature/a", "feature/b", "main", "topic", "é"]
    );
    assert!(set.contains("feature/a"));
    assert!(!set.contains("feature/c"));
    set.remove("main");
    set.remove("missing");
    assert!(!set.contains("main"));
    assert_eq!(set.len(), 6);
    set.clear();
    assert!(set.is_empty());
}
