use vstd::prelude::*;

use crate::git::{
    base_audit_rows, base_row, concat2, concat3, field, field_row, rows_view, AuditPane,
    AuditRow, BaseAudit, RowView, WorktreeAudit, WorktreeProtection, WorktreeState,
};
use crate::keys::{KeyCode, KeyEvent, KeyModifiers, Tone};
use crate::order::views;
use crate::path_order::{path_parts, path_sorted, PathPart};
use crate::path_set::{keys, PathSet};

verus! {

/// What a key press asks of the worktree selector's driver.
#[derive(Debug, Clone, Copy, PartialEq, Eq)]
pub enum Outcome {
    Continue,
    Cancel,
    Remove,
}

/// The paths of the worktrees that may be selected: those without protection.
pub open spec fn unprotected_paths(worktrees: Seq<WorktreeAudit>) -> Set<Seq<PathPart>> {
    Set::new(
        |p: Seq<PathPart>|
            exists|i: int|
                0 <= i < worktrees.len() && (#[trigger] worktrees[i]).protection is None
                    && path_parts(worktrees[i].path@) == p,
    )
}

/// The paths of the unprotected worktrees, in list order.
pub open spec fn unprotected_list(worktrees: Seq<WorktreeAudit>) -> Seq<Seq<char>>
    decreases worktrees.len(),
{
    if worktrees.len() == 0 {
        Seq::empty()
    } else if worktrees.last().protection is None {
        unprotected_list(worktrees.drop_last()).push(worktrees.last().path@)
    } else {
        unprotected_list(worktrees.drop_last())
    }
}

/// The components of each path.
pub open spec fn part_keys(paths: Seq<Seq<char>>) -> Seq<Seq<PathPart>> {
    paths.map_values(|p: Seq<char>| path_parts(p))
}

/// Each component sequence among `paths` mapped to the first spelling of
/// it in `paths`.
pub open spec fn first_spellings(paths: Seq<Seq<char>>) -> Map<Seq<PathPart>, Seq<char>>
    decreases paths.len(),
{
    if paths.len() == 0 {
        Map::empty()
    } else if first_spellings(paths.drop_last()).dom().contains(path_parts(paths.last())) {
        first_spellings(paths.drop_last())
    } else {
        first_spellings(paths.drop_last()).insert(path_parts(paths.last()), paths.last())
    }
}

/// What `a` selects: each unprotected worktree's components, spelled as
/// the first unprotected worktree in the list with them spells its path.
pub open spec fn selectable(worktrees: Seq<WorktreeAudit>) -> Map<Seq<PathPart>, Seq<char>> {
    first_spellings(unprotected_list(worktrees))
}

/// `first_spellings` has exactly the components of the paths as keys.
pub proof fn lemma_first_spellings_dom(paths: Seq<Seq<char>>)
    ensures
        forall|k: Seq<PathPart>| first_spellings(paths).dom().contains(k) <==> part_keys(paths).contains(k),
    decreases paths.len(),
{
    if paths.len() > 0 {
        let p = paths.drop_last();
        let key = path_parts(paths.last());
        lemma_first_spellings_dom(p);
        assert forall|k: Seq<PathPart>| first_spellings(paths).dom().contains(k) <==> part_keys(paths).contains(k) by {
            if k == key {
                assert(part_keys(paths)[paths.len() - 1] == key);
            }
            if part_keys(p).contains(k) {
                let j = choose|j: int| 0 <= j < part_keys(p).len() && part_keys(p)[j] == k;
                assert(part_keys(paths)[j] == k);
            }
            if part_keys(paths).contains(k) {
                let j = choose|j: int| 0 <= j < part_keys(paths).len() && part_keys(paths)[j] == k;
                if j < p.len() {
                    assert(part_keys(p)[j] == k);
                }
            }
        }
    }
}

/// The components of the unprotected worktrees' paths are `unprotected_paths`.
pub proof fn lemma_unprotected_list(worktrees: Seq<WorktreeAudit>)
    ensures
        forall|k: Seq<PathPart>| part_keys(unprotected_list(worktrees)).contains(k) <==> unprotected_paths(worktrees).contains(k),
    decreases worktrees.len(),
{
    if worktrees.len() > 0 {
        let p = worktrees.drop_last();
        lemma_unprotected_list(p);
        let l = unprotected_list(worktrees);
        let lp = unprotected_list(p);
        assert forall|k: Seq<PathPart>| part_keys(l).contains(k) <==> unprotected_paths(worktrees).contains(k) by {
            if part_keys(l).contains(k) {
                let j = choose|j: int| 0 <= j < part_keys(l).len() && part_keys(l)[j] == k;
                if j < lp.len() {
                    assert(part_keys(lp)[j] == k);
                    assert(unprotected_paths(p).contains(k));
                    let i = choose|i: int| 0 <= i < p.len() && (#[trigger] p[i]).protection is None
                        && path_parts(p[i].path@) == k;
                    assert(worktrees[i] == p[i]);
                } else {
                    assert(worktrees[worktrees.len() - 1].protection is None);
                }
            }
            if unprotected_paths(worktrees).contains(k) {
                let i = choose|i: int| 0 <= i < worktrees.len() && (#[trigger] worktrees[i]).protection is None
                    && path_parts(worktrees[i].path@) == k;
                if i < p.len() {
                    assert(p[i] == worktrees[i]);
                    assert(unprotected_paths(p).contains(k));
                    let j = choose|j: int| 0 <= j < part_keys(lp).len() && part_keys(lp)[j] == k;
                    assert(part_keys(l)[j] == k);
                } else {
                    assert(part_keys(l)[l.len() - 1] == k);
                }
            }
        }
    }
}

/// `a` selects exactly the unprotected worktrees' paths.
pub proof fn lemma_selectable_dom(worktrees: Seq<WorktreeAudit>)
    ensures
        selectable(worktrees).dom() == unprotected_paths(worktrees),
{
    lemma_first_spellings_dom(unprotected_list(worktrees));
    lemma_unprotected_list(worktrees);
    assert(selectable(worktrees).dom() =~= unprotected_paths(worktrees));
}

/// The state of the worktree selector, as the laws and contracts see it.
pub struct WorktreeCleanupState {
    pub worktrees: Seq<WorktreeAudit>,
    pub selected: Map<Seq<PathPart>, Seq<char>>,
    pub cursor: nat,
    pub confirming: bool,
    pub force: bool,
}

impl WorktreeCleanupState {
    /// The last position the cursor can take (`0` when there is no worktree).
    pub open spec fn last(self) -> nat {
        if self.worktrees.len() == 0 {
            0
        } else {
            (self.worktrees.len() - 1) as nat
        }
    }

    /// The worktree under the cursor.
    pub open spec fn current(self) -> Option<WorktreeAudit> {
        if self.cursor < self.worktrees.len() {
            Some(self.worktrees[self.cursor as int])
        } else {
            None
        }
    }

    /// The cursor moved `amount` rows down, stopping at the last row.
    pub open spec fn moved_down(self, amount: nat) -> Self {
        WorktreeCleanupState {
            cursor: if self.cursor + amount <= self.last() {
                self.cursor + amount
            } else {
                self.last()
            },
            ..self
        }
    }

    /// The cursor moved `amount` rows up, stopping at the first row.
    pub open spec fn moved_up(self, amount: nat) -> Self {
        WorktreeCleanupState {
            cursor: if self.cursor >= amount {
                (self.cursor - amount) as nat
            } else {
                0
            },
            ..self
        }
    }

    /// The worktree under the cursor selected or unselected, unless it is
    /// protected.
    pub open spec fn toggled(self) -> Self {
        match self.current() {
            Some(w) => if w.protection is None {
                WorktreeCleanupState {
                    selected: if self.selected.dom().contains(path_parts(w.path@)) {
                        self.selected.remove(path_parts(w.path@))
                    } else {
                        self.selected.insert(path_parts(w.path@), w.path@)
                    },
                    ..self
                }
            } else {
                self
            },
            None => self,
        }
    }

    /// `a`: when every unprotected worktree is selected, all of them are
    /// unselected; otherwise all of them are selected, those already
    /// selected keeping their spelling.
    pub open spec fn all_toggled(self) -> Self {
        let m = selectable(self.worktrees);
        WorktreeCleanupState {
            selected: if m.dom().subset_of(self.selected.dom()) {
                self.selected.remove_keys(m.dom())
            } else {
                m.union_prefer_right(self.selected)
            },
            ..self
        }
    }

    /// The state after a key press, with what the driver is to do.
    pub open spec fn step(self, key: KeyEvent) -> (Self, Outcome) {
        if self.confirming {
            match key.code {
                KeyCode::Enter => (self, Outcome::Remove),
                KeyCode::Esc => (WorktreeCleanupState { confirming: false, ..self }, Outcome::Continue),
                KeyCode::Char(c) => if c == 'f' {
                    (WorktreeCleanupState { force: !self.force, ..self }, Outcome::Continue)
                } else if c == 'q' {
                    (WorktreeCleanupState { confirming: false, ..self }, Outcome::Continue)
                } else {
                    (self, Outcome::Continue)
                },
                _ => (self, Outcome::Continue),
            }
        } else {
            match key.code {
                KeyCode::Char(c) => if c == 'c' && key.modifiers == KeyModifiers::Control {
                    (self, Outcome::Cancel)
                } else if c == 'q' {
                    (self, Outcome::Cancel)
                } else if c == 'k' {
                    (self.moved_up(1), Outcome::Continue)
                } else if c == 'j' {
                    (self.moved_down(1), Outcome::Continue)
                } else if c == ' ' {
                    (self.toggled(), Outcome::Continue)
                } else if c == 'a' {
                    (self.all_toggled(), Outcome::Continue)
                } else if c == 'x' {
                    (WorktreeCleanupState { selected: Map::empty(), ..self }, Outcome::Continue)
                } else if c == 'f' {
                    (WorktreeCleanupState { force: !self.force, ..self }, Outcome::Continue)
                } else {
                    (self, Outcome::Continue)
                },
                KeyCode::Esc => (self, Outcome::Cancel),
                KeyCode::Up => (self.moved_up(1), Outcome::Continue),
                KeyCode::Down => (self.moved_down(1), Outcome::Continue),
                KeyCode::PageUp => (self.moved_up(10), Outcome::Continue),
                KeyCode::PageDown => (self.moved_down(10), Outcome::Continue),
                KeyCode::Home => (WorktreeCleanupState { cursor: 0, ..self }, Outcome::Continue),
                KeyCode::End => (WorktreeCleanupState { cursor: self.last(), ..self }, Outcome::Continue),
                KeyCode::Enter => if self.selected != Map::<Seq<PathPart>, Seq<char>>::empty() {
                    (WorktreeCleanupState { confirming: true, ..self }, Outcome::Continue)
                } else {
                    (self, Outcome::Continue)
                },
                KeyCode::Other => (self, Outcome::Continue),
            }
        }
    }
}

/// A protected worktree (the main one, the current one, a locked one, one
/// with changes) is never selected: when every selected path belongs to an
/// unprotected worktree, that stays so after any key press.
pub proof fn lemma_step_never_selects_protected(state: WorktreeCleanupState, key: KeyEvent)
    requires
        state.selected.dom().subset_of(unprotected_paths(state.worktrees)),
    ensures
        state.step(key).0.worktrees == state.worktrees,
        state.step(key).0.selected.dom().subset_of(unprotected_paths(state.worktrees)),
{
    let allowed = unprotected_paths(state.worktrees);
    lemma_selectable_dom(state.worktrees);
    if state.cursor < state.worktrees.len() {
        let w = state.worktrees[state.cursor as int];
        if w.protection is None {
            assert(allowed.contains(path_parts(w.path@)));
        }
    }
}

/// Removing takes a second Enter: the driver is told to remove only on Enter
/// while the confirmation shows, and only with a selection, which the
/// confirmation cannot change. The confirmation opens only on Enter with a
/// non-empty selection, and it is shown only while something is selected.
pub proof fn lemma_remove_needs_confirmation(state: WorktreeCleanupState, key: KeyEvent)
    requires
        state.confirming ==> state.selected != Map::<Seq<PathPart>, Seq<char>>::empty(),
    ensures
        state.step(key).0.confirming ==> state.step(key).0.selected != Map::<Seq<PathPart>, Seq<char>>::empty(),
        state.step(key).1 == Outcome::Remove ==> state.confirming && key.code == KeyCode::Enter
            && state.step(key).0 == state && state.selected != Map::<Seq<PathPart>, Seq<char>>::empty(),
        !state.confirming && state.step(key).0.confirming ==> key.code == KeyCode::Enter
            && state.selected != Map::<Seq<PathPart>, Seq<char>>::empty(),
        state.confirming ==> state.step(key).0.selected == state.selected,
{
}

/// Forced removal must be toggled explicitly: only the `f` key changes it.
pub proof fn lemma_force_only_by_f(state: WorktreeCleanupState, key: KeyEvent)
    ensures
        state.step(key).0.force != state.force ==> key.code == KeyCode::Char('f'),
{
}

/// A key that cancels leaves the state as it was.
pub proof fn lemma_cancel_changes_nothing(state: WorktreeCleanupState, key: KeyEvent)
    ensures
        state.step(key).1 == Outcome::Cancel ==> state.step(key).0 == state && !state.confirming,
{
}

/// The cursor stays on a row (or on the first row when there is none).
pub proof fn lemma_cursor_stays_listed(state: WorktreeCleanupState, key: KeyEvent)
    requires
        state.cursor <= state.last(),
    ensures
        state.step(key).0.cursor <= state.step(key).0.last(),
{
}

/// A selected path keeps the spelling it was selected with: whatever key is
/// pressed, a path that stays selected is spelled as before, as a
/// `BTreeSet<PathBuf>` keeps the first of two equal paths.
pub proof fn lemma_selection_keeps_spelling(state: WorktreeCleanupState, key: KeyEvent)
    ensures
        forall|k: Seq<PathPart>|
            state.selected.dom().contains(k) && #[trigger] state.step(key).0.selected.dom().contains(k)
                ==> state.step(key).0.selected[k] == state.selected[k],
{
}

/// `x` outside the confirmation empties the selection and changes nothing
/// else, so a following Enter does not open the confirmation.
pub proof fn lemma_x_clears_selection(state: WorktreeCleanupState, key: KeyEvent)
    requires
        !state.confirming,
        key.code == KeyCode::Char('x'),
    ensures
        state.step(key).0 == (WorktreeCleanupState { selected: Map::empty(), ..state }),
        state.step(key).0.selected.dom().len() == 0,
        state.step(key).1 == Outcome::Continue,
        ({
            let enter = KeyEvent { code: KeyCode::Enter, modifiers: KeyModifiers::Plain };
            !state.step(key).0.step(enter).0.confirming
        }),
{
    assert(state.step(key).0.selected.dom() =~= Set::<Seq<PathPart>>::empty());
}

/// Space pressed twice on the same row leaves the same worktrees selected
/// and changes nothing else; a selected path may come back spelled as the
/// worktree under the cursor spells it, as a `PathBuf` taken out of a set and
/// put back in does.
pub proof fn lemma_space_twice_restores(state: WorktreeCleanupState)
    requires
        !state.confirming,
    ensures
        ({
            let space = KeyEvent { code: KeyCode::Char(' '), modifiers: KeyModifiers::Plain };
            let twice = state.step(space).0.step(space).0;
            &&& twice.selected.dom() == state.selected.dom()
            &&& twice == (WorktreeCleanupState { selected: twice.selected, ..state })
        }),
{
    let once = state.toggled();
    match state.current() {
        Some(w) => {
            if w.protection is None {
                assert(once.toggled().selected.dom() =~= state.selected.dom());
            }
        },
        None => {},
    }
}

/// What the worktree selector hands back: the paths to remove and whether
/// to remove them with `--force`.
#[derive(Debug)]
pub struct WorktreeSelection {
    pub paths: Vec<String>,
    pub force: bool,
}

impl Default for WorktreeSelection {
    /// Nothing to remove, without force.
    fn default() -> (s: Self)
        ensures
            s.paths@.len() == 0,
            !s.force,
    {
        WorktreeSelection { paths: Vec::new(), force: false }
    }
}

/// The interactive worktree selector: every registered worktree with its
/// audit, the paths chosen for removal, the cursor, whether the final
/// confirmation is showing and whether removal is forced.
pub struct App {
    pub worktrees: Vec<WorktreeAudit>,
    pub selected: PathSet,
    pub cursor: usize,
    pub confirming: bool,
    pub force: bool,
}

impl View for App {
    type V = WorktreeCleanupState;

    open spec fn view(&self) -> WorktreeCleanupState {
        WorktreeCleanupState {
            worktrees: self.worktrees@,
            selected: self.selected@,
            cursor: self.cursor as nat,
            confirming: self.confirming,
            force: self.force,
        }
    }
}

/// One row of the worktree list: the marker and the state badge, each with
/// its colour, and the worktree's branch.
pub struct WorktreeRow {
    pub marker: &'static str,
    pub marker_tone: Tone,
    pub state: &'static str,
    pub state_tone: Tone,
    pub branch: String,
}

/// The row shows `worktree` with the marker that the selection gives it.
pub open spec fn worktree_row_shows(
    row: WorktreeRow,
    selected: Map<Seq<PathPart>, Seq<char>>,
    worktree: WorktreeAudit,
) -> bool {
    &&& (row.marker@, row.marker_tone) == marker_of(selected, worktree)
    &&& (row.state@, row.state_tone) == state_badge_of(worktree)
    &&& row.branch@ == worktree.branch@
}

/// The notice of the audit pane when no worktree is registered.
pub open spec fn no_worktree_notice() -> Seq<char> {
    "没有已注册的 worktree"@
}

/// The lines of a worktree's audit, in order: the fields, the base
/// comparisons (or a note that there is no branch audit), and the diff
/// against the diff base.
pub open spec fn worktree_audit_rows(worktree: WorktreeAudit) -> Seq<RowView> {
    seq![
        field("路径"@, worktree.path@, Tone::White),
        field("分支"@, worktree.branch@, Tone::Cyan),
        field("提交"@, worktree.short_object@, Tone::Magenta),
        field("状态"@, state_text_of(worktree), state_tone_of(worktree)),
        field("保护"@, protection_text_of(worktree.protection), protection_tone_of(worktree)),
        field("主题"@, worktree.subject@, Tone::White),
        RowView::Blank,
        RowView::Heading("基准分支对比"@),
    ] + (if worktree.bases@.len() == 0 {
        seq![RowView::Note("  未检测到可用的 branch 审计信息"@, Tone::Yellow)]
    } else {
        worktree.bases@.map_values(|b: BaseAudit| base_row(b))
    }) + seq![
        RowView::Heading("相对 "@ + worktree.diff_base@ + " 的差异"@),
        RowView::Text("  "@ + worktree.diffstat@),
    ]
}

impl App {
    /// The rows of the worktree list: one per worktree, in order.
    pub fn list_rows(&self) -> (rows: Vec<WorktreeRow>)
        ensures
            rows.len() == self.worktrees.len(),
            forall|k: int|
                0 <= k < rows.len() ==> worktree_row_shows(
                    #[trigger] rows@[k],
                    self@.selected,
                    self.worktrees@[k],
                ),
    {
        let mut rows: Vec<WorktreeRow> = Vec::new();
        let mut k: usize = 0;
        while k < self.worktrees.len()
            invariant
                k <= self.worktrees.len(),
                rows.len() == k,
                forall|j: int|
                    0 <= j < k ==> worktree_row_shows(#[trigger] rows@[j], self@.selected, self.worktrees@[j]),
            decreases self.worktrees.len() - k,
        {
            let worktree = &self.worktrees[k];
            let (marker, marker_tone) = self.list_marker(worktree);
            let (state, state_tone) = state_badge(worktree);
            rows.push(WorktreeRow { marker, marker_tone, state, state_tone, branch: worktree.branch.clone() });
            k = k + 1;
        }
        rows
    }

    /// What the audit pane shows: the audit of the worktree under the
    /// cursor, or a notice when there is none.
    pub fn audit_pane(&self) -> (pane: AuditPane)
        ensures
            match self@.current() {
                None => pane matches AuditPane::Empty(text) && text@ == no_worktree_notice(),
                Some(worktree) => pane matches AuditPane::Details(rows) && rows_view(rows@)
                    == worktree_audit_rows(worktree),
            },
    {
        let worktree = match self.current() {
            None => {
                return AuditPane::Empty("没有已注册的 worktree");
            },
            Some(worktree) => worktree,
        };
        let mut rows: Vec<AuditRow> = Vec::new();
        rows.push(field_row("路径", worktree.path.as_str(), Tone::White));
        rows.push(field_row("分支", worktree.branch.as_str(), Tone::Cyan));
        rows.push(field_row("提交", worktree.short_object.as_str(), Tone::Magenta));
        rows.push(field_row("状态", state_text(worktree), state_color(worktree)));
        rows.push(field_row("保护", protection_text(worktree.protection.as_ref()), protection_color(worktree)));
        rows.push(field_row("主题", worktree.subject.as_str(), Tone::White));
        rows.push(AuditRow::Blank);
        rows.push(AuditRow::Heading("基准分支对比".to_owned()));
        let ghost head = rows_view(rows@);
        let ghost spec_rows = worktree_audit_rows(*worktree);
        assert(head =~= spec_rows.take(8));
        if worktree.bases.len() == 0 {
            rows.push(AuditRow::Note { text: "  未检测到可用的 branch 审计信息".to_owned(), tone: Tone::Yellow });
            assert(rows_view(rows@) =~= head.push(RowView::Note("  未检测到可用的 branch 审计信息"@, Tone::Yellow)));
        } else {
            let mut bases = base_audit_rows(&worktree.bases);
            let ghost before = rows@;
            let ghost added = bases@;
            rows.append(&mut bases);
            assert(rows_view(rows@) =~= rows_view(before) + rows_view(added));
        }
        let ghost with_bases = rows_view(rows@);
        let ghost base_part = if worktree.bases@.len() == 0 {
            seq![RowView::Note("  未检测到可用的 branch 审计信息"@, Tone::Yellow)]
        } else {
            worktree.bases@.map_values(|b: BaseAudit| base_row(b))
        };
        assert(with_bases =~= head + base_part);
        rows.push(AuditRow::Heading(concat3("相对 ", worktree.diff_base.as_str(), " 的差异")));
        rows.push(AuditRow::Text(concat2("  ", worktree.diffstat.as_str())));
        let ghost diff_part = seq![
            RowView::Heading("相对 "@ + worktree.diff_base@ + " 的差异"@),
            RowView::Text("  "@ + worktree.diffstat@),
        ];
        assert(rows_view(rows@) =~= with_bases + diff_part);
        assert(spec_rows =~= head + base_part + diff_part);
        AuditPane::Details(rows)
    }

    /// A selector over `worktrees`: nothing selected, the cursor on the first
    /// row, no confirmation showing, removal not forced.
    pub fn new(worktrees: Vec<WorktreeAudit>) -> (app: Self)
        ensures
            app@.worktrees == worktrees@,
            app@.selected == Map::<Seq<PathPart>, Seq<char>>::empty(),
            app@.cursor == 0,
            !app@.confirming,
            !app@.force,
    {
        App { worktrees, selected: PathSet::new(), cursor: 0, confirming: false, force: false }
    }

    /// The worktree under the cursor.
    pub fn current(&self) -> (worktree: Option<&WorktreeAudit>)
        ensures
            match worktree {
                Some(w) => self@.current() == Some(*w),
                None => self@.current() is None,
            },
    {
        if self.cursor < self.worktrees.len() {
            Some(&self.worktrees[self.cursor])
        } else {
            None
        }
    }

    fn last(&self) -> (last: usize)
        ensures
            last == self@.last(),
    {
        if self.worktrees.len() == 0 {
            0
        } else {
            self.worktrees.len() - 1
        }
    }

    fn move_up(&mut self, amount: usize)
        ensures
            final(self)@ == old(self)@.moved_up(amount as nat),
    {
        self.cursor = if self.cursor >= amount {
            self.cursor - amount
        } else {
            0
        };
    }

    /// Moves the cursor `amount` rows down, stopping at the last row.
    pub fn move_down(&mut self, amount: usize)
        ensures
            final(self)@ == old(self)@.moved_down(amount as nat),
    {
        let last = self.last();
        self.cursor = if self.cursor <= last && amount <= last - self.cursor {
            self.cursor + amount
        } else {
            last
        };
    }

    /// Selects or unselects the worktree under the cursor, unless it is
    /// protected.
    pub fn toggle_current(&mut self)
        ensures
            final(self)@ == old(self)@.toggled(),
    {
        let path = match self.current() {
            Some(w) => if w.protection.is_none() {
                Some(w.path.clone())
            } else {
                None
            },
            None => None,
        };
        if let Some(path) = path {
            if self.selected.contains(path.as_str()) {
                self.selected.remove(path.as_str());
            } else {
                self.selected.insert(path);
            }
        }
    }

    /// The paths of the unprotected worktrees, in list order.
    fn selectable_paths(&self) -> (paths: Vec<String>)
        ensures
            views(paths@) == unprotected_list(self.worktrees@),
    {
        let mut paths: Vec<String> = Vec::new();
        let mut k: usize = 0;
        while k < self.worktrees.len()
            invariant
                k <= self.worktrees.len(),
                views(paths@) == unprotected_list(self.worktrees@.take(k as int)),
            decreases self.worktrees.len() - k,
        {
            let w = &self.worktrees[k];
            let ghost before = views(paths@);
            assert(self.worktrees@.take(k + 1).drop_last() =~= self.worktrees@.take(k as int));
            if w.protection.is_none() {
                let copy = w.path.clone();
                paths.push(copy);
                assert(views(paths@) =~= before.push(w.path@));
            }
            k = k + 1;
        }
        assert(self.worktrees@.take(k as int) =~= self.worktrees@);
        paths
    }

    /// `a`: unselects every unprotected worktree when all of them are
    /// selected, and selects all of them otherwise.
    pub fn select_all(&mut self)
        ensures
            final(self)@ == old(self)@.all_toggled(),
    {
        let names = self.selectable_paths();
        let ghost sel = self.selected@;
        let ghost ps = views(names@);
        let ghost s = part_keys(ps);
        let ghost m = selectable(self.worktrees@);
        proof {
            lemma_first_spellings_dom(ps);
        }
        let mut all = true;
        let mut k: usize = 0;
        while k < names.len()
            invariant
                k <= names.len(),
                ps == views(names@),
                s == part_keys(ps),
                sel == self.selected@,
                all == forall|j: int| 0 <= j < k ==> sel.dom().contains(#[trigger] s[j]),
            decreases names.len() - k,
        {
            let has = self.selected.contains(names[k].as_str());
            proof {
                assert(ps[k as int] == names[k as int]@);
                assert(s[k as int] == path_parts(names[k as int]@));
            }
            all = all && has;
            k = k + 1;
        }
        proof {
            if all {
                assert(m == first_spellings(ps));
                assert forall|n: Seq<PathPart>| m.dom().contains(n) implies sel.dom().contains(n) by {
                    assert(first_spellings(ps).dom().contains(n));
                    assert(part_keys(ps).contains(n));
                    let j = choose|j: int| 0 <= j < s.len() && s[j] == n;
                    assert(sel.dom().contains(s[j]));
                }
            } else {
                let j = choose|j: int| 0 <= j < s.len() && !sel.dom().contains(#[trigger] s[j]);
                assert(s.contains(s[j]));
            }
        }
        if all {
            let mut k: usize = 0;
            while k < names.len()
                invariant
                    k <= names.len(),
                    ps == views(names@),
                    s == part_keys(ps),
                    self.selected@ == sel.remove_keys(s.take(k as int).to_set()),
                    self.worktrees@ == old(self).worktrees@,
                    self.cursor == old(self).cursor,
                    self.confirming == old(self).confirming,
                    self.force == old(self).force,
                decreases names.len() - k,
            {
                assert(s.take(k + 1) =~= s.take(k as int).push(s[k as int]));
                proof {
                    s.take(k as int).lemma_push_to_set_commute(s[k as int]);
                }
                assert(ps[k as int] == names[k as int]@);
                assert(s[k as int] == path_parts(names[k as int]@));
                self.selected.remove(names[k].as_str());
                assert(self.selected@ =~= sel.remove_keys(s.take(k + 1).to_set()));
                k = k + 1;
            }
            assert(s.take(k as int) =~= s);
            assert(s.to_set() =~= m.dom());
        } else {
            let mut k: usize = 0;
            assert(ps.take(0) =~= Seq::<Seq<char>>::empty());
            assert(first_spellings(ps.take(0)).union_prefer_right(sel) =~= sel);
            while k < names.len()
                invariant
                    k <= names.len(),
                    ps == views(names@),
                    self.selected@ == first_spellings(ps.take(k as int)).union_prefer_right(sel),
                    self.worktrees@ == old(self).worktrees@,
                    self.cursor == old(self).cursor,
                    self.confirming == old(self).confirming,
                    self.force == old(self).force,
                decreases names.len() - k,
            {
                let ghost x = ps[k as int];
                let ghost key = path_parts(x);
                let ghost f = first_spellings(ps.take(k as int));
                let ghost cur = self.selected@;
                assert(ps.take(k + 1).drop_last() =~= ps.take(k as int));
                assert(ps.take(k + 1).last() == x);
                assert(x == names[k as int]@);
                self.selected.insert(names[k].clone());
                proof {
                    let f2 = first_spellings(ps.take(k + 1));
                    if cur.dom().contains(key) {
                        if f.dom().contains(key) {
                            assert(f2 == f);
                        } else {
                            assert(f2 == f.insert(key, x));
                            assert(f2.union_prefer_right(sel) =~= cur);
                        }
                    } else {
                        assert(f2 == f.insert(key, x));
                        assert(f2.union_prefer_right(sel) =~= cur.insert(key, x));
                    }
                }
                k = k + 1;
            }
            assert(ps.take(k as int) =~= ps);
        }
    }

    /// Handles a key press and says what the driver is to do; the state
    /// changes as `step` describes.
    pub fn handle_key(&mut self, key: KeyEvent) -> (outcome: Outcome)
        ensures
            (final(self)@, outcome) == old(self)@.step(key),
    {
        if self.confirming {
            return match key.code {
                KeyCode::Enter => Outcome::Remove,
                KeyCode::Esc => {
                    self.confirming = false;
                    Outcome::Continue
                },
                KeyCode::Char(c) => {
                    if c == 'f' {
                        self.force = !self.force;
                    } else if c == 'q' {
                        self.confirming = false;
                    }
                    Outcome::Continue
                },
                _ => Outcome::Continue,
            };
        }
        match key.code {
            KeyCode::Char(c) => {
                let control = match key.modifiers {
                    KeyModifiers::Control => true,
                    KeyModifiers::Plain => false,
                };
                if c == 'c' && control {
                    Outcome::Cancel
                } else if c == 'q' {
                    Outcome::Cancel
                } else if c == 'k' {
                    self.move_up(1);
                    Outcome::Continue
                } else if c == 'j' {
                    self.move_down(1);
                    Outcome::Continue
                } else if c == ' ' {
                    self.toggle_current();
                    Outcome::Continue
                } else if c == 'a' {
                    self.select_all();
                    Outcome::Continue
                } else if c == 'x' {
                    self.selected.clear();
                    Outcome::Continue
                } else if c == 'f' {
                    self.force = !self.force;
                    Outcome::Continue
                } else {
                    Outcome::Continue
                }
            },
            KeyCode::Esc => Outcome::Cancel,
            KeyCode::Up => {
                self.move_up(1);
                Outcome::Continue
            },
            KeyCode::Down => {
                self.move_down(1);
                Outcome::Continue
            },
            KeyCode::PageUp => {
                self.move_up(10);
                Outcome::Continue
            },
            KeyCode::PageDown => {
                self.move_down(10);
                Outcome::Continue
            },
            KeyCode::Home => {
                self.cursor = 0;
                Outcome::Continue
            },
            KeyCode::End => {
                self.cursor = self.last();
                Outcome::Continue
            },
            KeyCode::Enter => {
                if !self.selected.is_empty() {
                    self.confirming = true;
                }
                Outcome::Continue
            },
            KeyCode::Other => Outcome::Continue,
        }
    }

    /// The selected paths, each once and spelled as it was first selected,
    /// in ascending order of `Path`'s `Ord` (component by component).
    pub fn selected_paths(&self) -> (paths: Vec<String>)
        ensures
            path_sorted(views(paths@)),
            keys(paths@).no_duplicates(),
            keys(paths@).to_set() == self@.selected.dom(),
            forall|i: int|
                0 <= i < paths.len() ==> self@.selected[path_parts(#[trigger] paths@[i]@)]
                    == paths@[i]@,
    {
        self.selected.to_sorted_vec()
    }

    /// What a confirmed removal hands back: the selected paths as
    /// `selected_paths` gives them, and whether removal is forced.
    pub fn selection(&self) -> (s: WorktreeSelection)
        ensures
            path_sorted(views(s.paths@)),
            keys(s.paths@).no_duplicates(),
            keys(s.paths@).to_set() == self@.selected.dom(),
            forall|i: int|
                0 <= i < s.paths.len() ==> self@.selected[path_parts(#[trigger] s.paths@[i]@)]
                    == s.paths@[i]@,
            s.force == self@.force,
    {
        WorktreeSelection { paths: self.selected_paths(), force: self.force }
    }

    /// The force toggle as the footer shows it.
    pub fn force_label(&self) -> (label: &'static str)
        ensures
            label@ == if self.force {
                "[x] 强制  "@
            } else {
                "[ ] 强制  "@
            },
    {
        if self.force {
            "[x] 强制  "
        } else {
            "[ ] 强制  "
        }
    }

    /// The force toggle as the confirmation shows it, with the note under it
    /// and the note's colour.
    pub fn force_confirmation(&self) -> (text: (&'static str, &'static str, Tone))
        ensures
            self.force ==> text.0@ == "[x] 强制删除（使用 git worktree remove --force）"@ && text.1@
                == "强制模式可删除含 submodule 的 worktree；硬保护项仍不会删除。"@ && text.2 == Tone::LightRed,
            !self.force ==> text.0@ == "[ ] 强制删除"@ && text.1@
                == "含 submodule 的 worktree 可能需要勾选强制删除。"@ && text.2 == Tone::Yellow,
    {
        if self.force {
            (
                "[x] 强制删除（使用 git worktree remove --force）",
                "强制模式可删除含 submodule 的 worktree；硬保护项仍不会删除。",
                Tone::LightRed,
            )
        } else {
            ("[ ] 强制删除", "含 submodule 的 worktree 可能需要勾选强制删除。", Tone::Yellow)
        }
    }

    /// What Enter does, as the footer says: view when nothing is selected,
    /// confirm otherwise.
    pub fn enter_label(&self) -> (label: &'static str)
        ensures
            label@ == if self@.selected == Map::<Seq<PathPart>, Seq<char>>::empty() {
                "查看"@
            } else {
                "确认"@
            },
    {
        if self.selected.is_empty() {
            "查看"
        } else {
            "确认"
        }
    }

    /// The marker in front of a worktree in the list: locked, selected or
    /// free.
    pub fn list_marker(&self, worktree: &WorktreeAudit) -> (marker: (&'static str, Tone))
        ensures
            (marker.0@, marker.1) == marker_of(self@.selected, *worktree),
    {
        if worktree.protection.is_some() {
            ("[-]", Tone::DarkGray)
        } else if self.selected.contains(worktree.path.as_str()) {
            ("[x]", Tone::Green)
        } else {
            ("[ ]", Tone::Gray)
        }
    }
}

/// The marker in front of a worktree in the list: locked, selected or free.
pub open spec fn marker_of(selected: Map<Seq<PathPart>, Seq<char>>, worktree: WorktreeAudit) -> (Seq<char>, Tone) {
    if worktree.protection is Some {
        ("[-]"@, Tone::DarkGray)
    } else if selected.dom().contains(path_parts(worktree.path@)) {
        ("[x]"@, Tone::Green)
    } else {
        ("[ ]"@, Tone::Gray)
    }
}

/// The badge of the state column in the worktree list.
pub open spec fn state_badge_of(worktree: WorktreeAudit) -> (Seq<char>, Tone) {
    match worktree.state {
        WorktreeState::Missing => ("丢失    "@, Tone::Yellow),
        WorktreeState::Dirty => ("有改动  "@, Tone::LightRed),
        WorktreeState::Clean => ("干净    "@, Tone::Green),
    }
}

/// The state badge tells the states apart: two worktrees get the same
/// badge only when their states agree, and only a worktree with local
/// changes is shown in light red. The badge has the colour of the state
/// line of the audit pane.
pub proof fn lemma_state_badge_distinct(w: WorktreeAudit, v: WorktreeAudit)
    ensures
        state_badge_of(w) == state_badge_of(v) ==> w.state == v.state,
        state_badge_of(w).1 == Tone::LightRed <==> w.state == WorktreeState::Dirty,
        state_badge_of(w).0 != state_badge_of(v).0 ==> w.state != v.state,
        state_badge_of(w).1 == state_tone_of(w),
{
    reveal_strlit("丢失    ");
    reveal_strlit("有改动  ");
    reveal_strlit("干净    ");
}

/// The badge of the state column in the worktree list.
pub fn state_badge(worktree: &WorktreeAudit) -> (badge: (&'static str, Tone))
    ensures
        (badge.0@, badge.1) == state_badge_of(*worktree),
{
    match worktree.state {
        WorktreeState::Missing => ("丢失    ", Tone::Yellow),
        WorktreeState::Dirty => ("有改动  ", Tone::LightRed),
        WorktreeState::Clean => ("干净    ", Tone::Green),
    }
}

/// The state line of the audit details.
pub open spec fn state_text_of(worktree: WorktreeAudit) -> Seq<char> {
    match worktree.state {
        WorktreeState::Missing => "目录丢失 — 将清理注册信息"@,
        WorktreeState::Dirty => "有本地改动 — 禁止删除"@,
        WorktreeState::Clean => "干净 — 可以选择"@,
    }
}

/// The state line of the audit details.
pub fn state_text(worktree: &WorktreeAudit) -> (text: &'static str)
    ensures
        text@ == state_text_of(*worktree),
{
    match worktree.state {
        WorktreeState::Missing => "目录丢失 — 将清理注册信息",
        WorktreeState::Dirty => "有本地改动 — 禁止删除",
        WorktreeState::Clean => "干净 — 可以选择",
    }
}

/// The colour of the state line.
pub open spec fn state_tone_of(worktree: WorktreeAudit) -> Tone {
    match worktree.state {
        WorktreeState::Missing => Tone::Yellow,
        WorktreeState::Dirty => Tone::LightRed,
        WorktreeState::Clean => Tone::Green,
    }
}

/// The colour of the state line.
pub fn state_color(worktree: &WorktreeAudit) -> (tone: Tone)
    ensures
        tone == state_tone_of(*worktree),
{
    match worktree.state {
        WorktreeState::Missing => Tone::Yellow,
        WorktreeState::Dirty => Tone::LightRed,
        WorktreeState::Clean => Tone::Green,
    }
}

/// The protection line of the audit details.
pub open spec fn protection_text_of(protection: Option<WorktreeProtection>) -> Seq<char> {
    match protection {
        Some(WorktreeProtection::Main) => "锁定 — main worktree"@,
        Some(WorktreeProtection::Current) => "锁定 — 当前 worktree"@,
        Some(WorktreeProtection::Dirty) => "锁定 — 存在本地改动"@,
        Some(WorktreeProtection::Locked(_)) => "锁定 — Git worktree lock"@,
        None => "无 — 可以选择"@,
    }
}

/// The protection line of the audit details.
pub fn protection_text(protection: Option<&WorktreeProtection>) -> (text: &'static str)
    ensures
        text@ == protection_text_of(
            match protection {
                Some(p) => Some(*p),
                None => None,
            },
        ),
{
    match protection {
        Some(WorktreeProtection::Main) => "锁定 — main worktree",
        Some(WorktreeProtection::Current) => "锁定 — 当前 worktree",
        Some(WorktreeProtection::Dirty) => "锁定 — 存在本地改动",
        Some(WorktreeProtection::Locked(_)) => "锁定 — Git worktree lock",
        None => "无 — 可以选择",
    }
}

/// The colour of the protection line: yellow for a protected worktree.
pub open spec fn protection_tone_of(worktree: WorktreeAudit) -> Tone {
    if worktree.protection is Some {
        Tone::Yellow
    } else {
        Tone::Green
    }
}

/// The colour of the protection line.
pub fn protection_color(worktree: &WorktreeAudit) -> (tone: Tone)
    ensures
        tone == protection_tone_of(*worktree),
{
    if worktree.protection.is_some() {
        Tone::Yellow
    } else {
        Tone::Green
    }
}

} // verus!
