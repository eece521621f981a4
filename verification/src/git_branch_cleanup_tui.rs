use vstd::prelude::*;

use crate::git::{
    base_audit_rows, base_row, concat2, concat3, field, field_row, rows_view, AuditPane, AuditRow,
    BaseAudit, BranchAudit, DeleteKind, RowView,
};
use crate::keys::{KeyCode, KeyEvent, KeyModifiers, Tone};
use crate::name_set::NameSet;
use crate::order::{distinct, sorted, views};
use crate::text::str_eq;

verus! {

/// What a key press asks of the branch selector's driver.
#[derive(Debug, Clone, Copy, PartialEq, Eq)]
pub enum Outcome {
    Continue,
    Cancel,
    Delete,
}

/// The upstream of a branch has disappeared (`git` reports `[gone]`).
pub open spec fn is_gone(branch: BranchAudit) -> bool {
    branch.tracking@ == "[gone]"@
}

/// The branch is listed under the current filter.
pub open spec fn shown(branch: BranchAudit, gone_only: bool) -> bool {
    !gone_only || is_gone(branch)
}

/// The positions of the listed branches, in order.
pub open spec fn visible_indices_of(branches: Seq<BranchAudit>, gone_only: bool) -> Seq<usize>
    decreases branches.len(),
{
    if branches.len() == 0 {
        Seq::empty()
    } else if shown(branches.last(), gone_only) {
        visible_indices_of(branches.drop_last(), gone_only).push((branches.len() - 1) as usize)
    } else {
        visible_indices_of(branches.drop_last(), gone_only)
    }
}

/// Every listed position is a branch that the filter shows.
pub proof fn lemma_visible_indices(branches: Seq<BranchAudit>, gone_only: bool)
    requires
        branches.len() <= usize::MAX,
    ensures
        forall|k: int|
            0 <= k < visible_indices_of(branches, gone_only).len() ==> {
                let i = #[trigger] visible_indices_of(branches, gone_only)[k];
                &&& i < branches.len()
                &&& shown(branches[i as int], gone_only)
            },
        visible_indices_of(branches, gone_only).len() <= branches.len(),
    decreases branches.len(),
{
    if branches.len() > 0 {
        lemma_visible_indices(branches.drop_last(), gone_only);
        let p = visible_indices_of(branches.drop_last(), gone_only);
        assert forall|k: int| 0 <= k < p.len() implies #[trigger] p[k] < branches.len() && shown(
            branches[p[k] as int],
            gone_only,
        ) by {
            assert(branches.drop_last()[p[k] as int] == branches[p[k] as int]);
        }
        let v = visible_indices_of(branches, gone_only);
        assert forall|k: int| 0 <= k < v.len() implies #[trigger] v[k] < branches.len() && shown(
            branches[v[k] as int],
            gone_only,
        ) by {
            if k < p.len() {
                assert(v[k] == p[k]);
                assert(p[k] < branches.len() && shown(branches[p[k] as int], gone_only));
            } else {
                assert(shown(branches.last(), gone_only));
                assert(v[k] == branches.len() - 1);
            }
        }
    }
}

/// The names of the branches that may be selected: those without protection.
pub open spec fn unprotected_names(branches: Seq<BranchAudit>) -> Set<Seq<char>> {
    Set::new(
        |n: Seq<char>|
            exists|i: int|
                0 <= i < branches.len() && (#[trigger] branches[i]).protected_reason is None
                    && branches[i].name@ == n,
    )
}

/// The state of the branch selector, as the laws and contracts see it.
pub struct BranchCleanupState {
    pub branches: Seq<BranchAudit>,
    pub selected: Set<Seq<char>>,
    pub cursor: nat,
    pub gone_only: bool,
    pub confirming: bool,
}

impl BranchCleanupState {
    /// The positions of the listed branches.
    pub open spec fn visible(self) -> Seq<usize> {
        visible_indices_of(self.branches, self.gone_only)
    }

    /// The last position the cursor can take (`0` when nothing is listed).
    pub open spec fn last_visible(self) -> nat {
        if self.visible().len() == 0 {
            0
        } else {
            (self.visible().len() - 1) as nat
        }
    }

    /// The branch under the cursor.
    pub open spec fn current(self) -> Option<BranchAudit> {
        if self.cursor < self.visible().len() {
            Some(self.branches[self.visible()[self.cursor as int] as int])
        } else {
            None
        }
    }

    /// The cursor moved `amount` rows down, stopping at the last row.
    pub open spec fn moved_down(self, amount: nat) -> Self {
        BranchCleanupState {
            cursor: if self.cursor + amount <= self.last_visible() {
                self.cursor + amount
            } else {
                self.last_visible()
            },
            ..self
        }
    }

    /// The cursor moved `amount` rows up, stopping at the first row.
    pub open spec fn moved_up(self, amount: nat) -> Self {
        BranchCleanupState {
            cursor: if self.cursor >= amount {
                (self.cursor - amount) as nat
            } else {
                0
            },
            ..self
        }
    }

    /// The branch under the cursor selected or unselected, unless it is
    /// protected.
    pub open spec fn toggled(self) -> Self {
        match self.current() {
            Some(branch) => if branch.protected_reason is None {
                BranchCleanupState {
                    selected: if self.selected.contains(branch.name@) {
                        self.selected.remove(branch.name@)
                    } else {
                        self.selected.insert(branch.name@)
                    },
                    ..self
                }
            } else {
                self
            },
            None => self,
        }
    }

    /// The names of the listed branches that may be selected.
    pub open spec fn selectable(self) -> Set<Seq<char>> {
        Set::new(
            |n: Seq<char>|
                exists|k: int|
                    0 <= k < self.visible().len() && (#[trigger] self.branches[self.visible()[k] as int]).protected_reason is None
                        && self.branches[self.visible()[k] as int].name@ == n,
        )
    }

    /// `a`: when every selectable listed branch is selected, all of them are
    /// unselected; otherwise all of them are selected.
    pub open spec fn visible_toggled(self) -> Self {
        BranchCleanupState {
            selected: if self.selectable().subset_of(self.selected) {
                self.selected.difference(self.selectable())
            } else {
                self.selected.union(self.selectable())
            },
            ..self
        }
    }

    /// The state after a key press, with what the driver is to do.
    pub open spec fn step(self, key: KeyEvent) -> (Self, Outcome) {
        if self.confirming {
            match key.code {
                KeyCode::Enter => (self, Outcome::Delete),
                KeyCode::Esc => (BranchCleanupState { confirming: false, ..self }, Outcome::Continue),
                KeyCode::Char(c) => if c == 'q' {
                    (BranchCleanupState { confirming: false, ..self }, Outcome::Continue)
                } else {
                    (self, Outcome::Continue)
                },
                _ => (self, Outcome::Continue),
            }
        } else {
            match key.code {
                KeyCode::Char(c) => if c == 'c' && key.modifiers == KeyModifiers::Control {
                    (self, Outcome::Cancel)
                } else if c == 'q' {
                    (self, Outcome::Cancel)
                } else if c == 'k' {
                    (self.moved_up(1), Outcome::Continue)
                } else if c == 'j' {
                    (self.moved_down(1), Outcome::Continue)
                } else if c == ' ' {
                    (self.toggled(), Outcome::Continue)
                } else if c == 'a' {
                    (self.visible_toggled(), Outcome::Continue)
                } else if c == 'x' {
                    (BranchCleanupState { selected: Set::empty(), ..self }, Outcome::Continue)
                } else if c == 'g' {
                    (
                        BranchCleanupState { gone_only: !self.gone_only, cursor: 0, ..self },
                        Outcome::Continue,
                    )
                } else {
                    (self, Outcome::Continue)
                },
                KeyCode::Esc => (self, Outcome::Cancel),
                KeyCode::Up => (self.moved_up(1), Outcome::Continue),
                KeyCode::Down => (self.moved_down(1), Outcome::Continue),
                KeyCode::PageUp => (self.moved_up(10), Outcome::Continue),
                KeyCode::PageDown => (self.moved_down(10), Outcome::Continue),
                KeyCode::Home => (BranchCleanupState { cursor: 0, ..self }, Outcome::Continue),
                KeyCode::End => (
                    BranchCleanupState { cursor: self.last_visible(), ..self },
                    Outcome::Continue,
                ),
                KeyCode::Enter => if self.selected != Set::<Seq<char>>::empty() {
                    (BranchCleanupState { confirming: true, ..self }, Outcome::Continue)
                } else {
                    (self, Outcome::Continue)
                },
                KeyCode::Other => (self, Outcome::Continue),
            }
        }
    }
}

/// The interactive branch selector: every local branch with its audit, the
/// names chosen for deletion, the cursor, the `[gone]` filter and whether
/// the final confirmation is showing.
pub struct App {
    pub branches: Vec<BranchAudit>,
    pub selected: NameSet,
    pub cursor: usize,
    pub gone_only: bool,
    pub confirming: bool,
}

impl View for App {
    type V = BranchCleanupState;

    open spec fn view(&self) -> BranchCleanupState {
        BranchCleanupState {
            branches: self.branches@,
            selected: self.selected@,
            cursor: self.cursor as nat,
            gone_only: self.gone_only,
            confirming: self.confirming,
        }
    }
}

impl App {
    /// A selector over `branches`: all of them listed, none selected, the
    /// cursor on the first row, no confirmation showing.
    pub fn new(branches: Vec<BranchAudit>) -> (app: Self)
        ensures
            app@.branches == branches@,
            app@.selected == Set::<Seq<char>>::empty(),
            app@.cursor == 0,
            !app@.gone_only,
            !app@.confirming,
    {
        App { branches, selected: NameSet::new(), cursor: 0, gone_only: false, confirming: false }
    }

    /// The positions of the branches the filter lists.
    pub fn visible_indices(&self) -> (indices: Vec<usize>)
        ensures
            indices@ == self@.visible(),
    {
        let mut indices: Vec<usize> = Vec::new();
        let mut i: usize = 0;
        while i < self.branches.len()
            invariant
                i <= self.branches.len(),
                indices@ == visible_indices_of(self.branches@.take(i as int), self.gone_only),
            decreases self.branches.len() - i,
        {
            let ghost prefix = self.branches@.take(i + 1);
            assert(prefix.drop_last() =~= self.branches@.take(i as int));
            if !self.gone_only || str_eq(self.branches[i].tracking.as_str(), "[gone]") {
                indices.push(i);
            }
            i = i + 1;
        }
        assert(self.branches@.take(i as int) =~= self.branches@);
        indices
    }

    /// The branch under the cursor.
    pub fn current(&self) -> (branch: Option<&BranchAudit>)
        ensures
            match branch {
                Some(b) => self@.current() == Some(*b),
                None => self@.current() is None,
            },
    {
        let indices = self.visible_indices();
        proof {
            assert(self.branches@.len() == self.branches.len());
            lemma_visible_indices(self.branches@, self.gone_only);
        }
        if self.cursor < indices.len() {
            Some(&self.branches[indices[self.cursor]])
        } else {
            None
        }
    }

    /// The number of listed branches less one, or zero.
    fn last_visible(&self) -> (last: usize)
        ensures
            last == self@.last_visible(),
    {
        let n = self.visible_indices().len();
        if n == 0 {
            0
        } else {
            n - 1
        }
    }

    fn move_up(&mut self, amount: usize)
        ensures
            final(self)@ == old(self)@.moved_up(amount as nat),
    {
        self.cursor = if self.cursor >= amount {
            self.cursor - amount
        } else {
            0
        };
    }

    /// Moves the cursor `amount` rows down, stopping at the last row.
    pub fn move_down(&mut self, amount: usize)
        ensures
            final(self)@ == old(self)@.moved_down(amount as nat),
    {
        let last = self.last_visible();
        self.cursor = if self.cursor <= last && amount <= last - self.cursor {
            self.cursor + amount
        } else {
            last
        };
    }

    /// Selects or unselects the branch under the cursor, unless it is
    /// protected.
    pub fn toggle_current(&mut self)
        ensures
            final(self)@ == old(self)@.toggled(),
    {
        let name = match self.current() {
            Some(branch) => if branch.protected_reason.is_none() {
                Some(branch.name.clone())
            } else {
                None
            },
            None => None,
        };
        if let Some(name) = name {
            if self.selected.contains(name.as_str()) {
                self.selected.remove(name.as_str());
            } else {
                self.selected.insert(name);
            }
        }
    }

    /// The names of the listed branches that may be selected, in list order.
    fn selectable_names(&self) -> (names: Vec<String>)
        ensures
            views(names@).to_set() == self@.selectable(),
    {
        let indices = self.visible_indices();
        proof {
            assert(self.branches@.len() == self.branches.len());
            lemma_visible_indices(self.branches@, self.gone_only);
        }
        let ghost vis = self@.visible();
        let mut names: Vec<String> = Vec::new();
        let mut k: usize = 0;
        while k < indices.len()
            invariant
                k <= indices.len(),
                indices@ == vis,
                vis == self@.visible(),
                forall|j: int| 0 <= j < vis.len() ==> #[trigger] vis[j] < self.branches.len(),
                forall|n: Seq<char>|
                    views(names@).contains(n) <==> exists|j: int|
                        0 <= j < k && (#[trigger] self.branches@[vis[j] as int]).protected_reason is None
                            && self.branches@[vis[j] as int].name@ == n,
            decreases indices.len() - k,
        {
            let branch = &self.branches[indices[k]];
            let ghost before = views(names@);
            if branch.protected_reason.is_none() {
                names.push(branch.name.clone());
                assert(views(names@) =~= before.push(branch.name@));
            }
            proof {
                let after = views(names@);
                assert forall|n: Seq<char>| after.contains(n) <==> exists|j: int|
                    0 <= j < k + 1 && (#[trigger] self.branches@[vis[j] as int]).protected_reason is None
                        && self.branches@[vis[j] as int].name@ == n by {
                    if after.contains(n) {
                        let m = choose|m: int| 0 <= m < after.len() && after[m] == n;
                        if m < before.len() {
                            assert(before[m] == n);
                            assert(before.contains(n));
                        } else {
                            assert(self.branches@[vis[k as int] as int].name@ == n);
                        }
                    }
                    if exists|j: int|
                        0 <= j < k + 1 && (#[trigger] self.branches@[vis[j] as int]).protected_reason is None
                            && self.branches@[vis[j] as int].name@ == n {
                        let j = choose|j: int|
                            0 <= j < k + 1 && (#[trigger] self.branches@[vis[j] as int]).protected_reason is None
                                && self.branches@[vis[j] as int].name@ == n;
                        if j < k {
                            assert(before.contains(n));
                            let m = choose|m: int| 0 <= m < before.len() && before[m] == n;
                            assert(after[m] == n);
                        } else {
                            assert(after[after.len() - 1] == n);
                        }
                    }
                }
            }
            k = k + 1;
        }
        assert(views(names@).to_set() =~= self@.selectable());
        names
    }

    /// `a`: unselects every selectable listed branch when all of them are
    /// selected, and selects all of them otherwise.
    pub fn select_visible(&mut self)
        ensures
            final(self)@ == old(self)@.visible_toggled(),
    {
        let names = self.selectable_names();
        let ghost sel = self.selected@;
        let ghost s = views(names@);
        let mut all = true;
        let mut k: usize = 0;
        while k < names.len()
            invariant
                k <= names.len(),
                s == views(names@),
                sel == self.selected@,
                all == forall|j: int| 0 <= j < k ==> sel.contains(#[trigger] s[j]),
            decreases names.len() - k,
        {
            let has = self.selected.contains(names[k].as_str());
            proof {
                assert(s[k as int] == names[k as int]@);
            }
            all = all && has;
            k = k + 1;
        }
        proof {
            if all {
                assert forall|n: Seq<char>| s.to_set().contains(n) implies sel.contains(n) by {
                    let j = choose|j: int| 0 <= j < s.len() && s[j] == n;
                }
            } else {
                let j = choose|j: int| 0 <= j < s.len() && !sel.contains(#[trigger] s[j]);
                assert(s.to_set().contains(s[j]));
            }
        }
        let ghost target = if all {
            sel.difference(s.to_set())
        } else {
            sel.union(s.to_set())
        };
        let mut k: usize = 0;
        while k < names.len()
            invariant
                k <= names.len(),
                s == views(names@),
                target == if all {
                    sel.difference(s.to_set())
                } else {
                    sel.union(s.to_set())
                },
                self.selected@ == if all {
                    sel.difference(s.take(k as int).to_set())
                } else {
                    sel.union(s.take(k as int).to_set())
                },
                self.branches@ == old(self).branches@,
                self.cursor == old(self).cursor,
                self.gone_only == old(self).gone_only,
                self.confirming == old(self).confirming,
            decreases names.len() - k,
        {
            let ghost before = self.selected@;
            assert(s.take(k + 1) =~= s.take(k as int).push(s[k as int]));
            proof { s.take(k as int).lemma_push_to_set_commute(s[k as int]); }
            assert(s[k as int] == names[k as int]@);
            if all {
                self.selected.remove(names[k].as_str());
            } else {
                self.selected.insert(names[k].clone());
            }
            k = k + 1;
        }
        assert(s.take(k as int) =~= s);
        assert(self.selected@ =~= target);
    }

    /// Handles a key press and says what the driver is to do; the state
    /// changes as `step` describes.
    pub fn handle_key(&mut self, key: KeyEvent) -> (outcome: Outcome)
        ensures
            (final(self)@, outcome) == old(self)@.step(key),
    {
        if self.confirming {
            return match key.code {
                KeyCode::Enter => Outcome::Delete,
                KeyCode::Esc => {
                    self.confirming = false;
                    Outcome::Continue
                },
                KeyCode::Char(c) => {
                    if c == 'q' {
                        self.confirming = false;
                    }
                    Outcome::Continue
                },
                _ => Outcome::Continue,
            };
        }
        match key.code {
            KeyCode::Char(c) => {
                let control = match key.modifiers {
                    KeyModifiers::Control => true,
                    KeyModifiers::Plain => false,
                };
                if c == 'c' && control {
                    Outcome::Cancel
                } else if c == 'q' {
                    Outcome::Cancel
                } else if c == 'k' {
                    self.move_up(1);
                    Outcome::Continue
                } else if c == 'j' {
                    self.move_down(1);
                    Outcome::Continue
                } else if c == ' ' {
                    self.toggle_current();
                    Outcome::Continue
                } else if c == 'a' {
                    self.select_visible();
                    Outcome::Continue
                } else if c == 'x' {
                    self.selected.clear();
                    Outcome::Continue
                } else if c == 'g' {
                    self.gone_only = !self.gone_only;
                    self.cursor = 0;
                    Outcome::Continue
                } else {
                    Outcome::Continue
                }
            },
            KeyCode::Esc => Outcome::Cancel,
            KeyCode::Up => {
                self.move_up(1);
                Outcome::Continue
            },
            KeyCode::Down => {
                self.move_down(1);
                Outcome::Continue
            },
            KeyCode::PageUp => {
                self.move_up(10);
                Outcome::Continue
            },
            KeyCode::PageDown => {
                self.move_down(10);
                Outcome::Continue
            },
            KeyCode::Home => {
                self.cursor = 0;
                Outcome::Continue
            },
            KeyCode::End => {
                self.cursor = self.last_visible();
                Outcome::Continue
            },
            KeyCode::Enter => {
                if !self.selected.is_empty() {
                    self.confirming = true;
                }
                Outcome::Continue
            },
            KeyCode::Other => Outcome::Continue,
        }
    }

    /// The selected names in ascending order, each once: what is deleted once
    /// the deletion is confirmed, and what the confirmation lists.
    pub fn selected_names(&self) -> (names: Vec<String>)
        ensures
            sorted(views(names@)),
            distinct(views(names@)),
            views(names@).to_set() == self@.selected,
    {
        self.selected.to_sorted_vec()
    }
}

/// A protected branch is never selected: when every selected name belongs to
/// an unprotected branch, that stays so after any key press, and the
/// branches themselves do not change.
pub proof fn lemma_step_never_selects_protected(state: BranchCleanupState, key: KeyEvent)
    requires
        state.branches.len() <= usize::MAX,
        state.selected.subset_of(unprotected_names(state.branches)),
    ensures
        state.step(key).0.branches == state.branches,
        state.step(key).0.selected.subset_of(unprotected_names(state.branches)),
{
    lemma_visible_indices(state.branches, state.gone_only);
    let vis = state.visible();
    let allowed = unprotected_names(state.branches);
    if state.cursor < vis.len() {
        let i = vis[state.cursor as int] as int;
        let branch = state.branches[i];
        assert(0 <= i < state.branches.len());
        if branch.protected_reason is None {
            assert(allowed.contains(branch.name@));
        }
    }
    assert forall|n: Seq<char>| state.selectable().contains(n) implies allowed.contains(n) by {
        let k = choose|k: int|
            0 <= k < vis.len() && (#[trigger] state.branches[vis[k] as int]).protected_reason is None
                && state.branches[vis[k] as int].name@ == n;
        assert(vis[k] < state.branches.len());
        let i = vis[k] as int;
        assert(state.branches[i].protected_reason is None && state.branches[i].name@ == n);
    }
}

/// Deleting takes a second Enter: the driver is told to delete only on Enter
/// while the confirmation shows, and only with a selection, which the
/// confirmation cannot change. The confirmation opens only on Enter with a
/// non-empty selection, and it is shown only while something is selected.
pub proof fn lemma_delete_needs_confirmation(state: BranchCleanupState, key: KeyEvent)
    requires
        state.confirming ==> state.selected != Set::<Seq<char>>::empty(),
    ensures
        state.step(key).0.confirming ==> state.step(key).0.selected != Set::<Seq<char>>::empty(),
        state.step(key).1 == Outcome::Delete ==> state.confirming && key.code == KeyCode::Enter
            && state.step(key).0 == state && state.selected != Set::<Seq<char>>::empty(),
        !state.confirming && state.step(key).0.confirming ==> key.code == KeyCode::Enter
            && state.selected != Set::<Seq<char>>::empty(),
        state.confirming ==> state.step(key).0.selected == state.selected,
{
}

/// A key that cancels leaves the state as it was.
pub proof fn lemma_cancel_changes_nothing(state: BranchCleanupState, key: KeyEvent)
    ensures
        state.step(key).1 == Outcome::Cancel ==> state.step(key).0 == state && !state.confirming,
{
}

/// The cursor stays on a listed row (or on the first row when nothing is
/// listed).
pub proof fn lemma_cursor_stays_listed(state: BranchCleanupState, key: KeyEvent)
    requires
        state.cursor <= state.last_visible(),
    ensures
        state.step(key).0.cursor <= state.step(key).0.last_visible(),
{
}

/// Space pressed twice on the same row leaves the selection as it was.
pub proof fn lemma_space_twice_restores(state: BranchCleanupState)
    requires
        !state.confirming,
    ensures
        ({
            let space = KeyEvent { code: KeyCode::Char(' '), modifiers: KeyModifiers::Plain };
            state.step(space).0.step(space).0 == state
        }),
{
    let once = state.toggled();
    match state.current() {
        Some(branch) => {
            if branch.protected_reason is None {
                assert(once.current() == state.current());
                assert(once.toggled().selected =~= state.selected);
            }
        },
        None => {},
    }
}

/// `a` outside the confirmation: when some listed unprotected branch is not
/// selected, every listed unprotected branch ends up selected and nothing
/// else is added; when all of them are selected, exactly they are
/// unselected. Nothing but the selection changes.
pub proof fn lemma_a_selects_all_unless_all_selected(state: BranchCleanupState, key: KeyEvent)
    requires
        !state.confirming,
        key.code == KeyCode::Char('a'),
    ensures
        ({
            let after = state.step(key).0;
            let listed = state.visible();
            &&& state.step(key).1 == Outcome::Continue
            &&& after == (BranchCleanupState { selected: after.selected, ..state })
            &&& (exists|k: int|
                0 <= k < listed.len() && (#[trigger] state.branches[listed[k] as int]).protected_reason is None
                    && !state.selected.contains(state.branches[listed[k] as int].name@)) ==> {
                &&& forall|k: int|
                    0 <= k < listed.len() && (#[trigger] state.branches[listed[k] as int]).protected_reason is None
                        ==> after.selected.contains(state.branches[listed[k] as int].name@)
                &&& after.selected == state.selected.union(state.selectable())
            }
            &&& (forall|k: int|
                0 <= k < listed.len() && (#[trigger] state.branches[listed[k] as int]).protected_reason is None
                    ==> state.selected.contains(state.branches[listed[k] as int].name@)) ==> {
                &&& forall|k: int|
                    0 <= k < listed.len() && (#[trigger] state.branches[listed[k] as int]).protected_reason is None
                        ==> !after.selected.contains(state.branches[listed[k] as int].name@)
                &&& after.selected == state.selected.difference(state.selectable())
            }
        }),
{
    let listed = state.visible();
    let sel = state.selectable();
    if exists|k: int|
        0 <= k < listed.len() && (#[trigger] state.branches[listed[k] as int]).protected_reason is None
            && !state.selected.contains(state.branches[listed[k] as int].name@) {
        let k = choose|k: int|
            0 <= k < listed.len() && (#[trigger] state.branches[listed[k] as int]).protected_reason is None
                && !state.selected.contains(state.branches[listed[k] as int].name@);
        assert(sel.contains(state.branches[listed[k] as int].name@));
        assert(!sel.subset_of(state.selected));
        assert forall|j: int|
            0 <= j < listed.len() && (#[trigger] state.branches[listed[j] as int]).protected_reason is None
                implies state.step(key).0.selected.contains(state.branches[listed[j] as int].name@) by {
            assert(sel.contains(state.branches[listed[j] as int].name@));
        }
    }
    if forall|k: int|
        0 <= k < listed.len() && (#[trigger] state.branches[listed[k] as int]).protected_reason is None
            ==> state.selected.contains(state.branches[listed[k] as int].name@) {
        assert forall|n: Seq<char>| sel.contains(n) implies state.selected.contains(n) by {
            let k = choose|k: int|
                0 <= k < listed.len() && (#[trigger] state.branches[listed[k] as int]).protected_reason is None
                    && state.branches[listed[k] as int].name@ == n;
        }
        assert forall|j: int|
            0 <= j < listed.len() && (#[trigger] state.branches[listed[j] as int]).protected_reason is None
                implies !state.step(key).0.selected.contains(state.branches[listed[j] as int].name@) by {
            assert(sel.contains(state.branches[listed[j] as int].name@));
        }
    }
}

/// `x` outside the confirmation empties the selection and changes nothing
/// else, so a following Enter does not open the confirmation.
pub proof fn lemma_x_clears_selection(state: BranchCleanupState, key: KeyEvent)
    requires
        !state.confirming,
        key.code == KeyCode::Char('x'),
    ensures
        state.step(key).0 == (BranchCleanupState { selected: Set::empty(), ..state }),
        state.step(key).1 == Outcome::Continue,
        ({
            let enter = KeyEvent { code: KeyCode::Enter, modifiers: KeyModifiers::Plain };
            !state.step(key).0.step(enter).0.confirming
        }),
{
}

/// The audit verdict goes by the base comparisons, whatever their order: a
/// protected branch is locked; otherwise it is merged as soon as any base
/// has it merged, equivalent when no base has it merged but some base holds
/// its content, and to be reviewed when no base has absorbed it.
pub proof fn lemma_audit_badge_by_bases(branch: BranchAudit)
    ensures
        branch.protected_reason is Some ==> audit_badge_of(branch) == ("锁定    "@, Tone::DarkGray),
        branch.protected_reason is None && (exists|i: int|
            0 <= i < branch.bases@.len() && (#[trigger] branch.bases@[i]).absorption == Some(DeleteKind::Merged))
            ==> audit_badge_of(branch) == ("已合并  "@, Tone::Green),
        branch.protected_reason is None && (forall|i: int|
            0 <= i < branch.bases@.len() ==> (#[trigger] branch.bases@[i]).absorption != Some(DeleteKind::Merged))
            && (exists|i: int|
            0 <= i < branch.bases@.len() && (#[trigger] branch.bases@[i]).absorption == Some(DeleteKind::Equivalent))
            ==> audit_badge_of(branch) == ("等价    "@, Tone::LightGreen),
        branch.protected_reason is None && (forall|i: int|
            0 <= i < branch.bases@.len() ==> (#[trigger] branch.bases@[i]).absorption is None)
            ==> audit_badge_of(branch) == ("待复核  "@, Tone::LightRed),
{
    if branch.protected_reason is None && (forall|i: int|
        0 <= i < branch.bases@.len() ==> (#[trigger] branch.bases@[i]).absorption is None) {
        assert(!has_absorption(branch, DeleteKind::Merged));
        assert(!has_absorption(branch, DeleteKind::Equivalent));
    }
}

/// Rearranging the base comparisons does not change the audit badge.
pub proof fn lemma_audit_badge_order_free(a: BranchAudit, b: BranchAudit)
    requires
        a.protected_reason == b.protected_reason,
        a.bases@.to_multiset() == b.bases@.to_multiset(),
    ensures
        audit_badge_of(a) == audit_badge_of(b),
{
    a.bases@.to_multiset_ensures();
    b.bases@.to_multiset_ensures();
    assert forall|kind: DeleteKind| has_absorption(a, kind) implies has_absorption(b, kind) by {
        {
            let i = choose|i: int| 0 <= i < a.bases@.len() && (#[trigger] a.bases@[i]).absorption == Some(kind);
            assert(a.bases@.contains(a.bases@[i]));
            assert(a.bases@.to_multiset().count(a.bases@[i]) > 0);
            assert(b.bases@.to_multiset().count(a.bases@[i]) > 0);
            assert(b.bases@.contains(a.bases@[i]));
            let j = choose|j: int| 0 <= j < b.bases@.len() && b.bases@[j] == a.bases@[i];
            assert(b.bases@[j].absorption == Some(kind));
        }
    }
    assert forall|kind: DeleteKind| has_absorption(b, kind) implies has_absorption(a, kind) by {
        {
            let i = choose|i: int| 0 <= i < b.bases@.len() && (#[trigger] b.bases@[i]).absorption == Some(kind);
            assert(b.bases@.contains(b.bases@[i]));
            assert(b.bases@.to_multiset().count(b.bases@[i]) > 0);
            assert(a.bases@.to_multiset().count(b.bases@[i]) > 0);
            assert(a.bases@.contains(b.bases@[i]));
            let j = choose|j: int| 0 <= j < a.bases@.len() && a.bases@[j] == b.bases@[i];
            assert(a.bases@[j].absorption == Some(kind));
        }
    }
    assert(has_absorption(a, DeleteKind::Merged) == has_absorption(b, DeleteKind::Merged));
    assert(has_absorption(a, DeleteKind::Equivalent) == has_absorption(b, DeleteKind::Equivalent));
}

/// The marker in front of a branch in the list: locked, selected or free.
pub open spec fn marker_of(selected: Set<Seq<char>>, branch: BranchAudit) -> (Seq<char>, Tone) {
    if branch.protected_reason is Some {
        ("[-]"@, Tone::DarkGray)
    } else if selected.contains(branch.name@) {
        ("[x]"@, Tone::Green)
    } else {
        ("[ ]"@, Tone::Gray)
    }
}

/// How a branch's upstream stands.
#[derive(Debug, Clone, Copy, PartialEq, Eq)]
pub enum UpstreamStatus {
    /// The remote-tracking branch no longer exists.
    Gone,
    /// No upstream is configured.
    Unset,
    /// The remote-tracking branch exists.
    Normal,
}

/// The upstream status of a branch.
pub open spec fn upstream_status_of(branch: BranchAudit) -> UpstreamStatus {
    if is_gone(branch) {
        UpstreamStatus::Gone
    } else if branch.upstream@.len() == 0 {
        UpstreamStatus::Unset
    } else {
        UpstreamStatus::Normal
    }
}

/// The upstream status of a branch.
pub fn upstream_status(branch: &BranchAudit) -> (status: UpstreamStatus)
    ensures
        status == upstream_status_of(*branch),
{
    if str_eq(branch.tracking.as_str(), "[gone]") {
        UpstreamStatus::Gone
    } else if branch.upstream.as_str().is_empty() {
        UpstreamStatus::Unset
    } else {
        UpstreamStatus::Normal
    }
}

/// The badge of the tracking column in the branch list.
pub open spec fn upstream_badge_of(branch: BranchAudit) -> (Seq<char>, Tone) {
    match upstream_status_of(branch) {
        UpstreamStatus::Gone => ("丢失  "@, Tone::LightRed),
        UpstreamStatus::Unset => ("未设  "@, Tone::Yellow),
        UpstreamStatus::Normal => ("正常  "@, Tone::Cyan),
    }
}

/// The badge of the tracking column in the branch list.
pub fn upstream_badge(branch: &BranchAudit) -> (badge: (&'static str, Tone))
    ensures
        (badge.0@, badge.1) == upstream_badge_of(*branch),
{
    match upstream_status(branch) {
        UpstreamStatus::Gone => ("丢失  ", Tone::LightRed),
        UpstreamStatus::Unset => ("未设  ", Tone::Yellow),
        UpstreamStatus::Normal => ("正常  ", Tone::Cyan),
    }
}

/// The colour of the upstream in the audit details.
pub open spec fn upstream_tone_of(branch: BranchAudit) -> Tone {
    match upstream_status_of(branch) {
        UpstreamStatus::Gone => Tone::LightRed,
        UpstreamStatus::Unset => Tone::Yellow,
        UpstreamStatus::Normal => Tone::Cyan,
    }
}

/// The colour of the upstream in the audit details.
pub fn upstream_color(branch: &BranchAudit) -> (tone: Tone)
    ensures
        tone == upstream_tone_of(*branch),
{
    match upstream_status(branch) {
        UpstreamStatus::Gone => Tone::LightRed,
        UpstreamStatus::Unset => Tone::Yellow,
        UpstreamStatus::Normal => Tone::Cyan,
    }
}

/// The tracking line of the audit details and its colour.
pub open spec fn tracking_of(branch: BranchAudit) -> (Seq<char>, Tone) {
    match upstream_status_of(branch) {
        UpstreamStatus::Gone => ("丢失 — 远端跟踪分支已不存在"@, Tone::LightRed),
        UpstreamStatus::Unset => ("未设置 — 没有配置 upstream"@, Tone::Yellow),
        UpstreamStatus::Normal => ("正常 — 远端跟踪分支存在"@, Tone::Cyan),
    }
}

/// The tracking line of the audit details.
pub fn tracking_text(branch: &BranchAudit) -> (text: (&'static str, Tone))
    ensures
        (text.0@, text.1) == tracking_of(*branch),
{
    match upstream_status(branch) {
        UpstreamStatus::Gone => ("丢失 — 远端跟踪分支已不存在", Tone::LightRed),
        UpstreamStatus::Unset => ("未设置 — 没有配置 upstream", Tone::Yellow),
        UpstreamStatus::Normal => ("正常 — 远端跟踪分支存在", Tone::Cyan),
    }
}

/// The upstream as the audit details show it: its name, or "未设置" when
/// there is none.
pub open spec fn upstream_text_of(branch: BranchAudit) -> Seq<char> {
    if branch.upstream@.len() == 0 {
        "未设置"@
    } else {
        branch.upstream@
    }
}

/// The upstream as the audit details show it.
pub fn upstream_text(branch: &BranchAudit) -> (text: &str)
    ensures
        text@ == upstream_text_of(*branch),
{
    if branch.upstream.as_str().is_empty() {
        "未设置"
    } else {
        branch.upstream.as_str()
    }
}

/// What the audit concluded about a branch.
#[derive(Debug, Clone, Copy, PartialEq, Eq)]
pub enum AuditVerdict {
    /// The branch is protected and cannot be selected.
    Locked,
    /// Its tip is an ancestor of some base.
    Merged,
    /// Some base holds a tree equal to its tip.
    Equivalent,
    /// Nothing shows that its changes were absorbed.
    Unconfirmed,
}

/// Some base comparison of the branch has the verdict `kind`.
pub open spec fn has_absorption(branch: BranchAudit, kind: DeleteKind) -> bool {
    exists|i: int| 0 <= i < branch.bases@.len() && (#[trigger] branch.bases@[i]).absorption == Some(kind)
}

/// The audit verdict. A protected branch is locked; otherwise a branch
/// merged in some base is merged, and failing that, one equal in content to
/// some base is equivalent.
pub open spec fn audit_verdict_of(branch: BranchAudit) -> AuditVerdict {
    if branch.protected_reason is Some {
        AuditVerdict::Locked
    } else if has_absorption(branch, DeleteKind::Merged) {
        AuditVerdict::Merged
    } else if has_absorption(branch, DeleteKind::Equivalent) {
        AuditVerdict::Equivalent
    } else {
        AuditVerdict::Unconfirmed
    }
}

/// Whether some base comparison of the branch has the verdict `kind`.
fn any_absorption(branch: &BranchAudit, kind: DeleteKind) -> (found: bool)
    ensures
        found == has_absorption(*branch, kind),
{
    let mut i: usize = 0;
    while i < branch.bases.len()
        invariant
            i <= branch.bases.len(),
            forall|k: int| 0 <= k < i ==> (#[trigger] branch.bases@[k]).absorption != Some(kind),
        decreases branch.bases.len() - i,
    {
        let same = match (branch.bases[i].absorption, kind) {
            (Some(DeleteKind::Merged), DeleteKind::Merged) => true,
            (Some(DeleteKind::Equivalent), DeleteKind::Equivalent) => true,
            _ => false,
        };
        if same {
            assert(branch.bases@[i as int].absorption == Some(kind));
            return true;
        }
        i = i + 1;
    }
    false
}

/// The audit verdict of a branch.
pub fn audit_verdict(branch: &BranchAudit) -> (verdict: AuditVerdict)
    ensures
        verdict == audit_verdict_of(*branch),
{
    if branch.protected_reason.is_some() {
        AuditVerdict::Locked
    } else if any_absorption(branch, DeleteKind::Merged) {
        AuditVerdict::Merged
    } else if any_absorption(branch, DeleteKind::Equivalent) {
        AuditVerdict::Equivalent
    } else {
        AuditVerdict::Unconfirmed
    }
}

/// The badge of the audit column in the branch list.
pub open spec fn audit_badge_of(branch: BranchAudit) -> (Seq<char>, Tone) {
    match audit_verdict_of(branch) {
        AuditVerdict::Locked => ("锁定    "@, Tone::DarkGray),
        AuditVerdict::Merged => ("已合并  "@, Tone::Green),
        AuditVerdict::Equivalent => ("等价    "@, Tone::LightGreen),
        AuditVerdict::Unconfirmed => ("待复核  "@, Tone::LightRed),
    }
}

/// The badge of the audit column in the branch list.
pub fn audit_badge(branch: &BranchAudit) -> (badge: (&'static str, Tone))
    ensures
        (badge.0@, badge.1) == audit_badge_of(*branch),
{
    match audit_verdict(branch) {
        AuditVerdict::Locked => ("锁定    ", Tone::DarkGray),
        AuditVerdict::Merged => ("已合并  ", Tone::Green),
        AuditVerdict::Equivalent => ("等价    ", Tone::LightGreen),
        AuditVerdict::Unconfirmed => ("待复核  ", Tone::LightRed),
    }
}

/// The protection line of the audit details for a protection reason.
pub open spec fn protection_label(reason: Option<Seq<char>>) -> Seq<char> {
    match reason {
        Some(r) => if r == "base branch"@ {
            "锁定 — 基准分支"@
        } else if r == "checked out in a worktree"@ {
            "锁定 — 正在工作树中使用"@
        } else if r == "excluded by rule"@ {
            "锁定 — 匹配排除规则"@
        } else {
            "锁定 — 受保护分支"@
        },
        None => "无 — 可以选择"@,
    }
}

/// The protection line of the audit details.
pub fn protection_text(reason: Option<&str>) -> (text: &'static str)
    ensures
        text@ == protection_label(
            match reason {
                Some(r) => Some(r@),
                None => None,
            },
        ),
{
    match reason {
        Some(r) => if str_eq(r, "base branch") {
            "锁定 — 基准分支"
        } else if str_eq(r, "checked out in a worktree") {
            "锁定 — 正在工作树中使用"
        } else if str_eq(r, "excluded by rule") {
            "锁定 — 匹配排除规则"
        } else {
            "锁定 — 受保护分支"
        },
        None => "无 — 可以选择",
    }
}

/// The colour of the protection line: yellow for a protected branch.
pub open spec fn protection_tone_of(branch: BranchAudit) -> Tone {
    if branch.protected_reason is Some {
        Tone::Yellow
    } else {
        Tone::Green
    }
}

/// The protection reason of a branch, as characters.
pub open spec fn reason_of(branch: BranchAudit) -> Option<Seq<char>> {
    match branch.protected_reason {
        Some(r) => Some(r@),
        None => None,
    }
}

/// The colour of the protection line.
pub fn protection_color(branch: &BranchAudit) -> (tone: Tone)
    ensures
        tone == protection_tone_of(*branch),
{
    if branch.protected_reason.is_some() {
        Tone::Yellow
    } else {
        Tone::Green
    }
}

/// One row of the branch list: the marker, the tracking badge, the audit
/// badge, each with its colour, and the branch name.
pub struct BranchRow {
    pub marker: &'static str,
    pub marker_tone: Tone,
    pub upstream: &'static str,
    pub upstream_tone: Tone,
    pub audit: &'static str,
    pub audit_tone: Tone,
    pub name: String,
}

/// The row shows `branch` with the marker that the selection gives it.
pub open spec fn branch_row_shows(row: BranchRow, selected: Set<Seq<char>>, branch: BranchAudit) -> bool {
    &&& (row.marker@, row.marker_tone) == marker_of(selected, branch)
    &&& (row.upstream@, row.upstream_tone) == upstream_badge_of(branch)
    &&& (row.audit@, row.audit_tone) == audit_badge_of(branch)
    &&& row.name@ == branch.name@
}

/// The notice of the audit pane when no branch is listed.
pub open spec fn no_branch_notice() -> Seq<char> {
    "没有符合当前筛选条件的分支\n按 g 显示全部本地分支"@
}

/// The lines of a branch's audit, in order, on a pane `height` rows high:
/// the fields, the base comparisons (or a note that no base was found), the
/// diff against the diff base, the worktree when the branch is checked out
/// in one, and on a tall pane a reminder of what "待复核" means.
pub open spec fn branch_audit_rows(branch: BranchAudit, height: u16) -> Seq<RowView> {
    seq![
        field("分支"@, branch.name@, Tone::White),
        field("提交"@, branch.short_object@, Tone::Magenta),
        field("上游"@, upstream_text_of(branch), upstream_tone_of(branch)),
        field("跟踪"@, tracking_of(branch).0, tracking_of(branch).1),
        field("保护"@, protection_label(reason_of(branch)), protection_tone_of(branch)),
        field("作者"@, branch.author@, Tone::White),
        field("提交时间"@, branch.committed_at@, Tone::White),
        field("主题"@, branch.subject@, Tone::White),
        RowView::Blank,
        RowView::Heading("基准分支对比"@),
    ] + (if branch.bases@.len() == 0 {
        seq![RowView::Note("  未检测到远端默认基准分支"@, Tone::Yellow)]
    } else {
        branch.bases@.map_values(|b: BaseAudit| base_row(b))
    }) + seq![
        RowView::Heading("相对 "@ + branch.diff_base@ + " 的差异"@),
        RowView::Text("  "@ + branch.diffstat@),
    ] + (if branch.worktree@.len() > 0 {
        seq![field("工作树"@, branch.worktree@, Tone::Yellow)]
    } else {
        Seq::empty()
    }) + (if height >= 24 {
        seq![
            RowView::Blank,
            RowView::Note("“待复核”表示 dcx 无法确认改动已被吸收，请检查后再选择。"@, Tone::LightRed),
        ]
    } else {
        Seq::empty()
    })
}

impl App {
    /// The rows of the branch list: one per listed branch, in list order.
    pub fn list_rows(&self) -> (rows: Vec<BranchRow>)
        ensures
            rows.len() == self@.visible().len(),
            forall|k: int|
                0 <= k < rows.len() ==> branch_row_shows(
                    #[trigger] rows@[k],
                    self@.selected,
                    self.branches@[self@.visible()[k] as int],
                ),
    {
        let indices = self.visible_indices();
        proof {
            assert(self.branches@.len() == self.branches.len());
            lemma_visible_indices(self.branches@, self.gone_only);
        }
        let mut rows: Vec<BranchRow> = Vec::new();
        let mut k: usize = 0;
        while k < indices.len()
            invariant
                k <= indices.len(),
                indices@ == self@.visible(),
                forall|j: int| 0 <= j < indices.len() ==> #[trigger] indices@[j] < self.branches.len(),
                rows.len() == k,
                forall|j: int|
                    0 <= j < k ==> branch_row_shows(
                        #[trigger] rows@[j],
                        self@.selected,
                        self.branches@[indices@[j] as int],
                    ),
            decreases indices.len() - k,
        {
            let branch = &self.branches[indices[k]];
            let (marker, marker_tone) = self.list_marker(branch);
            let (upstream, upstream_tone) = upstream_badge(branch);
            let (audit, audit_tone) = audit_badge(branch);
            rows.push(
                BranchRow {
                    marker,
                    marker_tone,
                    upstream,
                    upstream_tone,
                    audit,
                    audit_tone,
                    name: branch.name.clone(),
                },
            );
            k = k + 1;
        }
        rows
    }

    /// What the audit pane shows on a pane `height` rows high: the audit of
    /// the branch under the cursor, or a notice when no branch is listed.
    pub fn audit_pane(&self, height: u16) -> (pane: AuditPane)
        ensures
            match self@.current() {
                None => pane matches AuditPane::Empty(text) && text@ == no_branch_notice(),
                Some(branch) => pane matches AuditPane::Details(rows) && rows_view(rows@)
                    == branch_audit_rows(branch, height),
            },
    {
        let branch = match self.current() {
            None => {
                return AuditPane::Empty("没有符合当前筛选条件的分支\n按 g 显示全部本地分支");
            },
            Some(branch) => branch,
        };
        let (tracking, tracking_tone) = tracking_text(branch);
        let mut rows: Vec<AuditRow> = Vec::new();
        rows.push(field_row("分支", branch.name.as_str(), Tone::White));
        rows.push(field_row("提交", branch.short_object.as_str(), Tone::Magenta));
        rows.push(field_row("上游", upstream_text(branch), upstream_color(branch)));
        rows.push(field_row("跟踪", tracking, tracking_tone));
        let reason = match &branch.protected_reason {
            Some(r) => Some(r.as_str()),
            None => None,
        };
        rows.push(field_row("保护", protection_text(reason), protection_color(branch)));
        rows.push(field_row("作者", branch.author.as_str(), Tone::White));
        rows.push(field_row("提交时间", branch.committed_at.as_str(), Tone::White));
        rows.push(field_row("主题", branch.subject.as_str(), Tone::White));
        rows.push(AuditRow::Blank);
        rows.push(AuditRow::Heading("基准分支对比".to_owned()));
        let ghost head = rows_view(rows@);
        let ghost spec_rows = branch_audit_rows(*branch, height);
        assert(head =~= spec_rows.take(10));
        if branch.bases.len() == 0 {
            rows.push(AuditRow::Note { text: "  未检测到远端默认基准分支".to_owned(), tone: Tone::Yellow });
            assert(rows_view(rows@) =~= head.push(RowView::Note("  未检测到远端默认基准分支"@, Tone::Yellow)));
        } else {
            let mut bases = base_audit_rows(&branch.bases);
            let ghost before = rows@;
            let ghost added = bases@;
            rows.append(&mut bases);
            assert(rows_view(rows@) =~= rows_view(before) + rows_view(added));
        }
        let ghost with_bases = rows_view(rows@);
        let ghost base_part = if branch.bases@.len() == 0 {
            seq![RowView::Note("  未检测到远端默认基准分支"@, Tone::Yellow)]
        } else {
            branch.bases@.map_values(|b: BaseAudit| base_row(b))
        };
        assert(with_bases =~= head + base_part);
        rows.push(AuditRow::Heading(concat3("相对 ", branch.diff_base.as_str(), " 的差异")));
        rows.push(AuditRow::Text(concat2("  ", branch.diffstat.as_str())));
        let ghost diff_part = seq![
            RowView::Heading("相对 "@ + branch.diff_base@ + " 的差异"@),
            RowView::Text("  "@ + branch.diffstat@),
        ];
        assert(rows_view(rows@) =~= with_bases + diff_part);
        let ghost with_diff = rows_view(rows@);
        if !branch.worktree.as_str().is_empty() {
            rows.push(field_row("工作树", branch.worktree.as_str(), Tone::Yellow));
            assert(rows_view(rows@) =~= with_diff.push(field("工作树"@, branch.worktree@, Tone::Yellow)));
        }
        let ghost worktree_part = if branch.worktree@.len() > 0 {
            seq![field("工作树"@, branch.worktree@, Tone::Yellow)]
        } else {
            Seq::<RowView>::empty()
        };
        assert(rows_view(rows@) =~= with_diff + worktree_part);
        let ghost with_worktree = rows_view(rows@);
        if height >= 24 {
            rows.push(AuditRow::Blank);
            rows.push(
                AuditRow::Note {
                    text: "“待复核”表示 dcx 无法确认改动已被吸收，请检查后再选择。".to_owned(),
                    tone: Tone::LightRed,
                },
            );
        }
        let ghost hint_part = if height >= 24 {
            seq![
                RowView::Blank,
                RowView::Note("“待复核”表示 dcx 无法确认改动已被吸收，请检查后再选择。"@, Tone::LightRed),
            ]
        } else {
            Seq::<RowView>::empty()
        };
        assert(rows_view(rows@) =~= with_worktree + hint_part);
        assert(spec_rows =~= head + base_part + diff_part + worktree_part + hint_part);
        AuditPane::Details(rows)
    }

    /// The marker in front of a branch in the list: locked, selected or
    /// free.
    pub fn list_marker(&self, branch: &BranchAudit) -> (marker: (&'static str, Tone))
        ensures
            (marker.0@, marker.1) == marker_of(self@.selected, *branch),
    {
        if branch.protected_reason.is_some() {
            ("[-]", Tone::DarkGray)
        } else if self.selected.contains(branch.name.as_str()) {
            ("[x]", Tone::Green)
        } else {
            ("[ ]", Tone::Gray)
        }
    }

    /// The filter named in the header.
    pub fn filter_label(&self) -> (label: &'static str)
        ensures
            label@ == if self.gone_only {
                "仅跟踪分支已丢失"@
            } else {
                "全部本地分支"@
            },
    {
        if self.gone_only {
            "仅跟踪分支已丢失"
        } else {
            "全部本地分支"
        }
    }

    /// What Enter does, as the footer says: view when nothing is selected,
    /// confirm otherwise.
    pub fn enter_label(&self) -> (label: &'static str)
        ensures
            label@ == if self@.selected == Set::<Seq<char>>::empty() {
                "查看"@
            } else {
                "确认"@
            },
    {
        if self.selected.is_empty() {
            "查看"
        } else {
            "确认"
        }
    }
}

} // verus!
