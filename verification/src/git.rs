use vstd::prelude::*;

use crate::keys::Tone;
use crate::text::{decimal, padded_decimal, push_char};

verus! {

/// How a branch's changes were found in a base branch.
#[derive(Debug, Clone, Copy, PartialEq, Eq)]
pub enum DeleteKind {
    /// The branch tip is an ancestor of the base.
    Merged,
    /// The base holds, after the merge base, a tree equal to the branch tip's.
    Equivalent,
}

/// A branch compared with one base branch.
#[derive(Debug)]
pub struct BaseAudit {
    pub name: String,
    pub absorption: Option<DeleteKind>,
    pub ahead: usize,
    pub behind: usize,
}

/// What the audit found out about one local branch.
#[derive(Debug)]
pub struct BranchAudit {
    pub name: String,
    pub short_object: String,
    pub upstream: String,
    pub tracking: String,
    pub worktree: String,
    pub protected_reason: Option<String>,
    pub author: String,
    pub committed_at: String,
    pub subject: String,
    pub diff_base: String,
    pub diffstat: String,
    pub bases: Vec<BaseAudit>,
}

/// The state of a linked worktree's directory.
#[derive(Debug, Clone, Copy, PartialEq, Eq)]
pub enum WorktreeState {
    Missing,
    Dirty,
    Clean,
}

/// Why a worktree may not be removed.
#[derive(Debug, PartialEq, Eq)]
pub enum WorktreeProtection {
    Main,
    Current,
    Dirty,
    Locked(Option<String>),
}

/// What the audit found out about one worktree.
#[derive(Debug)]
pub struct WorktreeAudit {
    pub path: String,
    pub branch: String,
    pub short_object: String,
    pub state: WorktreeState,
    pub protection: Option<WorktreeProtection>,
    pub subject: String,
    pub diff_base: String,
    pub diffstat: String,
    pub bases: Vec<BaseAudit>,
}

/// The label and colour of a base comparison's verdict.
pub open spec fn absorption_of(absorption: Option<DeleteKind>) -> (Seq<char>, Tone) {
    match absorption {
        Some(DeleteKind::Merged) => ("已合并"@, Tone::Green),
        Some(DeleteKind::Equivalent) => ("内容等价"@, Tone::LightGreen),
        None => ("无法确认"@, Tone::LightRed),
    }
}

/// The label and colour of a base comparison's verdict.
pub fn absorption_label(absorption: Option<DeleteKind>) -> (label: (&'static str, Tone))
    ensures
        (label.0@, label.1) == absorption_of(absorption),
{
    match absorption {
        Some(DeleteKind::Merged) => ("已合并", Tone::Green),
        Some(DeleteKind::Equivalent) => ("内容等价", Tone::LightGreen),
        None => ("无法确认", Tone::LightRed),
    }
}

/// How many spaces follow a label of `n` characters in the audit column:
/// labels are laid out as if each character took two columns, in a field
/// of ten.
pub open spec fn label_padding(n: nat) -> nat {
    if 2 * n >= 10 {
        0
    } else {
        (10 - 2 * n) as nat
    }
}

/// An audit label followed by the spaces that align the value after it.
pub fn audit_label(label: &str) -> (s: String)
    ensures
        s@ == label@ + Seq::new(label_padding(label@.len()), |_i: int| ' '),
{
    let n = crate::text::chars_of(label).len();
    let padding: usize = if n >= 5 {
        0
    } else {
        10 - 2 * n
    };
    let mut s = String::new();
    s.append(label);
    let mut i: usize = 0;
    while i < padding
        invariant
            i <= padding,
            padding == label_padding(label@.len()),
            s@ == label@ + Seq::new(i as nat, |_i: int| ' '),
        decreases padding - i,
    {
        push_char(&mut s, ' ');
        i = i + 1;
        assert(s@ =~= label@ + Seq::new(i as nat, |_i: int| ' '));
    }
    s
}

/// How many entries a confirmation list of `count` entries shows in a popup
/// `height` rows high of which `reserved` rows hold other text, and how many
/// are left out.
pub fn listing_limits(height: u16, reserved: u16, count: usize) -> (r: (usize, usize))
    ensures
        r.0 == if height >= reserved {
            height - reserved
        } else {
            0
        },
        r.1 == if count >= r.0 {
            count - r.0
        } else {
            0
        },
{
    let shown: usize = if height >= reserved {
        (height - reserved) as usize
    } else {
        0
    };
    let rest: usize = if count >= shown {
        count - shown
    } else {
        0
    };
    (shown, rest)
}

/// Whether the terminal is large enough for a cleanup screen (72 columns
/// by 20 rows); a smaller one shows only a request to enlarge it.
pub fn fits_screen(width: u16, height: u16) -> (fits: bool)
    ensures
        fits == (width >= 72 && height >= 20),
{
    width >= 72 && height >= 20
}

/// The list row to highlight: the cursor's row, kept on the last row, or
/// none when the list is empty.
pub fn highlighted_row(cursor: usize, rows: usize) -> (row: Option<usize>)
    ensures
        row == if rows == 0 {
            None
        } else if cursor < rows {
            Some(cursor)
        } else {
            Some((rows - 1) as usize)
        },
{
    if rows == 0 {
        None
    } else if cursor < rows {
        Some(cursor)
    } else {
        Some(rows - 1)
    }
}

/// One line of an audit pane.
pub enum AuditRow {
    /// A label padded to its column, then a value in a colour.
    Field { label: String, value: String, tone: Tone },
    /// An empty line.
    Blank,
    /// A bold heading.
    Heading(String),
    /// A line in a colour.
    Note { text: String, tone: Tone },
    /// Plain text.
    Text(String),
    /// A base comparison: the indented base name, the verdict in its colour,
    /// then how far the branch is ahead and behind.
    Base { name: String, verdict: &'static str, tone: Tone, counts: String },
}

/// An audit line as the contracts see it.
pub enum RowView {
    Field(Seq<char>, Seq<char>, Tone),
    Blank,
    Heading(Seq<char>),
    Note(Seq<char>, Tone),
    Text(Seq<char>),
    Base(Seq<char>, Seq<char>, Tone, Seq<char>),
}

/// The characters and colours of an audit line.
pub open spec fn row_view(row: AuditRow) -> RowView {
    match row {
        AuditRow::Field { label, value, tone } => RowView::Field(label@, value@, tone),
        AuditRow::Blank => RowView::Blank,
        AuditRow::Heading(t) => RowView::Heading(t@),
        AuditRow::Note { text, tone } => RowView::Note(text@, tone),
        AuditRow::Text(t) => RowView::Text(t@),
        AuditRow::Base { name, verdict, tone, counts } => RowView::Base(name@, verdict@, tone, counts@),
    }
}

/// What the audit pane shows: a notice when there is nothing to audit, or
/// the audit lines.
pub enum AuditPane {
    Empty(&'static str),
    Details(Vec<AuditRow>),
}

/// The lines of an audit pane as the contracts see them.
pub open spec fn rows_view(rows: Seq<AuditRow>) -> Seq<RowView> {
    rows.map_values(|r: AuditRow| row_view(r))
}

/// A labelled field: the label padded to its column, the value, its colour.
pub open spec fn field(label: Seq<char>, value: Seq<char>, tone: Tone) -> RowView {
    RowView::Field(label + Seq::new(label_padding(label.len()), |_i: int| ' '), value, tone)
}

/// The line of one base comparison.
pub open spec fn base_row(base: BaseAudit) -> RowView {
    RowView::Base(
        "  "@ + base.name@ + "  "@,
        absorption_of(base.absorption).0,
        absorption_of(base.absorption).1,
        "  领先 "@ + decimal(base.ahead as nat) + " / 落后 "@ + decimal(base.behind as nat),
    )
}

/// A labelled field line.
pub fn field_row(label: &str, value: &str, tone: Tone) -> (row: AuditRow)
    ensures
        row_view(row) == field(label@, value@, tone),
{
    AuditRow::Field { label: audit_label(label), value: value.to_owned(), tone }
}

/// The line of one base comparison.
pub fn base_audit_row(base: &BaseAudit) -> (row: AuditRow)
    ensures
        row_view(row) == base_row(*base),
{
    let mut name = String::new();
    name.append("  ");
    name.append(base.name.as_str());
    name.append("  ");
    let (verdict, tone) = absorption_label(base.absorption);
    let mut counts = String::new();
    counts.append("  领先 ");
    let ahead = padded_decimal(base.ahead as u64, 0);
    counts.append(ahead.as_str());
    counts.append(" / 落后 ");
    let behind = padded_decimal(base.behind as u64, 0);
    counts.append(behind.as_str());
    AuditRow::Base { name, verdict, tone, counts }
}

/// The base comparison lines of an audit, in order.
pub fn base_audit_rows(bases: &Vec<BaseAudit>) -> (rows: Vec<AuditRow>)
    ensures
        rows_view(rows@) == bases@.map_values(|b: BaseAudit| base_row(b)),
{
    let mut rows: Vec<AuditRow> = Vec::new();
    let mut i: usize = 0;
    while i < bases.len()
        invariant
            i <= bases.len(),
            rows_view(rows@) == bases@.take(i as int).map_values(|b: BaseAudit| base_row(b)),
        decreases bases.len() - i,
    {
        let row = base_audit_row(&bases[i]);
        let ghost before = rows_view(rows@);
        rows.push(row);
        assert(rows_view(rows@) =~= before.push(row_view(row)));
        assert(bases@.take(i + 1) =~= bases@.take(i as int).push(bases@[i as int]));
        assert(bases@.take(i + 1).map_values(|b: BaseAudit| base_row(b)) =~= bases@.take(
            i as int,
        ).map_values(|b: BaseAudit| base_row(b)).push(base_row(bases@[i as int])));
        i = i + 1;
    }
    assert(bases@.take(i as int) =~= bases@);
    rows
}

/// A string made of the characters of `a`, then `b`.
pub fn concat2(a: &str, b: &str) -> (s: String)
    ensures
        s@ == a@ + b@,
{
    let mut s = String::new();
    s.append(a);
    s.append(b);
    assert(s@ =~= a@ + b@);
    s
}

/// A string made of the characters of `a`, then `b`, then `c`.
pub fn concat3(a: &str, b: &str, c: &str) -> (s: String)
    ensures
        s@ == a@ + b@ + c@,
{
    let mut s = String::new();
    s.append(a);
    s.append(b);
    s.append(c);
    assert(s@ =~= a@ + b@ + c@);
    s
}

} // verus!
