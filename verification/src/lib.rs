//! Text utilities (in-place sorting, order-free de-duplication) and the
//! selection logic behind the interactive Git branch and worktree cleanup.
//!
//! - `sort`: trimming, sorting and de-duplicating the lines of a file.
//! - `uniq`: de-duplicating and counting lines without sorting them first.
//! - `git`: the audit records the cleanup screens show.
//! - `git_branch_cleanup_tui`, `git_worktree_cleanup_tui`: the selectors'
//!   state machines, key by key, and the lines and labels their screens draw.
//! - `layout`: where the confirmation popup goes.
//! - `path_order`, `path_set`: `Path`'s component order and a set of paths
//!   that compares them by component, as `PathBuf` does.
//! - `name_set`, `order`, `text`, `keys`: the pieces these are built from.

pub mod git;
pub mod git_branch_cleanup_tui;
pub mod git_worktree_cleanup_tui;
pub mod keys;
pub mod layout;
pub mod name_set;
pub mod order;
pub mod path_order;
pub mod path_set;
pub mod sort;
pub mod text;
pub mod uniq;

pub use sort::{check_file_size, sort_lines, SortError};
pub use uniq::{uniq_any_order, LineCounter};
