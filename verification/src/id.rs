//! Names of workspaces and how their Git metadata is kept.

use vstd::prelude::*;
use vstd::string::*;

verus! {

/// The name of a workspace.
#[derive(Debug, Eq)]
pub struct RiftId {
    text: String,
}

impl View for RiftId {
    type V = Seq<char>;

    closed spec fn view(&self) -> Seq<char> {
        self.text@
    }
}

impl RiftId {
    pub fn from_stored(text: String) -> (id: RiftId)
        ensures
            id@ == text@,
    {
        RiftId { text }
    }

    pub fn as_str(&self) -> (text: &str)
        ensures
            text@ == self@,
    {
        self.text.as_str()
    }

    pub fn to_string(&self) -> (text: String)
        ensures
            text@ == self@,
    {
        self.text.clone()
    }
}

impl Clone for RiftId {
    fn clone(&self) -> (id: RiftId)
        ensures
            id@ == self@,
    {
        RiftId { text: self.text.clone() }
    }
}

impl PartialEq for RiftId {
    fn eq(&self, other: &RiftId) -> (same: bool) {
        self.text == other.text
    }
}

impl vstd::std_specs::cmp::PartialEqSpecImpl for RiftId {
    open spec fn obeys_eq_spec() -> bool {
        true
    }

    open spec fn eq_spec(&self, other: &RiftId) -> bool {
        self@ == other@
    }
}

/// Where a workspace keeps its Git metadata.
#[derive(Clone, Copy, Debug, PartialEq, Eq, Structural)]
pub enum GitStorageMode {
    /// In a `.git` directory of its own.
    Inline,
    /// In a store that all workspaces of a root share, as linked worktrees.
    SharedWorktrees,
}

impl GitStorageMode {
    pub open spec fn text(self) -> Seq<char> {
        match self {
            GitStorageMode::Inline => "inline"@,
            GitStorageMode::SharedWorktrees => "shared-worktrees"@,
        }
    }

    /// The mode that a stored text stands for. Any text but that of the shared mode stands for
    /// the inline mode, which is also the default of the column.
    pub open spec fn of_text(text: Seq<char>) -> GitStorageMode {
        if text == "shared-worktrees"@ {
            GitStorageMode::SharedWorktrees
        } else {
            GitStorageMode::Inline
        }
    }

    pub fn as_str(self) -> (text: &'static str)
        ensures
            text@ == self.text(),
    {
        match self {
            GitStorageMode::Inline => "inline",
            GitStorageMode::SharedWorktrees => "shared-worktrees",
        }
    }

    pub fn from_stored(text: String) -> (mode: GitStorageMode)
        ensures
            mode == GitStorageMode::of_text(text@),
    {
        let shared = "shared-worktrees".to_owned();
        if text == shared {
            GitStorageMode::SharedWorktrees
        } else {
            GitStorageMode::Inline
        }
    }
}

/// A mode that is stored is read back.
pub proof fn stored_mode_is_read_back(mode: GitStorageMode)
    ensures
        GitStorageMode::of_text(mode.text()) == mode,
{
    reveal_strlit("inline");
    reveal_strlit("shared-worktrees");
    assert("inline"@.len() != "shared-worktrees"@.len());
}

} // verus!
