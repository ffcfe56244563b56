//! Bookkeeping for a tree of copied workspaces and the Git metadata they share.

pub mod conversations;
pub mod copy;
pub mod dialogue;
pub mod error;
pub mod failures;
pub mod foreign;
pub mod git;
pub mod git_facts;
pub mod id;
pub mod listings;
pub mod order;
pub mod path;
pub mod path_facts;
pub mod refusals;
pub mod registry;
pub mod registry_facts;
pub mod replay;
pub mod safekeeping;
pub mod schema;
pub mod schema_facts;
pub mod store_conversations;
pub mod tables;
pub mod text;
pub mod text_facts;
pub mod worktree;
pub mod worktree_facts;
