# rift_core

Rift keeps many workspaces of one project: copies of copies, each with its own working tree and
Git state. This library decides; it does not touch the machine.

- `git` looks at what a workspace is copied from and makes the small changes to its Git metadata.
- `worktree` moves a repository into a store outside its working tree and back, and registers
  copies there as linked worktrees.
- `copy` copies a directory with all it holds.
- `registry` and `tables` keep track of the workspaces and of the trash; `schema` sets up the
  database that stores their rows.
- `path`, `text`, `order`, `id` and `error` are what the others are made of. Paths are byte strings
  and are read as Linux and macOS read them.

## How an operation runs

An operation that needs the outside world takes a `dialogue::Session`, puts requests to it and
returns `None` at the first one without an answer. The caller performs the last request, hands the
answer to `Session::answer` and calls the operation again. `replay` proves why that is sound: with
one answer more, an operation makes the same requests as before and carries on from there.

`app/` is such a caller for a real machine: the file system, the `git` command, libgit2 and SQLite.

## What is proved

Every function states what it returns and, through the conversation it has, what it asks for.
Beyond that:

- `path_facts`, `worktree_facts`: how paths are put together and taken apart; which paths may be
  removed; what a registration may touch.
- `git_facts`: how the marker is hidden; which repositories are accepted, and where both checks
  agree.
- `registry_facts`: what is inserted is read back; a subtree is listed with descendants first;
  moving it to the trash in that order loses no record; any list of workspaces can be removed; no
  operation leaves a workspace without its parent; what is written after an operation brings the stored rows up to date.
- `schema_facts`: bringing an older database up to date keeps every row and fills in the defaults;
  doing so again changes nothing.
- `safekeeping`: a repository is never lost while it moves, whatever fails on the way; restoring it
  undoes what initializing did.
- `copy`: a copy makes just the requests that its tree needs, and none after a failure.
- `refusals`: what an operation leaves behind that refuses its task or fails at it.

`foreign` holds what is taken from the standard library on trust: the conversions between bytes and
text, and the clock.
