//! Which entries of a commit's changes (or of a whole tree) the hooks see,
//! and as what kind of item.

use vstd::prelude::*;

use super::item::Item;
use crate::text::{extend_str, from_chars, to_chars};

verus! {

/// What a change did to an entry (the status of a diff delta).
#[derive(Debug, Clone, Copy, PartialEq, Eq, Structural)]
pub enum ChangeStatus {
    Unmodified,
    Added,
    Deleted,
    Modified,
    Renamed,
    Copied,
    Ignored,
    Untracked,
    Typechange,
    Unreadable,
    Conflicted,
}

/// The mode of a changed entry.
#[derive(Debug, Clone, Copy, PartialEq, Eq, Structural)]
pub enum EntryMode {
    Unreadable,
    Tree,
    Blob,
    BlobGroupWritable,
    BlobExecutable,
    Link,
    Commit,
}

/// The kind of object an entry of a tree points at.
#[derive(Debug, Clone, Copy, PartialEq, Eq, Structural)]
pub enum ObjectKind {
    Any,
    Commit,
    Tree,
    Blob,
    Tag,
}

/// The item a changed entry of mode `mode` at `path` is.
pub open spec fn mode_item(mode: EntryMode, path: String) -> Item {
    match mode {
        EntryMode::Unreadable => Item::Unknown(path),
        EntryMode::Blob | EntryMode::BlobGroupWritable | EntryMode::BlobExecutable => Item::File(
            path,
        ),
        EntryMode::Tree => Item::Dir(path),
        EntryMode::Link => Item::Link(path),
        EntryMode::Commit => Item::Commit(path),
    }
}

/// The item a tree entry of kind `kind` at `path` is; a tag counts as a
/// commit.
pub open spec fn object_item(kind: ObjectKind, path: String) -> Item {
    match kind {
        ObjectKind::Blob => Item::File(path),
        ObjectKind::Commit => Item::Commit(path),
        ObjectKind::Tree => Item::Dir(path),
        ObjectKind::Tag => Item::Commit(path),
        ObjectKind::Any => Item::Unknown(path),
    }
}

/// `r` is the item of kind `kind` at `path`.
pub open spec fn is_object_item(r: Item, kind: ObjectKind, path: Seq<char>) -> bool {
    match kind {
        ObjectKind::Blob => r matches Item::File(p) && p@ == path,
        ObjectKind::Commit | ObjectKind::Tag => r matches Item::Commit(p) && p@ == path,
        ObjectKind::Tree => r matches Item::Dir(p) && p@ == path,
        ObjectKind::Any => r matches Item::Unknown(p) && p@ == path,
    }
}

/// Whether a change with this status is one the hooks see: an added or
/// modified entry.
pub open spec fn is_seen(status: ChangeStatus) -> bool {
    status == ChangeStatus::Added || status == ChangeStatus::Modified
}

/// The items of the changes the hooks see, in order.
pub open spec fn seen_items(changes: Seq<(ChangeStatus, EntryMode, String)>) -> Seq<Item>
    decreases changes.len(),
{
    if changes.len() == 0 {
        seq![]
    } else {
        let rest = seen_items(changes.drop_last());
        let (status, mode, path) = changes.last();
        if is_seen(status) {
            rest.push(mode_item(mode, path))
        } else {
            rest
        }
    }
}

/// `name` joined onto `dir` as a path: an absolute `name` replaces `dir`;
/// otherwise a `/` separates them unless `dir` is empty or already ends in
/// one.
pub open spec fn joined(dir: Seq<char>, name: Seq<char>) -> Seq<char> {
    if name.len() > 0 && name[0] == '/' {
        name
    } else if dir.len() == 0 || dir.last() == '/' {
        dir + name
    } else {
        dir + seq!['/'] + name
    }
}

/// The item a changed entry of mode `mode` at `path` is.
pub fn item_for_mode(mode: EntryMode, path: String) -> (r: Item)
    ensures
        r == mode_item(mode, path),
{
    match mode {
        EntryMode::Unreadable => Item::Unknown(path),
        EntryMode::Blob | EntryMode::BlobGroupWritable | EntryMode::BlobExecutable => Item::File(
            path,
        ),
        EntryMode::Tree => Item::Dir(path),
        EntryMode::Link => Item::Link(path),
        EntryMode::Commit => Item::Commit(path),
    }
}

/// The item a tree entry of kind `kind` at `path` is.
pub fn item_for_object(kind: ObjectKind, path: String) -> (r: Item)
    ensures
        r == object_item(kind, path),
{
    match kind {
        ObjectKind::Blob => Item::File(path),
        ObjectKind::Commit => Item::Commit(path),
        ObjectKind::Tree => Item::Dir(path),
        ObjectKind::Tag => Item::Commit(path),
        ObjectKind::Any => Item::Unknown(path),
    }
}

/// The item for one change, where the hooks see it: deleted entries and
/// anything but additions and modifications are left out.
pub fn changed_item(status: ChangeStatus, mode: EntryMode, path: String) -> (r: Option<Item>)
    ensures
        is_seen(status) ==> r == Some(mode_item(mode, path)),
        !is_seen(status) ==> r is None,
{
    match status {
        ChangeStatus::Deleted => None,
        ChangeStatus::Added | ChangeStatus::Modified => Some(item_for_mode(mode, path)),
        _ => None,
    }
}

/// The items of the changes the hooks see, in order.
pub fn changed_items(changes: Vec<(ChangeStatus, EntryMode, String)>) -> (r: Vec<Item>)
    ensures
        r@ == seen_items(changes@),
{
    let ghost all = changes@;
    assert(all.len() == changes.len());
    let mut rest = changes;
    let mut out: Vec<Item> = Vec::new();
    let mut i: usize = 0;
    assert(rest@ =~= all.skip(0));
    while rest.len() > 0
        invariant
            i <= all.len(),
            all.len() <= usize::MAX,
            rest@ == all.skip(i as int),
            out@ == seen_items(all.take(i as int)),
        decreases rest.len(),
    {
        let ghost before = rest@;
        let (status, mode, path) = rest.remove(0);
        proof {
            assert(before[0] == all.skip(i as int)[0]);
            assert(all[i as int] == (status, mode, path));
            assert(rest@ =~= all.skip(i + 1));
            assert(all.take(i + 1).drop_last() =~= all.take(i as int));
        }
        match changed_item(status, mode, path) {
            Some(item) => out.push(item),
            None => {},
        }
        i = i + 1;
    }
    assert(all.take(i as int) =~= all);
    out
}

/// `name` joined onto `dir` (see [`joined`]).
pub fn join_path(dir: &str, name: &str) -> (r: String)
    ensures
        r@ == joined(dir@, name@),
{
    let d = to_chars(dir);
    let n = to_chars(name);
    if n.len() > 0 && n[0] == '/' {
        return name.to_owned();
    }
    let mut v: Vec<char> = Vec::new();
    extend_str(&mut v, dir);
    if d.len() > 0 && d[d.len() - 1] != '/' {
        v.push('/');
    }
    extend_str(&mut v, name);
    assert(v@ =~= joined(dir@, name@));
    from_chars(v.as_slice())
}

/// The item for the tree entry `name` under the directory `root` (as a tree
/// walk reports them).
pub fn tree_item(root: &str, name: &str, kind: ObjectKind) -> (r: Item)
    ensures
        is_object_item(r, kind, joined(root@, name@)),
{
    let p = join_path(root, name);
    item_for_object(kind, p)
}

} // verus!
