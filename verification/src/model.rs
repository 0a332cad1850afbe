//! The mathematical model of one filesystem snapshot, and the set of paths
//! that a pattern resolves to against it.
//!
//! A snapshot answers four questions about a path: whether something exists
//! there, whether it is a regular file, what the names of its directory
//! entries are (or that they cannot be read), and whether it is a symbolic
//! link and where the link points (or that the link cannot be read). The
//! resolution of a pattern is defined layer by layer over these answers.

use vstd::prelude::*;
use crate::glob::{has_star, seg_matches};

verus! {

/// The views of a sequence of strings.
pub open spec fn strs(v: Seq<String>) -> Seq<Seq<char>> {
    v.map_values(|s: String| s@)
}

/// What a snapshot answers when a path is asked whether it is a symbolic
/// link.
pub enum LinkModel {
    /// Not a symbolic link.
    NotLink,
    /// A symbolic link with this immediate target.
    Target(Seq<char>),
    /// A symbolic link whose target could not be read.
    Unreadable,
}

/// One filesystem snapshot. Paths absent from `entries_at` or `link_at` are
/// taken to have no readable entries and to be no link.
pub struct FsModel {
    /// The paths where a regular file stands (after following links, as the
    /// filesystem answers it).
    pub file_at: Set<Seq<char>>,
    /// The paths where anything at all exists.
    pub exists_at: Set<Seq<char>>,
    /// For each path, the set of its directory entry names, or `None` where
    /// the directory cannot be listed.
    pub entries_at: Map<Seq<char>, Option<Set<Seq<char>>>>,
    /// For each path, its symbolic-link status.
    pub link_at: Map<Seq<char>, LinkModel>,
}

impl FsModel {
    pub open spec fn is_file(self, p: Seq<char>) -> bool {
        self.file_at.contains(p)
    }

    pub open spec fn present(self, p: Seq<char>) -> bool {
        self.exists_at.contains(p)
    }

    pub open spec fn entries(self, p: Seq<char>) -> Option<Set<Seq<char>>> {
        if self.entries_at.dom().contains(p) {
            self.entries_at[p]
        } else {
            None
        }
    }

    pub open spec fn link(self, p: Seq<char>) -> LinkModel {
        if self.link_at.dom().contains(p) {
            self.link_at[p]
        } else {
            LinkModel::NotLink
        }
    }
}

/// Joining one name (or link target) under a parent path: an absolute name
/// replaces the parent; otherwise the two are separated by one `/`.
pub open spec fn spec_join(parent: Seq<char>, name: Seq<char>) -> Seq<char> {
    if name.len() > 0 && name[0] == '/' {
        name
    } else if parent.len() > 0 && parent[parent.len() - 1] == '/' {
        parent + name
    } else {
        parent + seq!['/'] + name
    }
}

/// The path a matched entry contributes to the next frontier: the candidate
/// itself, or, for a symbolic link, its immediate target re-joined under the
/// parent; `None` where the link cannot be read (the candidate is dropped).
pub open spec fn deref_entry(fs: FsModel, parent: Seq<char>, name: Seq<char>) -> Option<Seq<char>> {
    match fs.link(spec_join(parent, name)) {
        LinkModel::NotLink => Some(spec_join(parent, name)),
        LinkModel::Target(t) => Some(spec_join(parent, t)),
        LinkModel::Unreadable => None,
    }
}

/// What one frontier path contributes under one segment: nothing for a
/// regular file; for a literal segment, the joined child when it exists; for
/// a wildcard segment, every directory entry whose name the segment accepts.
/// Each contribution passes through one level of link dereferencing.
pub open spec fn expand_parent(fs: FsModel, parent: Seq<char>, seg: Seq<char>) -> Set<Seq<char>> {
    if fs.is_file(parent) {
        Set::empty()
    } else if !has_star(seg) {
        if fs.present(spec_join(parent, seg)) {
            match deref_entry(fs, parent, seg) {
                Some(f) => set![f],
                None => Set::empty(),
            }
        } else {
            Set::empty()
        }
    } else {
        match fs.entries(parent) {
            Some(names) => Set::new(
                |f: Seq<char>|
                    exists|n: Seq<char>|
                        names.contains(n) && #[trigger] seg_matches(seg, n) && deref_entry(
                            fs,
                            parent,
                            n,
                        ) == Some(f),
            ),
            None => Set::empty(),
        }
    }
}

/// One layer of expansion: the union of every frontier path's contributions.
pub open spec fn expand_layer(fs: FsModel, frontier: Set<Seq<char>>, seg: Seq<char>) -> Set<
    Seq<char>,
> {
    Set::new(
        |f: Seq<char>|
            exists|p: Seq<char>| frontier.contains(p) && #[trigger] expand_parent(
                fs,
                p,
                seg,
            ).contains(f),
    )
}

/// Driving the layers from segment `i` on, over the component sequence
/// `comps` (whose first element is the root): an empty frontier is terminal.
pub open spec fn resolve_from(
    fs: FsModel,
    frontier: Set<Seq<char>>,
    comps: Seq<Seq<char>>,
    i: int,
) -> Set<Seq<char>>
    decreases comps.len() - i,
{
    if i >= comps.len() {
        frontier
    } else if frontier.is_empty() {
        frontier
    } else {
        resolve_from(fs, expand_layer(fs, frontier, comps[i]), comps, i + 1)
    }
}

/// The set of paths a component sequence resolves to: the singleton root
/// frontier driven through every later segment. An empty sequence resolves
/// to the empty set.
pub open spec fn spec_resolve(fs: FsModel, comps: Seq<Seq<char>>) -> Set<Seq<char>> {
    if comps.len() == 0 {
        Set::empty()
    } else {
        resolve_from(fs, set![comps[0]], comps, 1)
    }
}

} // verus!
