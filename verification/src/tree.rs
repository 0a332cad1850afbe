//! An in-memory filesystem snapshot, and the resolution of a pattern
//! against it.
//!
//! `resolve` drives the resolver machine with answers looked up in the tree,
//! so the whole resolution is pure: the result is exactly `spec_resolve` of
//! the tree's model and the pattern's components.

use vstd::prelude::*;
use crate::glob::{has_star, re_compiles};
use crate::model::{FsModel, LinkModel, spec_resolve, strs};
use crate::paths::{join_path, spec_components};
use crate::resolver::{Action, LinkAnswer, ResolveError, Resolver};

verus! {

/// What stands at one path of an in-memory tree.
pub enum FsNode {
    /// A regular file.
    File,
    /// A directory with these entry names.
    Dir(Vec<String>),
    /// A symbolic link with this immediate target.
    Symlink(String),
}

/// One path of an in-memory tree, and what stands there.
pub struct FsEntry {
    /// The full path of the node.
    pub path: String,
    /// The node itself.
    pub node: FsNode,
}

/// An in-memory filesystem snapshot: a list of paths and their nodes. Where
/// one path is listed twice, the first entry counts.
pub struct FsTree {
    /// The nodes of the snapshot.
    pub entries: Vec<FsEntry>,
}

/// The first node listed for a path.
pub open spec fn tree_find(s: Seq<FsEntry>, p: Seq<char>) -> Option<FsNode>
    decreases s.len(),
{
    if s.len() == 0 {
        None
    } else if s[0].path@ == p {
        Some(s[0].node)
    } else {
        tree_find(s.skip(1), p)
    }
}

/// Whether a node is a regular file.
pub open spec fn node_is_file(o: Option<FsNode>) -> bool {
    o matches Some(FsNode::File)
}

/// The entry names of a directory node.
pub open spec fn node_entries(o: Option<FsNode>) -> Option<Set<Seq<char>>> {
    match o {
        Some(FsNode::Dir(names)) => Some(strs(names@).to_set()),
        _ => None,
    }
}

/// The link status of a node.
pub open spec fn node_link(o: Option<FsNode>) -> LinkModel {
    match o {
        Some(FsNode::Symlink(t)) => LinkModel::Target(t@),
        _ => LinkModel::NotLink,
    }
}

impl FsTree {
    /// The snapshot this tree stands for.
    pub open spec fn model(self) -> FsModel {
        FsModel {
            file_at: Set::new(|p: Seq<char>| node_is_file(tree_find(self.entries@, p))),
            exists_at: Set::new(|p: Seq<char>| tree_find(self.entries@, p) is Some),
            entries_at: Map::new(
                |p: Seq<char>| true,
                |p: Seq<char>| node_entries(tree_find(self.entries@, p)),
            ),
            link_at: Map::new(
                |p: Seq<char>| true,
                |p: Seq<char>| node_link(tree_find(self.entries@, p)),
            ),
        }
    }

    /// The first node listed for a path.
    fn find(&self, p: &String) -> (r: Option<&FsNode>)
        ensures
            match r {
                Some(n) => tree_find(self.entries@, p@) == Some(*n),
                None => tree_find(self.entries@, p@) is None,
            },
    {
        let mut i: usize = 0;
        proof {
            assert(self.entries@.skip(0) =~= self.entries@);
        }
        while i < self.entries.len()
            invariant
                i <= self.entries@.len(),
                tree_find(self.entries@, p@) == tree_find(self.entries@.skip(i as int), p@),
            decreases self.entries@.len() - i,
        {
            proof {
                assert(self.entries@.skip(i as int)[0] == self.entries@[i as int]);
                assert(self.entries@.skip(i as int).skip(1) =~= self.entries@.skip(i as int + 1));
            }
            if self.entries[i].path == *p {
                return Some(&self.entries[i].node);
            }
            i += 1;
        }
        proof {
            assert(self.entries@.skip(i as int).len() == 0);
        }
        None
    }

    /// Whether a regular file stands at the path.
    fn is_file_at(&self, p: &String) -> (b: bool)
        ensures
            b == self.model().is_file(p@),
    {
        match self.find(p) {
            Some(n) => matches!(n, FsNode::File),
            None => false,
        }
    }

    /// Whether anything stands at the path.
    fn is_present_at(&self, p: &String) -> (b: bool)
        ensures
            b == self.model().present(p@),
    {
        self.find(p).is_some()
    }

    /// The entry names of the directory at the path, `None` where no
    /// directory stands there.
    fn list_entries_of(&self, p: &String) -> (r: Option<Vec<String>>)
        ensures
            match r {
                Some(v) => self.model().entries(p@) == Some(strs(v@).to_set()),
                None => self.model().entries(p@) is None,
            },
    {
        match self.find(p) {
            Some(n) => match n {
                FsNode::Dir(names) => Some(clone_names(names)),
                _ => None,
            },
            None => None,
        }
    }

    /// The link status of the node at the path.
    fn link_of(&self, p: &String) -> (r: LinkAnswer)
        ensures
            r.model() == self.model().link(p@),
    {
        match self.find(p) {
            Some(n) => match n {
                FsNode::Symlink(t) => LinkAnswer::Target(t.clone()),
                _ => LinkAnswer::NotLink,
            },
            None => LinkAnswer::NotLink,
        }
    }
}

/// A copy of a list of names.
fn clone_names(names: &Vec<String>) -> (r: Vec<String>)
    ensures
        r@ == names@,
{
    let mut out: Vec<String> = Vec::new();
    let mut i: usize = 0;
    while i < names.len()
        invariant
            i <= names@.len(),
            out@ == names@.take(i as int),
        decreases names@.len() - i,
    {
        out.push(names[i].clone());
        proof {
            assert(out@ =~= names@.take(i as int + 1));
        }
        i += 1;
    }
    proof {
        assert(names@.take(names@.len() as int) =~= names@);
    }
    out
}

/// Resolves a pattern against an in-memory snapshot: the result, read as a
/// set, is exactly what the pattern's components resolve to in the
/// snapshot's model. The call fails, with `PatternCompile`, exactly when
/// some wildcard segment's matcher does not compile.
pub fn resolve(pattern: &str, tree: &FsTree) -> (r: Result<Vec<String>, ResolveError>)
    ensures
        (r is Ok <==> (forall|i: int|
            1 <= i < spec_components(pattern@).len() && #[trigger] has_star(
                spec_components(pattern@)[i],
            ) ==> re_compiles(spec_components(pattern@)[i]))),
        (r matches Ok(v) ==> strs(v@).to_set() == spec_resolve(
            tree.model(),
            spec_components(pattern@),
        )),
        (r matches Err(e) ==> e == ResolveError::PatternCompile),
{
    let ghost comps = spec_components(pattern@);
    let ghost fsm = tree.model();
    let mut m = match Resolver::new(pattern) {
        Ok(m) => m,
        Err(e) => {
            return Err(e);
        },
    };
    loop
        invariant_except_break
            fsm == tree.model(),
            m.wf(),
            m.comps() == comps,
            m.sim(fsm),
            m.phase is AtRoot ==> m.seg_idx == 0,
        ensures
            m.phase is Finished,
            m.sim(fsm),
            m.comps() == comps,
        decreases m.m_segs(), m.m_par(), m.m_phase(), m.m_pend(),
    {
        let action = m.next_action();
        match action {
            Action::Canonicalize(_) => {
                m.feed_canonical();
            },
            Action::CheckChild(p, n) => {
                let ghost pre = m;
                let parent_is_file = tree.is_file_at(&p);
                let child = join_path(p.as_str(), n.as_str());
                let child_exists = tree.is_present_at(&child);
                proof {
                    assert(pre.sim(fsm));
                    assert(p@ == pre.cur_parent());
                    assert(n@ == pre.cur_seg());
                    assert(parent_is_file == fsm.is_file(pre.cur_parent()));
                    assert(child_exists == fsm.present(
                        crate::model::spec_join(pre.cur_parent(), pre.cur_seg()),
                    ));
                }
                m.feed_child(parent_is_file, child_exists);
                proof {
                    assert(m.sim(fsm));
                }
            },
            Action::ListEntries(p) => {
                let ghost pre = m;
                let parent_is_file = tree.is_file_at(&p);
                let entries = tree.list_entries_of(&p);
                proof {
                    assert(pre.sim(fsm));
                    assert(parent_is_file == fsm.is_file(pre.cur_parent()));
                }
                m.feed_entries(parent_is_file, entries);
                proof {
                    assert(m.sim(fsm));
                }
            },
            Action::ReadLink(c) => {
                let ghost pre = m;
                let link = tree.link_of(&c);
                proof {
                    assert(pre.sim(fsm));
                    assert(link.model() == fsm.link(
                        crate::model::spec_join(pre.cur_parent(), pre.cur_name()),
                    ));
                }
                m.feed_link(link);
                proof {
                    assert(m.sim(fsm));
                }
            },
            Action::Done => {
                break ;
            },
        }
    }
    proof {
        assert(m.goal(fsm) == spec_resolve(fsm, comps));
    }
    let out = m.into_result();
    Ok(out)
}

} // verus!
