//! The layer-by-layer expansion engine, as a machine that is driven by
//! filesystem answers.
//!
//! The machine owns every decision of the resolution: which query to pose
//! next, which entry names a segment accepts, how a matched candidate is
//! joined and link-dereferenced, and when the frontier has emptied so that
//! nothing further need be asked. The caller only performs the queries that
//! `next_action` names and hands the answers back through the `feed_`
//! functions. Whenever the answers are consistent with one filesystem
//! snapshot, the final frontier is exactly what `resolve_from` says of that
//! snapshot.

use vstd::prelude::*;
use crate::glob::{has_star, re_compiles, seg_matches, wildcard_match};
use crate::model::{
    FsModel, LinkModel, deref_entry, expand_layer, expand_parent, resolve_from, spec_join, strs,
};
use crate::paths::{join_path, spec_components, split_pattern, str_has_star};

verus! {

/// The reason a whole resolution call fails: some wildcard segment could not
/// be translated into a valid matcher.
#[derive(Debug, Clone, Copy, PartialEq, Eq, Structural)]
pub enum ResolveError {
    PatternCompile,
}

/// The answer to a `ReadLink` query.
#[derive(Debug)]
pub enum LinkAnswer {
    /// The candidate is not a symbolic link.
    NotLink,
    /// The candidate is a symbolic link with this immediate target.
    Target(String),
    /// The candidate is a symbolic link whose target could not be read.
    Unreadable,
}

impl LinkAnswer {
    pub open spec fn model(self) -> LinkModel {
        match self {
            LinkAnswer::NotLink => LinkModel::NotLink,
            LinkAnswer::Target(t) => LinkModel::Target(t@),
            LinkAnswer::Unreadable => LinkModel::Unreadable,
        }
    }
}

/// What the machine asks for next. Each query names the `feed_` function
/// that takes its answer.
#[derive(Debug)]
pub enum Action {
    /// Attempt to canonicalize this root path, best effort, and report back
    /// through `feed_canonical`; the outcome is tolerated either way and the
    /// original root is used.
    Canonicalize(String),
    /// For a literal segment: answer through `feed_child` whether the first
    /// path is a regular file and whether anything exists at the second.
    CheckChild(String, String),
    /// For a wildcard segment: answer through `feed_entries` whether the
    /// path is a regular file and the names of its entries (`None` where the
    /// directory cannot be listed).
    ListEntries(String),
    /// Answer through `feed_link` whether this candidate is a symbolic link.
    ReadLink(String),
    /// The resolution is complete; `into_result` yields the final frontier.
    Done,
}

/// The machine's position within the resolution.
#[derive(Debug, Clone, Copy, PartialEq, Eq, Structural)]
pub enum Phase {
    /// The root has not been resolved yet.
    AtRoot,
    /// One frontier path awaits its existence or listing query.
    AtParent,
    /// Matched candidates of the current frontier path await link queries.
    AtLinks,
    /// The final frontier is ready.
    Finished,
}

/// The candidates a set of still-pending names contributes once each is
/// link-dereferenced under the parent.
pub open spec fn pending_derefs(fs: FsModel, parent: Seq<char>, names: Set<Seq<char>>) -> Set<
    Seq<char>,
> {
    Set::new(
        |f: Seq<char>|
            exists|n: Seq<char>| names.contains(n) && #[trigger] deref_entry(fs, parent, n)
                == Some(f),
    )
}

/// Every feed brings the machine strictly down this lexicographic measure,
/// so a driving loop terminates.
pub open spec fn progress(pre: Resolver, post: Resolver) -> bool {
    ||| post.m_segs() < pre.m_segs()
    ||| (post.m_segs() == pre.m_segs() && post.m_par() < pre.m_par())
    ||| (post.m_segs() == pre.m_segs() && post.m_par() == pre.m_par() && post.m_phase()
        < pre.m_phase())
    ||| (post.m_segs() == pre.m_segs() && post.m_par() == pre.m_par() && post.m_phase()
        == pre.m_phase() && post.m_pend() < pre.m_pend())
}

/// The pattern resolver: pattern components, the current frontier, and the
/// partially built next frontier.
pub struct Resolver {
    /// The pattern components, the root first.
    pub segments: Vec<String>,
    /// The index of the segment being expanded.
    pub seg_idx: usize,
    /// The paths that match the pattern up to the previous segment.
    pub frontier: Vec<String>,
    /// How many frontier paths are fully expanded already.
    pub parent_idx: usize,
    /// The matched names of the current frontier path, awaiting link queries.
    pub pending: Vec<String>,
    /// How many pending names are consumed already.
    pub pend_idx: usize,
    /// The next frontier, built while the current one is consumed.
    pub next_frontier: Vec<String>,
    /// Where the machine stands.
    pub phase: Phase,
}

impl Resolver {
    /// The views of the pattern components.
    pub open spec fn comps(self) -> Seq<Seq<char>> {
        strs(self.segments@)
    }

    /// The segment being expanded.
    pub open spec fn cur_seg(self) -> Seq<char> {
        self.comps()[self.seg_idx as int]
    }

    /// The frontier path being expanded.
    pub open spec fn cur_parent(self) -> Seq<char> {
        strs(self.frontier@)[self.parent_idx as int]
    }

    /// The pending name whose link query is out.
    pub open spec fn cur_name(self) -> Seq<char> {
        strs(self.pending@)[self.pend_idx as int]
    }

    /// Structural soundness: every wildcard segment's matcher compiles, and
    /// the indices of the current phase are in range.
    pub open spec fn wf(self) -> bool {
        &&& (forall|i: int|
            1 <= i < self.comps().len() && #[trigger] has_star(self.comps()[i]) ==> re_compiles(
                self.comps()[i],
            ))
        &&& match self.phase {
            Phase::AtRoot => self.segments@.len() >= 1,
            Phase::AtParent => 1 <= self.seg_idx < self.segments@.len() && self.parent_idx
                < self.frontier@.len(),
            Phase::AtLinks => 1 <= self.seg_idx < self.segments@.len() && self.parent_idx
                < self.frontier@.len() && self.pend_idx < self.pending@.len(),
            Phase::Finished => true,
        }
    }

    /// What the current layer will amount to: the next frontier built so
    /// far, the still-pending candidates of the current parent, and the
    /// expansion of the parents not yet consumed.
    pub open spec fn layer_set(self, fs: FsModel) -> Set<Seq<char>> {
        match self.phase {
            Phase::AtParent => strs(self.next_frontier@).to_set().union(
                expand_layer(
                    fs,
                    strs(self.frontier@).skip(self.parent_idx as int).to_set(),
                    self.cur_seg(),
                ),
            ),
            Phase::AtLinks => strs(self.next_frontier@).to_set().union(
                pending_derefs(
                    fs,
                    self.cur_parent(),
                    strs(self.pending@).skip(self.pend_idx as int).to_set(),
                ),
            ).union(
                expand_layer(
                    fs,
                    strs(self.frontier@).skip(self.parent_idx as int + 1).to_set(),
                    self.cur_seg(),
                ),
            ),
            _ => Set::empty(),
        }
    }

    /// The set the whole resolution is to return against snapshot `fs`.
    pub open spec fn goal(self, fs: FsModel) -> Set<Seq<char>> {
        if self.comps().len() == 0 {
            Set::empty()
        } else {
            resolve_from(fs, set![self.comps()[0]], self.comps(), 1)
        }
    }

    /// The simulation invariant: against any snapshot the answers so far are
    /// consistent with, what remains to be computed reaches the goal; once
    /// finished, the frontier is the goal.
    pub open spec fn sim(self, fs: FsModel) -> bool {
        match self.phase {
            Phase::AtRoot => true,
            Phase::AtParent | Phase::AtLinks => self.goal(fs) == resolve_from(
                fs,
                self.layer_set(fs),
                self.comps(),
                self.seg_idx as int + 1,
            ),
            Phase::Finished => self.goal(fs) == strs(self.frontier@).to_set(),
        }
    }

    /// The segments still to expand.
    pub open spec fn m_segs(self) -> int {
        if self.seg_idx <= self.segments@.len() {
            self.segments@.len() - self.seg_idx
        } else {
            0
        }
    }

    /// The frontier paths still to consume in this layer.
    pub open spec fn m_par(self) -> int {
        if self.parent_idx <= self.frontier@.len() {
            self.frontier@.len() - self.parent_idx
        } else {
            0
        }
    }

    /// Orders the two mid-layer phases.
    pub open spec fn m_phase(self) -> int {
        if self.phase is AtParent {
            1
        } else {
            0
        }
    }

    /// The pending names still to consume for the current parent.
    pub open spec fn m_pend(self) -> int {
        if self.pend_idx <= self.pending@.len() {
            self.pending@.len() - self.pend_idx
        } else {
            0
        }
    }

    /// Builds the machine for one pattern. Fails, before anything is asked
    /// of the filesystem, exactly when some wildcard segment's matcher does
    /// not compile.
    pub fn new(pattern: &str) -> (r: Result<Resolver, ResolveError>)
        ensures
            (r is Ok <==> (forall|i: int|
                1 <= i < spec_components(pattern@).len() && #[trigger] has_star(
                    spec_components(pattern@)[i],
                ) ==> re_compiles(spec_components(pattern@)[i]))),
            (r matches Ok(m) ==> {
                &&& m.wf()
                &&& m.comps() == spec_components(pattern@)
                &&& (m.phase is AtRoot <==> spec_components(pattern@).len() >= 1)
                &&& (m.phase is Finished ==> m.frontier@.len() == 0)
                &&& m.seg_idx == 0
                &&& forall|fs: FsModel| #[trigger] m.sim(fs)
            }),
            (r is Err ==> exists|i: int|
                1 <= i < spec_components(pattern@).len() && #[trigger] has_star(
                    spec_components(pattern@)[i],
                ) && !re_compiles(spec_components(pattern@)[i])),
    {
        let segments = split_pattern(pattern);
        let mut i: usize = 1;
        while i < segments.len()
            invariant
                strs(segments@) == spec_components(pattern@),
                1 <= i,
                forall|j: int|
                    1 <= j < i && #[trigger] has_star(strs(segments@)[j]) ==> re_compiles(
                        strs(segments@)[j],
                    ),
            decreases segments.len() - i,
        {
            if str_has_star(segments[i].as_str()) {
                match wildcard_match(segments[i].as_str(), "") {
                    Some(_) => {},
                    None => {
                        proof {
                            let ghost comps = spec_components(pattern@);
                            assert(strs(segments@)[i as int] == segments@[i as int]@);
                            assert(has_star(comps[i as int]));
                            assert(!re_compiles(comps[i as int]));
                        }
                        return Err(ResolveError::PatternCompile);
                    },
                }
            }
            i += 1;
        }
        let phase = if segments.len() == 0 {
            Phase::Finished
        } else {
            Phase::AtRoot
        };
        let m = Resolver {
            segments,
            seg_idx: 0,
            frontier: Vec::new(),
            parent_idx: 0,
            pending: Vec::new(),
            pend_idx: 0,
            next_frontier: Vec::new(),
            phase,
        };
        proof {
            if m.phase is Finished {
                assert forall|fs: FsModel| m.sim(fs) by {
                    assert(strs(m.frontier@).to_set() =~= Set::<Seq<char>>::empty());
                }
            }
        }
        Ok(m)
    }

    /// What to do next. `Done` is final: once the frontier has emptied or
    /// the segments are exhausted, the machine asks nothing further of the
    /// filesystem.
    pub fn next_action(&self) -> (a: Action)
        requires
            self.wf(),
        ensures
            match a {
                Action::Canonicalize(p) => self.phase is AtRoot && p@ == self.comps()[0],
                Action::CheckChild(p, n) => self.phase is AtParent && !has_star(self.cur_seg())
                    && p@ == self.cur_parent() && n@ == self.cur_seg(),
                Action::ListEntries(p) => self.phase is AtParent && has_star(self.cur_seg()) && p@
                    == self.cur_parent(),
                Action::ReadLink(c) => self.phase is AtLinks && c@ == spec_join(
                    self.cur_parent(),
                    self.cur_name(),
                ),
                Action::Done => self.phase is Finished,
            },
    {
        match self.phase {
            Phase::AtRoot => Action::Canonicalize(self.segments[0].clone()),
            Phase::AtParent => {
                if str_has_star(self.segments[self.seg_idx].as_str()) {
                    Action::ListEntries(self.frontier[self.parent_idx].clone())
                } else {
                    Action::CheckChild(
                        self.frontier[self.parent_idx].clone(),
                        self.segments[self.seg_idx].clone(),
                    )
                }
            },
            Phase::AtLinks => Action::ReadLink(
                join_path(
                    self.frontier[self.parent_idx].as_str(),
                    self.pending[self.pend_idx].as_str(),
                ),
            ),
            Phase::Finished => Action::Done,
        }
    }

    /// The final frontier.
    pub fn into_result(self) -> (r: Vec<String>)
        requires
            self.phase is Finished,
        ensures
            r == self.frontier,
    {
        self.frontier
    }

    /// Notes that the canonicalization attempt for the root was made; its
    /// outcome, success or failure, is tolerated silently and the original
    /// root is used either way. The frontier becomes that one path, whether
    /// or not it exists.
    pub fn feed_canonical(&mut self)
        requires
            old(self).wf(),
            old(self).phase is AtRoot,
            old(self).seg_idx == 0,
        ensures
            final(self).wf(),
            progress(*old(self), *final(self)),
            final(self).comps() == old(self).comps(),
            !(final(self).phase is AtRoot),
            forall|fs: FsModel| #[trigger] final(self).sim(fs),
    {
        let root = self.segments[0].clone();
        self.frontier = Vec::new();
        self.frontier.push(root);
        self.next_frontier = Vec::new();
        self.seg_idx = 1;
        self.parent_idx = 0;
        if self.segments.len() == 1 {
            self.phase = Phase::Finished;
        } else {
            self.phase = Phase::AtParent;
        }
        proof {
            assert(self.comps() == old(self).comps());
            assert(forall|i: int|
                1 <= i < self.comps().len() && #[trigger] has_star(self.comps()[i])
                    ==> re_compiles(self.comps()[i]));
            let r0 = self.comps()[0];
            lemma_strs_singleton_to_set(self.frontier@, r0);
            assert forall|fs: FsModel| self.sim(fs) by {
                if self.phase is Finished {
                    assert(self.goal(fs) == set![r0]);
                } else {
                    assert(strs(self.frontier@).skip(0) =~= strs(self.frontier@));
                    assert(strs(self.next_frontier@).to_set() =~= Set::<Seq<char>>::empty());
                    assert(self.layer_set(fs) =~= expand_layer(fs, set![r0], self.cur_seg()));
                    assert(set![r0].contains(r0));
                    assert(!set![r0].is_empty());
                    assert(self.goal(fs) == resolve_from(
                        fs,
                        expand_layer(fs, set![r0], self.comps()[1]),
                        self.comps(),
                        2,
                    ));
                }
            }
        }
    }

    /// Takes the answer for a literal segment under the current frontier
    /// path: a regular-file parent, or an absent child, contributes nothing;
    /// otherwise the joined child awaits its link query.
    pub fn feed_child(&mut self, parent_is_file: bool, child_exists: bool)
        requires
            old(self).wf(),
            old(self).phase is AtParent,
            !has_star(old(self).cur_seg()),
        ensures
            final(self).wf(),
            progress(*old(self), *final(self)),
            final(self).comps() == old(self).comps(),
            !(final(self).phase is AtRoot),
            forall|fs: FsModel|
                (#[trigger] old(self).sim(fs)) && parent_is_file == fs.is_file(
                    old(self).cur_parent(),
                ) && child_exists == fs.present(
                    spec_join(old(self).cur_parent(), old(self).cur_seg()),
                ) ==> final(self).sim(fs),
    {
        let ghost pre = *self;
        if !parent_is_file && child_exists {
            let name = self.segments[self.seg_idx].clone();
            let mut pending: Vec<String> = Vec::new();
            pending.push(name);
            self.pending = pending;
            self.pend_idx = 0;
            self.phase = Phase::AtLinks;
            proof {
                assert forall|fs: FsModel|
                    pre.sim(fs) && parent_is_file == fs.is_file(pre.cur_parent()) && child_exists
                        == fs.present(spec_join(pre.cur_parent(), pre.cur_seg())) implies self.sim(
                    fs,
                ) by {
                    lemma_expand_layer_split(fs, strs(pre.frontier@), pre.parent_idx as int, pre.cur_seg());
                    assert(strs(self.pending@).skip(0) =~= strs(self.pending@));
                    lemma_strs_singleton_to_set(self.pending@, pre.cur_seg());
                    assert(expand_parent(fs, pre.cur_parent(), pre.cur_seg()) =~= pending_derefs(
                        fs,
                        pre.cur_parent(),
                        set![pre.cur_seg()],
                    )) by {
                        lemma_literal_expand(fs, pre.cur_parent(), pre.cur_seg());
                    }
                    assert(self.layer_set(fs) =~= pre.layer_set(fs));
                }
            }
        } else {
            proof {
                assert forall|fs: FsModel|
                    pre.sim(fs) && parent_is_file == fs.is_file(pre.cur_parent()) && child_exists
                        == fs.present(spec_join(pre.cur_parent(), pre.cur_seg())) implies pre.goal(
                    fs,
                ) == resolve_from(
                    fs,
                    strs(pre.next_frontier@).to_set().union(
                        expand_layer(
                            fs,
                            strs(pre.frontier@).skip(pre.parent_idx as int + 1).to_set(),
                            pre.cur_seg(),
                        ),
                    ),
                    pre.comps(),
                    pre.seg_idx as int + 1,
                ) by {
                    lemma_expand_layer_split(fs, strs(pre.frontier@), pre.parent_idx as int, pre.cur_seg());
                    assert(expand_parent(fs, pre.cur_parent(), pre.cur_seg()) =~= Set::<Seq<char>>::empty());
                    assert(strs(pre.next_frontier@).to_set().union(
                        expand_layer(
                            fs,
                            strs(pre.frontier@).skip(pre.parent_idx as int).to_set(),
                            pre.cur_seg(),
                        ),
                    ) =~= strs(pre.next_frontier@).to_set().union(
                        expand_layer(
                            fs,
                            strs(pre.frontier@).skip(pre.parent_idx as int + 1).to_set(),
                            pre.cur_seg(),
                        ),
                    ));
                }
            }
            self.next_parent();
        }
    }

    /// Takes the listing answer for a wildcard segment under the current
    /// frontier path: a regular-file parent or an unreadable directory
    /// contributes nothing; otherwise every entry name the segment accepts
    /// awaits its link query.
    pub fn feed_entries(&mut self, parent_is_file: bool, entries: Option<Vec<String>>)
        requires
            old(self).wf(),
            old(self).phase is AtParent,
            has_star(old(self).cur_seg()),
        ensures
            final(self).wf(),
            progress(*old(self), *final(self)),
            final(self).comps() == old(self).comps(),
            !(final(self).phase is AtRoot),
            forall|fs: FsModel|
                (#[trigger] old(self).sim(fs)) && parent_is_file == fs.is_file(
                    old(self).cur_parent(),
                ) && (match entries {
                    Some(v) => fs.entries(old(self).cur_parent()) == Some(strs(v@).to_set()),
                    None => fs.entries(old(self).cur_parent()) is None,
                }) ==> final(self).sim(fs),
    {
        let ghost pre = *self;
        let no_contribution: bool = parent_is_file || entries.is_none();
        if !no_contribution {
            let names = match entries {
                Some(v) => v,
                None => Vec::new(),
            };
            let seg = self.segments[self.seg_idx].clone();
            assert(seg@ == pre.cur_seg());
            let mut matched: Vec<String> = Vec::new();
            let mut k: usize = 0;
            while k < names.len()
                invariant
                    k <= names.len(),
                    seg@ == pre.cur_seg(),
                    has_star(seg@),
                    re_compiles(seg@),
                    forall|x: Seq<char>|
                        #[trigger] strs(matched@).contains(x) <==> exists|j: int|
                            0 <= j < k && strs(names@)[j] == x && seg_matches(seg@, x),
                decreases names.len() - k,
            {
                let is_match = match wildcard_match(seg.as_str(), names[k].as_str()) {
                    Some(b) => b,
                    None => {
                        proof {
                            assert(false);
                        }
                        false
                    },
                };
                let ghost prev = matched@;
                if is_match {
                    matched.push(names[k].clone());
                    proof {
                        assert(strs(matched@) =~= strs(prev).push(strs(names@)[k as int]));
                    }
                }
                proof {
                    let ghost kk = k as int;
                    assert forall|x: Seq<char>| #[trigger]
                        strs(matched@).contains(x) implies exists|j: int|
                        0 <= j < kk + 1 && strs(names@)[j] == x && seg_matches(seg@, x) by {
                        if is_match {
                            let idx = choose|idx: int|
                                0 <= idx < strs(matched@).len() && strs(matched@)[idx] == x;
                            if idx < strs(prev).len() {
                                assert(strs(prev).contains(x));
                            } else {
                                assert(x == strs(names@)[kk]);
                                assert(seg_matches(seg@, x));
                            }
                        }
                    }
                    assert forall|x: Seq<char>|
                        (exists|j: int| 0 <= j < kk + 1 && strs(names@)[j] == x && seg_matches(seg@, x))
                            implies #[trigger] strs(matched@).contains(x) by {
                        let j = choose|j: int|
                            0 <= j < kk + 1 && strs(names@)[j] == x && seg_matches(seg@, x);
                        if j < kk {
                            assert(strs(prev).contains(x));
                            if is_match {
                                let idx = choose|idx: int|
                                    0 <= idx < strs(prev).len() && strs(prev)[idx] == x;
                                assert(strs(matched@)[idx] == x);
                            }
                        } else {
                            assert(strs(names@)[kk] == x && seg_matches(seg@, x));
                            assert(is_match);
                            assert(strs(matched@)[strs(matched@).len() - 1] == x);
                        }
                    }
                }
                k += 1;
            }
            let ghost entry_set = strs(names@).to_set();
            proof {
                assert forall|fs: FsModel|
                    pre.sim(fs) && parent_is_file == fs.is_file(pre.cur_parent()) && fs.entries(
                        pre.cur_parent(),
                    ) == Some(entry_set) implies expand_parent(fs, pre.cur_parent(), pre.cur_seg())
                    =~= pending_derefs(fs, pre.cur_parent(), strs(matched@).to_set()) by {
                    assert forall|x: Seq<char>| #[trigger] strs(matched@).to_set().contains(x)
                        <==> (entry_set.contains(x) && seg_matches(seg@, x)) by {
                        if strs(matched@).contains(x) {
                            let j = choose|j: int|
                                0 <= j < names@.len() && strs(names@)[j] == x && seg_matches(seg@, x);
                            assert(strs(names@).contains(x));
                        }
                        if entry_set.contains(x) && seg_matches(seg@, x) {
                            let j = choose|j: int|
                                0 <= j < strs(names@).len() && strs(names@)[j] == x;
                            assert(strs(matched@).contains(x));
                        }
                    }
                }
            }
            if matched.len() == 0 {
                proof {
                    assert forall|fs: FsModel|
                        pre.sim(fs) && parent_is_file == fs.is_file(pre.cur_parent()) && fs.entries(
                            pre.cur_parent(),
                        ) == Some(entry_set) implies pre.goal(fs) == resolve_from(
                        fs,
                        strs(pre.next_frontier@).to_set().union(
                            expand_layer(
                                fs,
                                strs(pre.frontier@).skip(pre.parent_idx as int + 1).to_set(),
                                pre.cur_seg(),
                            ),
                        ),
                        pre.comps(),
                        pre.seg_idx as int + 1,
                    ) by {
                        lemma_expand_layer_split(
                            fs,
                            strs(pre.frontier@),
                            pre.parent_idx as int,
                            pre.cur_seg(),
                        );
                        assert(strs(matched@).to_set() =~= Set::<Seq<char>>::empty());
                        assert(expand_parent(fs, pre.cur_parent(), pre.cur_seg()) =~= Set::<
                            Seq<char>,
                        >::empty());
                        assert(strs(pre.next_frontier@).to_set().union(
                            expand_layer(
                                fs,
                                strs(pre.frontier@).skip(pre.parent_idx as int).to_set(),
                                pre.cur_seg(),
                            ),
                        ) =~= strs(pre.next_frontier@).to_set().union(
                            expand_layer(
                                fs,
                                strs(pre.frontier@).skip(pre.parent_idx as int + 1).to_set(),
                                pre.cur_seg(),
                            ),
                        ));
                    }
                }
                self.next_parent();
            } else {
                self.pending = matched;
                self.pend_idx = 0;
                self.phase = Phase::AtLinks;
                proof {
                    assert forall|fs: FsModel|
                        pre.sim(fs) && parent_is_file == fs.is_file(pre.cur_parent()) && fs.entries(
                            pre.cur_parent(),
                        ) == Some(entry_set) implies self.sim(fs) by {
                        lemma_expand_layer_split(
                            fs,
                            strs(pre.frontier@),
                            pre.parent_idx as int,
                            pre.cur_seg(),
                        );
                        assert(strs(self.pending@).skip(0) =~= strs(self.pending@));
                        assert(self.layer_set(fs) =~= pre.layer_set(fs));
                    }
                }
            }
        } else {
            proof {
                assert forall|fs: FsModel|
                    pre.sim(fs) && parent_is_file == fs.is_file(pre.cur_parent()) && (match entries {
                        Some(v) => fs.entries(pre.cur_parent()) == Some(strs(v@).to_set()),
                        None => fs.entries(pre.cur_parent()) is None,
                    }) implies pre.goal(fs) == resolve_from(
                    fs,
                    strs(pre.next_frontier@).to_set().union(
                        expand_layer(
                            fs,
                            strs(pre.frontier@).skip(pre.parent_idx as int + 1).to_set(),
                            pre.cur_seg(),
                        ),
                    ),
                    pre.comps(),
                    pre.seg_idx as int + 1,
                ) by {
                    lemma_expand_layer_split(fs, strs(pre.frontier@), pre.parent_idx as int, pre.cur_seg());
                    assert(expand_parent(fs, pre.cur_parent(), pre.cur_seg()) =~= Set::<Seq<char>>::empty());
                    assert(strs(pre.next_frontier@).to_set().union(
                        expand_layer(
                            fs,
                            strs(pre.frontier@).skip(pre.parent_idx as int).to_set(),
                            pre.cur_seg(),
                        ),
                    ) =~= strs(pre.next_frontier@).to_set().union(
                        expand_layer(
                            fs,
                            strs(pre.frontier@).skip(pre.parent_idx as int + 1).to_set(),
                            pre.cur_seg(),
                        ),
                    ));
                }
            }
            self.next_parent();
        }
    }

    /// Takes the link answer for the current candidate: the candidate
    /// itself, or its immediate target re-joined under the parent, enters
    /// the next frontier; an unreadable link is dropped.
    pub fn feed_link(&mut self, link: LinkAnswer)
        requires
            old(self).wf(),
            old(self).phase is AtLinks,
        ensures
            final(self).wf(),
            progress(*old(self), *final(self)),
            final(self).comps() == old(self).comps(),
            !(final(self).phase is AtRoot),
            forall|fs: FsModel|
                (#[trigger] old(self).sim(fs)) && link.model() == fs.link(
                    spec_join(old(self).cur_parent(), old(self).cur_name()),
                ) ==> final(self).sim(fs),
    {
        let ghost pre = *self;
        match link {
            LinkAnswer::NotLink => {
                let c = join_path(
                    self.frontier[self.parent_idx].as_str(),
                    self.pending[self.pend_idx].as_str(),
                );
                self.next_frontier.push(c);
            },
            LinkAnswer::Target(t) => {
                let c = join_path(self.frontier[self.parent_idx].as_str(), t.as_str());
                self.next_frontier.push(c);
            },
            LinkAnswer::Unreadable => {},
        }
        let ghost mid = *self;
        proof {
            assert forall|fs: FsModel|
                pre.sim(fs) && link.model() == fs.link(spec_join(pre.cur_parent(), pre.cur_name()))
                    implies pre.goal(fs) == resolve_from(
                fs,
                strs(mid.next_frontier@).to_set().union(
                    pending_derefs(
                        fs,
                        pre.cur_parent(),
                        strs(pre.pending@).skip(pre.pend_idx as int + 1).to_set(),
                    ),
                ).union(
                    expand_layer(
                        fs,
                        strs(pre.frontier@).skip(pre.parent_idx as int + 1).to_set(),
                        pre.cur_seg(),
                    ),
                ),
                pre.comps(),
                pre.seg_idx as int + 1,
            ) by {
                let names_old = strs(pre.pending@).skip(pre.pend_idx as int).to_set();
                let names_new = strs(pre.pending@).skip(pre.pend_idx as int + 1).to_set();
                assert(strs(pre.pending@).skip(pre.pend_idx as int) =~= seq![pre.cur_name()] + strs(
                    pre.pending@,
                ).skip(pre.pend_idx as int + 1));
                assert forall|n: Seq<char>| #[trigger] names_old.contains(n)
                    <==> (n == pre.cur_name() || names_new.contains(n)) by {
                    seq_head_tail_contains(
                        pre.cur_name(),
                        strs(pre.pending@).skip(pre.pend_idx as int + 1),
                        n,
                    );
                }
                match fs.link(spec_join(pre.cur_parent(), pre.cur_name())) {
                    LinkModel::NotLink => {
                        assert(strs(mid.next_frontier@) =~= strs(pre.next_frontier@).push(
                            spec_join(pre.cur_parent(), pre.cur_name()),
                        ));
                        lemma_derefs_step(
                            fs,
                            pre.cur_parent(),
                            pre.cur_name(),
                            names_old,
                            names_new,
                            strs(pre.next_frontier@),
                            strs(mid.next_frontier@),
                        );
                    },
                    LinkModel::Target(t) => {
                        assert(strs(mid.next_frontier@) =~= strs(pre.next_frontier@).push(
                            spec_join(pre.cur_parent(), t),
                        ));
                        lemma_derefs_step(
                            fs,
                            pre.cur_parent(),
                            pre.cur_name(),
                            names_old,
                            names_new,
                            strs(pre.next_frontier@),
                            strs(mid.next_frontier@),
                        );
                    },
                    LinkModel::Unreadable => {
                        assert(strs(mid.next_frontier@).to_set().union(
                            pending_derefs(fs, pre.cur_parent(), names_old),
                        ) =~= strs(mid.next_frontier@).to_set().union(
                            pending_derefs(fs, pre.cur_parent(), names_new),
                        ));
                    },
                }
                assert(strs(mid.next_frontier@).to_set().union(
                    pending_derefs(fs, pre.cur_parent(), names_new),
                ).union(
                    expand_layer(
                        fs,
                        strs(pre.frontier@).skip(pre.parent_idx as int + 1).to_set(),
                        pre.cur_seg(),
                    ),
                ) =~= pre.layer_set(fs));
            }
        }
        let pending_len = self.pending.len();
        if self.pend_idx + 1 == pending_len {
            proof {
                assert forall|fs: FsModel|
                    pre.sim(fs) && link.model() == fs.link(
                        spec_join(pre.cur_parent(), pre.cur_name()),
                    ) implies mid.goal(fs) == resolve_from(
                    fs,
                    strs(mid.next_frontier@).to_set().union(
                        expand_layer(
                            fs,
                            strs(mid.frontier@).skip(mid.parent_idx as int + 1).to_set(),
                            mid.cur_seg(),
                        ),
                    ),
                    mid.comps(),
                    mid.seg_idx as int + 1,
                ) by {
                    assert(strs(pre.pending@).skip(pre.pend_idx as int + 1) =~= Seq::<
                        Seq<char>,
                    >::empty());
                    assert(pending_derefs(
                        fs,
                        pre.cur_parent(),
                        strs(pre.pending@).skip(pre.pend_idx as int + 1).to_set(),
                    ) =~= Set::<Seq<char>>::empty());
                    assert(strs(mid.next_frontier@).to_set().union(Set::empty()).union(
                        expand_layer(
                            fs,
                            strs(mid.frontier@).skip(mid.parent_idx as int + 1).to_set(),
                            mid.cur_seg(),
                        ),
                    ) =~= strs(mid.next_frontier@).to_set().union(
                        expand_layer(
                            fs,
                            strs(mid.frontier@).skip(mid.parent_idx as int + 1).to_set(),
                            mid.cur_seg(),
                        ),
                    ));
                }
            }
            self.next_parent();
        } else {
            self.pend_idx += 1;
            self.phase = Phase::AtLinks;
            proof {
                assert forall|fs: FsModel|
                    pre.sim(fs) && link.model() == fs.link(
                        spec_join(pre.cur_parent(), pre.cur_name()),
                    ) implies self.sim(fs) by {
                    assert(self.layer_set(fs) == strs(self.next_frontier@).to_set().union(
                        pending_derefs(
                            fs,
                            pre.cur_parent(),
                            strs(pre.pending@).skip(pre.pend_idx as int + 1).to_set(),
                        ),
                    ).union(
                        expand_layer(
                            fs,
                            strs(pre.frontier@).skip(pre.parent_idx as int + 1).to_set(),
                            pre.cur_seg(),
                        ),
                    ));
                }
            }
        }
    }

    /// Moves past the current frontier path; at the end of the frontier the
    /// next layer begins, and an emptied frontier or exhausted segments end
    /// the resolution.
    fn next_parent(&mut self)
        requires
            old(self).wf(),
            old(self).phase is AtParent || old(self).phase is AtLinks,
            1 <= old(self).seg_idx < old(self).segments@.len(),
            old(self).parent_idx < old(self).frontier@.len(),
        ensures
            final(self).wf(),
            progress(*old(self), *final(self)),
            final(self).comps() == old(self).comps(),
            !(final(self).phase is AtRoot),
            forall|fs: FsModel|
                (#[trigger] old(self).goal(fs)) == resolve_from(
                    fs,
                    strs(old(self).next_frontier@).to_set().union(
                        expand_layer(
                            fs,
                            strs(old(self).frontier@).skip(old(self).parent_idx as int + 1).to_set(),
                            old(self).cur_seg(),
                        ),
                    ),
                    old(self).comps(),
                    old(self).seg_idx as int + 1,
                ) ==> final(self).sim(fs),
    {
        let ghost pre = *self;
        let frontier_len = self.frontier.len();
        let seg_count = self.segments.len();
        if self.parent_idx + 1 == frontier_len {
            assert(self.seg_idx < seg_count);
            self.seg_idx = self.seg_idx + 1;
            let mut drained: Vec<String> = Vec::new();
            core::mem::swap(&mut self.next_frontier, &mut drained);
            self.frontier = drained;
            self.parent_idx = 0;
            self.pending = Vec::new();
            self.pend_idx = 0;
            if self.frontier.len() == 0 || self.seg_idx == self.segments.len() {
                self.phase = Phase::Finished;
            } else {
                self.phase = Phase::AtParent;
            }
            proof {
                assert forall|fs: FsModel|
                    pre.goal(fs) == resolve_from(
                        fs,
                        strs(pre.next_frontier@).to_set().union(
                            expand_layer(
                                fs,
                                strs(pre.frontier@).skip(pre.parent_idx as int + 1).to_set(),
                                pre.cur_seg(),
                            ),
                        ),
                        pre.comps(),
                        pre.seg_idx as int + 1,
                    ) implies self.sim(fs) by {
                    assert(strs(pre.frontier@).skip(pre.parent_idx as int + 1) =~= Seq::<
                        Seq<char>,
                    >::empty());
                    assert(Seq::<Seq<char>>::empty().to_set() =~= Set::<Seq<char>>::empty());
                    lemma_expand_layer_empty(fs, pre.cur_seg());
                    let s = strs(pre.next_frontier@).to_set();
                    assert(s.union(expand_layer(
                        fs,
                        strs(pre.frontier@).skip(pre.parent_idx as int + 1).to_set(),
                        pre.cur_seg(),
                    )) =~= s);
                    assert(strs(self.frontier@) == strs(pre.next_frontier@));
                    if self.phase is Finished {
                        if self.frontier@.len() == 0 {
                            lemma_strs_empty_to_set(self.frontier@);
                            assert(s =~= Set::<Seq<char>>::empty());
                            assert(s.is_empty());
                            assert(pre.goal(fs) == s);
                        } else {
                            assert((pre.seg_idx + 1) as int >= pre.comps().len());
                            assert(pre.goal(fs) == s);
                        }
                    } else {
                        assert(strs(self.frontier@)[0] == strs(self.frontier@)[0]);
                        assert(strs(self.frontier@).contains(strs(self.frontier@)[0]));
                        assert(s.contains(strs(self.frontier@)[0]));
                        assert(!s.is_empty());
                        assert(pre.goal(fs) == resolve_from(
                            fs,
                            expand_layer(fs, s, self.comps()[self.seg_idx as int]),
                            self.comps(),
                            self.seg_idx as int + 1,
                        ));
                        assert(strs(self.frontier@).skip(0) =~= strs(self.frontier@));
                        assert(strs(self.next_frontier@).to_set() =~= Set::<Seq<char>>::empty());
                        assert(self.layer_set(fs) =~= expand_layer(fs, s, self.cur_seg()));
                    }
                }
            }
        } else {
            self.parent_idx = self.parent_idx + 1;
            self.pending = Vec::new();
            self.pend_idx = 0;
            self.phase = Phase::AtParent;
            proof {
                assert forall|fs: FsModel|
                    pre.goal(fs) == resolve_from(
                        fs,
                        strs(pre.next_frontier@).to_set().union(
                            expand_layer(
                                fs,
                                strs(pre.frontier@).skip(pre.parent_idx as int + 1).to_set(),
                                pre.cur_seg(),
                            ),
                        ),
                        pre.comps(),
                        pre.seg_idx as int + 1,
                    ) implies self.sim(fs) by {
                    assert(self.layer_set(fs) == strs(pre.next_frontier@).to_set().union(
                        expand_layer(
                            fs,
                            strs(pre.frontier@).skip(pre.parent_idx as int + 1).to_set(),
                            pre.cur_seg(),
                        ),
                    ));
                }
            }
        }
    }
}

/// The expansion of a frontier suffix splits into the first parent's
/// contribution and the rest.
proof fn lemma_expand_layer_split(fs: FsModel, parents: Seq<Seq<char>>, k: int, seg: Seq<char>)
    requires
        0 <= k < parents.len(),
    ensures
        expand_layer(fs, parents.skip(k).to_set(), seg) =~= expand_parent(
            fs,
            parents[k],
            seg,
        ).union(expand_layer(fs, parents.skip(k + 1).to_set(), seg)),
{
    assert(parents.skip(k) =~= seq![parents[k]] + parents.skip(k + 1));
    assert forall|p: Seq<char>| #[trigger] parents.skip(k).to_set().contains(p)
        <==> (p == parents[k] || parents.skip(k + 1).to_set().contains(p)) by {
        seq_head_tail_contains(parents[k], parents.skip(k + 1), p);
    }
    assert forall|f: Seq<char>| #[trigger] expand_layer(fs, parents.skip(k).to_set(), seg).contains(
        f,
    ) implies expand_parent(fs, parents[k], seg).union(
        expand_layer(fs, parents.skip(k + 1).to_set(), seg),
    ).contains(f) by {
        let p = choose|p: Seq<char>|
            parents.skip(k).to_set().contains(p) && #[trigger] expand_parent(fs, p, seg).contains(f);
        if p != parents[k] {
            assert(parents.skip(k + 1).to_set().contains(p));
            assert(expand_layer(fs, parents.skip(k + 1).to_set(), seg).contains(f));
        }
    }
    assert forall|f: Seq<char>| expand_parent(fs, parents[k], seg).union(
        expand_layer(fs, parents.skip(k + 1).to_set(), seg),
    ).contains(f) implies #[trigger] expand_layer(fs, parents.skip(k).to_set(), seg).contains(
        f,
    ) by {
        if expand_parent(fs, parents[k], seg).contains(f) {
            assert(parents.skip(k).to_set().contains(parents[k]));
        } else {
            let p = choose|p: Seq<char>|
                parents.skip(k + 1).to_set().contains(p) && #[trigger] expand_parent(
                    fs,
                    p,
                    seg,
                ).contains(f);
            assert(parents.skip(k).to_set().contains(p));
        }
    }
}

/// Expanding an empty frontier yields nothing.
proof fn lemma_expand_layer_empty(fs: FsModel, seg: Seq<char>)
    ensures
        expand_layer(fs, Set::<Seq<char>>::empty(), seg) =~= Set::<Seq<char>>::empty(),
{
    assert forall|f: Seq<char>| !(#[trigger] expand_layer(
        fs,
        Set::<Seq<char>>::empty(),
        seg,
    ).contains(f)) by {
        if expand_layer(fs, Set::<Seq<char>>::empty(), seg).contains(f) {
            let p = choose|p: Seq<char>|
                Set::<Seq<char>>::empty().contains(p) && #[trigger] expand_parent(
                    fs,
                    p,
                    seg,
                ).contains(f);
        }
    }
}

/// A literal segment's contribution is the dereference of that one name.
proof fn lemma_literal_expand(fs: FsModel, parent: Seq<char>, seg: Seq<char>)
    requires
        !has_star(seg),
        !fs.is_file(parent),
        fs.present(spec_join(parent, seg)),
    ensures
        expand_parent(fs, parent, seg) =~= pending_derefs(fs, parent, set![seg]),
{
    assert forall|f: Seq<char>| #[trigger] pending_derefs(fs, parent, set![seg]).contains(f)
        implies expand_parent(fs, parent, seg).contains(f) by {
        let n = choose|n: Seq<char>| set![seg].contains(n) && #[trigger] deref_entry(fs, parent, n)
            == Some(f);
        assert(n == seg);
    }
    assert forall|f: Seq<char>| #[trigger] expand_parent(fs, parent, seg).contains(f)
        implies pending_derefs(fs, parent, set![seg]).contains(f) by {
        assert(set![seg].contains(seg));
        assert(deref_entry(fs, parent, seg) == Some(f));
    }
}

/// Membership in a sequence with an explicit head.
proof fn seq_head_tail_contains(h: Seq<char>, t: Seq<Seq<char>>, x: Seq<char>)
    ensures
        (seq![h] + t).contains(x) <==> (x == h || t.contains(x)),
{
    let s = seq![h] + t;
    if s.contains(x) {
        let i = choose|i: int| 0 <= i < s.len() && s[i] == x;
        if i > 0 {
            assert(t[i - 1] == x);
        }
    }
    if x == h {
        assert(s[0] == x);
    } else if t.contains(x) {
        let i = choose|i: int| 0 <= i < t.len() && t[i] == x;
        assert(s[i + 1] == x);
    }
}

/// Consuming one pending name moves its dereference, when the name is a
/// plain candidate or a readable link, into the next frontier.
proof fn lemma_derefs_step(
    fs: FsModel,
    parent: Seq<char>,
    name: Seq<char>,
    names_old: Set<Seq<char>>,
    names_new: Set<Seq<char>>,
    nf_old: Seq<Seq<char>>,
    nf_new: Seq<Seq<char>>,
)
    requires
        deref_entry(fs, parent, name) is Some,
        nf_new == nf_old.push(deref_entry(fs, parent, name).unwrap()),
        forall|n: Seq<char>| #[trigger] names_old.contains(n) <==> (n == name || names_new.contains(
            n,
        )),
    ensures
        nf_new.to_set().union(pending_derefs(fs, parent, names_new)) =~= nf_old.to_set().union(
            pending_derefs(fs, parent, names_old),
        ),
{
    let c = deref_entry(fs, parent, name).unwrap();
    assert forall|x: Seq<char>| #[trigger] nf_new.to_set().contains(x)
        <==> (nf_old.to_set().contains(x) || x == c) by {
        if nf_new.contains(x) {
            let i = choose|i: int| 0 <= i < nf_new.len() && nf_new[i] == x;
            if i < nf_old.len() {
                assert(nf_old[i] == x);
            }
        }
        if nf_old.contains(x) {
            let i = choose|i: int| 0 <= i < nf_old.len() && nf_old[i] == x;
            assert(nf_new[i] == x);
        }
        if x == c {
            assert(nf_new[nf_new.len() - 1] == x);
        }
    }
    assert forall|x: Seq<char>| #[trigger] pending_derefs(fs, parent, names_old).contains(x)
        <==> (x == c || pending_derefs(fs, parent, names_new).contains(x)) by {
        if pending_derefs(fs, parent, names_old).contains(x) {
            let n = choose|n: Seq<char>|
                names_old.contains(n) && #[trigger] deref_entry(fs, parent, n) == Some(x);
            if n != name {
                assert(names_new.contains(n));
            }
        }
        if x == c {
            assert(names_old.contains(name));
        }
        if pending_derefs(fs, parent, names_new).contains(x) {
            let n = choose|n: Seq<char>|
                names_new.contains(n) && #[trigger] deref_entry(fs, parent, n) == Some(x);
            assert(names_old.contains(n));
        }
    }
}

/// The set of views of a one-element string sequence.
proof fn lemma_strs_singleton_to_set(v: Seq<String>, x: Seq<char>)
    requires
        v.len() == 1,
        v[0]@ == x,
    ensures
        strs(v).to_set() =~= set![x],
{
    assert(strs(v)[0] == x);
    assert(strs(v).contains(x));
    assert forall|y: Seq<char>| #[trigger] strs(v).to_set().contains(y) implies y == x by {
        let i = choose|i: int| 0 <= i < strs(v).len() && strs(v)[i] == y;
    }
}

/// The set of views of an empty string sequence.
proof fn lemma_strs_empty_to_set(v: Seq<String>)
    requires
        v.len() == 0,
    ensures
        strs(v).to_set() =~= Set::<Seq<char>>::empty(),
{
    assert forall|y: Seq<char>| !(#[trigger] strs(v).to_set().contains(y)) by {
        if strs(v).contains(y) {
            let i = choose|i: int| 0 <= i < strs(v).len() && strs(v)[i] == y;
        }
    }
}

} // verus!
