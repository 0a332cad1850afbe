//! Properties of the resolution, stated and proved over the model.

use vstd::prelude::*;
use crate::glob::{glob_matches, has_star, seg_matches};
use crate::model::{
    FsModel, LinkModel, deref_entry, expand_layer, expand_parent, resolve_from, spec_join,
    spec_resolve,
};

verus! {

/// A segment that holds a literal dot accepts only names that hold a dot:
/// in a pattern the dot never stands for "any character".
pub proof fn lemma_dot_matches_only_dot(pat: Seq<char>, name: Seq<char>)
    requires
        glob_matches(pat, name),
        pat.contains('.'),
    ensures
        name.contains('.'),
    decreases pat.len() + name.len(),
{
    let i = choose|i: int| 0 <= i < pat.len() && pat[i] == '.';
    if pat[0] == '*' {
        if glob_matches(pat.skip(1), name) {
            assert(pat.skip(1)[i - 1] == '.');
            assert(pat.skip(1).contains('.'));
            lemma_dot_matches_only_dot(pat.skip(1), name);
        } else {
            lemma_dot_matches_only_dot(pat, name.skip(1));
            let j = choose|j: int| 0 <= j < name.skip(1).len() && name.skip(1)[j] == '.';
            assert(name[j + 1] == '.');
        }
    } else {
        if pat[0] == '.' {
            assert(name[0] == '.');
        } else {
            assert(pat.skip(1)[i - 1] == '.');
            assert(pat.skip(1).contains('.'));
            lemma_dot_matches_only_dot(pat.skip(1), name.skip(1));
            let j = choose|j: int| 0 <= j < name.skip(1).len() && name.skip(1)[j] == '.';
            assert(name[j + 1] == '.');
        }
    }
}

/// Every path a wildcard segment contributes under a parent comes from one
/// single entry name of that parent's own listing, re-joined under the
/// parent (or replaced by that entry's link target): one segment never
/// reaches deeper than one directory level.
pub proof fn lemma_wildcard_single_level(
    fs: FsModel,
    parent: Seq<char>,
    seg: Seq<char>,
    f: Seq<char>,
)
    requires
        has_star(seg),
        expand_parent(fs, parent, seg).contains(f),
    ensures
        !fs.is_file(parent),
        fs.entries(parent) is Some,
        exists|n: Seq<char>|
            fs.entries(parent).unwrap().contains(n) && #[trigger] seg_matches(seg, n)
                && deref_entry(fs, parent, n) == Some(f),
{
}

/// Once a frontier empties, every remaining segment is skipped and the
/// result is the empty set, whatever the snapshot holds below.
pub proof fn lemma_empty_frontier_short_circuit(fs: FsModel, comps: Seq<Seq<char>>, i: int)
    ensures
        resolve_from(fs, Set::<Seq<char>>::empty(), comps, i) == Set::<Seq<char>>::empty(),
{
    assert(Set::<Seq<char>>::empty().is_empty());
}

/// Against one unchanged snapshot the resolution always yields the same
/// set: the result is a function of the snapshot and the pattern alone, so
/// any two runs agree.
pub proof fn lemma_resolve_idempotent(
    fs: FsModel,
    comps: Seq<Seq<char>>,
    r1: Seq<Seq<char>>,
    r2: Seq<Seq<char>>,
)
    requires
        r1.to_set() == spec_resolve(fs, comps),
        r2.to_set() == spec_resolve(fs, comps),
    ensures
        r1.to_set() == r2.to_set(),
{
}

/// A pattern with no segments beyond the root resolves to the singleton
/// root candidate, whatever the snapshot holds.
pub proof fn lemma_root_only(fs: FsModel, comps: Seq<Seq<char>>)
    requires
        comps.len() == 1,
    ensures
        spec_resolve(fs, comps) == set![comps[0]],
{
}

/// Whether the literal components from `i` on lead, step by step, to an
/// existing path: no step starts at a regular file and each joined child
/// exists.
pub open spec fn literal_chain_ok(fs: FsModel, p: Seq<char>, comps: Seq<Seq<char>>, i: int) -> bool
    decreases comps.len() - i,
{
    if i >= comps.len() {
        true
    } else {
        &&& !fs.is_file(p)
        &&& fs.present(spec_join(p, comps[i]))
        &&& literal_chain_ok(fs, spec_join(p, comps[i]), comps, i + 1)
    }
}

/// The path the literal components from `i` on spell out under `p`.
pub open spec fn literal_chain_end(p: Seq<char>, comps: Seq<Seq<char>>, i: int) -> Seq<char>
    decreases comps.len() - i,
{
    if i >= comps.len() {
        p
    } else {
        literal_chain_end(spec_join(p, comps[i]), comps, i + 1)
    }
}

/// No path the literal components spell out under `p` is a symbolic link;
/// links elsewhere in the snapshot do not matter.
pub open spec fn literal_chain_no_links(
    fs: FsModel,
    p: Seq<char>,
    comps: Seq<Seq<char>>,
    i: int,
) -> bool
    decreases comps.len() - i,
{
    if i >= comps.len() {
        true
    } else {
        &&& fs.link(spec_join(p, comps[i])) is NotLink
        &&& literal_chain_no_links(fs, spec_join(p, comps[i]), comps, i + 1)
    }
}

/// The expansion of a one-path frontier is that path's own contribution.
proof fn lemma_expand_layer_singleton(fs: FsModel, p: Seq<char>, seg: Seq<char>)
    ensures
        expand_layer(fs, set![p], seg) =~= expand_parent(fs, p, seg),
{
    assert forall|f: Seq<char>| #[trigger] expand_layer(fs, set![p], seg).contains(f)
        implies expand_parent(fs, p, seg).contains(f) by {
        let q = choose|q: Seq<char>|
            set![p].contains(q) && #[trigger] expand_parent(fs, q, seg).contains(f);
        assert(q == p);
    }
    assert forall|f: Seq<char>| expand_parent(fs, p, seg).contains(f)
        implies #[trigger] expand_layer(fs, set![p], seg).contains(f) by {
        assert(set![p].contains(p));
    }
}

/// When no path along the literal chain is a symbolic link, a pattern whose
/// segments are all literal resolves from `root` to exactly the one path
/// those segments spell, when that path exists end to end and no prefix of
/// it is a regular file; and to the empty set otherwise.
pub proof fn lemma_literal_resolve(fs: FsModel, root: Seq<char>, comps: Seq<Seq<char>>, i: int)
    requires
        1 <= i <= comps.len(),
        forall|j: int| i <= j < comps.len() ==> !has_star(#[trigger] comps[j]),
        literal_chain_no_links(fs, root, comps, i),
    ensures
        resolve_from(fs, set![root], comps, i) == (if literal_chain_ok(fs, root, comps, i) {
            set![literal_chain_end(root, comps, i)]
        } else {
            Set::<Seq<char>>::empty()
        }),
    decreases comps.len() - i,
{
    if i >= comps.len() {
    } else {
        let seg = comps[i];
        let child = spec_join(root, seg);
        assert(set![root].contains(root));
        assert(!set![root].is_empty());
        lemma_expand_layer_singleton(fs, root, seg);
        assert(fs.link(child) is NotLink);
        if !fs.is_file(root) && fs.present(child) {
            assert(deref_entry(fs, root, seg) == Some(child));
            assert(expand_parent(fs, root, seg) =~= set![child]);
            assert(expand_layer(fs, set![root], seg) == set![child]);
            lemma_literal_resolve(fs, child, comps, i + 1);
        } else {
            assert(expand_parent(fs, root, seg) =~= Set::<Seq<char>>::empty());
            assert(expand_layer(fs, set![root], seg) == Set::<Seq<char>>::empty());
            lemma_empty_frontier_short_circuit(fs, comps, i + 1);
            assert(!literal_chain_ok(fs, root, comps, i));
        }
    }
}

/// The whole-pattern form: when no path along the literal chain is a
/// symbolic link, a pattern with no wildcard segments resolves to exactly
/// the literal path it spells when that path exists end to end, and to the
/// empty set otherwise.
pub proof fn lemma_literal_pattern(fs: FsModel, comps: Seq<Seq<char>>)
    requires
        comps.len() >= 1,
        forall|j: int| 1 <= j < comps.len() ==> !has_star(#[trigger] comps[j]),
        literal_chain_no_links(fs, comps[0], comps, 1),
    ensures
        spec_resolve(fs, comps) == (if literal_chain_ok(fs, comps[0], comps, 1) {
            set![literal_chain_end(comps[0], comps, 1)]
        } else {
            Set::<Seq<char>>::empty()
        }),
{
    lemma_literal_resolve(fs, comps[0], comps, 1);
}

} // verus!
