//! Decomposition of a pattern into its components, and joining of names
//! under parent paths.
//!
//! A pattern is split on `/`. The first component is the root: `/` itself
//! for an absolute pattern, the first name for a relative one. Empty pieces
//! (doubled or trailing separators) are dropped.

use vstd::prelude::*;
use crate::glob::has_star;
use crate::model::{spec_join, strs};

verus! {

/// The non-empty pieces of `s` split on `/`, with `cur` the piece built so
/// far.
pub open spec fn split_acc(s: Seq<char>, cur: Seq<char>) -> Seq<Seq<char>>
    decreases s.len(),
{
    if s.len() == 0 {
        if cur.len() == 0 {
            Seq::empty()
        } else {
            seq![cur]
        }
    } else if s[0] == '/' {
        if cur.len() == 0 {
            split_acc(s.skip(1), Seq::empty())
        } else {
            seq![cur] + split_acc(s.skip(1), Seq::empty())
        }
    } else {
        split_acc(s.skip(1), cur.push(s[0]))
    }
}

/// The components of a pattern: the root first (a lone `/` for an absolute
/// pattern), then every non-empty piece between separators.
pub open spec fn spec_components(s: Seq<char>) -> Seq<Seq<char>> {
    if s.len() > 0 && s[0] == '/' {
        seq![seq!['/']] + split_acc(s, Seq::empty())
    } else {
        split_acc(s, Seq::empty())
    }
}

/// Splits a pattern into its components, the root first.
pub fn split_pattern(pattern: &str) -> (r: Vec<String>)
    ensures
        strs(r@) == spec_components(pattern@),
{
    let ghost s = pattern@;
    let n = pattern.unicode_len();
    let mut out: Vec<String> = Vec::new();
    if n > 0 && pattern.get_char(0) == '/' {
        let root = "/";
        proof {
            reveal_strlit("/");
            assert(root@ =~= seq!['/']);
        }
        out.push(root.to_owned());
        proof {
            assert(strs(out@) =~= seq![seq!['/']]);
        }
    }
    let ghost base = strs(out@);
    proof {
        assert(spec_components(s) == base + split_acc(s, Seq::empty()));
        assert(s.skip(0) =~= s);
        assert(s.subrange(0, 0) =~= Seq::<char>::empty());
    }
    let mut i: usize = 0;
    let mut start: usize = 0;
    while i < n
        invariant
            n == s.len(),
            s == pattern@,
            start <= i <= n,
            spec_components(s) == strs(out@) + split_acc(s.skip(i as int), s.subrange(start as int, i as int)),
        decreases n - i,
    {
        let ghost cur = s.subrange(start as int, i as int);
        proof {
            assert(s.skip(i as int)[0] == s[i as int]);
            assert(s.skip(i as int).skip(1) =~= s.skip(i as int + 1));
        }
        if pattern.get_char(i) == '/' {
            if start < i {
                let ghost prev = out@;
                let piece = pattern.substring_char(start, i).to_owned();
                out.push(piece);
                proof {
                    assert(strs(out@) =~= strs(prev).push(cur));
                    assert(split_acc(s.skip(i as int), cur) == seq![cur] + split_acc(
                        s.skip(i as int + 1),
                        Seq::empty(),
                    ));
                    assert(strs(prev) + (seq![cur] + split_acc(s.skip(i as int + 1), Seq::empty()))
                        =~= strs(out@) + split_acc(s.skip(i as int + 1), Seq::empty()));
                }
            }
            start = i + 1;
            proof {
                assert(s.subrange(start as int, i as int + 1) =~= Seq::<char>::empty());
            }
        } else {
            proof {
                assert(s.subrange(start as int, i as int + 1) =~= cur.push(s[i as int]));
            }
        }
        i += 1;
        proof {
            assert(spec_components(s) == strs(out@) + split_acc(
                s.skip(i as int),
                s.subrange(start as int, i as int),
            ));
        }
    }
    let ghost cur = s.subrange(start as int, n as int);
    proof {
        assert(s.skip(n as int) =~= Seq::<char>::empty());
    }
    if start < n {
        let ghost prev = out@;
        let piece = pattern.substring_char(start, n).to_owned();
        out.push(piece);
        proof {
            assert(strs(out@) =~= strs(prev).push(cur));
            assert(strs(prev) + split_acc(Seq::empty(), cur) =~= strs(out@));
        }
    }
    proof {
        assert(strs(out@) =~= spec_components(s));
    }
    out
}

/// Joins one name or link target under a parent path, as `spec_join` says.
pub fn join_path(parent: &str, name: &str) -> (r: String)
    ensures
        r@ == spec_join(parent@, name@),
{
    proof {
        reveal_strlit("/");
        assert(("/")@ =~= seq!['/']);
    }
    let nl = name.unicode_len();
    if nl > 0 && name.get_char(0) == '/' {
        name.to_owned()
    } else {
        let pl = parent.unicode_len();
        if pl > 0 && parent.get_char(pl - 1) == '/' {
            let r = parent.to_owned().concat(name);
            proof {
                assert(r@ =~= spec_join(parent@, name@));
            }
            r
        } else {
            let r = parent.to_owned().concat("/").concat(name);
            proof {
                assert(r@ =~= spec_join(parent@, name@));
            }
            r
        }
    }
}

/// Whether the segment text holds a `*`.
pub fn str_has_star(seg: &str) -> (b: bool)
    ensures
        b == has_star(seg@),
{
    let n = seg.unicode_len();
    let mut i: usize = 0;
    while i < n
        invariant
            n == seg@.len(),
            i <= n,
            forall|j: int| 0 <= j < i ==> seg@[j] != '*',
        decreases n - i,
    {
        if seg.get_char(i) == '*' {
            proof {
                assert(seg@[i as int] == '*');
            }
            return true;
        }
        i += 1;
    }
    false
}

} // verus!
