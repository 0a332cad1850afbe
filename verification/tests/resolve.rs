use wildpath::resolve;
use wildpath::resolver::ResolveError;
use wildpath::tree::{FsEntry, FsNode, FsTree};

fn dir(path: &str, names: &[&str]) -> FsEntry {
    FsEntry {
        path: path.to_string(),
        node: FsNode::Dir(names.iter().map(|n| n.to_string()).collect()),
    }
}

fn file(path: &str) -> FsEntry {
    FsEntry { path: path.to_string(), node: FsNode::File }
}

fn link(path: &str, target: &str) -> FsEntry {
    FsEntry { path: path.to_string(), node: FsNode::Symlink(target.to_string()) }
}

fn sorted(mut v: Vec<String>) -> Vec<String> {
    v.sort();
    v
}

fn expect(pattern: &str, tree: &FsTree, want: &[&str]) {
    let got = sorted(resolve(pattern, tree).unwrap());
    let want: Vec<String> = sorted(want.iter().map(|s| s.to_string()).collect());
    assert_eq!(got, want);
}

#[test]
fn ending_asterisk() {
    let tree = FsTree {
        entries: vec![dir("/t", &["A", "B"]), dir("/t/A", &[]), dir("/t/B", &[])],
    };
    expect("/t/*", &tree, &["/t/A", "/t/B"]);
}

#[test]
fn dot_path() {
    let tree = FsTree {
        entries: vec![dir("/t", &["A.B"]), dir("/t/A.B", &["C"]), dir("/t/A.B/C", &[])],
    };
    expect("/t/*.*/*", &tree, &["/t/A.B/C"]);
}

#[test]
fn double_asterisk() {
    let tree = FsTree {
        entries: vec![
            dir("/t", &["A", "B"]),
            dir("/t/A", &["C"]),
            dir("/t/B", &["D"]),
            dir("/t/A/C", &[]),
            dir("/t/B/D", &[]),
        ],
    };
    expect("/t/*/*", &tree, &["/t/A/C", "/t/B/D"]);
}

#[test]
fn not_all_items() {
    let tree = FsTree {
        entries: vec![
            dir("/t", &["XA", "X", "YB", "YX"]),
            dir("/t/XA", &[]),
            dir("/t/X", &[]),
            dir("/t/YB", &[]),
            dir("/t/YX", &[]),
        ],
    };
    expect("/t/X*", &tree, &["/t/XA", "/t/X"]);
}

#[test]
fn double_compound() {
    let tree = FsTree {
        entries: vec![
            dir("/t", &["X", "XA", "YB", "YX"]),
            dir("/t/X", &["Y", "TY"]),
            dir("/t/XA", &["Y"]),
            dir("/t/YB", &["Y"]),
            dir("/t/YX", &[]),
            dir("/t/X/Y", &["Z", "z"]),
            dir("/t/X/TY", &["Z"]),
            dir("/t/XA/Y", &["Z", "TZ", "ZAZ", "ZZZ", "ZA"]),
            dir("/t/YB/Y", &[]),
        ],
    };
    expect(
        "/t/X*/Y/*Z",
        &tree,
        &["/t/X/Y/Z", "/t/XA/Y/Z", "/t/XA/Y/TZ", "/t/XA/Y/ZAZ", "/t/XA/Y/ZZZ"],
    );
}

#[test]
fn files() {
    let tree = FsTree {
        entries: vec![
            dir("/t", &["A"]),
            dir("/t/A", &["a.jpg", "b.jpeg", "c.jg"]),
            file("/t/A/a.jpg"),
            file("/t/A/b.jpeg"),
            file("/t/A/c.jg"),
        ],
    };
    expect("/t/A/*.jp*g", &tree, &["/t/A/a.jpg", "/t/A/b.jpeg"]);
}

#[test]
fn symlinks_unix() {
    let tree = FsTree {
        entries: vec![
            dir("/t", &["A", "B"]),
            dir("/t/A", &["X"]),
            link("/t/A/X", "/t/B"),
            dir("/t/B", &["C"]),
            dir("/t/B/C", &[]),
        ],
    };
    expect("/t/A/*/*", &tree, &["/t/B/C"]);
}

#[test]
fn doc_example() {
    let tree = FsTree {
        entries: vec![
            dir("/t", &["blogs", "videos", "presentations"]),
            dir("/t/blogs", &["blog_1", "blog_2"]),
            dir("/t/blogs/blog_1", &["assets", "post.txt"]),
            dir("/t/blogs/blog_1/assets", &["logo.jpeg"]),
            file("/t/blogs/blog_1/post.txt"),
            file("/t/blogs/blog_1/assets/logo.jpeg"),
            dir("/t/blogs/blog_2", &["assets", "post.txt"]),
            dir("/t/blogs/blog_2/assets", &["research_notes.txt"]),
            file("/t/blogs/blog_2/post.txt"),
            file("/t/blogs/blog_2/assets/research_notes.txt"),
            dir("/t/videos", &["video_1", "video_2", "video_3"]),
            dir("/t/videos/video_1", &["assets", "script.txt"]),
            dir("/t/videos/video_1/assets", &["logo.jpeg"]),
            file("/t/videos/video_1/script.txt"),
            file("/t/videos/video_1/assets/logo.jpeg"),
            dir("/t/videos/video_2", &["assets", "script.txt"]),
            dir("/t/videos/video_2/assets", &["sound_effect.wav"]),
            file("/t/videos/video_2/script.txt"),
            file("/t/videos/video_2/assets/sound_effect.wav"),
            dir("/t/videos/video_3", &["assets", "script.txt"]),
            dir("/t/videos/video_3/assets", &["new_logo.png"]),
            file("/t/videos/video_3/script.txt"),
            file("/t/videos/video_3/assets/new_logo.png"),
            dir("/t/presentations", &["presentation_1"]),
            dir("/t/presentations/presentation_1", &["assets"]),
            dir("/t/presentations/presentation_1/assets", &["logo.jpeg"]),
            file("/t/presentations/presentation_1/assets/logo.jpeg"),
        ],
    };
    expect(
        "/t/*/*/*.txt",
        &tree,
        &[
            "/t/blogs/blog_1/post.txt",
            "/t/blogs/blog_2/post.txt",
            "/t/videos/video_1/script.txt",
            "/t/videos/video_2/script.txt",
            "/t/videos/video_3/script.txt",
        ],
    );
    expect(
        "/t/*/*/assets/*logo*",
        &tree,
        &[
            "/t/blogs/blog_1/assets/logo.jpeg",
            "/t/videos/video_1/assets/logo.jpeg",
            "/t/videos/video_3/assets/new_logo.png",
            "/t/presentations/presentation_1/assets/logo.jpeg",
        ],
    );
    expect(
        "/t/*/*_1/assets/*logo*",
        &tree,
        &[
            "/t/blogs/blog_1/assets/logo.jpeg",
            "/t/videos/video_1/assets/logo.jpeg",
            "/t/presentations/presentation_1/assets/logo.jpeg",
        ],
    );
}

#[test]
fn literal_path_hit() {
    let tree = FsTree {
        entries: vec![dir("/t", &["a"]), dir("/t/a", &["b"]), file("/t/a/b")],
    };
    expect("/t/a/b", &tree, &["/t/a/b"]);
}

#[test]
fn literal_path_miss() {
    let tree = FsTree {
        entries: vec![dir("/t", &["a"]), dir("/t/a", &[])],
    };
    expect("/t/a/b", &tree, &[]);
}

#[test]
fn empty_pattern() {
    let tree = FsTree { entries: vec![] };
    expect("", &tree, &[]);
}

#[test]
fn root_only_pattern() {
    let tree = FsTree { entries: vec![dir("/t", &[])] };
    expect("/t", &tree, &["/t"]);
}

#[test]
fn dot_never_matches_other_characters() {
    let tree = FsTree {
        entries: vec![dir("/t", &["AB", "A.B"]), dir("/t/AB", &[]), dir("/t/A.B", &[])],
    };
    expect("/t/*.*", &tree, &["/t/A.B"]);
}

#[test]
fn star_stays_within_one_level() {
    let tree = FsTree {
        entries: vec![dir("/t", &["A"]), dir("/t/A", &["B"]), dir("/t/A/B", &[])],
    };
    expect("/t/*", &tree, &["/t/A"]);
}

#[test]
fn empty_frontier_short_circuits() {
    let tree = FsTree { entries: vec![dir("/t", &[])] };
    expect("/t/*/x/y/z", &tree, &[]);
}

#[test]
fn missing_literal_short_circuits() {
    let tree = FsTree { entries: vec![dir("/t", &["a"]), dir("/t/a", &[])] };
    expect("/t/missing/*", &tree, &[]);
}

#[test]
fn file_in_frontier_has_no_children() {
    let tree = FsTree {
        entries: vec![dir("/t", &["f"]), file("/t/f")],
    };
    expect("/t/f/*", &tree, &[]);
}

#[test]
fn relative_root() {
    let tree = FsTree {
        entries: vec![dir("t", &["A"]), dir("t/A", &[])],
    };
    expect("t/*", &tree, &["t/A"]);
}

#[test]
fn resolution_is_idempotent() {
    let tree = FsTree {
        entries: vec![
            dir("/t", &["A", "B"]),
            dir("/t/A", &["c.txt"]),
            dir("/t/B", &["c.txt"]),
            file("/t/A/c.txt"),
            file("/t/B/c.txt"),
        ],
    };
    let first = sorted(resolve("/t/*/c.txt", &tree).unwrap());
    let second = sorted(resolve("/t/*/c.txt", &tree).unwrap());
    assert_eq!(first, second);
    assert_eq!(first, vec!["/t/A/c.txt".to_string(), "/t/B/c.txt".to_string()]);
}

#[test]
fn wildcard_that_does_not_compile() {
    let tree = FsTree { entries: vec![dir("/t", &["a"]), dir("/t/a", &[])] };
    let got = resolve("/t/*[", &tree);
    assert_eq!(got, Err(ResolveError::PatternCompile));
}

#[test]
fn unreadable_directory_is_skipped() {
    // A frontier path with no directory entry at all (nothing to list)
    // contributes nothing, while its siblings still do.
    let tree = FsTree {
        entries: vec![
            dir("/t", &["good", "ghost"]),
            dir("/t/good", &["x"]),
            dir("/t/good/x", &[]),
        ],
    };
    expect("/t/*/x", &tree, &["/t/good/x"]);
}

#[test]
fn symlink_target_replaces_candidate() {
    let tree = FsTree {
        entries: vec![
            dir("/t", &["a", "real"]),
            dir("/t/a", &["ln"]),
            link("/t/a/ln", "/t/real"),
            dir("/t/real", &[]),
        ],
    };
    expect("/t/a/*", &tree, &["/t/real"]);
}

#[test]
fn doubled_and_trailing_separators_collapse() {
    let tree = FsTree {
        entries: vec![dir("/t", &["A"]), dir("/t/A", &[])],
    };
    expect("/t//A/", &tree, &["/t/A"]);
    expect("//t/A", &tree, &["/t/A"]);
}

#[test]
fn literal_candidate_through_symlink() {
    // A literal segment that lands on a symlink is replaced by the link's
    // target, so the result is the target path, not the literal path.
    let tree = FsTree {
        entries: vec![
            dir("/t", &["ln", "real"]),
            link("/t/ln", "/t/real"),
            dir("/t/real", &[]),
        ],
    };
    expect("/t/ln", &tree, &["/t/real"]);
}
