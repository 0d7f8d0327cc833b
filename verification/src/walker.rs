//! The directory walker: given an in-memory directory tree, collects every
//! file whose extension matches an artifact kind, case-insensitively and at
//! unbounded depth.

use vstd::prelude::*;
use crate::kinds::{ArtifactKind, ext_of_kind, file_type_to_extension};
use crate::paths::{
    views_of, extension_of, lower_seq, extension_of_path, to_lowercase_bytes, bytes_eq, copy_bytes,
};

verus! {

/// Whether a path's extension matches a kind's extension; the comparison of
/// the extension is case-insensitive, and a path without an extension
/// matches no kind.
pub open spec fn matches_kind(p: Seq<u8>, kind: ArtifactKind) -> bool {
    match extension_of(p) {
        Some(e) => lower_seq(e) == ext_of_kind(kind),
        None => false,
    }
}

/// Decides whether a path's extension matches a kind's extension.
pub fn path_matches_kind(p: &Vec<u8>, kind: ArtifactKind) -> (r: bool)
    ensures
        r == matches_kind(p@, kind),
{
    match extension_of_path(p) {
        Some(e) => {
            let low = to_lowercase_bytes(&e);
            let ext = file_type_to_extension(kind);
            bytes_eq(&low, &ext)
        },
        None => false,
    }
}

/// A directory tree as a traversal of the root found it: entries the walk
/// could not read are simply absent.
pub enum FsTree {
    File { path: Vec<u8> },
    Dir { entries: Vec<FsTree> },
}

/// Every file path in the tree, leftmost first.
pub open spec fn files_of(t: FsTree) -> Seq<Seq<u8>>
    decreases t, 0int, 0int,
{
    match t {
        FsTree::File { path } => seq![path@],
        FsTree::Dir { entries } => files_under(entries, entries.len() as int),
    }
}

/// Every file path of the first `n` entries of a directory.
pub open spec fn files_under(entries: Vec<FsTree>, n: int) -> Seq<Seq<u8>>
    decreases entries, 1int, n,
    via files_under_decreases
{
    if n <= 0 || n > entries.len() {
        Seq::empty()
    } else {
        files_under(entries, n - 1) + files_of(entries[n - 1])
    }
}

#[via_fn]
proof fn files_under_decreases(entries: Vec<FsTree>, n: int) {
    if 0 < n <= entries.len() {
        vstd::std_specs::vec::axiom_vec_index_decreases(entries, n - 1);
    }
}

/// The file paths in the tree whose extension matches the kind, leftmost
/// first.
pub open spec fn matched_of(t: FsTree, kind: ArtifactKind) -> Seq<Seq<u8>>
    decreases t, 0int, 0int,
{
    match t {
        FsTree::File { path } => if matches_kind(path@, kind) {
            seq![path@]
        } else {
            Seq::empty()
        },
        FsTree::Dir { entries } => matched_under(entries, entries.len() as int, kind),
    }
}

/// The matching file paths of the first `n` entries of a directory.
pub open spec fn matched_under(entries: Vec<FsTree>, n: int, kind: ArtifactKind) -> Seq<Seq<u8>>
    decreases entries, 1int, n,
    via matched_under_decreases
{
    if n <= 0 || n > entries.len() {
        Seq::empty()
    } else {
        matched_under(entries, n - 1, kind) + matched_of(entries[n - 1], kind)
    }
}

#[via_fn]
proof fn matched_under_decreases(entries: Vec<FsTree>, n: int, kind: ArtifactKind) {
    if 0 < n <= entries.len() {
        vstd::std_specs::vec::axiom_vec_index_decreases(entries, n - 1);
    }
}

/// Walks the tree and returns every file whose extension matches the kind.
/// An empty result is valid, not an error.
#[verifier::loop_isolation(false)]
pub fn explore_directory(tree: &FsTree, file_type: ArtifactKind) -> (r: Vec<Vec<u8>>)
    ensures
        views_of(r@) == matched_of(*tree, file_type),
    decreases *tree,
{
    match tree {
        FsTree::File { path } => {
            let mut r: Vec<Vec<u8>> = Vec::new();
            if path_matches_kind(path, file_type) {
                r.push(copy_bytes(path));
            }
            proof {
                assert(views_of(r@) =~= matched_of(*tree, file_type));
            }
            r
        },
        FsTree::Dir { entries } => {
            let mut r: Vec<Vec<u8>> = Vec::new();
            let mut i: usize = 0;
            proof {
                assert(views_of(r@) =~= matched_under(*entries, 0, file_type));
            }
            while i < entries.len()
                invariant
                    i <= entries@.len(),
                    views_of(r@) == matched_under(*entries, i as int, file_type),
                decreases entries@.len() - i,
            {
                proof {
                    vstd::std_specs::vec::axiom_vec_index_decreases(*entries, i as int);
                }
                let mut sub = explore_directory(&entries[i], file_type);
                let ghost pre = views_of(r@);
                let ghost subv = views_of(sub@);
                r.append(&mut sub);
                proof {
                    assert(views_of(r@) =~= pre + subv);
                }
                i = i + 1;
            }
            proof {
                assert(matched_of(*tree, file_type) == matched_under(
                    *entries,
                    entries@.len() as int,
                    file_type,
                ));
            }
            r
        },
    }
}

/// Walks the tree for a kind and extends the given collection with the
/// matches.
pub fn collect_files(root: &FsTree, file_type: ArtifactKind, target_collection: &mut Vec<Vec<u8>>)
    ensures
        views_of(final(target_collection)@) == views_of(old(target_collection)@) + matched_of(
            *root,
            file_type,
        ),
{
    let ghost pre = views_of(target_collection@);
    let mut found = explore_directory(root, file_type);
    let ghost foundv = views_of(found@);
    target_collection.append(&mut found);
    proof {
        assert(views_of(target_collection@) =~= pre + foundv);
    }
}

/// Membership in a concatenation of path lists.
pub proof fn lemma_add_contains(a: Seq<Seq<u8>>, b: Seq<Seq<u8>>)
    ensures
        forall|x: Seq<u8>| #[trigger] (a + b).contains(x) <==> a.contains(x) || b.contains(x),
{
    assert forall|x: Seq<u8>| #[trigger] (a + b).contains(x) implies a.contains(x) || b.contains(
        x,
    ) by {
        let i = choose|i: int| 0 <= i < (a + b).len() && (a + b)[i] == x;
        if i < a.len() {
            assert(a[i] == x);
        } else {
            assert(b[i - a.len()] == x);
        }
    }
    assert forall|x: Seq<u8>| a.contains(x) || b.contains(x) implies #[trigger] (a + b).contains(
        x,
    ) by {
        if a.contains(x) {
            let i = choose|i: int| 0 <= i < a.len() && a[i] == x;
            assert((a + b)[i] == x);
        } else {
            let i = choose|i: int| 0 <= i < b.len() && b[i] == x;
            assert((a + b)[a.len() + i] == x);
        }
    }
}

/// A concatenation of path lists repeats nothing exactly when neither part
/// repeats anything and the parts share nothing.
pub proof fn lemma_add_no_duplicates(a: Seq<Seq<u8>>, b: Seq<Seq<u8>>)
    ensures
        (a + b).no_duplicates() <==> (a.no_duplicates() && b.no_duplicates() && forall|x: Seq<u8>|
            !(#[trigger] a.contains(x) && b.contains(x))),
{
    let c = a + b;
    if c.no_duplicates() {
        assert(forall|i: int, j: int|
            0 <= i < a.len() && 0 <= j < a.len() && i != j ==> a[i] == c[i] && a[j] == c[j]);
        assert(forall|i: int, j: int|
            0 <= i < b.len() && 0 <= j < b.len() && i != j ==> b[i] == c[a.len() + i] && b[j]
                == c[a.len() + j]);
        assert forall|x: Seq<u8>| !(#[trigger] a.contains(x) && b.contains(x)) by {
            if a.contains(x) && b.contains(x) {
                let i = choose|i: int| 0 <= i < a.len() && a[i] == x;
                let j = choose|j: int| 0 <= j < b.len() && b[j] == x;
                assert(c[i] == x && c[a.len() + j] == x);
            }
        }
    }
    if a.no_duplicates() && b.no_duplicates() && forall|x: Seq<u8>|
        !(#[trigger] a.contains(x) && b.contains(x)) {
        assert forall|i: int, j: int|
            0 <= i < c.len() && 0 <= j < c.len() && i != j implies c[i] != c[j] by {
            if i < a.len() && j < a.len() {
                assert(c[i] == a[i] && c[j] == a[j]);
            } else if i < a.len() && j >= a.len() {
                assert(c[i] == a[i] && c[j] == b[j - a.len()]);
                if c[i] == c[j] {
                    assert(a.contains(c[i]) && b.contains(c[i]));
                }
            } else if i >= a.len() && j < a.len() {
                assert(c[i] == b[i - a.len()] && c[j] == a[j]);
                if c[i] == c[j] {
                    assert(a.contains(c[j]) && b.contains(c[j]));
                }
            } else {
                assert(c[i] == b[i - a.len()] && c[j] == b[j - a.len()]);
            }
        }
    }
}

/// Discovery is exact for the first `n` entries of a directory.
proof fn lemma_discovery_exact_under(entries: Vec<FsTree>, n: int, kind: ArtifactKind)
    requires
        0 <= n <= entries.len(),
    ensures
        forall|p: Seq<u8>|
            #[trigger] matched_under(entries, n, kind).contains(p) <==> files_under(
                entries,
                n,
            ).contains(p) && matches_kind(p, kind),
        files_under(entries, n).no_duplicates() ==> matched_under(entries, n, kind).no_duplicates(),
    decreases entries, 1int, n,
{
    if n > 0 {
        let fa = files_under(entries, n - 1);
        let fb = files_of(entries[n - 1]);
        let ma = matched_under(entries, n - 1, kind);
        let mb = matched_of(entries[n - 1], kind);
        lemma_discovery_exact_under(entries, n - 1, kind);
        lemma_discovery_exact(entries[n - 1], kind);
        lemma_add_contains(fa, fb);
        lemma_add_contains(ma, mb);
        lemma_add_no_duplicates(fa, fb);
        lemma_add_no_duplicates(ma, mb);
    }
}

/// Discovery is exact: a path stands in the matched set of a tree for a kind
/// exactly when the tree holds it as a file and its extension matches that
/// kind's mapped extension; and when the tree repeats no path, neither does
/// the matched set.
pub proof fn lemma_discovery_exact(t: FsTree, kind: ArtifactKind)
    ensures
        forall|p: Seq<u8>|
            #[trigger] matched_of(t, kind).contains(p) <==> files_of(t).contains(p)
                && matches_kind(p, kind),
        files_of(t).no_duplicates() ==> matched_of(t, kind).no_duplicates(),
    decreases t, 0int, 0int,
{
    match t {
        FsTree::File { path } => {
            assert(files_of(t) == seq![path@]);
            assert(files_of(t)[0] == path@);
            if matches_kind(path@, kind) {
                assert(matched_of(t, kind)[0] == path@);
            }
            assert(files_of(t).contains(path@));
            if matches_kind(path@, kind) {
                assert(matched_of(t, kind).contains(path@));
            } else {
                assert(matched_of(t, kind).len() == 0);
            }
            assert forall|p: Seq<u8>| #[trigger] files_of(t).contains(p) implies p == path@ by {
                let i = choose|i: int| 0 <= i < files_of(t).len() && files_of(t)[i] == p;
            }
            assert forall|p: Seq<u8>| #[trigger] matched_of(t, kind).contains(p) implies p
                == path@ && matches_kind(p, kind) by {
                let i = choose|i: int| 0 <= i < matched_of(t, kind).len() && matched_of(t, kind)[i]
                    == p;
            }
        },
        FsTree::Dir { entries } => {
            let n = entries.len() as int;
            lemma_discovery_exact_under(entries, n, kind);
            assert(matched_of(t, kind) == matched_under(entries, n, kind));
            assert(files_of(t) == files_under(entries, n));
            assert forall|p: Seq<u8>|
                #[trigger] matched_of(t, kind).contains(p) <==> files_of(t).contains(p)
                    && matches_kind(p, kind) by {
                assert(matched_under(entries, n, kind).contains(p) <==> files_under(
                    entries,
                    n,
                ).contains(p) && matches_kind(p, kind));
            }
        },
    }
}

} // verus!
