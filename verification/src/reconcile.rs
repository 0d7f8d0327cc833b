//! The reconciler: partitions the declared include references by the kind
//! their own extension infers, and diffs each partition against that kind's
//! discovered file set. The diff is advisory: missing entries are reported,
//! never fatal.

use vstd::prelude::*;
use crate::kinds::{ArtifactKind, ext_of_kind, file_type_to_extension};
use crate::paths::{
    views_of, extension_of, lower_seq, extension_of_path, to_lowercase_bytes, bytes_eq,
    contains_bytes, copy_bytes,
};
use crate::includes::IncludeSet;
use crate::walker::matches_kind;

verus! {

/// The kind a reference's own extension infers, case-insensitively; a
/// missing or unrecognized extension infers none, and such a reference is
/// dropped from reconciliation.
pub open spec fn classify_ref(p: Seq<u8>) -> Option<ArtifactKind> {
    match extension_of(p) {
        Some(e) => {
            let low = lower_seq(e);
            if low == ext_of_kind(ArtifactKind::Source) {
                Some(ArtifactKind::Source)
            } else if low == ext_of_kind(ArtifactKind::Header) {
                Some(ArtifactKind::Header)
            } else if low == ext_of_kind(ArtifactKind::SharedLib) {
                Some(ArtifactKind::SharedLib)
            } else if low == ext_of_kind(ArtifactKind::StaticLib) {
                Some(ArtifactKind::StaticLib)
            } else if low == ext_of_kind(ArtifactKind::Object) {
                Some(ArtifactKind::Object)
            } else {
                None
            }
        },
        None => None,
    }
}

/// Classification agrees with the walker's extension match: a reference is
/// classified as a kind exactly when its extension matches that kind.
pub proof fn lemma_classify_matches(p: Seq<u8>, kind: ArtifactKind)
    ensures
        classify_ref(p) == Some(kind) <==> matches_kind(p, kind),
{
    crate::kinds::lemma_ext_of_kind_injective(ArtifactKind::Source, kind);
    crate::kinds::lemma_ext_of_kind_injective(ArtifactKind::Header, kind);
    crate::kinds::lemma_ext_of_kind_injective(ArtifactKind::SharedLib, kind);
    crate::kinds::lemma_ext_of_kind_injective(ArtifactKind::StaticLib, kind);
    crate::kinds::lemma_ext_of_kind_injective(ArtifactKind::Object, kind);
}

/// Infers the kind of one declared reference; `None` is the visible drop
/// branch for unrecognized extensions.
pub fn classify_reference(p: &Vec<u8>) -> (r: Option<ArtifactKind>)
    ensures
        r == classify_ref(p@),
{
    match extension_of_path(p) {
        Some(e) => {
            let low = to_lowercase_bytes(&e);
            let c_ext = file_type_to_extension(ArtifactKind::Source);
            let h_ext = file_type_to_extension(ArtifactKind::Header);
            let dll_ext = file_type_to_extension(ArtifactKind::SharedLib);
            let a_ext = file_type_to_extension(ArtifactKind::StaticLib);
            let o_ext = file_type_to_extension(ArtifactKind::Object);
            if bytes_eq(&low, &c_ext) {
                Some(ArtifactKind::Source)
            } else if bytes_eq(&low, &h_ext) {
                Some(ArtifactKind::Header)
            } else if bytes_eq(&low, &dll_ext) {
                Some(ArtifactKind::SharedLib)
            } else if bytes_eq(&low, &a_ext) {
                Some(ArtifactKind::StaticLib)
            } else if bytes_eq(&low, &o_ext) {
                Some(ArtifactKind::Object)
            } else {
                None
            }
        },
        None => None,
    }
}

/// The references in `s` whose extension infers `kind`, in order.
pub open spec fn of_kind(s: Seq<Seq<u8>>, kind: ArtifactKind) -> Seq<Seq<u8>>
    decreases s.len(),
{
    if s.len() == 0 {
        Seq::empty()
    } else {
        let rest = of_kind(s.drop_last(), kind);
        if classify_ref(s.last()) == Some(kind) {
            rest.push(s.last())
        } else {
            rest
        }
    }
}

/// Partitions the declared reference set by inferred kind into the expected
/// translation units, headers, shared libraries, static libraries and
/// objects; references of no recognized kind fall into no partition.
pub fn split_files_by_extension(unique_library_files: &IncludeSet) -> (r: (
    Vec<Vec<u8>>,
    Vec<Vec<u8>>,
    Vec<Vec<u8>>,
    Vec<Vec<u8>>,
    Vec<Vec<u8>>,
))
    ensures
        views_of(r.0@) == of_kind(views_of(unique_library_files.items@), ArtifactKind::Source),
        views_of(r.1@) == of_kind(views_of(unique_library_files.items@), ArtifactKind::Header),
        views_of(r.2@) == of_kind(views_of(unique_library_files.items@), ArtifactKind::SharedLib),
        views_of(r.3@) == of_kind(views_of(unique_library_files.items@), ArtifactKind::StaticLib),
        views_of(r.4@) == of_kind(views_of(unique_library_files.items@), ArtifactKind::Object),
{
    let items = &unique_library_files.items;
    let ghost vs = views_of(items@);
    let mut c_files: Vec<Vec<u8>> = Vec::new();
    let mut h_files: Vec<Vec<u8>> = Vec::new();
    let mut dll_files: Vec<Vec<u8>> = Vec::new();
    let mut a_files: Vec<Vec<u8>> = Vec::new();
    let mut o_files: Vec<Vec<u8>> = Vec::new();
    let mut i: usize = 0;
    proof {
        assert(vs.subrange(0, 0) =~= Seq::<Seq<u8>>::empty());
        assert(views_of(c_files@) =~= of_kind(vs.subrange(0, 0), ArtifactKind::Source));
        assert(views_of(h_files@) =~= of_kind(vs.subrange(0, 0), ArtifactKind::Header));
        assert(views_of(dll_files@) =~= of_kind(vs.subrange(0, 0), ArtifactKind::SharedLib));
        assert(views_of(a_files@) =~= of_kind(vs.subrange(0, 0), ArtifactKind::StaticLib));
        assert(views_of(o_files@) =~= of_kind(vs.subrange(0, 0), ArtifactKind::Object));
    }
    while i < items.len()
        invariant
            i <= items@.len(),
            vs == views_of(items@),
            vs.len() == items@.len(),
            views_of(c_files@) == of_kind(vs.subrange(0, i as int), ArtifactKind::Source),
            views_of(h_files@) == of_kind(vs.subrange(0, i as int), ArtifactKind::Header),
            views_of(dll_files@) == of_kind(vs.subrange(0, i as int), ArtifactKind::SharedLib),
            views_of(a_files@) == of_kind(vs.subrange(0, i as int), ArtifactKind::StaticLib),
            views_of(o_files@) == of_kind(vs.subrange(0, i as int), ArtifactKind::Object),
        decreases items@.len() - i,
    {
        proof {
            assert(vs.subrange(0, i + 1).drop_last() =~= vs.subrange(0, i as int));
            assert(vs.subrange(0, i + 1).last() == vs[i as int]);
            assert(vs[i as int] == items@[i as int]@);
        }
        let file = &items[i];
        let ghost pre_c = views_of(c_files@);
        let ghost pre_h = views_of(h_files@);
        let ghost pre_dll = views_of(dll_files@);
        let ghost pre_a = views_of(a_files@);
        let ghost pre_o = views_of(o_files@);
        match classify_reference(file) {
            Some(ArtifactKind::Source) => {
                c_files.push(copy_bytes(file));
                proof {
                    assert(views_of(c_files@) =~= pre_c.push(vs[i as int]));
                }
            },
            Some(ArtifactKind::Header) => {
                h_files.push(copy_bytes(file));
                proof {
                    assert(views_of(h_files@) =~= pre_h.push(vs[i as int]));
                }
            },
            Some(ArtifactKind::SharedLib) => {
                dll_files.push(copy_bytes(file));
                proof {
                    assert(views_of(dll_files@) =~= pre_dll.push(vs[i as int]));
                }
            },
            Some(ArtifactKind::StaticLib) => {
                a_files.push(copy_bytes(file));
                proof {
                    assert(views_of(a_files@) =~= pre_a.push(vs[i as int]));
                }
            },
            Some(ArtifactKind::Object) => {
                o_files.push(copy_bytes(file));
                proof {
                    assert(views_of(o_files@) =~= pre_o.push(vs[i as int]));
                }
            },
            None => {},
        }
        i = i + 1;
    }
    proof {
        assert(vs.subrange(0, vs.len() as int) =~= vs);
    }
    (c_files, h_files, dll_files, a_files, o_files)
}

/// The expected entries absent from the found list, by exact textual
/// equality of whole path strings, in declaration order.
pub open spec fn missing_from(found: Seq<Seq<u8>>, expected: Seq<Seq<u8>>) -> Seq<Seq<u8>>
    decreases expected.len(),
{
    if expected.len() == 0 {
        Seq::empty()
    } else {
        let rest = missing_from(found, expected.drop_last());
        if found.contains(expected.last()) {
            rest
        } else {
            rest.push(expected.last())
        }
    }
}

/// Diffs one kind's declared references against its discovered files: the
/// result lists every expected entry that the file list does not hold, by
/// exact textual equality. The diff is advisory; the caller only logs it.
pub fn check_all_files(file_list: &Vec<Vec<u8>>, expected_files: &Vec<Vec<u8>>) -> (missing: Vec<
    Vec<u8>,
>)
    ensures
        views_of(missing@) == missing_from(views_of(file_list@), views_of(expected_files@)),
{
    let ghost found = views_of(file_list@);
    let ghost exp = views_of(expected_files@);
    let mut missing: Vec<Vec<u8>> = Vec::new();
    let mut i: usize = 0;
    proof {
        assert(exp.subrange(0, 0) =~= Seq::<Seq<u8>>::empty());
        assert(views_of(missing@) =~= missing_from(found, exp.subrange(0, 0)));
    }
    while i < expected_files.len()
        invariant
            i <= expected_files@.len(),
            found == views_of(file_list@),
            exp == views_of(expected_files@),
            exp.len() == expected_files@.len(),
            views_of(missing@) == missing_from(found, exp.subrange(0, i as int)),
        decreases expected_files@.len() - i,
    {
        proof {
            assert(exp.subrange(0, i + 1).drop_last() =~= exp.subrange(0, i as int));
            assert(exp.subrange(0, i + 1).last() == exp[i as int]);
            assert(exp[i as int] == expected_files@[i as int]@);
        }
        let ghost pre = views_of(missing@);
        let include_file = &expected_files[i];
        if !contains_bytes(file_list, include_file) {
            missing.push(copy_bytes(include_file));
            proof {
                assert(views_of(missing@) =~= pre.push(exp[i as int]));
            }
        }
        i = i + 1;
    }
    proof {
        assert(exp.subrange(0, exp.len() as int) =~= exp);
    }
    missing
}

} // verus!
