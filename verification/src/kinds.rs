//! The closed classification of build artifacts and its extension mapping.

use vstd::prelude::*;

verus! {

/// The role a file plays in a C build: translation unit, header, shared
/// library, static library, or compiled object.
#[derive(Debug, Clone, Copy, PartialEq, Eq, Structural)]
pub enum ArtifactKind {
    Source,
    Header,
    SharedLib,
    StaticLib,
    Object,
}

/// The filename extension bound to a kind, as a byte string without the dot.
pub open spec fn ext_of_kind(kind: ArtifactKind) -> Seq<u8> {
    match kind {
        ArtifactKind::Source => seq!['c' as u8],
        ArtifactKind::Header => seq!['h' as u8],
        ArtifactKind::SharedLib => seq!['d' as u8, 'l' as u8, 'l' as u8],
        ArtifactKind::StaticLib => seq!['a' as u8],
        ArtifactKind::Object => seq!['o' as u8],
    }
}

/// Maps an artifact kind to its filename extension.
pub fn file_type_to_extension(file_type: ArtifactKind) -> (r: Vec<u8>)
    ensures
        r@ == ext_of_kind(file_type),
{
    let mut r: Vec<u8> = Vec::new();
    match file_type {
        ArtifactKind::Source => {
            r.push('c' as u8);
        }
        ArtifactKind::Header => {
            r.push('h' as u8);
        }
        ArtifactKind::SharedLib => {
            r.push('d' as u8);
            r.push('l' as u8);
            r.push('l' as u8);
        }
        ArtifactKind::StaticLib => {
            r.push('a' as u8);
        }
        ArtifactKind::Object => {
            r.push('o' as u8);
        }
    }
    proof {
        assert(r@ =~= ext_of_kind(file_type));
    }
    r
}

/// The kind-to-extension mapping is injective: distinct kinds never share an
/// extension, so together with its totality over the closed kind set the
/// mapping is a bijection onto its five extensions.
pub proof fn lemma_ext_of_kind_injective(k1: ArtifactKind, k2: ArtifactKind)
    ensures
        ext_of_kind(k1) == ext_of_kind(k2) ==> k1 == k2,
{
    if ext_of_kind(k1) == ext_of_kind(k2) && k1 != k2 {
        assert(ext_of_kind(k1).len() == ext_of_kind(k2).len());
        assert(ext_of_kind(k1)[0] == ext_of_kind(k2)[0]);
    }
}

} // verus!
