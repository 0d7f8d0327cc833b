//! The command synthesizer: builds the ordered argument list of each
//! per-unit compile invocation and of the single link invocation. Argument
//! order is fixed — output spec, objects, include paths, library paths,
//! library names, then the math-library and warning flags last — because
//! some toolchains are order-sensitive.

use vstd::prelude::*;
use crate::paths::{
    views_of, slashed, slashed_bytes, file_name_of, file_name_of_path, last_index_of,
    lemma_last_index_of, rfind_byte, copy_range, copy_bytes, append_bytes, starts_with, ends_with,
    bytes_starts_with, bytes_ends_with,
};

verus! {

/// The compiler front end every invocation runs.
pub open spec fn gcc_lit() -> Seq<u8> {
    seq!['g' as u8, 'c' as u8, 'c' as u8]
}

/// The compile-only flag.
pub open spec fn compile_flag() -> Seq<u8> {
    seq!['-' as u8, 'c' as u8]
}

/// The output flag.
pub open spec fn output_flag() -> Seq<u8> {
    seq!['-' as u8, 'o' as u8]
}

/// The include-path flag.
pub open spec fn include_flag() -> Seq<u8> {
    seq!['-' as u8, 'I' as u8]
}

/// The library-search-path flag.
pub open spec fn libpath_flag() -> Seq<u8> {
    seq!['-' as u8, 'L' as u8]
}

/// The library-name flag.
pub open spec fn lib_flag() -> Seq<u8> {
    seq!['-' as u8, 'l' as u8]
}

/// The math-library flag; placed last because its position matters to some
/// toolchains.
pub open spec fn libm_flag() -> Seq<u8> {
    seq!['-' as u8, 'l' as u8, 'm' as u8]
}

/// The warnings flag.
pub open spec fn wall_flag() -> Seq<u8> {
    seq!['-' as u8, 'W' as u8, 'a' as u8, 'l' as u8, 'l' as u8]
}

/// The output subdirectory every object file lands in.
pub open spec fn output_dir_lit() -> Seq<u8> {
    seq!['/' as u8, 'o' as u8, 'u' as u8, 't' as u8, 'p' as u8, 'u' as u8, 't' as u8, '/' as u8]
}

/// The produced binary, under the fixed executable subdirectory.
pub open spec fn exe_sub_lit() -> Seq<u8> {
    seq![
        '/' as u8,
        'e' as u8,
        'x' as u8,
        'e' as u8,
        'c' as u8,
        'u' as u8,
        't' as u8,
        'a' as u8,
        'b' as u8,
        'l' as u8,
        'e' as u8,
        '/' as u8,
        'm' as u8,
        'a' as u8,
        'i' as u8,
        'n' as u8,
    ]
}

/// The shared-library extension, with its dot.
pub open spec fn dll_suffix() -> Seq<u8> {
    seq!['.' as u8, 'd' as u8, 'l' as u8, 'l' as u8]
}

/// The conventional library-name prefix.
pub open spec fn lib_prefix() -> Seq<u8> {
    seq!['l' as u8, 'i' as u8, 'b' as u8]
}

/// One toolchain invocation: a program name and its ordered argument list,
/// never mutated after construction.
pub struct BuildInvocation {
    pub program: Vec<u8>,
    pub args: Vec<Vec<u8>>,
}

/// Builds the program name every invocation runs.
pub fn gcc_bytes() -> (r: Vec<u8>)
    ensures
        r@ == gcc_lit(),
{
    let mut r: Vec<u8> = Vec::new();
    r.push('g' as u8);
    r.push('c' as u8);
    r.push('c' as u8);
    proof {
        assert(r@ =~= gcc_lit());
    }
    r
}

fn compile_flag_bytes() -> (r: Vec<u8>)
    ensures
        r@ == compile_flag(),
{
    let mut r: Vec<u8> = Vec::new();
    r.push('-' as u8);
    r.push('c' as u8);
    proof {
        assert(r@ =~= compile_flag());
    }
    r
}

fn output_flag_bytes() -> (r: Vec<u8>)
    ensures
        r@ == output_flag(),
{
    let mut r: Vec<u8> = Vec::new();
    r.push('-' as u8);
    r.push('o' as u8);
    proof {
        assert(r@ =~= output_flag());
    }
    r
}

fn include_flag_bytes() -> (r: Vec<u8>)
    ensures
        r@ == include_flag(),
{
    let mut r: Vec<u8> = Vec::new();
    r.push('-' as u8);
    r.push('I' as u8);
    proof {
        assert(r@ =~= include_flag());
    }
    r
}

fn libpath_flag_bytes() -> (r: Vec<u8>)
    ensures
        r@ == libpath_flag(),
{
    let mut r: Vec<u8> = Vec::new();
    r.push('-' as u8);
    r.push('L' as u8);
    proof {
        assert(r@ =~= libpath_flag());
    }
    r
}

fn lib_flag_bytes() -> (r: Vec<u8>)
    ensures
        r@ == lib_flag(),
{
    let mut r: Vec<u8> = Vec::new();
    r.push('-' as u8);
    r.push('l' as u8);
    proof {
        assert(r@ =~= lib_flag());
    }
    r
}

fn libm_flag_bytes() -> (r: Vec<u8>)
    ensures
        r@ == libm_flag(),
{
    let mut r: Vec<u8> = Vec::new();
    r.push('-' as u8);
    r.push('l' as u8);
    r.push('m' as u8);
    proof {
        assert(r@ =~= libm_flag());
    }
    r
}

fn wall_flag_bytes() -> (r: Vec<u8>)
    ensures
        r@ == wall_flag(),
{
    let mut r: Vec<u8> = Vec::new();
    r.push('-' as u8);
    r.push('W' as u8);
    r.push('a' as u8);
    r.push('l' as u8);
    r.push('l' as u8);
    proof {
        assert(r@ =~= wall_flag());
    }
    r
}

fn output_dir_bytes() -> (r: Vec<u8>)
    ensures
        r@ == output_dir_lit(),
{
    let mut r: Vec<u8> = Vec::new();
    r.push('/' as u8);
    r.push('o' as u8);
    r.push('u' as u8);
    r.push('t' as u8);
    r.push('p' as u8);
    r.push('u' as u8);
    r.push('t' as u8);
    r.push('/' as u8);
    proof {
        assert(r@ =~= output_dir_lit());
    }
    r
}

pub(crate) fn exe_sub_bytes() -> (r: Vec<u8>)
    ensures
        r@ == exe_sub_lit(),
{
    let mut r: Vec<u8> = Vec::new();
    r.push('/' as u8);
    r.push('e' as u8);
    r.push('x' as u8);
    r.push('e' as u8);
    r.push('c' as u8);
    r.push('u' as u8);
    r.push('t' as u8);
    r.push('a' as u8);
    r.push('b' as u8);
    r.push('l' as u8);
    r.push('e' as u8);
    r.push('/' as u8);
    r.push('m' as u8);
    r.push('a' as u8);
    r.push('i' as u8);
    r.push('n' as u8);
    proof {
        assert(r@ =~= exe_sub_lit());
    }
    r
}

fn dll_suffix_bytes() -> (r: Vec<u8>)
    ensures
        r@ == dll_suffix(),
{
    let mut r: Vec<u8> = Vec::new();
    r.push('.' as u8);
    r.push('d' as u8);
    r.push('l' as u8);
    r.push('l' as u8);
    proof {
        assert(r@ =~= dll_suffix());
    }
    r
}

fn lib_prefix_bytes() -> (r: Vec<u8>)
    ensures
        r@ == lib_prefix(),
{
    let mut r: Vec<u8> = Vec::new();
    r.push('l' as u8);
    r.push('i' as u8);
    r.push('b' as u8);
    proof {
        assert(r@ =~= lib_prefix());
    }
    r
}

/// A file name with its extension replaced by the object extension; a name
/// without an extension gains the object extension.
pub open spec fn with_object_ext(name: Seq<u8>) -> Seq<u8> {
    let d = last_index_of(name, '.' as u8);
    if d <= 0 {
        name + seq!['.' as u8, 'o' as u8]
    } else {
        name.subrange(0, d) + seq!['.' as u8, 'o' as u8]
    }
}

/// The object file a translation unit compiles to: its file name with the
/// object extension, in the fixed output directory under the target path,
/// with separators normalized.
pub open spec fn object_path(target: Seq<u8>, src: Seq<u8>) -> Seq<u8> {
    slashed(target) + output_dir_lit() + slashed(with_object_ext(file_name_of(src)))
}

/// The produced binary's path under the target path.
pub open spec fn exe_path_of(target: Seq<u8>) -> Seq<u8> {
    slashed(target) + exe_sub_lit()
}

/// The argument list of one compile invocation: source path, compile-only
/// flag, output flag, object path — in that order.
pub open spec fn compile_args(target: Seq<u8>, src: Seq<u8>) -> Seq<Seq<u8>> {
    seq![slashed(src), compile_flag(), output_flag(), object_path(target, src)]
}

/// Builds the compile invocation of one translation unit.
pub fn compile_invocation(target_path: &Vec<u8>, c_file: &Vec<u8>) -> (r: BuildInvocation)
    ensures
        r.program@ == gcc_lit(),
        views_of(r.args@) == compile_args(target_path@, c_file@),
{
    let name = file_name_of_path(c_file);
    let n = name.len();
    proof {
        lemma_last_index_of(name@, '.' as u8);
    }
    let mut obj: Vec<u8>;
    match rfind_byte(&name, '.' as u8) {
        Some(d) => {
            if d > 0 {
                obj = copy_range(&name, 0, d);
            } else {
                obj = copy_bytes(&name);
            }
        },
        None => {
            obj = copy_bytes(&name);
        },
    }
    obj.push('.' as u8);
    obj.push('o' as u8);
    proof {
        if last_index_of(name@, '.' as u8) <= 0 {
            assert(obj@ =~= name@ + seq!['.' as u8, 'o' as u8]);
        } else {
            assert(obj@ =~= name@.subrange(0, last_index_of(name@, '.' as u8)) + seq![
                '.' as u8,
                'o' as u8,
            ]);
        }
        assert(name@.subrange(0, name@.len() as int) =~= name@);
    }
    let mut out_path = slashed_bytes(target_path);
    let dir = output_dir_bytes();
    append_bytes(&mut out_path, &dir);
    let obj_slashed = slashed_bytes(&obj);
    append_bytes(&mut out_path, &obj_slashed);
    proof {
        assert(out_path@ =~= object_path(target_path@, c_file@));
    }
    let mut args: Vec<Vec<u8>> = Vec::new();
    args.push(slashed_bytes(c_file));
    args.push(compile_flag_bytes());
    args.push(output_flag_bytes());
    args.push(out_path);
    proof {
        assert(views_of(args@) =~= compile_args(target_path@, c_file@));
    }
    BuildInvocation { program: gcc_bytes(), args }
}

/// A library file name with its platform decoration stripped: the
/// shared-library extension comes off when present, then the conventional
/// prefix comes off when present.
pub open spec fn strip_lib_decoration(name: Seq<u8>) -> Seq<u8> {
    let base = if ends_with(name, dll_suffix()) {
        name.subrange(0, name.len() - 4)
    } else {
        name
    };
    if starts_with(base, lib_prefix()) {
        base.subrange(3, base.len() as int)
    } else {
        base
    }
}

/// Strips the platform decoration from one library file name.
pub fn strip_library_name(library: &Vec<u8>) -> (r: Vec<u8>)
    ensures
        r@ == strip_lib_decoration(library@),
{
    let suffix = dll_suffix_bytes();
    let prefix = lib_prefix_bytes();
    let base: Vec<u8> = if bytes_ends_with(library, &suffix) {
        copy_range(library, 0, library.len() - 4)
    } else {
        copy_bytes(library)
    };
    if bytes_starts_with(&base, &prefix) {
        copy_range(&base, 3, base.len())
    } else {
        base
    }
}

/// A flag repeated before each item, in item order.
pub open spec fn pair_flags(flag: Seq<u8>, items: Seq<Seq<u8>>) -> Seq<Seq<u8>>
    decreases items.len(),
{
    if items.len() == 0 {
        Seq::empty()
    } else {
        pair_flags(flag, items.drop_last()) + seq![flag, items.last()]
    }
}

/// The library-name flags: one per library, each name stripped of its
/// platform decoration, in library order.
pub open spec fn lib_flags(libs: Seq<Seq<u8>>) -> Seq<Seq<u8>>
    decreases libs.len(),
{
    if libs.len() == 0 {
        Seq::empty()
    } else {
        lib_flags(libs.drop_last()) + seq![lib_flag(), strip_lib_decoration(libs.last())]
    }
}

/// The argument list of the single link invocation, in its fixed order:
/// output spec, every object, include paths, library search paths, library
/// names, then the math-library and warning flags.
pub open spec fn link_args(
    target: Seq<u8>,
    objects: Seq<Seq<u8>>,
    incs: Seq<Seq<u8>>,
    lps: Seq<Seq<u8>>,
    libs: Seq<Seq<u8>>,
) -> Seq<Seq<u8>> {
    seq![output_flag(), exe_path_of(target)] + objects + pair_flags(include_flag(), incs)
        + pair_flags(libpath_flag(), lps) + lib_flags(libs) + seq![libm_flag(), wall_flag()]
}

/// Builds the link invocation over the full object set.
pub fn link_invocation(
    target_path: &Vec<u8>,
    o_files: &Vec<Vec<u8>>,
    include_paths: &Vec<Vec<u8>>,
    library_paths: &Vec<Vec<u8>>,
    libraries: &Vec<Vec<u8>>,
) -> (r: BuildInvocation)
    ensures
        r.program@ == gcc_lit(),
        views_of(r.args@) == link_args(
            target_path@,
            views_of(o_files@),
            views_of(include_paths@),
            views_of(library_paths@),
            views_of(libraries@),
        ),
{
    let ghost objs = views_of(o_files@);
    let ghost incs = views_of(include_paths@);
    let ghost lps = views_of(library_paths@);
    let ghost libs = views_of(libraries@);
    let mut exe = slashed_bytes(target_path);
    let sub = exe_sub_bytes();
    append_bytes(&mut exe, &sub);
    let mut args: Vec<Vec<u8>> = Vec::new();
    args.push(output_flag_bytes());
    args.push(exe);
    let ghost head = seq![output_flag(), exe_path_of(target_path@)];
    proof {
        assert(views_of(args@) =~= head);
    }
    let mut i: usize = 0;
    while i < o_files.len()
        invariant
            i <= o_files@.len(),
            objs == views_of(o_files@),
            objs.len() == o_files@.len(),
            views_of(args@) == head + objs.subrange(0, i as int),
        decreases o_files@.len() - i,
    {
        let ghost pre = views_of(args@);
        args.push(copy_bytes(&o_files[i]));
        proof {
            assert(views_of(args@) =~= pre.push(objs[i as int]));
            assert(head + objs.subrange(0, i + 1) =~= pre.push(objs[i as int]));
        }
        i = i + 1;
    }
    proof {
        assert(objs.subrange(0, objs.len() as int) =~= objs);
    }
    let ghost head_o = head + objs;
    let mut i: usize = 0;
    proof {
        assert(pair_flags(include_flag(), incs.subrange(0, 0)) =~= Seq::<Seq<u8>>::empty()) by {
            assert(incs.subrange(0, 0) =~= Seq::<Seq<u8>>::empty());
        }
        assert(views_of(args@) =~= head_o + pair_flags(include_flag(), incs.subrange(0, 0)));
    }
    while i < include_paths.len()
        invariant
            i <= include_paths@.len(),
            incs == views_of(include_paths@),
            incs.len() == include_paths@.len(),
            views_of(args@) == head_o + pair_flags(include_flag(), incs.subrange(0, i as int)),
        decreases include_paths@.len() - i,
    {
        let ghost pre_pairs = pair_flags(include_flag(), incs.subrange(0, i as int));
        proof {
            assert(incs.subrange(0, i + 1).drop_last() =~= incs.subrange(0, i as int));
            assert(incs.subrange(0, i + 1).last() == incs[i as int]);
        }
        let ghost pre = views_of(args@);
        args.push(include_flag_bytes());
        args.push(copy_bytes(&include_paths[i]));
        proof {
            assert(views_of(args@) =~= pre.push(include_flag()).push(incs[i as int]));
            assert(head_o + pair_flags(include_flag(), incs.subrange(0, i + 1)) =~= pre.push(
                include_flag(),
            ).push(incs[i as int]));
        }
        i = i + 1;
    }
    proof {
        assert(incs.subrange(0, incs.len() as int) =~= incs);
    }
    let ghost head_i = head_o + pair_flags(include_flag(), incs);
    let mut i: usize = 0;
    proof {
        assert(pair_flags(libpath_flag(), lps.subrange(0, 0)) =~= Seq::<Seq<u8>>::empty()) by {
            assert(lps.subrange(0, 0) =~= Seq::<Seq<u8>>::empty());
        }
        assert(views_of(args@) =~= head_i + pair_flags(libpath_flag(), lps.subrange(0, 0)));
    }
    while i < library_paths.len()
        invariant
            i <= library_paths@.len(),
            lps == views_of(library_paths@),
            lps.len() == library_paths@.len(),
            views_of(args@) == head_i + pair_flags(libpath_flag(), lps.subrange(0, i as int)),
        decreases library_paths@.len() - i,
    {
        proof {
            assert(lps.subrange(0, i + 1).drop_last() =~= lps.subrange(0, i as int));
            assert(lps.subrange(0, i + 1).last() == lps[i as int]);
        }
        let ghost pre = views_of(args@);
        args.push(libpath_flag_bytes());
        args.push(copy_bytes(&library_paths[i]));
        proof {
            assert(views_of(args@) =~= pre.push(libpath_flag()).push(lps[i as int]));
            assert(head_i + pair_flags(libpath_flag(), lps.subrange(0, i + 1)) =~= pre.push(
                libpath_flag(),
            ).push(lps[i as int]));
        }
        i = i + 1;
    }
    proof {
        assert(lps.subrange(0, lps.len() as int) =~= lps);
    }
    let ghost head_l = head_i + pair_flags(libpath_flag(), lps);
    let mut i: usize = 0;
    proof {
        assert(lib_flags(libs.subrange(0, 0)) =~= Seq::<Seq<u8>>::empty()) by {
            assert(libs.subrange(0, 0) =~= Seq::<Seq<u8>>::empty());
        }
        assert(views_of(args@) =~= head_l + lib_flags(libs.subrange(0, 0)));
    }
    while i < libraries.len()
        invariant
            i <= libraries@.len(),
            libs == views_of(libraries@),
            libs.len() == libraries@.len(),
            views_of(args@) == head_l + lib_flags(libs.subrange(0, i as int)),
        decreases libraries@.len() - i,
    {
        proof {
            assert(libs.subrange(0, i + 1).drop_last() =~= libs.subrange(0, i as int));
            assert(libs.subrange(0, i + 1).last() == libs[i as int]);
        }
        let ghost pre = views_of(args@);
        let stripped = strip_library_name(&libraries[i]);
        args.push(lib_flag_bytes());
        args.push(stripped);
        proof {
            assert(views_of(args@) =~= pre.push(lib_flag()).push(
                strip_lib_decoration(libs[i as int]),
            ));
            assert(head_l + lib_flags(libs.subrange(0, i + 1)) =~= pre.push(lib_flag()).push(
                strip_lib_decoration(libs[i as int]),
            ));
        }
        i = i + 1;
    }
    proof {
        assert(libs.subrange(0, libs.len() as int) =~= libs);
    }
    let ghost pre = views_of(args@);
    args.push(libm_flag_bytes());
    args.push(wall_flag_bytes());
    proof {
        assert(views_of(args@) =~= pre.push(libm_flag()).push(wall_flag()));
        assert(views_of(args@) =~= link_args(target_path@, objs, incs, lps, libs));
    }
    BuildInvocation { program: gcc_bytes(), args }
}

/// The outcome of one compile invocation: the object path it was to
/// produce, and whether the external process succeeded.
pub struct CompileOutcome {
    pub object_path: Vec<u8>,
    pub success: bool,
}

/// The object paths of the outcomes that succeeded, in order.
pub open spec fn succeeded_objects(s: Seq<CompileOutcome>) -> Seq<Seq<u8>>
    decreases s.len(),
{
    if s.len() == 0 {
        Seq::empty()
    } else {
        let rest = succeeded_objects(s.drop_last());
        if s.last().success {
            rest.push(s.last().object_path@)
        } else {
            rest
        }
    }
}

/// Collects the objects of the compile stage that succeeded: a unit whose
/// compile failed is simply absent, never retried, and the link stage still
/// runs over the rest.
pub fn collect_compiled_objects(results: &Vec<CompileOutcome>) -> (r: Vec<Vec<u8>>)
    ensures
        views_of(r@) == succeeded_objects(results@),
{
    let mut r: Vec<Vec<u8>> = Vec::new();
    let mut i: usize = 0;
    proof {
        assert(results@.subrange(0, 0) =~= Seq::<CompileOutcome>::empty());
        assert(views_of(r@) =~= succeeded_objects(results@.subrange(0, 0)));
    }
    while i < results.len()
        invariant
            i <= results@.len(),
            views_of(r@) == succeeded_objects(results@.subrange(0, i as int)),
        decreases results@.len() - i,
    {
        proof {
            assert(results@.subrange(0, i + 1).drop_last() =~= results@.subrange(0, i as int));
            assert(results@.subrange(0, i + 1).last() == results@[i as int]);
        }
        let ghost pre = views_of(r@);
        if results[i].success {
            r.push(copy_bytes(&results[i].object_path));
            proof {
                assert(views_of(r@) =~= pre.push(results@[i as int].object_path@));
            }
        }
        i = i + 1;
    }
    proof {
        assert(results@.subrange(0, results@.len() as int) =~= results@);
    }
    r
}

} // verus!
