//! The immutable run context: built once at startup from the two positional
//! roots and the date, then passed explicitly into every component. It
//! replaces process-wide mutable state, and derives the target, log and
//! launch paths that the rest of the run uses.

use vstd::prelude::*;
use crate::paths::{views_of, file_name_of, file_name_of_path, copy_bytes, append_bytes};
use crate::commands::{exe_path_of, exe_sub_bytes};

verus! {

/// The path separator.
pub open spec fn slash_lit() -> Seq<u8> {
    seq!['/' as u8]
}

/// The log subdirectory, with its trailing separator.
pub open spec fn logs_dir_lit() -> Seq<u8> {
    seq!['/' as u8, 'l' as u8, 'o' as u8, 'g' as u8, 's' as u8, '/' as u8]
}

/// The separator between project name and date in a log file name.
pub open spec fn underscore_lit() -> Seq<u8> {
    seq!['_' as u8]
}

/// The log file extension, with its dot.
pub open spec fn log_ext_lit() -> Seq<u8> {
    seq!['.' as u8, 'l' as u8, 'o' as u8, 'g' as u8]
}

/// The executable subdirectory.
pub open spec fn exe_dir_lit() -> Seq<u8> {
    seq![
        '/' as u8,
        'e' as u8,
        'x' as u8,
        'e' as u8,
        'c' as u8,
        'u' as u8,
        't' as u8,
        'a' as u8,
        'b' as u8,
        'l' as u8,
        'e' as u8,
    ]
}

/// The source subdirectory.
pub open spec fn source_dir_lit() -> Seq<u8> {
    seq!['/' as u8, 's' as u8, 'o' as u8, 'u' as u8, 'r' as u8, 'c' as u8, 'e' as u8]
}

/// The output subdirectory.
pub open spec fn output_sub_lit() -> Seq<u8> {
    seq!['/' as u8, 'o' as u8, 'u' as u8, 't' as u8, 'p' as u8, 'u' as u8, 't' as u8]
}

/// The shared-library subdirectory.
pub open spec fn dll_dir_lit() -> Seq<u8> {
    seq!['/' as u8, 'd' as u8, 'l' as u8, 'l' as u8]
}

/// The static-library subdirectory.
pub open spec fn a_dir_lit() -> Seq<u8> {
    seq!['/' as u8, 'a' as u8]
}

fn slash_bytes() -> (r: Vec<u8>)
    ensures
        r@ == slash_lit(),
{
    let mut r: Vec<u8> = Vec::new();
    r.push('/' as u8);
    proof {
        assert(r@ =~= slash_lit());
    }
    r
}

fn logs_dir_bytes() -> (r: Vec<u8>)
    ensures
        r@ == logs_dir_lit(),
{
    let mut r: Vec<u8> = Vec::new();
    r.push('/' as u8);
    r.push('l' as u8);
    r.push('o' as u8);
    r.push('g' as u8);
    r.push('s' as u8);
    r.push('/' as u8);
    proof {
        assert(r@ =~= logs_dir_lit());
    }
    r
}

fn log_ext_bytes() -> (r: Vec<u8>)
    ensures
        r@ == log_ext_lit(),
{
    let mut r: Vec<u8> = Vec::new();
    r.push('.' as u8);
    r.push('l' as u8);
    r.push('o' as u8);
    r.push('g' as u8);
    proof {
        assert(r@ =~= log_ext_lit());
    }
    r
}

fn exe_dir_bytes() -> (r: Vec<u8>)
    ensures
        r@ == exe_dir_lit(),
{
    let mut r: Vec<u8> = Vec::new();
    r.push('/' as u8);
    r.push('e' as u8);
    r.push('x' as u8);
    r.push('e' as u8);
    r.push('c' as u8);
    r.push('u' as u8);
    r.push('t' as u8);
    r.push('a' as u8);
    r.push('b' as u8);
    r.push('l' as u8);
    r.push('e' as u8);
    proof {
        assert(r@ =~= exe_dir_lit());
    }
    r
}

fn source_dir_bytes() -> (r: Vec<u8>)
    ensures
        r@ == source_dir_lit(),
{
    let mut r: Vec<u8> = Vec::new();
    r.push('/' as u8);
    r.push('s' as u8);
    r.push('o' as u8);
    r.push('u' as u8);
    r.push('r' as u8);
    r.push('c' as u8);
    r.push('e' as u8);
    proof {
        assert(r@ =~= source_dir_lit());
    }
    r
}

fn output_sub_bytes() -> (r: Vec<u8>)
    ensures
        r@ == output_sub_lit(),
{
    let mut r: Vec<u8> = Vec::new();
    r.push('/' as u8);
    r.push('o' as u8);
    r.push('u' as u8);
    r.push('t' as u8);
    r.push('p' as u8);
    r.push('u' as u8);
    r.push('t' as u8);
    proof {
        assert(r@ =~= output_sub_lit());
    }
    r
}

fn dll_dir_bytes() -> (r: Vec<u8>)
    ensures
        r@ == dll_dir_lit(),
{
    let mut r: Vec<u8> = Vec::new();
    r.push('/' as u8);
    r.push('d' as u8);
    r.push('l' as u8);
    r.push('l' as u8);
    proof {
        assert(r@ =~= dll_dir_lit());
    }
    r
}

fn a_dir_bytes() -> (r: Vec<u8>)
    ensures
        r@ == a_dir_lit(),
{
    let mut r: Vec<u8> = Vec::new();
    r.push('/' as u8);
    r.push('a' as u8);
    proof {
        assert(r@ =~= a_dir_lit());
    }
    r
}

/// Relies on chrono's `Local::now` and `DateTime::format`: reads the clock
/// and renders the local date as year, month and day. The result depends on
/// the clock and time zone, so nothing is assumed of it.
#[verifier::external_body]
fn get_date() -> (r: Vec<u8>) {
    chrono::Local::now().format("%Y-%m-%d").to_string().into_bytes()
}

/// The immutable context of one pipeline run.
pub struct RunContext {
    pub project_path: Vec<u8>,
    pub project_name: Vec<u8>,
    pub target_path: Vec<u8>,
    pub formatted_time: Vec<u8>,
    pub log_path: Vec<u8>,
    pub log_file: Vec<u8>,
}

/// How a well-formed context's fields derive from the two positional roots:
/// the project name is the source root's final path component, the target
/// path puts the project under the target root, the log path and log file
/// name derive from those and from the context's date stamp.
pub open spec fn ctx_wf(ctx: RunContext, project_path: Seq<u8>, target_root: Seq<u8>) -> bool {
    &&& ctx.project_path@ == project_path
    &&& ctx.project_name@ == file_name_of(project_path)
    &&& ctx.target_path@ == target_root + slash_lit() + file_name_of(project_path)
    &&& ctx.log_path@ == ctx.target_path@ + logs_dir_lit()
    &&& ctx.log_file@ == file_name_of(project_path) + underscore_lit() + ctx.formatted_time@
        + log_ext_lit()
}

impl RunContext {
    /// Builds the context from the two positional roots and a given date
    /// stamp.
    pub fn with_time(project_path: Vec<u8>, target_root: Vec<u8>, formatted_time: Vec<u8>) -> (ctx:
        RunContext)
        ensures
            ctx_wf(ctx, project_path@, target_root@),
            ctx.formatted_time@ == formatted_time@,
    {
        let project_name = file_name_of_path(&project_path);
        let mut target_path = copy_bytes(&target_root);
        let slash = slash_bytes();
        append_bytes(&mut target_path, &slash);
        append_bytes(&mut target_path, &project_name);
        let mut log_path = copy_bytes(&target_path);
        let logs = logs_dir_bytes();
        append_bytes(&mut log_path, &logs);
        let mut log_file = copy_bytes(&project_name);
        log_file.push('_' as u8);
        append_bytes(&mut log_file, &formatted_time);
        let ext = log_ext_bytes();
        append_bytes(&mut log_file, &ext);
        proof {
            assert(target_path@ =~= target_root@ + slash_lit() + file_name_of(project_path@));
            assert(log_file@ =~= file_name_of(project_path@) + underscore_lit() + formatted_time@
                + log_ext_lit());
        }
        RunContext { project_path, project_name, target_path, formatted_time, log_path, log_file }
    }

    /// Builds the context at startup, stamping it with the local date.
    pub fn new(project_path: Vec<u8>, target_root: Vec<u8>) -> (ctx: RunContext)
        ensures
            ctx_wf(ctx, project_path@, target_root@),
    {
        let date = get_date();
        RunContext::with_time(project_path, target_root, date)
    }

    pub fn get_project_path(&self) -> (r: Vec<u8>)
        ensures
            r@ == self.project_path@,
    {
        copy_bytes(&self.project_path)
    }

    pub fn get_target_path(&self) -> (r: Vec<u8>)
        ensures
            r@ == self.target_path@,
    {
        copy_bytes(&self.target_path)
    }

    pub fn get_log_path(&self) -> (r: Vec<u8>)
        ensures
            r@ == self.log_path@,
    {
        copy_bytes(&self.log_path)
    }

    pub fn get_log_file(&self) -> (r: Vec<u8>)
        ensures
            r@ == self.log_file@,
    {
        copy_bytes(&self.log_file)
    }

    pub fn get_formatted_time(&self) -> (r: Vec<u8>)
        ensures
            r@ == self.formatted_time@,
    {
        copy_bytes(&self.formatted_time)
    }

    /// The destination a file is copied to inside a target subdirectory:
    /// the file keeps its name, under `folder` under the target path.
    pub fn destination_path(&self, folder: &Vec<u8>, file: &Vec<u8>) -> (r: Vec<u8>)
        ensures
            r@ == self.target_path@ + slash_lit() + folder@ + slash_lit() + file_name_of(file@),
    {
        let mut r = copy_bytes(&self.target_path);
        let slash = slash_bytes();
        append_bytes(&mut r, &slash);
        append_bytes(&mut r, folder);
        append_bytes(&mut r, &slash);
        let name = file_name_of_path(file);
        append_bytes(&mut r, &name);
        proof {
            assert(r@ =~= self.target_path@ + slash_lit() + folder@ + slash_lit() + file_name_of(
                file@,
            ));
        }
        r
    }

    /// The produced binary this run launches: the link invocation's output
    /// path.
    pub fn executable_launch_path(&self) -> (r: Vec<u8>)
        ensures
            r@ == exe_path_of(self.target_path@),
    {
        let mut r = crate::paths::slashed_bytes(&self.target_path);
        let sub = exe_sub_bytes();
        append_bytes(&mut r, &sub);
        r
    }

    /// The six directories a run lays out: executable, source, output,
    /// shared-library and static-library subdirectories, then the log
    /// directory.
    pub fn directory_paths(&self) -> (r: Vec<Vec<u8>>)
        ensures
            views_of(r@) == directory_layout(self.target_path@, self.log_path@),
    {
        let mut r: Vec<Vec<u8>> = Vec::new();
        let mut d = copy_bytes(&self.target_path);
        let sub = exe_dir_bytes();
        append_bytes(&mut d, &sub);
        r.push(d);
        let mut d = copy_bytes(&self.target_path);
        let sub = source_dir_bytes();
        append_bytes(&mut d, &sub);
        r.push(d);
        let mut d = copy_bytes(&self.target_path);
        let sub = output_sub_bytes();
        append_bytes(&mut d, &sub);
        r.push(d);
        let mut d = copy_bytes(&self.target_path);
        let sub = dll_dir_bytes();
        append_bytes(&mut d, &sub);
        r.push(d);
        let mut d = copy_bytes(&self.target_path);
        let sub = a_dir_bytes();
        append_bytes(&mut d, &sub);
        r.push(d);
        r.push(copy_bytes(&self.log_path));
        proof {
            assert(views_of(r@) =~= directory_layout(self.target_path@, self.log_path@));
        }
        r
    }
}

/// The six directories of a run's filesystem layout, in creation order.
pub open spec fn directory_layout(target: Seq<u8>, log_path: Seq<u8>) -> Seq<Seq<u8>> {
    seq![
        target + exe_dir_lit(),
        target + source_dir_lit(),
        target + output_sub_lit(),
        target + dll_dir_lit(),
        target + a_dir_lit(),
        log_path,
    ]
}

/// A measured span of time as plain values: whole seconds and the
/// nanoseconds of the fractional second.
pub struct ElapsedTime {
    pub secs: u64,
    pub subsec_nanos: u32,
}

impl ElapsedTime {
    /// The fractional second holds fewer nanoseconds than one second.
    pub open spec fn wf(&self) -> bool {
        self.subsec_nanos < 1_000_000_000
    }
}

/// Splits a measured span into whole seconds and the whole milliseconds of
/// its fractional second.
pub fn extract_seconds_and_millis(elapsed_time: &ElapsedTime) -> (r: (u64, u32))
    ensures
        r.0 == elapsed_time.secs,
        r.1 == elapsed_time.subsec_nanos / 1_000_000,
        elapsed_time.wf() ==> r.1 < 1000,
{
    (elapsed_time.secs, elapsed_time.subsec_nanos / 1_000_000)
}

} // verus!
