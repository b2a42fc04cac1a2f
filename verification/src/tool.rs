//! The command lines of the decompression tool and of its installer, and
//! the reading of what a finished process reports.

use crate::discovery::{ArchiveFile, ArchiveModel};
use vstd::prelude::*;
use vstd::string::*;

verus! {

/// A process to be started: the program, its arguments in order, and the
/// directory it is to run in.
#[derive(Debug, Clone, PartialEq, Eq)]
pub struct Invocation {
    pub program: String,
    pub args: Vec<String>,
    pub working_dir: String,
}

/// What an `Invocation` stands for.
pub struct InvocationModel {
    pub program: Seq<char>,
    pub args: Seq<Seq<char>>,
    pub working_dir: Seq<char>,
}

impl View for Invocation {
    type V = InvocationModel;

    open spec fn view(&self) -> InvocationModel {
        InvocationModel {
            program: self.program@,
            args: self.args.deep_view(),
            working_dir: self.working_dir@,
        }
    }
}

/// What a finished process left behind. `code` is its exit code, absent
/// when the process ended without one.
#[derive(Debug, Clone, PartialEq, Eq)]
pub struct ToolOutput {
    pub code: Option<i32>,
    pub stdout: String,
    pub stderr: String,
}

/// What a `ToolOutput` stands for.
pub struct ToolOutputModel {
    pub code: Option<i32>,
    pub stdout: Seq<char>,
    pub stderr: Seq<char>,
}

impl View for ToolOutput {
    type V = ToolOutputModel;

    open spec fn view(&self) -> ToolOutputModel {
        ToolOutputModel { code: self.code, stdout: self.stdout@, stderr: self.stderr@ }
    }
}

/// Why a run of a tool counts as failed: the exit code, if there was one,
/// and what the process wrote to its error stream.
#[derive(Debug, Clone, PartialEq, Eq)]
pub struct ToolFailure {
    pub status_code: Option<i32>,
    pub stderr: String,
}

/// What a `ToolFailure` stands for.
pub struct ToolFailureModel {
    pub status_code: Option<i32>,
    pub stderr: Seq<char>,
}

impl View for ToolFailure {
    type V = ToolFailureModel;

    open spec fn view(&self) -> ToolFailureModel {
        ToolFailureModel { status_code: self.status_code, stderr: self.stderr@ }
    }
}

/// A process succeeded when it ended with exit code zero.
pub open spec fn succeeded(code: Option<i32>) -> bool {
    code == Some(0i32)
}

/// The command that unpacks `archive` into the directory `staging`:
/// overwrite without asking, write below `staging`, keep the paths stored
/// in the archive, and run in the directory that holds the archive.
pub open spec fn extraction(archive: ArchiveModel, staging: Seq<char>) -> InvocationModel {
    InvocationModel {
        program: "7z"@,
        args: seq!["-y"@, "-o"@ + staging, "x"@, archive.path()],
        working_dir: archive.dir,
    }
}

/// The command that installs the decompression tool without asking for
/// confirmation.
pub open spec fn installation() -> InvocationModel {
    InvocationModel {
        program: "pacman"@,
        args: seq!["-S"@, "p7zip"@, "--noconfirm"@],
        working_dir: "."@,
    }
}

/// Where the decompression tool is expected to be installed.
pub fn tool_location() -> (path: &'static str)
    ensures
        path@ == "/usr/bin/7z"@,
{
    "/usr/bin/7z"
}

/// Builds the command that unpacks `archive` into the directory `staging`.
pub fn extract_command(archive: &ArchiveFile, staging: &str) -> (command: Invocation)
    ensures
        command@ == extraction(archive@, staging@),
{
    let mut output_flag = String::from_str("-o");
    output_flag.append(staging);
    let mut args: Vec<String> = Vec::new();
    args.push(String::from_str("-y"));
    args.push(output_flag);
    args.push(String::from_str("x"));
    args.push(archive.path());
    assert(args.deep_view() =~= extraction(archive@, staging@).args);
    Invocation { program: String::from_str("7z"), args, working_dir: archive.dir.clone() }
}

/// Builds the command that installs the decompression tool.
pub fn install_command() -> (command: Invocation)
    ensures
        command@ == installation(),
{
    let mut args: Vec<String> = Vec::new();
    args.push(String::from_str("-S"));
    args.push(String::from_str("p7zip"));
    args.push(String::from_str("--noconfirm"));
    assert(args.deep_view() =~= installation().args);
    Invocation { program: String::from_str("pacman"), args, working_dir: String::from_str(".") }
}

/// Reads the report of a finished process: its standard output if it
/// succeeded, else its exit code and its error stream.
pub fn check_output(output: ToolOutput) -> (result: Result<String, ToolFailure>)
    ensures
        succeeded(output.code) ==> result == Ok::<String, ToolFailure>(output.stdout),
        !succeeded(output.code) ==> result == Err::<String, ToolFailure>(
            ToolFailure { status_code: output.code, stderr: output.stderr },
        ),
{
    match output.code {
        Some(0) => Ok(output.stdout),
        _ => Err(ToolFailure { status_code: output.code, stderr: output.stderr }),
    }
}

/// `std::path::Path::exists`: whether `path` names something on disk at
/// the time of the call. Nothing is claimed of the answer.
#[verifier::external_body]
fn path_exists(path: &str) -> bool {
    std::path::Path::new(path).exists()
}

/// Whether `path` names something that exists on disk right now.
///
/// The answer is a fact about the disk, not about `path`: two calls may
/// differ. `Pipeline::step` says what follows from either answer.
pub fn file_exists(path: &str) -> bool {
    path_exists(path)
}

} // verus!
