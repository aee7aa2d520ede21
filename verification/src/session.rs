//! The plan of one processing session: what the engine is given to work on
//! and told to leave behind, and which of its outputs the caller gets.

use vstd::prelude::*;
use vstd::string::*;
use crate::artifacts::{artifact_or_empty, extract_artifact, ArtifactSet};

verus! {

/// The kinds of output that the engine can be asked for.
#[derive(Clone, Copy, Debug, PartialEq, Eq, Structural)]
pub enum OutputFormat {
    Aux,
    Html,
    Xdv,
    Pdf,
    Format,
}

/// The description of one session. It is made once and not changed
/// afterwards.
pub struct SessionConfig {
    /// The bytes of the markup to process.
    pub primary_input: Vec<u8>,
    /// The logical name under which the engine sees the input.
    pub tex_input_name: String,
    /// The format that the engine loads.
    pub format_name: String,
    /// The kind of output asked for.
    pub output_format: OutputFormat,
    /// Whether the engine's logs are kept among the outputs.
    pub keep_logs: bool,
    /// Whether intermediate files are kept among the outputs.
    pub keep_intermediates: bool,
    /// Whether the engine's console output is printed.
    pub print_stdout: bool,
    /// Whether outputs are written to disk.
    pub write_output_files: bool,
}

/// How the surroundings of a session are to be had: the persistent
/// configuration and the bundle of resources.
pub struct ResourcePolicy {
    /// Whether a configuration file is made where there is none.
    pub auto_create_config_file: bool,
    /// Whether the bundle may come from the local cache only.
    pub only_cached: bool,
}

/// The policy of an invocation: the configuration must be there already, and
/// the bundle may be fetched from afar.
pub fn resource_policy() -> (policy: ResourcePolicy)
    ensures
        !policy.auto_create_config_file,
        !policy.only_cached,
{
    ResourcePolicy { auto_create_config_file: false, only_cached: false }
}

/// The logical name of the input.
pub open spec fn input_name() -> Seq<char> {
    "texput.tex"@
}

/// The name of the format.
pub open spec fn format_name() -> Seq<char> {
    "latex"@
}

/// The logical name under which the rendered document is produced.
pub open spec fn output_name() -> Seq<char> {
    "texput.pdf"@
}

/// The session that renders `latex`: the markup's bytes as input under the
/// fixed input name, the fixed format, a rendered document as output, and
/// every side channel off, so that the outputs exist in memory only.
pub fn session_config(latex: &str) -> (config: SessionConfig)
    ensures
        config.primary_input@ == latex.spec_bytes(),
        config.tex_input_name@ == input_name(),
        config.format_name@ == format_name(),
        config.output_format == OutputFormat::Pdf,
        !config.keep_logs,
        !config.keep_intermediates,
        !config.print_stdout,
        !config.write_output_files,
{
    SessionConfig {
        primary_input: latex.as_bytes_vec(),
        tex_input_name: String::from_str("texput.tex"),
        format_name: String::from_str("latex"),
        output_format: OutputFormat::Pdf,
        keep_logs: false,
        keep_intermediates: false,
        print_stdout: false,
        write_output_files: false,
    }
}

/// Takes the rendered document out of what a finished session has produced.
/// Where the session produced no file of that name the result is empty.
pub fn extract_output(files: ArtifactSet) -> (data: Vec<u8>)
    requires
        files.wf(),
    ensures
        data@ == artifact_or_empty(files@, output_name()),
        !files@.contains_key(output_name()) ==> data@.len() == 0,
{
    extract_artifact(files, "texput.pdf")
}

} // verus!
