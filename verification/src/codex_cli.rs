//! Detection of the Codex command line.
//!
//! The version is asked for with a fixed command. What the user interface is shown
//! holds neither a path of the machine nor anything of a failure.

use crate::outside::{self, decode_lossy};
use crate::text::{self, first_non_blank_line};
use vstd::prelude::*;

verus! {

/// How long the version command may take, in seconds.
pub const VERSION_TIMEOUT_SECONDS: u64 = 5;

/// How many bytes of each output of the version command are kept.
pub const VERSION_OUTPUT_LIMIT: usize = 8 * 1024;

/// Whether the Codex command line can be used, as the user interface shows it.
#[derive(Debug, Clone, PartialEq, Eq)]
pub struct CodexCliStatus {
    /// The version command succeeded.
    pub available: bool,
    /// The version line, if there is one to show.
    pub version: Option<String>,
    /// A note for the user.
    pub status_message: String,
}

/// What a [`CodexCliStatus`] says.
#[verifier::ext_equal]
pub struct StatusModel {
    pub available: bool,
    pub version: Option<Seq<char>>,
    pub status_message: Seq<char>,
}

/// The characters of a text, if there is one.
pub open spec fn optional_text(value: Option<String>) -> Option<Seq<char>> {
    match value {
        Some(value) => Some(value@),
        None => None,
    }
}

impl View for CodexCliStatus {
    type V = StatusModel;

    open spec fn view(&self) -> StatusModel {
        StatusModel {
            available: self.available,
            version: optional_text(self.version),
            status_message: self.status_message@,
        }
    }
}

/// A status is told in full: whether the command line is available, its version as it is,
/// and the note.
pub proof fn law_status_is_told_in_full(status: CodexCliStatus)
    ensures
        status@.available == status.available,
        status@.status_message == status.status_message@,
        status@.version is Some <==> status.version is Some,
        status.version matches Some(version) ==> status@.version == Some(version@),
{
}

/// The status of a command line that gave its version.
pub open spec fn available_status(version: Seq<char>) -> StatusModel {
    StatusModel {
        available: true,
        version: Some(version),
        status_message: "已检测到可用的 Codex CLI。"@,
    }
}

/// The one status of a command line that cannot be used, whatever the reason.
pub open spec fn unavailable_status() -> StatusModel {
    StatusModel {
        available: false,
        version: None,
        status_message:
            "无法使用 Codex CLI，请先安装或在系统终端运行 codex --version 检查配置。"@,
    }
}

impl CodexCliStatus {
    /// The status of a command line that gave its version.
    pub fn available(version: String) -> (res: CodexCliStatus)
        ensures
            res@ == available_status(version@),
            res.available,
            res.version == Some(version),
            res.status_message@ == "已检测到可用的 Codex CLI。"@,
    {
        CodexCliStatus {
            available: true,
            version: Some(version),
            status_message: "已检测到可用的 Codex CLI。".to_owned(),
        }
    }

    /// The status of a command line that cannot be used.
    pub fn unavailable() -> (res: CodexCliStatus)
        ensures
            res@ == unavailable_status(),
            !res.available,
            res.version is None,
            res.status_message@
                == "无法使用 Codex CLI，请先安装或在系统终端运行 codex --version 检查配置。"@,
    {
        CodexCliStatus {
            available: false,
            version: None,
            status_message:
                "无法使用 Codex CLI，请先安装或在系统终端运行 codex --version 检查配置。".to_owned(),
        }
    }
}

/// A command to run, and the bounds that it has to keep.
pub struct ProcessRequest {
    pub program: String,
    pub arguments: Vec<String>,
    /// How long it may take, in seconds.
    pub timeout_seconds: u64,
    /// How many bytes of its standard output are kept.
    pub stdout_limit: usize,
    /// How many bytes of its error output are kept.
    pub stderr_limit: usize,
}

/// Gives the version command. On Windows the command interpreter runs it, so that a
/// launcher script is found as well; elsewhere the program is run itself. Nothing
/// from outside goes into the command.
pub fn codex_version_request(windows: bool) -> (res: ProcessRequest)
    ensures
        windows ==> res.program@ == "cmd.exe"@ && res.arguments.deep_view() == seq![
            "/D"@,
            "/S"@,
            "/C"@,
            "codex --version"@,
        ],
        !windows ==> res.program@ == "codex"@ && res.arguments.deep_view() == seq!["--version"@],
        res.timeout_seconds == VERSION_TIMEOUT_SECONDS,
        res.stdout_limit == VERSION_OUTPUT_LIMIT,
        res.stderr_limit == VERSION_OUTPUT_LIMIT,
        res.timeout_seconds == 5,
        res.stdout_limit == 8192,
        res.stderr_limit == 8192,
{
    let mut arguments: Vec<String> = Vec::new();
    if windows {
        arguments.push("/D".to_owned());
        arguments.push("/S".to_owned());
        arguments.push("/C".to_owned());
        arguments.push("codex --version".to_owned());
        assert(arguments.deep_view() =~= seq!["/D"@, "/S"@, "/C"@, "codex --version"@]);
    } else {
        arguments.push("--version".to_owned());
        assert(arguments.deep_view() =~= seq!["--version"@]);
    }
    let program: &str = if windows {
        "cmd.exe"
    } else {
        "codex"
    };
    ProcessRequest {
        program: program.to_owned(),
        arguments,
        timeout_seconds: VERSION_TIMEOUT_SECONDS,
        stdout_limit: VERSION_OUTPUT_LIMIT,
        stderr_limit: VERSION_OUTPUT_LIMIT,
    }
}

/// What is left of a command that has ended.
pub struct ProcessOutput {
    /// The command reported success.
    pub success: bool,
    pub stdout: Vec<u8>,
    pub stderr: Vec<u8>,
    /// There was more standard output than was kept.
    pub stdout_truncated: bool,
    /// There was more error output than was kept.
    pub stderr_truncated: bool,
}

/// The version line in an output: its first line that is not blank, trimmed.
pub open spec fn version_line(output: Seq<u8>) -> Option<Seq<char>> {
    text::first_non_blank(text::lines(outside::utf8_lossy(output)))
}

/// The version line in an output that is valid UTF-8.
pub open spec fn utf8_version_line(output: Seq<u8>) -> Option<Seq<char>> {
    text::first_non_blank(text::lines(vstd::utf8::decode_utf8(output)))
}

/// Takes the first line that is not blank from an output, and trims it.
pub fn first_non_empty_line(bytes: &[u8]) -> (res: Option<String>)
    ensures
        optional_text(res) == version_line(bytes@),
        vstd::utf8::valid_utf8(bytes@) ==> optional_text(res) == utf8_version_line(bytes@),
        text::shows_first(outside::utf8_lossy(bytes@), optional_text(res)),
        vstd::utf8::valid_utf8(bytes@) ==> text::shows_first(
            vstd::utf8::decode_utf8(bytes@),
            optional_text(res),
        ),
        res matches Some(line) ==> {
            &&& line@.len() > 0
            &&& !line@.contains('\n')
            &&& !text::is_white_space(line@.first())
            &&& !text::is_white_space(line@.last())
        },
{
    let decoded: String = decode_lossy(bytes);
    proof {
        let _ = text::law_first_text(decoded@);
        text::law_first_non_blank_line(decoded@);
    }
    first_non_blank_line(decoded.as_str())
}

/// The status that the two version lines give; standard output comes first.
pub open spec fn status_of_lines(
    stdout_line: Option<Seq<char>>,
    stderr_line: Option<Seq<char>>,
) -> StatusModel {
    match (stdout_line, stderr_line) {
        (Some(version), _) => available_status(version),
        (None, Some(version)) => available_status(version),
        (None, None) => unavailable_status(),
    }
}

/// The command ended well, and nothing of what it put out is missing.
pub open spec fn is_usable(output: ProcessOutput) -> bool {
    output.success && !output.stdout_truncated && !output.stderr_truncated
}

/// The status that the end of the version command gives. A command that did not
/// run, did not succeed or put out too much counts for nothing.
pub open spec fn detected(outcome: Result<ProcessOutput, String>) -> StatusModel {
    match outcome {
        Ok(output) => if is_usable(output) {
            status_of_lines(version_line(output.stdout@), version_line(output.stderr@))
        } else {
            unavailable_status()
        },
        Err(_) => unavailable_status(),
    }
}

/// Gives the status that the end of the version command gives. Some launchers pass
/// the version on to the error output, so that is read where standard output holds
/// none. Output that is valid UTF-8 is read as it is; error output does not matter
/// where standard output holds a version.
pub fn codex_cli_status(outcome: Result<ProcessOutput, String>) -> (res: CodexCliStatus)
    ensures
        res@ == detected(outcome),
        outcome matches Ok(output) ==> is_usable(output) && vstd::utf8::valid_utf8(output.stdout@)
            && vstd::utf8::valid_utf8(output.stderr@) ==> res@ == status_of_lines(
            utf8_version_line(output.stdout@),
            utf8_version_line(output.stderr@),
        ),
        outcome matches Ok(output) ==> is_usable(output) && vstd::utf8::valid_utf8(output.stdout@)
            ==> (utf8_version_line(output.stdout@) matches Some(version) ==> res@
            == available_status(version)),
        outcome matches Ok(output) ==> output.success && !output.stdout_truncated
            && !output.stderr_truncated && vstd::utf8::valid_utf8(output.stdout@) ==> {
            let shown = vstd::utf8::decode_utf8(output.stdout@);
            &&& text::has_text(shown) ==> res.available && text::shows_first(
                shown,
                optional_text(res.version),
            )
            &&& !text::has_text(shown) && vstd::utf8::valid_utf8(output.stderr@)
                ==> text::shows_first(
                vstd::utf8::decode_utf8(output.stderr@),
                optional_text(res.version),
            )
        },
        res.available <==> res.version is Some,
{
    match outcome {
        Ok(output) => {
            if !output.success || output.stdout_truncated || output.stderr_truncated {
                return CodexCliStatus::unavailable();
            }
            match first_non_empty_line(output.stdout.as_slice()) {
                Some(version) => CodexCliStatus::available(version),
                None => match first_non_empty_line(output.stderr.as_slice()) {
                    Some(version) => CodexCliStatus::available(version),
                    None => CodexCliStatus::unavailable(),
                },
            }
        },
        Err(_) => CodexCliStatus::unavailable(),
    }
}

/// The command line is available exactly if the version command ran and succeeded, none
/// of its output is missing, and there is more than white space in one of its outputs.
/// The version is then what standard output shows first, or what error output does if
/// there is nothing but white space in standard output.
pub proof fn law_version_is_what_the_output_shows(outcome: Result<ProcessOutput, String>)
    ensures
        ({
            let status = detected(outcome);
            &&& status.available <==> (outcome matches Ok(output) && output.success
                && !output.stdout_truncated && !output.stderr_truncated && (text::has_text(
                outside::utf8_lossy(output.stdout@),
            ) || text::has_text(outside::utf8_lossy(output.stderr@))))
            &&& status.available <==> status.version is Some
            &&& status.available ==> {
                let stdout = outside::utf8_lossy(outcome->Ok_0.stdout@);
                let stderr = outside::utf8_lossy(outcome->Ok_0.stderr@);
                &&& text::has_text(stdout) ==> text::shows_first(stdout, status.version)
                &&& !text::has_text(stdout) ==> text::shows_first(stderr, status.version)
            }
            &&& status.status_message == if status.available {
                "已检测到可用的 Codex CLI。"@
            } else {
                "无法使用 Codex CLI，请先安装或在系统终端运行 codex --version 检查配置。"@
            }
        }),
{
    if let Ok(output) = outcome {
        let stdout = outside::utf8_lossy(output.stdout@);
        let stderr = outside::utf8_lossy(output.stderr@);
        let _ = text::law_first_text(stdout);
        let _ = text::law_first_text(stderr);
    }
}

/// Nothing of a failure shows: all outcomes of a command that cannot be used give
/// the same status.
pub proof fn law_failures_look_alike(
    a: Result<ProcessOutput, String>,
    b: Result<ProcessOutput, String>,
)
    requires
        !detected(a).available,
        !detected(b).available,
    ensures
        detected(a) == detected(b),
{
}

} // verus!
