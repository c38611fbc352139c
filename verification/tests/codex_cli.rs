//! The status of the Codex command line.

use commandshelf::codex_cli::{
    codex_cli_status, codex_version_request, first_non_empty_line, CodexCliStatus, ProcessOutput,
};
use commandshelf::text::first_non_blank_line;

fn output(success: bool, stdout: &[u8], stderr: &[u8]) -> ProcessOutput {
    ProcessOutput {
        success,
        stdout: stdout.to_vec(),
        stderr: stderr.to_vec(),
        stdout_truncated: false,
        stderr_truncated: false,
    }
}

#[test]
fn reports_unavailable_when_command_line_cannot_find_codex() {
    let not_started = codex_cli_status(Err("program not found".to_string()));
    let not_found = codex_cli_status(Ok(output(false, b"", b"'codex' is not recognized")));

    for status in [not_started, not_found] {
        assert!(!status.available);
        assert_eq!(status.version, None);
        assert!(status.status_message.contains("无法使用"));
    }
}

#[test]
fn detects_windows_command_script_and_reads_version() {
    let stdout = b"\r\ncodex-cli 9.9.9\r\nignored\r\n";
    let status = codex_cli_status(Ok(output(true, stdout, b"")));

    assert!(status.available);
    assert_eq!(status.version.as_deref(), Some("codex-cli 9.9.9"));
}

#[test]
fn hides_process_details_when_version_command_fails() {
    let mut failed = output(false, b"", b"private diagnostic\r\n");
    failed.stdout = b"exit 7".to_vec();
    let status = codex_cli_status(Ok(failed));

    assert!(!status.available);
    assert_eq!(status.version, None);
    assert!(!status.status_message.contains("private diagnostic"));
    assert!(!status.status_message.contains('7'));
}

#[test]
fn shows_the_two_states() {
    let available = CodexCliStatus::available("codex-cli 1".to_string());
    assert!(available.available);
    assert_eq!(available.version.as_deref(), Some("codex-cli 1"));
    assert_eq!(available.status_message, "已检测到可用的 Codex CLI。");
    assert_eq!(
        CodexCliStatus::unavailable().status_message,
        "无法使用 Codex CLI，请先安装或在系统终端运行 codex --version 检查配置。"
    );
}

#[test]
fn standard_output_comes_before_error_output() {
    let both = codex_cli_status(Ok(output(true, b"out 1\n", b"err 2\n")));
    assert_eq!(both.version.as_deref(), Some("out 1"));
    let second = codex_cli_status(Ok(output(true, b" \n\t\n", b"\n  err 2  \n")));
    assert_eq!(second.version.as_deref(), Some("err 2"));
    let neither = codex_cli_status(Ok(output(true, b"\n", b"")));
    assert_eq!(neither, CodexCliStatus::unavailable());
}

#[test]
fn error_output_does_not_matter_beside_a_version() {
    let status = codex_cli_status(Ok(output(true, "版本 1\r\n".as_bytes(), b"\xff\xfe")));
    assert_eq!(status, CodexCliStatus::available("版本 1".to_string()));
}

#[test]
fn truncated_output_counts_for_nothing() {
    let mut long = output(true, b"codex-cli 1", b"");
    long.stdout_truncated = true;
    assert_eq!(codex_cli_status(Ok(long)), CodexCliStatus::unavailable());
    let mut long = output(true, b"codex-cli 1", b"");
    long.stderr_truncated = true;
    assert_eq!(codex_cli_status(Ok(long)), CodexCliStatus::unavailable());
}

#[test]
fn takes_the_first_line_that_is_not_blank() {
    let line = |bytes: &[u8]| first_non_empty_line(bytes);
    assert_eq!(line(b""), None);
    assert_eq!(line(b"\n\r\n \n"), None);
    assert_eq!(line(b"a"), Some("a".to_string()));
    assert_eq!(line(b"\n\r\n  a b \r\nc"), Some("a b".to_string()));
    assert_eq!(line(b"a\rb\n"), Some("a\rb".to_string()));
    assert_eq!(line("\u{3000}版本 1\n".as_bytes()), Some("版本 1".to_string()));
    assert_eq!(line(b"v\xff1\n"), Some("v\u{fffd}1".to_string()));
    assert_eq!(first_non_blank_line("\n\n x\r"), Some("x".to_string()));
}

#[test]
fn the_version_command_is_fixed() {
    let windows = codex_version_request(true);
    assert_eq!(windows.program, "cmd.exe");
    assert_eq!(windows.arguments, vec!["/D", "/S", "/C", "codex --version"]);
    let other = codex_version_request(false);
    assert_eq!(other.program, "codex");
    assert_eq!(other.arguments, vec!["--version"]);
    for request in [windows, other] {
        assert_eq!(request.timeout_seconds, 5);
        assert_eq!(request.stdout_limit, 8192);
        assert_eq!(request.stderr_limit, 8192);
    }
}
