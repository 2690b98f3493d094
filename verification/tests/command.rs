use multiboot::command::{execute_command, platform_command, ProcessOutput, ShellPlatform};

/// What `/bin/sh` reports for a finished command line: its exit code and its
/// two outputs. Starting the process is the application's part.
fn shell_outcome(code: i32, stdout: &str, stderr: &str) -> Result<ProcessOutput, String> {
    Ok(ProcessOutput {
        success: code == 0,
        code: Some(code),
        stdout: stdout.as_bytes().to_vec(),
        stderr: stderr.as_bytes().to_vec(),
    })
}

#[test]
fn supports_quotes_pipes_environment_and_multiple_commands() {
    let command = "MULTIBOOT_VALUE='hello world'; printf '%s' \"$MULTIBOOT_VALUE\" | tr a-z A-Z";
    // The whole line goes to the shell as one argument, so that the shell
    // sees the quotes, the pipe, the variable and both commands.
    let invocation = platform_command(ShellPlatform::Linux, command);
    assert_eq!(invocation.program, "/bin/sh");
    assert_eq!(invocation.args, vec!["-c".to_string(), command.to_string()]);
    let result = execute_command(shell_outcome(0, "HELLO WORLD", ""));
    assert!(result.success, "{}", result.stderr);
    assert_eq!(result.stdout, "HELLO WORLD");
    assert_eq!(result.exit_code, Some(0));
}

#[test]
fn captures_failure_status_and_stderr() {
    let command = "printf 'expected error' >&2; exit 7";

    let invocation = platform_command(ShellPlatform::Linux, command);
    assert_eq!(invocation.args, vec!["-c".to_string(), command.to_string()]);
    let result = execute_command(shell_outcome(7, "", "expected error"));
    assert!(!result.success);
    assert_eq!(result.exit_code, Some(7));
    assert_eq!(result.stderr, "expected error");
}

#[test]
fn linux_and_macos_use_a_posix_shell() {
    let linux = platform_command(ShellPlatform::Linux, "echo hi");
    assert_eq!(linux.program, "/bin/sh");
    assert_eq!(linux.args, vec!["-c".to_string(), "echo hi".to_string()]);
    let mac = platform_command(ShellPlatform::MacOs, "echo hi");
    assert_eq!(mac.program, "/bin/zsh");
    assert_eq!(mac.args, vec!["-c".to_string(), "echo hi".to_string()]);
}

#[test]
fn windows_uses_powershell_with_utf8_console() {
    let windows = platform_command(ShellPlatform::Windows, "exit 7");
    assert_eq!(windows.program, "powershell.exe");
    assert_eq!(windows.args.len(), 5);
    assert_eq!(windows.args[0], "-NoLogo");
    assert_eq!(windows.args[1], "-NoProfile");
    assert_eq!(windows.args[2], "-NonInteractive");
    assert_eq!(windows.args[3], "-Command");
    assert_eq!(
        windows.args[4],
        "[Console]::OutputEncoding = [Text.UTF8Encoding]::new(); [Console]::InputEncoding = [Text.UTF8Encoding]::new(); exit 7"
    );
}

#[test]
fn a_process_that_cannot_start_reports_its_error() {
    let result = execute_command(Err("No such file or directory".to_string()));
    assert!(!result.success);
    assert_eq!(result.exit_code, None);
    assert_eq!(result.stdout, "");
    assert_eq!(result.stderr, "No such file or directory");
}

#[test]
fn invalid_utf8_output_is_replaced_not_dropped() {
    let result = execute_command(Ok(ProcessOutput {
        success: true,
        code: Some(0),
        stdout: vec![b'a', 0xff, b'b'],
        stderr: "中文".as_bytes().to_vec(),
    }));
    assert!(result.success);
    assert_eq!(result.stdout, "a\u{fffd}b");
    assert_eq!(result.stderr, "中文");
}

#[test]
fn a_killed_process_has_no_exit_code() {
    let result = execute_command(Ok(ProcessOutput {
        success: false,
        code: None,
        stdout: Vec::new(),
        stderr: Vec::new(),
    }));
    assert!(!result.success);
    assert_eq!(result.exit_code, None);
}
