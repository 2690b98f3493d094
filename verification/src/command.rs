//! Shell commands: how a command line is handed to the platform's shell, and
//! how the finished process is reported.
use vstd::prelude::*;
use crate::text::texts;

verus! {

/// What a finished command reports back to the settings window and the tray.
#[derive(Clone, Debug, PartialEq, Eq)]
pub struct CommandResult {
    pub success: bool,
    pub exit_code: Option<i32>,
    pub stdout: String,
    pub stderr: String,
}

/// The desktop platform, which decides the shell that runs a command.
#[derive(Clone, Copy, Debug, PartialEq, Eq, Structural)]
pub enum ShellPlatform {
    Windows,
    MacOs,
    Linux,
}

/// A program and the arguments to start it with.
#[derive(Clone, Debug, PartialEq, Eq)]
pub struct ShellInvocation {
    pub program: String,
    pub args: Vec<String>,
}

/// What the operating system reported for a process that ran to its end.
#[derive(Clone, Debug, PartialEq, Eq)]
pub struct ProcessOutput {
    /// Whether the exit status counts as success.
    pub success: bool,
    /// The exit code, when the process exited with one.
    pub code: Option<i32>,
    pub stdout: Vec<u8>,
    pub stderr: Vec<u8>,
}

/// The script prefix that switches PowerShell's console to UTF-8.
pub open spec fn powershell_prefix() -> Seq<char> {
    "[Console]::OutputEncoding = [Text.UTF8Encoding]::new(); [Console]::InputEncoding = [Text.UTF8Encoding]::new(); "@
}

/// The program and arguments that run `command` through the platform's shell:
/// PowerShell with UTF-8 console encodings on Windows, `zsh -c` on macOS and
/// `sh -c` on Linux.
pub open spec fn shell_invocation(platform: ShellPlatform, command: Seq<char>) -> (Seq<char>, Seq<Seq<char>>) {
    match platform {
        ShellPlatform::Windows => (
            "powershell.exe"@,
            seq!["-NoLogo"@, "-NoProfile"@, "-NonInteractive"@, "-Command"@, powershell_prefix() + command],
        ),
        ShellPlatform::MacOs => ("/bin/zsh"@, seq!["-c"@, command]),
        ShellPlatform::Linux => ("/bin/sh"@, seq!["-c"@, command]),
    }
}

/// How `command` is started on `platform`.
pub fn platform_command(platform: ShellPlatform, command: &str) -> (r: ShellInvocation)
    ensures
        (r.program@, texts(r.args@)) == shell_invocation(platform, command@),
{
    let mut args: Vec<String> = Vec::new();
    let program = match platform {
        ShellPlatform::Windows => {
            let mut script = String::from_str(
                "[Console]::OutputEncoding = [Text.UTF8Encoding]::new(); [Console]::InputEncoding = [Text.UTF8Encoding]::new(); ",
            );
            script.append(command);
            args.push(String::from_str("-NoLogo"));
            args.push(String::from_str("-NoProfile"));
            args.push(String::from_str("-NonInteractive"));
            args.push(String::from_str("-Command"));
            args.push(script);
            String::from_str("powershell.exe")
        },
        ShellPlatform::MacOs => {
            args.push(String::from_str("-c"));
            args.push(String::from_str(command));
            String::from_str("/bin/zsh")
        },
        ShellPlatform::Linux => {
            args.push(String::from_str("-c"));
            args.push(String::from_str(command));
            String::from_str("/bin/sh")
        },
    };
    assert(texts(args@) =~= shell_invocation(platform, command@).1);
    ShellInvocation { program, args }
}

/// The text that `String::from_utf8_lossy` makes of `bytes`: their UTF-8
/// decoding, with each invalid sequence replaced by U+FFFD.
pub uninterp spec fn utf8_lossy(bytes: Seq<u8>) -> Seq<char>;

/// Bytes below 0x80 are ASCII characters, one per byte.
pub open spec fn is_ascii_bytes(bytes: Seq<u8>) -> bool {
    forall|i: int| 0 <= i < bytes.len() ==> #[trigger] bytes[i] < 0x80
}

/// The characters that ASCII bytes stand for.
pub open spec fn ascii_chars(bytes: Seq<u8>) -> Seq<char> {
    bytes.map_values(|b: u8| b as char)
}

/// `String::from_utf8_lossy(bytes).into_owned()`. Its result is named
/// `utf8_lossy`; as its documentation says, valid UTF-8 is decoded as it
/// stands, so ASCII bytes give one character each.
#[verifier::external_body]
fn lossy_text(bytes: &[u8]) -> (s: String)
    ensures
        s@ == utf8_lossy(bytes@),
        is_ascii_bytes(bytes@) ==> s@ == ascii_chars(bytes@),
{
    String::from_utf8_lossy(bytes).into_owned()
}

/// The report of a command: for a process that ran, its status, exit code and
/// both outputs decoded leniently as UTF-8; for a process that could not be
/// started, failure, no exit code, empty output and the error's text.
pub open spec fn command_report(outcome: Result<ProcessOutput, String>) -> (bool, Option<i32>, Seq<char>, Seq<char>) {
    match outcome {
        Ok(output) => (output.success, output.code, utf8_lossy(output.stdout@), utf8_lossy(output.stderr@)),
        Err(error) => (false, None, Seq::empty(), error@),
    }
}

/// Reports a shell command from the outcome of running it (the process itself
/// is started by the caller, with `platform_command`).
pub fn execute_command(outcome: Result<ProcessOutput, String>) -> (r: CommandResult)
    ensures
        (r.success, r.exit_code, r.stdout@, r.stderr@) == command_report(outcome),
        outcome matches Ok(output) ==> (is_ascii_bytes(output.stdout@) ==> r.stdout@ == ascii_chars(output.stdout@)),
        outcome matches Ok(output) ==> (is_ascii_bytes(output.stderr@) ==> r.stderr@ == ascii_chars(output.stderr@)),
{
    match outcome {
        Ok(output) => CommandResult {
            success: output.success,
            exit_code: output.code,
            stdout: lossy_text(output.stdout.as_slice()),
            stderr: lossy_text(output.stderr.as_slice()),
        },
        Err(error) => CommandResult { success: false, exit_code: None, stdout: String::new(), stderr: error },
    }
}

} // verus!
