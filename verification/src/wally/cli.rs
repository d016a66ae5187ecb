//! The Wally program: where it is, whether it runs, and what it printed.
use vstd::prelude::*;
use crate::errors::{bare_failure, hinted, hinted_failure, unhinted, Failure, FailureModel};
use crate::text::{
    decimal, decimal_text, lines, lines_of, owned, to_chars, trim, trim_end, trim_end_of, trimmed,
};

verus! {

/// The Wally executable this project will use, once it has proven it runs.
#[derive(Debug)]
pub struct WallyProgram {
    pub path: String,
    pub version: String,
}

/// What a program left behind when it ended.
#[derive(Debug)]
pub struct ProgramOutput {
    pub success: bool,
    /// How the exit status is told.
    pub status: String,
    pub stdout: Vec<u8>,
    pub stderr: Vec<u8>,
}

/// How a run of `wally install` ended.
#[derive(Debug)]
pub enum InstallRun {
    Ended(ProgramOutput),
    NotRun(String),
    TimedOut(u64),
}

/// The text some bytes hold, with what is no UTF-8 replaced.
pub uninterp spec fn lossy_text(bytes: Seq<u8>) -> Seq<char>;

/// `String::from_utf8_lossy`. What is not UTF-8 becomes replacement characters; bytes that are UTF-8
/// hold the text that they encode.
#[verifier::external_body]
fn read_lossy(bytes: &[u8]) -> (r: String)
    ensures
        r@ == lossy_text(bytes@),
        vstd::utf8::valid_utf8(bytes@) ==> vstd::utf8::encode_utf8(r@) == bytes@,
{
    String::from_utf8_lossy(bytes).into_owned()
}

/// The name of the executable.
pub fn executable_name(windows: bool) -> (r: &'static str)
    ensures
        r@ == (if windows {
            "wally.exe"@
        } else {
            "wally"@
        }),
{
    if windows {
        "wally.exe"
    } else {
        "wally"
    }
}

/// The advice where Wally is not found.
pub open spec fn not_on_path_hint() -> Seq<char> {
    "install Wally yourself from https://wally.run and make sure it is on PATH, or set wally.binary_path in .biskit/settings.yml. Biskit never installs it for you."@
}

/// The advice where Wally does not run.
pub open spec fn not_runnable_hint() -> Seq<char> {
    "the file is on PATH but would not run. Version managers such as Aftman and Rokit install a shim that refuses until the tool is listed in their manifest, so check that first."@
}

/// Where Wally is: the configured file or, where none is configured, the first one found in the
/// directories of PATH.
pub open spec fn discovered(
    configured: Option<(Seq<char>, bool)>,
    has_path: bool,
    on_path: Option<Seq<char>>,
) -> Result<Seq<char>, FailureModel> {
    match configured {
        Some((path, is_file)) => if is_file {
            Ok(path)
        } else {
            Err(
                hinted_failure(
                    "wally.binary_path does not point at a file: "@ + path,
                    "point wally.binary_path at the Wally executable itself, or unset it to search PATH"@,
                ),
            )
        },
        None => if !has_path {
            Err(
                hinted_failure(
                    "Wally is not available: this process has no PATH to search"@,
                    not_on_path_hint(),
                ),
            )
        } else {
            match on_path {
                Some(path) => Ok(path),
                None => Err(
                    hinted_failure(
                        "Wally is not available: no `wally` executable is on PATH"@,
                        not_on_path_hint(),
                    ),
                ),
            }
        },
    }
}

/// Decides which executable to use, from the configured path and whether it is a file, from whether
/// there is a PATH, and from the first executable found on it.
pub fn discover(configured: Option<(&str, bool)>, has_path: bool, on_path: Option<String>) -> (r:
    Result<String, Failure>)
    ensures
        ({
            let expected = discovered(
                match configured {
                    Some((path, is_file)) => Some((path@, is_file)),
                    None => None,
                },
                has_path,
                on_path.deep_view(),
            );
            match r {
                Ok(path) => expected == Ok::<Seq<char>, FailureModel>(path@),
                Err(failure) => expected == Err::<Seq<char>, FailureModel>(failure.deep_view()),
            }
        }),
{
    if let Some((path, is_file)) = configured {
        if is_file {
            return Ok(owned(path));
        }
        let mut message = owned("wally.binary_path does not point at a file: ");
        message.append(path);
        return Err(
            hinted(
                message,
                "point wally.binary_path at the Wally executable itself, or unset it to search PATH",
            ),
        );
    }
    if !has_path {
        return Err(
            hinted(
                owned("Wally is not available: this process has no PATH to search"),
                "install Wally yourself from https://wally.run and make sure it is on PATH, or set wally.binary_path in .biskit/settings.yml. Biskit never installs it for you.",
            ),
        );
    }
    match on_path {
        Some(path) => Ok(path),
        None => Err(
            hinted(
                owned("Wally is not available: no `wally` executable is on PATH"),
                "install Wally yourself from https://wally.run and make sure it is on PATH, or set wally.binary_path in .biskit/settings.yml. Biskit never installs it for you.",
            ),
        ),
    }
}

// ---------------------------------------------------------------------------
// What a program printed

/// What a program printed, both streams together: a stream that says nothing is left out.
pub open spec fn merged(stdout: Seq<char>, stderr: Seq<char>) -> Seq<char> {
    if trimmed(stdout).len() == 0 {
        stderr
    } else if trimmed(stderr).len() == 0 {
        stdout
    } else {
        trim_end_of(stdout) + "\n"@ + trim_end_of(stderr)
    }
}

/// Puts together what a program printed on two streams.
pub fn merge_text(stdout: String, stderr: String) -> (r: String)
    ensures
        r@ == merged(stdout@, stderr@),
{
    if trim(stdout.as_str()).is_empty() {
        return stderr;
    }
    if trim(stderr.as_str()).is_empty() {
        return stdout;
    }
    let mut r = owned(trim_end(stdout.as_str()));
    r.append("\n");
    r.append(trim_end(stderr.as_str()));
    r
}

/// Puts together what a program printed.
pub fn merge(stdout: &[u8], stderr: &[u8]) -> (r: String)
    ensures
        r@ == merged(lossy_text(stdout@), lossy_text(stderr@)),
{
    merge_text(read_lossy(stdout), read_lossy(stderr))
}

/// The first line from `from` on that says something, trimmed.
pub open spec fn first_said(all: Seq<Seq<char>>, from: int) -> Option<Seq<char>>
    decreases all.len() - from,
{
    if from < 0 || from >= all.len() {
        None
    } else if trimmed(all[from]).len() > 0 {
        Some(trimmed(all[from]))
    } else {
        first_said(all, from + 1)
    }
}

/// The first line that says something.
pub fn first_line(value: &str) -> (r: Option<String>)
    ensures
        r.deep_view() == first_said(lines_of(value@), 0),
{
    let all = lines(value);
    let ghost model = all.deep_view();
    let mut i: usize = 0;
    while i < all.len()
        invariant
            i <= all@.len(),
            model == all.deep_view(),
            model == lines_of(value@),
            first_said(model, 0) == first_said(model, i as int),
        decreases all@.len() - i,
    {
        assert(model[i as int] == all@[i as int]@);
        let line = trim(all[i].as_str());
        if !line.is_empty() {
            return Some(owned(line));
        }
        i = i + 1;
    }
    None
}

/// Whether a character is a letter of ASCII.
pub open spec fn is_letter(c: char) -> bool {
    'a' <= c <= 'z' || 'A' <= c <= 'Z'
}

/// Where an escape sequence that ends with a letter ends, from `i` on.
pub open spec fn control_end(s: Seq<char>, i: int) -> int
    decreases s.len() - i,
{
    if i < 0 || i >= s.len() {
        i
    } else if is_letter(s[i]) {
        i + 1
    } else {
        control_end(s, i + 1)
    }
}

/// Where an escape sequence that ends with a bell, or with an escape and a backslash, ends.
pub open spec fn command_end(s: Seq<char>, i: int) -> int
    decreases s.len() - i,
{
    if i < 0 || i >= s.len() {
        i
    } else if s[i] == '\u{7}' {
        i + 1
    } else if s[i] == '\u{1b}' && i + 1 < s.len() && s[i + 1] == '\\' {
        i + 2
    } else {
        command_end(s, i + 1)
    }
}

proof fn ends_lie_ahead(s: Seq<char>, i: int)
    requires
        0 <= i <= s.len(),
    ensures
        i <= control_end(s, i) <= s.len(),
        i <= command_end(s, i) <= s.len(),
    decreases s.len() - i,
{
    if i < s.len() {
        ends_lie_ahead(s, i + 1);
    }
}

/// Where the escape sequence that starts at `i` ends.
pub open spec fn escape_end(s: Seq<char>, i: int) -> int {
    if i + 1 >= s.len() {
        i + 1
    } else if s[i + 1] == '[' {
        control_end(s, i + 2)
    } else if s[i + 1] == ']' {
        command_end(s, i + 2)
    } else {
        i + 2
    }
}

pub proof fn an_escape_ends_ahead(s: Seq<char>, i: int)
    requires
        0 <= i < s.len(),
    ensures
        i < escape_end(s, i) <= s.len(),
{
    if i + 2 <= s.len() {
        ends_lie_ahead(s, i + 2);
    }
}

/// A text from `i` on without its escape sequences.
pub open spec fn unpainted(s: Seq<char>, i: int) -> Seq<char>
    decreases s.len() - i,
{
    if i < 0 || i >= s.len() {
        Seq::empty()
    } else if s[i] != '\u{1b}' {
        seq![s[i]] + unpainted(s, i + 1)
    } else {
        proof {
            an_escape_ends_ahead(s, i);
        }
        unpainted(s, escape_end(s, i))
    }
}

fn skip_escape(chars: &Vec<char>, from: usize) -> (r: usize)
    requires
        from < chars@.len(),
    ensures
        r == escape_end(chars@, from as int),
        from < r <= chars@.len(),
{
    let end: usize = chars.len();
    proof {
        an_escape_ends_ahead(chars@, from as int);
    }
    if end - from <= 1 {
        return from + 1;
    }
    let kind = chars[from + 1];
    let mut i: usize = from + 2;
    if kind == '[' {
        while i < end && !(('a' <= chars[i] && chars[i] <= 'z') || ('A' <= chars[i] && chars[i]
            <= 'Z'))
            invariant
                from + 2 <= i <= end,
                end == chars@.len(),
                control_end(chars@, from + 2) == control_end(chars@, i as int),
            decreases end - i,
        {
            i = i + 1;
        }
        if i < end {
            i = i + 1;
        }
        return i;
    }
    if kind == ']' {
        while i < end
            invariant
                from + 2 <= i <= end,
                end == chars@.len(),
                escape_end(chars@, from as int) == command_end(chars@, i as int),
            decreases end - i,
        {
            if chars[i] == '\u{7}' {
                return i + 1;
            }
            if chars[i] == '\u{1b}' && end - i > 1 && chars[i + 1] == '\\' {
                return i + 2;
            }
            i = i + 1;
        }
        return i;
    }
    i
}

/// Wally paints its progress output, and the escape sequences are noise in a tool result.
pub fn strip_ansi(value: &str) -> (r: String)
    ensures
        r@ == unpainted(value@, 0),
{
    let chars = to_chars(value);
    let mut cleaned = String::new();
    let mut i: usize = 0;
    let ghost whole = unpainted(value@, 0);
    assert(cleaned@ + whole =~= whole);
    while i < chars.len()
        invariant
            i <= chars@.len(),
            chars@ == value@,
            whole == cleaned@ + unpainted(value@, i as int),
        decreases chars@.len() - i,
    {
        if chars[i] != '\u{1b}' {
            let ghost before = cleaned@;
            let ghost rest = unpainted(value@, i + 1);
            cleaned.push(chars[i]);
            assert(before + (seq![chars@[i as int]] + rest) =~= cleaned@ + rest);
            i = i + 1;
        } else {
            i = skip_escape(&chars, i);
        }
    }
    assert(cleaned@ + Seq::<char>::empty() =~= cleaned@);
    cleaned
}

/// No escape character is left of a text that is stripped, however its last sequence breaks off.
pub proof fn no_escape_is_left(s: Seq<char>, i: int)
    requires
        0 <= i,
    ensures
        !unpainted(s, i).contains('\u{1b}'),
    decreases s.len() - i,
{
    if i < s.len() {
        if s[i] != '\u{1b}' {
            no_escape_is_left(s, i + 1);
            let rest = unpainted(s, i + 1);
            let all = seq![s[i]] + rest;
            assert forall|k: int| 0 <= k < all.len() implies all[k] != '\u{1b}' by {
                if k > 0 {
                    assert(all[k] == rest[k - 1]);
                    assert(rest.contains(rest[k - 1]));
                }
            }
        } else {
            an_escape_ends_ahead(s, i);
            no_escape_is_left(s, escape_end(s, i));
        }
    }
}

// ---------------------------------------------------------------------------
// Runs

/// What a run of `wally --version` says of the program.
pub open spec fn located(
    path: Seq<char>,
    success: bool,
    status: Seq<char>,
    stdout: Seq<char>,
    stderr: Seq<char>,
) -> Result<Seq<char>, FailureModel> {
    if success {
        match first_said(lines_of(stdout), 0) {
            Some(version) => Ok(version),
            None => Ok("unknown"@),
        }
    } else {
        let reason = match first_said(lines_of(merged(stdout, stderr)), 0) {
            Some(line) => line,
            None => "exited with "@ + status,
        };
        Err(
            hinted_failure(
                "Wally is not available: "@ + path + " --version failed: "@ + reason,
                not_runnable_hint(),
            ),
        )
    }
}

/// Confirms that Wally runs, because a version-manager shim is on PATH without working. `run` is how
/// its run with `--version` ended, or why it could not be started.
pub fn locate(path: String, run: Result<ProgramOutput, String>) -> (r: Result<
    WallyProgram,
    Failure,
>)
    ensures
        match r {
            Ok(program) => {
                &&& program.path@ == path@
                &&& run matches Ok(output)
                &&& located(
                    path@,
                    output.success,
                    output.status@,
                    lossy_text(output.stdout@),
                    lossy_text(output.stderr@),
                ) == Ok::<Seq<char>, FailureModel>(program.version@)
            },
            Err(failure) => match run {
                Ok(output) => located(
                    path@,
                    output.success,
                    output.status@,
                    lossy_text(output.stdout@),
                    lossy_text(output.stderr@),
                ) == Err::<Seq<char>, FailureModel>(failure.deep_view()),
                Err(error) => failure.deep_view() == hinted_failure(
                    "Wally is not available: could not run "@ + path@ + ": "@ + error@,
                    not_runnable_hint(),
                ),
            },
        },
{
    let output = match run {
        Ok(output) => output,
        Err(error) => {
            let mut message = owned("Wally is not available: could not run ");
            message.append(path.as_str());
            message.append(": ");
            message.append(error.as_str());
            return Err(
                hinted(
                    message,
                    "the file is on PATH but would not run. Version managers such as Aftman and Rokit install a shim that refuses until the tool is listed in their manifest, so check that first.",
                ),
            );
        },
    };
    if !output.success {
        let printed = merge(&output.stdout, &output.stderr);
        let reason: String = match first_line(printed.as_str()) {
            Some(line) => line,
            None => {
                let mut told = owned("exited with ");
                told.append(output.status.as_str());
                told
            },
        };
        let mut message = owned("Wally is not available: ");
        message.append(path.as_str());
        message.append(" --version failed: ");
        message.append(reason.as_str());
        return Err(
            hinted(
                message,
                "the file is on PATH but would not run. Version managers such as Aftman and Rokit install a shim that refuses until the tool is listed in their manifest, so check that first.",
            ),
        );
    }
    let printed = read_lossy(&output.stdout);
    let version: String = match first_line(printed.as_str()) {
        Some(line) => line,
        None => owned("unknown"),
    };
    Ok(WallyProgram { path, version })
}

/// What a run of `wally install` printed, without its paint.
pub open spec fn install_text(stdout: Seq<u8>, stderr: Seq<u8>) -> Seq<char> {
    trimmed(unpainted(merged(lossy_text(stdout), lossy_text(stderr)), 0))
}

/// What came of a run of `wally install`.
pub open spec fn install_result(run: InstallRun) -> Result<Seq<char>, FailureModel> {
    match run {
        InstallRun::NotRun(error) => Err(
            bare_failure("failed to run `wally install`: "@ + error@),
        ),
        InstallRun::TimedOut(milliseconds) => Err(
            hinted_failure(
                "`wally install` did not finish within "@ + decimal(milliseconds as nat) + "ms"@,
                "raise wally.install_timeout_ms in .biskit/settings.yml, or run `wally install` yourself"@,
            ),
        ),
        InstallRun::Ended(output) => {
            let printed = install_text(output.stdout@, output.stderr@);
            if output.success {
                Ok(printed)
            } else {
                Err(
                    hinted_failure(
                        "`wally install` failed: "@ + output.status@ + "\n\n"@ + printed,
                        "fix what the output above names, then run `wally install`"@,
                    ),
                )
            }
        },
    }
}

/// Tells what came of a run of `wally install`: what it printed, or why it failed.
///
/// Wally deletes and rebuilds Packages, ServerPackages, and DevPackages on every install, so this
/// is never an additive operation however small the manifest change that prompted it.
pub fn install(run: InstallRun) -> (r: Result<String, Failure>)
    ensures
        match r {
            Ok(printed) => install_result(run) == Ok::<Seq<char>, FailureModel>(printed@),
            Err(failure) => install_result(run) == Err::<Seq<char>, FailureModel>(
                failure.deep_view(),
            ),
        },
{
    let output = match run {
        InstallRun::NotRun(error) => {
            let mut message = owned("failed to run `wally install`: ");
            message.append(error.as_str());
            return Err(unhinted(message));
        },
        InstallRun::TimedOut(milliseconds) => {
            let mut message = owned("`wally install` did not finish within ");
            message.append(decimal_text(milliseconds).as_str());
            message.append("ms");
            return Err(
                hinted(
                    message,
                    "raise wally.install_timeout_ms in .biskit/settings.yml, or run `wally install` yourself",
                ),
            );
        },
        InstallRun::Ended(output) => output,
    };
    let painted = merge(&output.stdout, &output.stderr);
    let clean = strip_ansi(painted.as_str());
    let printed = owned(trim(clean.as_str()));
    if output.success {
        return Ok(printed);
    }
    let mut message = owned("`wally install` failed: ");
    message.append(output.status.as_str());
    message.append("\n\n");
    message.append(printed.as_str());
    Err(hinted(message, "fix what the output above names, then run `wally install`"))
}

} // verus!
