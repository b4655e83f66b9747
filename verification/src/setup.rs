//! Setting up the environment: the API-key file, the launch-agent file
//! that runs the file watcher on macOS, and which daemon actions apply.

use vstd::prelude::*;
use crate::text::{chars_equal, contains_str, is_infix, last_index_of, trim, trimmed};

verus! {

/// The launch-agent file up to the path of the watcher script.
pub const PLIST_HEAD: &'static str = "<?xml version=\"1.0\" encoding=\"UTF-8\"?>\n<!DOCTYPE plist PUBLIC \"-//Apple//DTD PLIST 1.0//EN\" \"http://www.apple.com/DTDs/PropertyList-1.0.dtd\">\n<plist version=\"1.0\">\n<dict>\n    <key>Label</key>\n    <string>com.sophist.filewatcher</string>\n    <key>ProgramArguments</key>\n    <array>\n        <string>/usr/bin/python3</string>\n        <string>";

/// Between the script path and its `PYTHONPATH` entry.
pub const PLIST_AFTER_PROGRAM: &'static str = "</string>\n        <string>watch</string>\n    </array>\n    <key>EnvironmentVariables</key>\n    <dict>\n        <key>PYTHONPATH</key>\n        <string>";

/// Between `PYTHONPATH` and the working directory.
pub const PLIST_AFTER_PYTHONPATH: &'static str = "</string>\n    </dict>\n    <key>WorkingDirectory</key>\n    <string>";

/// Between the working directory and the home directory of the output log.
pub const PLIST_AFTER_WORKING_DIR: &'static str = "</string>\n    <key>RunAtLoad</key>\n    <true/>\n    <key>KeepAlive</key> \n    <true/>\n    <key>com.apple.security.files.all</key>\n    <true/>\n    <key>com.apple.security.files.user-selected.read-write</key>\n    <true/>\n    <key>StandardOutPath</key>\n    <string>";

/// Between the output log and the home directory of the error log.
pub const PLIST_AFTER_OUT_LOG_HOME: &'static str = "/library/logs/sophist.log</string>\n    <key>StandardErrorPath</key>\n    <string>";

/// The end of the launch-agent file.
pub const PLIST_TAIL: &'static str = "/library/logs/sophist.error.log</string>\n</dict>\n</plist>";

/// Whether the `.env` content holds both API keys.
pub fn api_keys_are_setup(env_content: &str) -> (res: bool)
    ensures
        res == (is_infix("GEMINI_API_KEY="@, env_content@) && is_infix(
            "JINA_API_KEY="@,
            env_content@,
        )),
{
    contains_str(env_content, "GEMINI_API_KEY=") && contains_str(env_content, "JINA_API_KEY=")
}

/// The `.env` file for the two keys as typed, without surrounding white
/// space.
pub fn env_file_content(gemini_key: &str, jina_key: &str) -> (res: String)
    ensures
        res@ == "GEMINI_API_KEY="@ + trimmed(gemini_key@) + "\nJINA_API_KEY="@ + trimmed(jina_key@),
{
    String::from_str("GEMINI_API_KEY=").concat(trim(gemini_key)).concat("\nJINA_API_KEY=").concat(
        trim(jina_key),
    )
}

/// The directory of the user's launch agents.
pub fn launch_agents_dir(home_dir: &str) -> (res: String)
    ensures
        res@ == home_dir@ + "/Library/LaunchAgents"@,
{
    String::from_str(home_dir).concat("/Library/LaunchAgents")
}

/// The launch-agent file of the watcher.
pub fn plist_path(home_dir: &str) -> (res: String)
    ensures
        res@ == home_dir@ + "/Library/LaunchAgents"@ + "/com.sophist.filewatcher.plist"@,
{
    launch_agents_dir(home_dir).concat("/com.sophist.filewatcher.plist")
}

/// The launch-agent definition that keeps the watcher script running:
/// `daemon_path` is the script, `project_root` its working directory, and
/// the logs go under `home_dir`.
pub open spec fn plist_spec(
    daemon_path: Seq<char>,
    project_root: Seq<char>,
    home_dir: Seq<char>,
) -> Seq<char> {
    PLIST_HEAD@ + daemon_path + PLIST_AFTER_PROGRAM@ + daemon_path + PLIST_AFTER_PYTHONPATH@
        + project_root + PLIST_AFTER_WORKING_DIR@ + home_dir + PLIST_AFTER_OUT_LOG_HOME@
        + home_dir + PLIST_TAIL@
}

/// Writes the launch-agent definition of the watcher.
pub fn plist_content(daemon_path: &str, project_root: &str, home_dir: &str) -> (res: String)
    ensures
        res@ == plist_spec(daemon_path@, project_root@, home_dir@),
{
    String::from_str(PLIST_HEAD)
        .concat(daemon_path)
        .concat(PLIST_AFTER_PROGRAM)
        .concat(daemon_path)
        .concat(PLIST_AFTER_PYTHONPATH)
        .concat(project_root)
        .concat(PLIST_AFTER_WORKING_DIR)
        .concat(home_dir)
        .concat(PLIST_AFTER_OUT_LOG_HOME)
        .concat(home_dir)
        .concat(PLIST_TAIL)
}

/// The launchd service of the watcher for the user with id `uid`.
pub fn daemon_service_target(uid: &str) -> (res: String)
    ensures
        res@ == "gui/"@ + uid@ + "/com.sophist.filewatcher"@,
{
    String::from_str("gui/").concat(uid).concat("/com.sophist.filewatcher")
}

/// The launchd domain of the user with id `uid`.
pub fn user_domain(uid: &str) -> (res: String)
    ensures
        res@ == "gui/"@ + uid@,
{
    String::from_str("gui/").concat(uid)
}

/// The operating systems the daemon knows.
#[derive(PartialEq, Eq, Structural, Debug, Clone, Copy)]
pub enum Platform {
    MacOs,
    Linux,
    Other,
}

pub open spec fn platform_spec(os: Seq<char>) -> Platform {
    if os == "macos"@ {
        Platform::MacOs
    } else if os == "linux"@ {
        Platform::Linux
    } else {
        Platform::Other
    }
}

/// The platform named by `std::env::consts::OS`.
pub fn platform(os: &str) -> (res: Platform)
    ensures
        res == platform_spec(os@),
{
    if chars_equal(os, "macos") {
        Platform::MacOs
    } else if chars_equal(os, "linux") {
        Platform::Linux
    } else {
        Platform::Other
    }
}

/// What `shutdown` does.
#[derive(PartialEq, Eq, Structural, Debug, Clone, Copy)]
pub enum ShutdownAction {
    /// The daemon is not running; nothing to do.
    AlreadyInactive,
    /// Boot out the macOS launch agent.
    StopMacOs,
    /// Stop the Linux service.
    StopLinux,
}

/// Decides what shutting the daemon down means. A running daemon on an
/// operating system other than macOS and Linux cannot be shut down.
pub fn shutdown_action(daemon_alive: bool, os: &str) -> (res: ShutdownAction)
    requires
        daemon_alive ==> platform_spec(os@) != Platform::Other,
    ensures
        res == if !daemon_alive {
            ShutdownAction::AlreadyInactive
        } else if platform_spec(os@) == Platform::MacOs {
            ShutdownAction::StopMacOs
        } else {
            ShutdownAction::StopLinux
        },
{
    if !daemon_alive {
        return ShutdownAction::AlreadyInactive;
    }
    match platform(os) {
        Platform::MacOs => ShutdownAction::StopMacOs,
        _ => ShutdownAction::StopLinux,
    }
}

/// The directory that holds `path`, as `Path::parent` gives it for a path
/// without a trailing `/` or `.` parts (as a canonical path is): the path up
/// to its last `/`, or `/` when that `/` is the first char, or nothing
/// before a name without `/`; no directory for `/` or the empty path.
pub open spec fn parent_dir(path: Seq<char>) -> Option<Seq<char>> {
    if path.len() == 0 || path == seq!['/'] {
        None
    } else {
        match path.index_of_last('/') {
            Some(i) => if i == 0 {
                Some(seq!['/'])
            } else {
                Some(path.take(i))
            },
            None => Some(Seq::empty()),
        }
    }
}

/// The directory that holds `path`.
pub fn parent_directory(path: &str) -> (res: Option<String>)
    ensures
        match res {
            Some(dir) => parent_dir(path@) == Some(dir@),
            None => parent_dir(path@) is None,
        },
{
    let n = path.unicode_len();
    if n == 0 || (n == 1 && path.get_char(0) == '/') {
        proof {
            if n == 1 {
                assert(path@ =~= seq!['/']);
            }
        }
        return None;
    }
    proof {
        path@.index_of_last_ensures('/');
        if path@ == seq!['/'] {
            assert(path@[0] == '/');
        }
    }
    match last_index_of(path, '/') {
        Some(0) => {
            let root = String::from_str("/");
            proof {
                reveal_strlit("/");
            }
            assert(root@ =~= seq!['/']);
            Some(root)
        },
        Some(i) => {
            let dir = path.substring_char(0, i);
            assert(dir@ =~= path@.take(i as int));
            Some(String::from_str(dir))
        },
        None => Some(String::new()),
    }
}

/// The project root, the watcher's working directory: the directory three
/// levels above the script `src/scripts/daemon.py`, that is, the directory
/// holding `src`.
pub open spec fn project_root_spec(daemon_path: Seq<char>) -> Option<Seq<char>> {
    match parent_dir(daemon_path) {
        Some(scripts) => match parent_dir(scripts) {
            Some(src) => parent_dir(src),
            None => None,
        },
        None => None,
    }
}

/// The project root for the watcher script at `daemon_path`; none when the
/// path is too short to have one.
pub fn project_root(daemon_path: &str) -> (res: Option<String>)
    ensures
        match res {
            Some(root) => project_root_spec(daemon_path@) == Some(root@),
            None => project_root_spec(daemon_path@) is None,
        },
{
    let scripts = parent_directory(daemon_path)?;
    let src = parent_directory(scripts.as_str())?;
    parent_directory(src.as_str())
}

/// What an answer to "replace the API keys (y/n)" asks for.
#[derive(PartialEq, Eq, Structural, Debug, Clone, Copy)]
pub enum ReplaceAnswer {
    /// `y`: type new keys.
    Replace,
    /// `n`: keep the keys.
    Keep,
    /// Anything else: ask again.
    AskAgain,
}

/// Reads one typed line, without surrounding white space, as an answer.
pub fn replace_keys_answer(line: &str) -> (res: ReplaceAnswer)
    ensures
        res == if trimmed(line@) == "y"@ {
            ReplaceAnswer::Replace
        } else if trimmed(line@) == "n"@ {
            ReplaceAnswer::Keep
        } else {
            ReplaceAnswer::AskAgain
        },
{
    let answer = trim(line);
    if chars_equal(answer, "y") {
        ReplaceAnswer::Replace
    } else if chars_equal(answer, "n") {
        ReplaceAnswer::Keep
    } else {
        ReplaceAnswer::AskAgain
    }
}

/// `needle` occurs in `a + needle + b`.
proof fn lemma_infix_between(a: Seq<char>, needle: Seq<char>, b: Seq<char>)
    ensures
        is_infix(needle, a + needle + b),
{
    let whole = a + needle + b;
    assert(whole.subrange(a.len() as int, a.len() as int + needle.len()) =~= needle);
}

/// The launch agent runs `/usr/bin/python3` on the watcher script, with
/// `PYTHONPATH` set to the script, in the project root as working
/// directory, and logs to `library/logs/sophist.log` and
/// `library/logs/sophist.error.log` under the home directory.
pub proof fn lemma_plist_entries(daemon_path: Seq<char>, project_root: Seq<char>, home_dir: Seq<char>)
    ensures
        is_infix(
            "<string>/usr/bin/python3</string>\n        <string>"@ + daemon_path + "</string>"@,
            plist_spec(daemon_path, project_root, home_dir),
        ),
        is_infix(
            "<key>PYTHONPATH</key>\n        <string>"@ + daemon_path + "</string>"@,
            plist_spec(daemon_path, project_root, home_dir),
        ),
        is_infix(
            "<key>WorkingDirectory</key>\n    <string>"@ + project_root + "</string>"@,
            plist_spec(daemon_path, project_root, home_dir),
        ),
        is_infix(
            "<key>StandardOutPath</key>\n    <string>"@ + home_dir + "/library/logs/sophist.log</string>"@,
            plist_spec(daemon_path, project_root, home_dir),
        ),
        is_infix(
            "<key>StandardErrorPath</key>\n    <string>"@ + home_dir
                + "/library/logs/sophist.error.log</string>"@,
            plist_spec(daemon_path, project_root, home_dir),
        ),
{
    reveal_strlit("<?xml version=\"1.0\" encoding=\"UTF-8\"?>\n<!DOCTYPE plist PUBLIC \"-//Apple//DTD PLIST 1.0//EN\" \"http://www.apple.com/DTDs/PropertyList-1.0.dtd\">\n<plist version=\"1.0\">\n<dict>\n    <key>Label</key>\n    <string>com.sophist.filewatcher</string>\n    <key>ProgramArguments</key>\n    <array>\n        <string>/usr/bin/python3</string>\n        <string>");
    reveal_strlit("</string>\n        <string>watch</string>\n    </array>\n    <key>EnvironmentVariables</key>\n    <dict>\n        <key>PYTHONPATH</key>\n        <string>");
    reveal_strlit("</string>\n    </dict>\n    <key>WorkingDirectory</key>\n    <string>");
    reveal_strlit("</string>\n    <key>RunAtLoad</key>\n    <true/>\n    <key>KeepAlive</key> \n    <true/>\n    <key>com.apple.security.files.all</key>\n    <true/>\n    <key>com.apple.security.files.user-selected.read-write</key>\n    <true/>\n    <key>StandardOutPath</key>\n    <string>");
    reveal_strlit("/library/logs/sophist.log</string>\n    <key>StandardErrorPath</key>\n    <string>");
    reveal_strlit("/library/logs/sophist.error.log</string>\n</dict>\n</plist>");
    reveal_strlit("<string>/usr/bin/python3</string>\n        <string>");
    reveal_strlit("<key>PYTHONPATH</key>\n        <string>");
    reveal_strlit("<key>WorkingDirectory</key>\n    <string>");
    reveal_strlit("<key>StandardOutPath</key>\n    <string>");
    reveal_strlit("<key>StandardErrorPath</key>\n    <string>");
    reveal_strlit("</string>");
    reveal_strlit("/library/logs/sophist.log</string>");
    reveal_strlit("/library/logs/sophist.error.log</string>");
    let (d, r, h) = (daemon_path, project_root, home_dir);
    let p0 = PLIST_HEAD@;
    let p1 = PLIST_AFTER_PROGRAM@;
    let p2 = PLIST_AFTER_PYTHONPATH@;
    let p3 = PLIST_AFTER_WORKING_DIR@;
    let p4 = PLIST_AFTER_OUT_LOG_HOME@;
    let p5 = PLIST_TAIL@;
    let whole = plist_spec(d, r, h);
    let close = "</string>"@;
    // The script, after the interpreter.
    let k0 = "<string>/usr/bin/python3</string>\n        <string>"@;
    let a0 = p0.take(p0.len() - k0.len());
    assert(p0 =~= a0 + k0);
    let b1 = p1.skip(close.len() as int);
    assert(p1 =~= close + b1);
    assert(whole =~= a0 + (k0 + d + close) + (b1 + d + p2 + r + p3 + h + p4 + h + p5));
    lemma_infix_between(a0, k0 + d + close, b1 + d + p2 + r + p3 + h + p4 + h + p5);
    // PYTHONPATH.
    let k1 = "<key>PYTHONPATH</key>\n        <string>"@;
    let a1 = p1.take(p1.len() - k1.len());
    assert(p1 =~= a1 + k1);
    let b2 = p2.skip(close.len() as int);
    assert(p2 =~= close + b2);
    assert(whole =~= (p0 + d + a1) + (k1 + d + close) + (b2 + r + p3 + h + p4 + h + p5));
    lemma_infix_between(p0 + d + a1, k1 + d + close, b2 + r + p3 + h + p4 + h + p5);
    // Working directory.
    let k2 = "<key>WorkingDirectory</key>\n    <string>"@;
    let a2 = p2.take(p2.len() - k2.len());
    assert(p2 =~= a2 + k2);
    let b3 = p3.skip(close.len() as int);
    assert(p3 =~= close + b3);
    assert(whole =~= (p0 + d + p1 + d + a2) + (k2 + r + close) + (b3 + h + p4 + h + p5));
    lemma_infix_between(p0 + d + p1 + d + a2, k2 + r + close, b3 + h + p4 + h + p5);
    // Output log.
    let k3 = "<key>StandardOutPath</key>\n    <string>"@;
    let out = "/library/logs/sophist.log</string>"@;
    let a3 = p3.take(p3.len() - k3.len());
    assert(p3 =~= a3 + k3);
    let b4 = p4.skip(out.len() as int);
    assert(p4 =~= out + b4);
    assert(whole =~= (p0 + d + p1 + d + p2 + r + a3) + (k3 + h + out) + (b4 + h + p5));
    lemma_infix_between(p0 + d + p1 + d + p2 + r + a3, k3 + h + out, b4 + h + p5);
    // Error log.
    let k4 = "<key>StandardErrorPath</key>\n    <string>"@;
    let err = "/library/logs/sophist.error.log</string>"@;
    let a4 = p4.take(p4.len() - k4.len());
    assert(p4 =~= a4 + k4);
    let b5 = p5.skip(err.len() as int);
    assert(p5 =~= err + b5);
    assert(whole =~= (p0 + d + p1 + d + p2 + r + p3 + h + a4) + (k4 + h + err) + b5);
    lemma_infix_between(p0 + d + p1 + d + p2 + r + p3 + h + a4, k4 + h + err, b5);
}

/// For the watcher script at `src/scripts/daemon.py` under a project
/// directory (given without a trailing `/`), the working directory is that
/// project directory.
pub proof fn lemma_project_root_of_script(root: Seq<char>)
    requires
        root.len() > 0,
        root.last() != '/',
    ensures
        project_root_spec(root + "/src/scripts/daemon.py"@) == Some(root),
{
    reveal_strlit("/src/scripts/daemon.py");
    let tail = "/src/scripts/daemon.py"@;
    let p = root + tail;
    // the last `/` of each path, from the script up to the project
    let a = root.len() as int + 12;
    let b = root.len() as int + 4;
    let c = root.len() as int;
    let scripts = p.take(a);
    let src = p.take(b);
    p.index_of_last_ensures('/');
    assert(p[a] == '/');
    assert forall|j: int| a < j < p.len() implies p[j] != '/' by {
        assert(p[j] == tail[j - root.len()]);
    }
    assert(p.index_of_last('/') == Some(a));
    assert(parent_dir(p) == Some(scripts));
    scripts.index_of_last_ensures('/');
    assert(scripts[b] == '/');
    assert forall|j: int| b < j < scripts.len() implies scripts[j] != '/' by {
        assert(scripts[j] == tail[j - root.len()]);
    }
    assert(scripts.index_of_last('/') == Some(b));
    assert(scripts.take(b) =~= src);
    assert(parent_dir(scripts) == Some(src));
    src.index_of_last_ensures('/');
    assert(src[c] == '/');
    assert forall|j: int| c < j < src.len() implies src[j] != '/' by {
        assert(src[j] == tail[j - root.len()]);
    }
    assert(src.index_of_last('/') == Some(c));
    assert(src.take(c) =~= root);
    assert(src != seq!['/']);
    assert(parent_dir(src) == Some(root));
}

} // verus!
