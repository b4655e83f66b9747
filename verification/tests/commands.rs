use sophist::setup::{parent_directory, project_root, replace_keys_answer, ReplaceAnswer};
use sophist::embeddor::{summary_text, SummaryCandidate, SummaryError, SummaryReply};
use sophist::embeddor::{auth_header, encode_image, summary_prompt, SUMMARY_CONTEXT};
use sophist::setup::{
    api_keys_are_setup, daemon_service_target, env_file_content, launch_agents_dir, platform,
    plist_content, plist_path, shutdown_action, user_domain, Platform, ShutdownAction,
};
use sophist::stalker::{check_file_count, parse_command, parse_u32, Command, CountError};

#[test]
fn file_counts() {
    assert_eq!(check_file_count("5\n"), Ok(5));
    assert_eq!(check_file_count("  12  "), Ok(12));
    assert_eq!(check_file_count("+7"), Ok(7));
    assert_eq!(check_file_count("0\n"), Err(CountError::NotPositive));
    assert_eq!(check_file_count("abc"), Err(CountError::NotANumber));
    assert_eq!(check_file_count("-3"), Err(CountError::NotANumber));
    assert_eq!(check_file_count(""), Err(CountError::NotANumber));
    assert_eq!(check_file_count("4294967296"), Err(CountError::NotANumber));
    assert_eq!(check_file_count("4294967295"), Ok(4294967295));
    assert_eq!(CountError::NotPositive.message(), "Please enter a number greater than 0");
    assert_eq!(CountError::NotANumber.message(), "Please enter a valid number");
}

#[test]
fn parse_matches_std() {
    for s in ["0", "007", "+", "+1", "1 2", "99999999999", "4294967295", "", "-0", "١"] {
        assert_eq!(parse_u32(s), s.parse::<u32>().ok());
    }
}

#[test]
fn commands() {
    assert_eq!(parse_command("init"), Command::Init);
    assert_eq!(parse_command("watch"), Command::Watch);
    assert_eq!(parse_command("abandon"), Command::Abandon);
    assert_eq!(parse_command("search"), Command::Search);
    assert_eq!(parse_command("debug"), Command::Debug);
    assert_eq!(parse_command("shutdown"), Command::Shutdown);
    assert_eq!(parse_command("help"), Command::Help);
    assert_eq!(parse_command("Help"), Command::Invalid);
}

#[test]
fn image_encoding() {
    assert_eq!(encode_image(b"hello"), "aGVsbG8=");
    assert_eq!(encode_image(b""), "");
    assert_eq!(encode_image(&[0xff, 0xfe, 0xfd]), "//79");
    assert_eq!(encode_image(b"ab").len(), 4);
}

#[test]
fn request_parts() {
    assert_eq!(auth_header("k"), "Bearer k");
    let p = summary_prompt("body");
    assert!(p.starts_with(SUMMARY_CONTEXT));
    assert!(p.ends_with("\n\nbody"));
    assert_eq!(p.len(), SUMMARY_CONTEXT.len() + 6);
}

#[test]
fn api_keys() {
    assert!(api_keys_are_setup("GEMINI_API_KEY=a\nJINA_API_KEY=b"));
    assert!(!api_keys_are_setup("GEMINI_API_KEY=a"));
    assert_eq!(
        env_file_content(" g1 \n", "j2\n"),
        "GEMINI_API_KEY=g1\nJINA_API_KEY=j2"
    );
    assert!(api_keys_are_setup(&env_file_content("", "")));
}

#[test]
fn daemon_paths() {
    assert_eq!(launch_agents_dir("/Users/x"), "/Users/x/Library/LaunchAgents");
    assert_eq!(
        plist_path("/Users/x"),
        "/Users/x/Library/LaunchAgents/com.sophist.filewatcher.plist"
    );
    assert_eq!(daemon_service_target("501"), "gui/501/com.sophist.filewatcher");
    assert_eq!(user_domain("501"), "gui/501");
    let plist = plist_content("/p/src/scripts/daemon.py", "/p", "/Users/x");
    assert!(plist.starts_with("<?xml version=\"1.0\" encoding=\"UTF-8\"?>\n"));
    assert!(plist.contains("        <string>/p/src/scripts/daemon.py</string>\n        <string>watch</string>"));
    assert!(plist.contains("<key>WorkingDirectory</key>\n    <string>/p</string>"));
    assert!(plist.contains("<string>/Users/x/library/logs/sophist.error.log</string>"));
    assert!(plist.ends_with("</dict>\n</plist>"));
}

#[test]
fn shutdown_decisions() {
    assert_eq!(platform("macos"), Platform::MacOs);
    assert_eq!(platform("linux"), Platform::Linux);
    assert_eq!(platform("windows"), Platform::Other);
    assert_eq!(shutdown_action(false, "windows"), ShutdownAction::AlreadyInactive);
    assert_eq!(shutdown_action(true, "macos"), ShutdownAction::StopMacOs);
    assert_eq!(shutdown_action(true, "linux"), ShutdownAction::StopLinux);
}

#[test]
fn working_directory_is_project_root() {
    assert_eq!(project_root("/proj/src/scripts/daemon.py"), Some("/proj".to_string()));
    assert_eq!(project_root("/src/scripts/daemon.py"), Some("/".to_string()));
    assert_eq!(project_root("/scripts/daemon.py"), None);
    assert_eq!(parent_directory("/a/b"), Some("/a".to_string()));
    assert_eq!(parent_directory("/a"), Some("/".to_string()));
    assert_eq!(parent_directory("/"), None);
    assert_eq!(parent_directory("a"), Some(String::new()));
    for p in ["/a/b/c", "/x", "rel/y"] {
        assert_eq!(
            parent_directory(p),
            std::path::Path::new(p).parent().map(|d| d.to_string_lossy().to_string())
        );
    }
}

#[test]
fn replace_keys_answers() {
    assert_eq!(replace_keys_answer("y\n"), ReplaceAnswer::Replace);
    assert_eq!(replace_keys_answer(" n \n"), ReplaceAnswer::Keep);
    assert_eq!(replace_keys_answer("maybe\n"), ReplaceAnswer::AskAgain);
    assert_eq!(replace_keys_answer("yes"), ReplaceAnswer::AskAgain);
}

#[test]
fn summary_from_reply() {
    let reply = SummaryReply {
        candidates: vec![
            SummaryCandidate { parts: vec![Some("first".to_string()), Some("second".to_string())] },
            SummaryCandidate { parts: vec![Some("other".to_string())] },
        ],
    };
    assert_eq!(summary_text(&reply), Ok("first".to_string()));
    let empty = SummaryReply { candidates: vec![] };
    assert_eq!(summary_text(&empty), Err(SummaryError::MissingText));
    let no_text = SummaryReply { candidates: vec![SummaryCandidate { parts: vec![None] }] };
    assert_eq!(summary_text(&no_text), Err(SummaryError::MissingText));
    assert_eq!(SummaryError::MissingText.message(), "Failed to get summary text");
}
