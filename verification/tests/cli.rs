use libcraft::cli::{dispatch, lookup_command, CliAction, Command};

fn args(words: &[&str]) -> Vec<String> {
    words.iter().map(|w| w.to_string()).collect()
}

#[test]
fn no_command_shows_usage() {
    assert_eq!(dispatch(&args(&["mirsh"])), CliAction::ShowUsage);
}

#[test]
fn commands_are_dispatched() {
    let cases = [
        ("debug", Command::Debug),
        ("help", Command::Help),
        ("list", Command::List),
        ("create", Command::Create),
        ("start", Command::Start),
        ("stop", Command::Stop),
        ("force-stop", Command::ForceStop),
        ("restart", Command::Restart),
    ];
    for (word, command) in cases {
        assert_eq!(dispatch(&args(&["mirsh", word, "survival"])), CliAction::Run(command));
        assert_eq!(lookup_command(word), Some(command));
    }
}

#[test]
fn unknown_command() {
    assert_eq!(dispatch(&args(&["mirsh", "clone"])), CliAction::Unknown);
    assert_eq!(dispatch(&args(&["mirsh", "Start"])), CliAction::Unknown);
    assert_eq!(lookup_command(""), None);
}
