use vstd::prelude::*;
use crate::text::same_text;

verus! {

/// A command of the control shell.
#[derive(Debug, Clone, Copy, PartialEq, Eq, Structural)]
pub enum Command {
    Debug,
    Help,
    List,
    Create,
    Start,
    Stop,
    ForceStop,
    Restart,
}

/// What the control shell does with its command line.
#[derive(Debug, Clone, Copy, PartialEq, Eq, Structural)]
pub enum CliAction {
    /// No command was given: print the list of commands and exit with 0.
    ShowUsage,
    /// Run the command.
    Run(Command),
    /// The command is not known: say so, print the list and exit with 1.
    Unknown,
}

/// The command that a word names.
pub open spec fn command_named(word: Seq<char>) -> Option<Command> {
    if word == "debug"@ {
        Some(Command::Debug)
    } else if word == "help"@ {
        Some(Command::Help)
    } else if word == "list"@ {
        Some(Command::List)
    } else if word == "create"@ {
        Some(Command::Create)
    } else if word == "start"@ {
        Some(Command::Start)
    } else if word == "stop"@ {
        Some(Command::Stop)
    } else if word == "force-stop"@ {
        Some(Command::ForceStop)
    } else if word == "restart"@ {
        Some(Command::Restart)
    } else {
        None
    }
}

/// The word that names a command on the command line.
pub open spec fn command_word(c: Command) -> Seq<char> {
    match c {
        Command::Debug => "debug"@,
        Command::Help => "help"@,
        Command::List => "list"@,
        Command::Create => "create"@,
        Command::Start => "start"@,
        Command::Stop => "stop"@,
        Command::ForceStop => "force-stop"@,
        Command::Restart => "restart"@,
    }
}

/// A word names a command exactly when it is that command's own word: every
/// command is named by its word, and no other word names any command.
pub proof fn lemma_command_named_by_its_word(word: Seq<char>, c: Command)
    ensures
        command_named(word) == Some(c) <==> word == command_word(c),
        command_named(command_word(c)) == Some(c),
{
    reveal_strlit("debug");
    reveal_strlit("help");
    reveal_strlit("list");
    reveal_strlit("create");
    reveal_strlit("start");
    reveal_strlit("stop");
    reveal_strlit("force-stop");
    reveal_strlit("restart");
    let w = command_word(c);
    assert(w.len() >= 4);
    if word == w {
        // distinct words: they differ in length or in their first characters
        assert(command_named(w) == Some(c)) by {
            assert("debug"@[0] == 'd' && "help"@[0] == 'h' && "list"@[0] == 'l');
            assert("create"@[0] == 'c' && "start"@[1] == 't' && "stop"@[1] == 't');
            assert("start"@.len() == 5 && "stop"@.len() == 4);
            assert("force-stop"@[0] == 'f' && "restart"@[0] == 'r');
        }
    }
    if command_named(word) == Some(c) {
        assert(word == w);
    }
}

/// The command that `word` names, if any.
pub fn lookup_command(word: &str) -> (r: Option<Command>)
    ensures
        r == command_named(word@),
        forall|c: Command| r == Some(c) <==> word@ == command_word(c),
{
    proof {
        assert forall|c: Command| command_named(word@) == Some(c) <==> word@ == command_word(c) by {
            lemma_command_named_by_its_word(word@, c);
        }
    }
    if same_text(word, "debug") {
        Some(Command::Debug)
    } else if same_text(word, "help") {
        Some(Command::Help)
    } else if same_text(word, "list") {
        Some(Command::List)
    } else if same_text(word, "create") {
        Some(Command::Create)
    } else if same_text(word, "start") {
        Some(Command::Start)
    } else if same_text(word, "stop") {
        Some(Command::Stop)
    } else if same_text(word, "force-stop") {
        Some(Command::ForceStop)
    } else if same_text(word, "restart") {
        Some(Command::Restart)
    } else {
        None
    }
}

/// Chooses what the control shell does from its arguments, the program's
/// name first: with no further argument it shows its usage; otherwise the
/// first argument names the command.
pub fn dispatch(args: &Vec<String>) -> (r: CliAction)
    requires
        args.len() >= 1,
    ensures
        args.len() == 1 ==> r == CliAction::ShowUsage,
        args.len() > 1 ==> r == match command_named(args[1]@) {
            Some(c) => CliAction::Run(c),
            None => CliAction::Unknown,
        },
        args.len() > 1 ==> forall|c: Command|
            r == CliAction::Run(c) <==> args[1]@ == command_word(c),
        args.len() > 1 ==> (r == CliAction::Unknown <==> forall|c: Command|
            args[1]@ != command_word(c)),
{
    if args.len() == 1 {
        return CliAction::ShowUsage;
    }
    let word = args[1].as_str();
    match lookup_command(word) {
        Some(c) => {
            assert(args[1]@ == command_word(c));
            CliAction::Run(c)
        },
        None => {
            assert forall|c: Command| args[1]@ != command_word(c) by {
                if args[1]@ == command_word(c) {
                    assert(word@ == command_word(c));
                }
            }
            CliAction::Unknown
        },
    }
}

} // verus!
