use vstd::prelude::*;
use vstd::string::StringExecFns;

verus! {

/// A request of the daemon's control interface that acts on one server.
#[derive(Debug, Clone, Copy, PartialEq, Eq, Structural)]
pub enum ControlVerb {
    Start,
    Stop,
}

/// The text that answers a request: `outcome` is `None` where no server
/// has the requested id, else the result of acting on it, an error given by
/// its text.
pub open spec fn reply_text(verb: ControlVerb, outcome: Option<Result<(), Seq<char>>>) -> Seq<
    char,
> {
    match outcome {
        None => "Error: Couldn't find specified server."@,
        Some(Ok(())) => match verb {
            ControlVerb::Start => "Server started successfully"@,
            ControlVerb::Stop => "Server stopped successfully"@,
        },
        Some(Err(text)) => "Error: "@ + text,
    }
}

/// Answers a start or stop request.
pub fn control_reply(verb: ControlVerb, outcome: Option<Result<(), String>>) -> (reply: String)
    ensures
        reply@ == reply_text(
            verb,
            match outcome {
                None => None,
                Some(Ok(())) => Some(Ok(())),
                Some(Err(t)) => Some(Err(t@)),
            },
        ),
        outcome matches Some(Err(t)) ==> reply@ == "Error: "@ + t@,
{
    match outcome {
        None => "Error: Couldn't find specified server.".to_owned(),
        Some(Ok(())) => match verb {
            ControlVerb::Start => "Server started successfully".to_owned(),
            ControlVerb::Stop => "Server stopped successfully".to_owned(),
        },
        Some(Err(text)) => "Error: ".to_owned().concat(text.as_str()),
    }
}

/// Whatever the verb, a request that failed with the error text `t` is
/// answered with "Error: " followed by exactly `t`, and such an answer is
/// never the answer to a request that succeeded.
pub proof fn lemma_failure_reply(verb: ControlVerb, t: Seq<char>)
    ensures
        reply_text(verb, Some(Err(t))) == "Error: "@ + t,
        reply_text(verb, Some(Ok(()))) != reply_text(verb, Some(Err(t))),
        reply_text(verb, None) != reply_text(verb, Some(Ok(()))),
{
    reveal_strlit("Error: ");
    reveal_strlit("Server started successfully");
    reveal_strlit("Server stopped successfully");
    reveal_strlit("Error: Couldn't find specified server.");
    let err = "Error: "@ + t;
    assert(err[0] == 'E');
    assert(reply_text(verb, Some(Ok(())))[0] == 'S');
    assert(reply_text(verb, None)[0] == 'E');
}

} // verus!
