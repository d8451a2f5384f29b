use libcraft::control::{control_reply, ControlVerb};

#[test]
fn replies() {
    assert_eq!(control_reply(ControlVerb::Start, None), "Error: Couldn't find specified server.");
    assert_eq!(control_reply(ControlVerb::Stop, None), "Error: Couldn't find specified server.");
    assert_eq!(control_reply(ControlVerb::Start, Some(Ok(()))), "Server started successfully");
    assert_eq!(control_reply(ControlVerb::Stop, Some(Ok(()))), "Server stopped successfully");
    assert_eq!(
        control_reply(ControlVerb::Start, Some(Err("boom".to_string()))),
        "Error: boom"
    );
}
