use libcraft::error::Error;
use libcraft::server::{
    after_kill, after_kill_grace, is_server_file, plan_stop, split_at_spaces, start_outcome,
    AfterKill, ServerConfig,
};

fn config(id: &str, jvm_args: &str) -> ServerConfig {
    ServerConfig {
        id: id.to_string(),
        name: "Survival".to_string(),
        jarfile: "server.jar".to_string(),
        pwd: "/srv/survival".to_string(),
        jvm_args: jvm_args.to_string(),
        yaml_path: "./servers/survival.yaml".to_string(),
    }
}

fn verification_message(r: Result<(), Error>) -> Option<&'static str> {
    match r {
        Err(Error::VerificationError(m)) => Some(m),
        _ => None,
    }
}

fn subprocess_message<T>(r: Result<T, Error>) -> Option<&'static str> {
    match r {
        Err(Error::SubprocessError(m)) => Some(m),
        _ => None,
    }
}

#[test]
fn verify_checks_in_order() {
    let c = config("survival", "");
    assert_eq!(
        verification_message(c.verify(false, false, false)),
        Some("Server directory does not exist.")
    );
    assert_eq!(
        verification_message(c.verify(true, false, false)),
        Some("Provided jarfile does not exist.")
    );
    assert_eq!(
        verification_message(c.verify(true, true, false)),
        Some("Backing YAML file does not exist.")
    );
    assert!(c.verify(true, true, true).is_ok());
}

#[test]
fn verify_id_characters() {
    assert!(config("my-server_2", "").verify(true, true, true).is_ok());
    // every character of the id must be an allowed one
    assert_eq!(
        verification_message(config("my server!", "").verify(true, true, true)),
        Some("ID uses invalid characters.")
    );
    assert_eq!(
        verification_message(config("a/b", "").verify(true, true, true)),
        Some("ID uses invalid characters.")
    );
    assert_eq!(
        verification_message(config("../srv", "").verify(true, true, true)),
        Some("ID uses invalid characters.")
    );
    assert_eq!(
        verification_message(config("srv\n", "").verify(true, true, true)),
        Some("ID uses invalid characters.")
    );
    assert!(config("A-z_09", "").verify(true, true, true).is_ok());
    assert_eq!(
        verification_message(config("!!!", "").verify(true, true, true)),
        Some("ID uses invalid characters.")
    );
    assert_eq!(
        verification_message(config("", "").verify(true, true, true)),
        Some("ID uses invalid characters.")
    );
    assert_eq!(
        verification_message(config("éü", "").verify(true, true, true)),
        Some("ID uses invalid characters.")
    );
}

#[test]
fn launch_args_without_jvm_args() {
    assert_eq!(config("s", "").launch_args(), vec!["-jar", "server.jar"]);
}

#[test]
fn launch_args_split_jvm_args() {
    assert_eq!(
        config("s", "-Xmx1G -Xms1G").launch_args(),
        vec!["-Xmx1G", "-Xms1G", "-jar", "server.jar"]
    );
    assert_eq!(
        config("s", "a  b ").launch_args(),
        vec!["a", "", "b", "", "-jar", "server.jar"]
    );
}

#[test]
fn split_at_spaces_matches_str_split() {
    for s in ["", " ", "a", "a b", " a  b ", "ü ö"] {
        let expected: Vec<String> = s.split(" ").map(|p| p.to_string()).collect();
        assert_eq!(split_at_spaces(s), expected);
    }
}

#[test]
fn plan_start_refuses_running_server() {
    let c = config("s", "-Xmx2G");
    assert_eq!(subprocess_message(c.plan_start(true)), Some("Server is already running"));
    let plan = c.plan_start(false).ok().unwrap();
    assert_eq!(plan.program, "java");
    assert_eq!(plan.args, vec!["-Xmx2G", "-jar", "server.jar"]);
    assert_eq!(plan.working_dir, "/srv/survival");
    assert_eq!(plan.settle_millis, 200);
}

#[test]
fn start_outcomes() {
    assert_eq!(
        subprocess_message(start_outcome(false, false)),
        Some("Error spawning child process")
    );
    assert_eq!(
        subprocess_message(start_outcome(true, false)),
        Some("Server died prematurely: ")
    );
    assert!(start_outcome(true, true).is_ok());
}

#[test]
fn stop_steps() {
    assert_eq!(subprocess_message(plan_stop(false)), Some("Server is not currently running"));
    assert!(plan_stop(true).is_ok());
    assert_eq!(after_kill(false), AfterKill::Stopped);
    assert_eq!(after_kill(true), AfterKill::WaitMillis(1000));
    assert!(after_kill_grace(false).is_ok());
    assert_eq!(
        subprocess_message(after_kill_grace(true)),
        Some("Child is not responding to kill signal.")
    );
}

#[test]
fn server_files_are_yaml_files() {
    assert!(is_server_file(false, Some("yaml")));
    assert!(!is_server_file(true, Some("yaml")));
    assert!(!is_server_file(false, Some("yml")));
    assert!(!is_server_file(false, None));
}
