use tessera::environment::{child_environment, child_environment_excluding, proxy_child_environment};

fn vars() -> Vec<(String, String)> {
    [
        ("HOME", "/home/user"),
        ("TERM", "dumb"),
        ("PATH", "/bin"),
        ("TERM_PROGRAM", "other"),
        ("TESSERA_EVENT_FD", "9"),
        ("EMPTY", ""),
    ]
    .iter()
    .map(|(k, v)| (k.to_string(), v.to_string()))
    .collect()
}

#[test]
fn shell_environment_replaces_the_terminal_entries() {
    assert_eq!(
        child_environment(&vars()),
        vec![
            "HOME=/home/user",
            "PATH=/bin",
            "TESSERA_EVENT_FD=9",
            "EMPTY=",
            "TERM=xterm-256color",
            "TERM_PROGRAM=Tessera",
        ]
    );
}

#[test]
fn proxy_environment_sets_the_event_descriptor() {
    assert_eq!(
        proxy_child_environment(&vars(), 3),
        vec![
            "HOME=/home/user",
            "PATH=/bin",
            "EMPTY=",
            "TERM=xterm-256color",
            "TERM_PROGRAM=Tessera",
            "TESSERA_EVENT_FD=3",
        ]
    );
    assert_eq!(
        proxy_child_environment(&[], -4),
        vec!["TERM=xterm-256color", "TERM_PROGRAM=Tessera", "TESSERA_EVENT_FD=-4"]
    );
}

#[test]
fn environment_without_exclusions_keeps_everything() {
    let env = child_environment_excluding(&vars(), &[]);
    assert_eq!(env.len(), 8);
    assert_eq!(env[1], "TERM=dumb");
    assert_eq!(env[6], "TERM=xterm-256color");
}
