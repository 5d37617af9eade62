use ptyterm::launch::{launch_plan, startup_input};

fn pairs(env: &[(String, String)]) -> Vec<(&str, &str)> {
    env.iter().map(|(k, v)| (k.as_str(), v.as_str())).collect()
}

#[test]
fn plan_with_full_host_environment() {
    let p = launch_plan(
        Some("/bin/zsh".to_string()),
        Some("/home/u".to_string()),
        Some("u".to_string()),
        Some("/usr/bin".to_string()),
        "/work".to_string(),
    );
    assert_eq!(p.program, "/bin/zsh");
    assert_eq!(p.cwd, "/work");
    assert_eq!(
        pairs(&p.env),
        vec![
            ("TERM", "xterm-256color"),
            ("SHELL_SESSIONS_DISABLE", "1"),
            ("HOME", "/home/u"),
            ("USER", "u"),
            ("PATH", "/usr/bin"),
        ]
    );
}

#[test]
fn plan_falls_back_to_posix_shell() {
    let p = launch_plan(None, None, Some("me".to_string()), None, "/tmp".to_string());
    assert_eq!(p.program, "/bin/sh");
    assert_eq!(p.cwd, "/tmp");
    assert_eq!(
        pairs(&p.env),
        vec![("TERM", "xterm-256color"), ("SHELL_SESSIONS_DISABLE", "1"), ("USER", "me")]
    );
}

#[test]
fn startup_input_ends_with_newline() {
    assert_eq!(startup_input("htop"), b"htop\n".to_vec());
    assert_eq!(startup_input(""), b"\n".to_vec());
}
