//! What the shell of a new session is started with: program, working
//! directory and environment, computed from the host's values.
use vstd::prelude::*;
use vstd::string::StringSliceAdditionalSpecFns;

verus! {

/// How to start the shell of a new session.
pub struct LaunchPlan {
    /// The shell executable.
    pub program: String,
    /// The working directory of the shell.
    pub cwd: String,
    /// Environment variables set for the shell, in order.
    pub env: Vec<(String, String)>,
}

/// The characters of an optional string.
pub open spec fn opt_view(o: Option<String>) -> Option<Seq<char>> {
    match o {
        Some(s) => Some(s@),
        None => None,
    }
}

/// The characters of each name and value.
pub open spec fn env_view(v: Seq<(String, String)>) -> Seq<(Seq<char>, Seq<char>)> {
    v.map_values(|p: (String, String)| (p.0@, p.1@))
}

/// `(name, value)` when the host has a value, nothing otherwise.
pub open spec fn inherited(name: Seq<char>, value: Option<Seq<char>>) -> Seq<(Seq<char>, Seq<char>)> {
    match value {
        Some(v) => seq![(name, v)],
        None => seq![],
    }
}

/// The shell's environment: a 256-colour terminal type, shell session
/// persistence switched off, then `HOME`, `USER` and `PATH` where the host
/// has them.
pub open spec fn launch_env(
    home: Option<Seq<char>>,
    user: Option<Seq<char>>,
    path: Option<Seq<char>>,
) -> Seq<(Seq<char>, Seq<char>)> {
    seq![("TERM"@, "xterm-256color"@), ("SHELL_SESSIONS_DISABLE"@, "1"@)] + inherited(
        "HOME"@,
        home,
    ) + inherited("USER"@, user) + inherited("PATH"@, path)
}

fn push_inherited(env: &mut Vec<(String, String)>, name: &str, value: Option<String>)
    ensures
        env_view(final(env)@) == env_view(old(env)@) + inherited(name@, opt_view(value)),
{
    match value {
        Some(v) => {
            env.push((name.to_owned(), v));
            assert(env_view(final(env)@) =~= env_view(old(env)@) + inherited(
                name@,
                opt_view(Some(v)),
            ));
        },
        None => {
            assert(env_view(final(env)@) =~= env_view(old(env)@) + inherited(name@, None));
        },
    }
}

/// The plan for a new session's shell: the host's `SHELL` or `/bin/sh`, run
/// in `cwd`, with the environment of `launch_env`.
pub fn launch_plan(
    shell: Option<String>,
    home: Option<String>,
    user: Option<String>,
    path: Option<String>,
    cwd: String,
) -> (r: LaunchPlan)
    ensures
        r.program@ == (match shell {
            Some(s) => s@,
            None => "/bin/sh"@,
        }),
        r.cwd@ == cwd@,
        env_view(r.env@) == launch_env(opt_view(home), opt_view(user), opt_view(path)),
{
    let program = match shell {
        Some(s) => s,
        None => "/bin/sh".to_owned(),
    };
    let mut env: Vec<(String, String)> = Vec::new();
    env.push(("TERM".to_owned(), "xterm-256color".to_owned()));
    env.push(("SHELL_SESSIONS_DISABLE".to_owned(), "1".to_owned()));
    assert(env_view(env@) =~= seq![("TERM"@, "xterm-256color"@), ("SHELL_SESSIONS_DISABLE"@, "1"@)]);
    push_inherited(&mut env, "HOME", home);
    push_inherited(&mut env, "USER", user);
    push_inherited(&mut env, "PATH", path);
    LaunchPlan { program, cwd, env }
}

/// The input that starts `command` in a fresh shell: the command followed
/// by a newline.
pub fn startup_input(command: &str) -> (r: Vec<u8>)
    ensures
        r@ == command.spec_bytes().push(10u8),
{
    let bytes = command.as_bytes();
    let mut r: Vec<u8> = Vec::new();
    let mut i: usize = 0;
    while i < bytes.len()
        invariant
            i <= bytes.len(),
            bytes@ == command.spec_bytes(),
            r@ == bytes@.subrange(0, i as int),
        decreases bytes.len() - i,
    {
        r.push(bytes[i]);
        i += 1;
    }
    assert(bytes@.subrange(0, bytes@.len() as int) == bytes@);
    r.push(10u8);
    r
}

} // verus!
