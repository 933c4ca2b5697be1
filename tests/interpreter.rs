use rshell::error::ReadDirError;
use rshell::interpreter::{
    cd_failure_message, echo_line, exit_status, pwd_report, type_report, Builtin, Interpreter,
    ShellCommand,
};
use rshell::text::{cd_target, join_text, split_text};

fn strings(v: &[&str]) -> Vec<String> {
    v.iter().map(|s| s.to_string()).collect()
}

#[test]
fn cd_relative_parent_then_child() {
    assert_eq!(cd_target(Some("../c"), None, "/a/b"), "/a/c");
}

#[test]
fn cd_parent_of_root_is_root() {
    assert_eq!(cd_target(Some(".."), None, "/"), "/");
}

#[test]
fn cd_dot_stays() {
    assert_eq!(cd_target(Some("./x/."), None, "/a"), "/a/x");
}

#[test]
fn cd_absolute_is_kept() {
    assert_eq!(cd_target(Some("/usr/../bin"), None, "/a"), "/usr/../bin");
}

#[test]
fn cd_home() {
    assert_eq!(cd_target(Some("~"), Some("/home/u"), "/a"), "/home/u");
    assert_eq!(cd_target(None, Some("/home/u"), "/a"), "/home/u");
    assert_eq!(cd_target(None, None, "/a"), "/root");
}

#[test]
fn cd_failure_text() {
    assert_eq!(cd_failure_message("/nope"), "cd: /nope: No such file or directory");
}

#[test]
fn echo_joins_with_spaces() {
    assert_eq!(echo_line(&strings(&["a", "b c", "d"])), "a b c d");
    assert_eq!(echo_line(&Vec::new()), "");
}

#[test]
fn type_reports() {
    assert_eq!(type_report("echo", None), "echo is a shell builtin");
    assert_eq!(type_report("cd", Some("/bin/cd")), "cd is a shell builtin");
    assert_eq!(type_report("ls", Some("/bin/ls")), "ls is /bin/ls");
    assert_eq!(type_report("nope", None), "nope: not found");
}

#[test]
fn pwd_reports() {
    assert_eq!(pwd_report("/tmp"), "/tmp");
    assert_eq!(pwd_report(""), "Error excuting getcwd");
}

#[test]
fn exit_statuses() {
    assert_eq!(exit_status(&Vec::new()), 0);
    assert_eq!(exit_status(&strings(&["3"])), 3);
    assert_eq!(exit_status(&strings(&["-7", "x"])), -7);
    assert_eq!(exit_status(&strings(&["+12"])), 12);
    assert_eq!(exit_status(&strings(&["abc"])), 0);
    assert_eq!(exit_status(&strings(&["99999999999"])), 0);
}

#[test]
fn registry_lookup() {
    let inter = Interpreter::new(5);
    assert_eq!(inter.history, 5);
    assert_eq!(inter.builtin("echo"), Some(Builtin::Echo));
    assert_eq!(inter.builtin("history"), Some(Builtin::History));
    assert_eq!(inter.builtin("cd"), None);
    assert_eq!(inter.shell_command("cd"), Some(ShellCommand::Cd));
    assert_eq!(inter.shell_command("exit"), Some(ShellCommand::Exit));
    assert_eq!(inter.shell_command("echo"), None);
    assert_eq!(
        inter.get_builtins(),
        strings(&["echo", "type", "pwd", "history", "exit", "cd"])
    );
}

#[test]
fn split_and_join_text() {
    assert_eq!(split_text("/a//b", '/'), strings(&["", "a", "", "b"]));
    assert_eq!(split_text("", '/'), strings(&[""]));
    assert_eq!(join_text(&strings(&["a", "b"]), '/'), "a/b");
}

#[test]
fn read_dir_error_messages() {
    assert_eq!(
        ReadDirError::OpenDirError("x".to_string()).message(),
        "Failed to open directory"
    );
    assert_eq!(
        ReadDirError::DirectoryNotFound("x".to_string()).message(),
        "Failed to open directory: no such path"
    );
    assert_eq!(
        ReadDirError::ReadDirectoryError("x".to_string()).message(),
        "Failed to read directory"
    );
    assert_eq!(ReadDirError::Unknown("x".to_string()).message(), "Unknown Error");
}
