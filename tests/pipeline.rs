use rshell::interpreter::{Builtin, ShellCommand};
use rshell::pipeline::{plan_command, split_stages, ParentOp, PipeLine, Plan, Program};
use rshell::redirect::{find_redirect, scan_redirections, Redirect};

fn strings(v: &[&str]) -> Vec<String> {
    v.iter().map(|s| s.to_string()).collect()
}

#[test]
fn stages_split_on_pipe_tokens() {
    let st = split_stages(&strings(&["ls", "-l", "|", "wc", "|", "cat"])).unwrap();
    assert_eq!(st, vec![strings(&["ls", "-l"]), strings(&["wc"]), strings(&["cat"])]);
}

#[test]
fn empty_stage_is_refused() {
    assert!(split_stages(&strings(&["ls", "|", "|", "wc"])).is_none());
    assert!(split_stages(&strings(&["ls", "|"])).is_none());
    assert!(split_stages(&strings(&["|", "ls"])).is_none());
}

#[test]
fn single_stage_prefers_shell_command() {
    let st = vec![strings(&["cd", "/tmp"])];
    match plan_command("cd", &st, &vec![Some("/bin/cd".to_string())]) {
        Plan::InParent(sc, args) => {
            assert_eq!(sc, ShellCommand::Cd);
            assert_eq!(args, strings(&["/tmp"]));
        }
        _ => panic!("expected a shell command"),
    }
}

#[test]
fn single_stage_prefers_executable_over_builtin() {
    let st = vec![strings(&["echo", "hi"])];
    match plan_command("echo", &st, &vec![Some("/bin/echo".to_string())]) {
        Plan::Spawn(sp) => {
            assert!(sp.complete);
            assert_eq!(sp.stage_count, 1);
            assert_eq!(sp.stages.len(), 1);
            assert_eq!(sp.stages[0].program, Program::External("/bin/echo".to_string()));
            assert_eq!(sp.stages[0].argv, strings(&["echo", "hi"]));
            assert_eq!(sp.parent_ops(), vec![ParentOp::Spawn(0), ParentOp::Wait(0)]);
        }
        _ => panic!("expected a spawn"),
    }
    match plan_command("echo", &st, &vec![None]) {
        Plan::Spawn(sp) => {
            assert_eq!(sp.stages[0].program, Program::Builtin(Builtin::Echo));
        }
        _ => panic!("expected a spawn"),
    }
}

#[test]
fn single_stage_not_found() {
    let st = vec![strings(&["nope"])];
    assert!(matches!(plan_command("nope", &st, &vec![None]), Plan::NotFound));
}

#[test]
fn three_stages_use_two_pipes_all_closed() {
    let st = vec![strings(&["ls"]), strings(&["grep", "x"]), strings(&["wc"])];
    let exes = vec![Some("/bin/ls".to_string()), Some("/bin/grep".to_string()), Some("/bin/wc".to_string())];
    match plan_command("ls", &st, &exes) {
        Plan::Spawn(sp) => {
            assert!(sp.complete);
            assert_eq!(sp.stages[0].stdin_pipe, None);
            assert_eq!(sp.stages[0].stdout_pipe, Some(0));
            assert_eq!(sp.stages[1].stdin_pipe, Some(0));
            assert_eq!(sp.stages[1].stdout_pipe, Some(1));
            assert_eq!(sp.stages[2].stdin_pipe, Some(1));
            assert_eq!(sp.stages[2].stdout_pipe, None);
            assert_eq!(
                sp.parent_ops(),
                vec![
                    ParentOp::CreatePipe,
                    ParentOp::CreatePipe,
                    ParentOp::Spawn(0),
                    ParentOp::Spawn(1),
                    ParentOp::Spawn(2),
                    ParentOp::CloseRead(0),
                    ParentOp::CloseWrite(0),
                    ParentOp::CloseRead(1),
                    ParentOp::CloseWrite(1),
                    ParentOp::Wait(0),
                    ParentOp::Wait(1),
                    ParentOp::Wait(2),
                ]
            );
            let fds: Vec<[i32; 2]> = vec![[3, 4], [5, 6]];
            let w = sp.stages[1].wiring(&fds);
            assert_eq!(w.len(), 2);
            assert_eq!((w[0].fd_t, w[0].fds), (0, [3, 4]));
            assert_eq!((w[1].fd_t, w[1].fds), (1, [5, 6]));
            let first: Vec<PipeLine> = sp.stages[0].wiring(&fds);
            assert_eq!(first.len(), 1);
            assert_eq!((first[0].fd_t, first[0].fds), (1, [3, 4]));
        }
        _ => panic!("expected a spawn"),
    }
}

#[test]
fn unresolved_stage_aborts_but_closes_pipes() {
    let st = vec![strings(&["ls"]), strings(&["nope"]), strings(&["wc"])];
    let exes = vec![Some("/bin/ls".to_string()), None, Some("/bin/wc".to_string())];
    match plan_command("ls", &st, &exes) {
        Plan::Spawn(sp) => {
            assert!(!sp.complete);
            assert_eq!(sp.stages.len(), 1);
            assert_eq!(
                sp.parent_ops(),
                vec![
                    ParentOp::CreatePipe,
                    ParentOp::CreatePipe,
                    ParentOp::Spawn(0),
                    ParentOp::CloseRead(0),
                    ParentOp::CloseWrite(0),
                    ParentOp::CloseRead(1),
                    ParentOp::CloseWrite(1),
                ]
            );
        }
        _ => panic!("expected a spawn"),
    }
}

#[test]
fn builtin_resolves_in_pipeline() {
    let st = vec![strings(&["echo", "hi"]), strings(&["cat"])];
    let exes = vec![None, Some("/bin/cat".to_string())];
    match plan_command("echo", &st, &exes) {
        Plan::Spawn(sp) => {
            assert!(sp.complete);
            assert_eq!(sp.stages[0].program, Program::Builtin(Builtin::Echo));
        }
        _ => panic!("expected a spawn"),
    }
}

#[test]
fn redirection_operators() {
    assert_eq!(find_redirect("<"), Some(Redirect::Input));
    assert_eq!(find_redirect(">"), Some(Redirect::Output));
    assert_eq!(find_redirect("1>"), Some(Redirect::Output));
    assert_eq!(find_redirect(">>"), Some(Redirect::Append));
    assert_eq!(find_redirect("1>>"), Some(Redirect::Append));
    assert_eq!(find_redirect("2>"), Some(Redirect::ErrOutput));
    assert_eq!(find_redirect("2>>"), Some(Redirect::ErrAppend));
    assert_eq!(find_redirect("&>"), Some(Redirect::Both));
    assert_eq!(find_redirect(">>>"), None);
}

#[test]
fn output_redirection_truncates_and_append_appends() {
    let out = Redirect::Output.mode();
    assert!(out.create && out.truncate && !out.append && !out.read_only);
    assert_eq!(Redirect::Output.target_fd(), 1);
    let app = Redirect::Append.mode();
    assert!(app.create && app.append && !app.truncate && !app.read_only);
    assert_eq!(Redirect::Append.target_fd(), 1);
    let inp = Redirect::Input.mode();
    assert!(inp.read_only && !inp.create);
    assert_eq!(Redirect::Input.target_fd(), 0);
    assert_eq!(Redirect::ErrAppend.target_fd(), 2);
    assert!(Redirect::Both.merges_stderr());
    assert!(!Redirect::ErrOutput.merges_stderr());
}

#[test]
fn scanning_takes_redirections_out() {
    let sc = scan_redirections(&strings(&["cmd", ">", "out.txt", "a", "2>>", "err", "b"])).unwrap();
    assert_eq!(sc.argv, strings(&["cmd", "a", "b"]));
    assert_eq!(sc.redirections.len(), 2);
    assert_eq!(sc.redirections[0].op, Redirect::Output);
    assert_eq!(sc.redirections[0].target, "out.txt");
    assert_eq!(sc.redirections[1].op, Redirect::ErrAppend);
    assert_eq!(sc.redirections[1].target, "err");
}

#[test]
fn missing_redirection_target_fails() {
    assert!(scan_redirections(&strings(&["cmd", ">>"])).is_none());
}
