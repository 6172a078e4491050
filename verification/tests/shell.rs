use hyper_revamp::shell::{
    escape_shell_cmd, exit_plan, fallback_shell_config, mode_is_executable, open_path_plan, ExitPlan,
    OpenPlan, PathKind,
};

#[test]
fn opened_paths_are_escaped_before_being_typed() {
    assert_eq!(escape_shell_cmd("/tmp/report;rm -rf ~.txt"), "/tmp/report\\;rm\\ -rf\\ \\~.txt");
    assert_eq!(escape_shell_cmd("/My Files/$(id).txt"), "/My\\ Files/\\$\\(id\\).txt");
    assert_eq!(escape_shell_cmd("/tmp/`whoami`"), "/tmp/\\`whoami\\`");
    assert_eq!(escape_shell_cmd("/Users/me/code"), "/Users/me/code");
}

#[test]
fn shell_fallback_order() {
    let args = vec!["--login".to_string()];
    assert_eq!(
        fallback_shell_config("/bin/fish", &args, "/bin/zsh"),
        Some(("/bin/fish".to_string(), vec![]))
    );
    assert_eq!(
        fallback_shell_config("/bin/fish", &[], "/bin/zsh"),
        Some(("/bin/zsh".to_string(), vec!["--login".to_string()]))
    );
    assert_eq!(fallback_shell_config("/bin/zsh", &[], "/bin/zsh"), None);
}

#[test]
fn opening_a_path_depends_on_what_it_is() {
    assert_eq!(open_path_plan(PathKind::Missing, "/nope"), OpenPlan::ReportMissing);
    assert_eq!(open_path_plan(PathKind::Directory, "/tmp"), OpenPlan::NewTabIn);
    assert_eq!(
        open_path_plan(PathKind::File { executable: false }, "/My Files/notes.txt"),
        OpenPlan::TypeInNewTab("/My\\ Files/notes.txt".to_string())
    );
    assert_eq!(
        open_path_plan(PathKind::File { executable: true }, "/usr/local/bin/run me"),
        OpenPlan::TypeInNewTab("/usr/local/bin/run\\ me\n".to_string())
    );
}

#[test]
fn any_execute_bit_makes_a_file_runnable() {
    assert!(mode_is_executable(0o755));
    assert!(mode_is_executable(0o100));
    assert!(mode_is_executable(0o001));
    assert!(!mode_is_executable(0o644));
    assert!(!mode_is_executable(0o666));
}

fn args(list: &[&str]) -> Vec<String> {
    list.iter().map(|a| a.to_string()).collect()
}

#[test]
fn a_shell_dying_on_startup_falls_back_step_by_step() {
    let zsh = "/bin/zsh";
    assert_eq!(
        exit_plan(Some(1), 200, "/usr/bin/fish", &args(&["-l", "-i"]), zsh),
        ExitPlan::Retry { shell: "/usr/bin/fish".to_string(), args: vec![] }
    );
    assert_eq!(
        exit_plan(Some(127), 999, "/usr/bin/fish", &[], zsh),
        ExitPlan::Retry { shell: zsh.to_string(), args: args(&["--login"]) }
    );
    // The default shell itself: nothing left to try.
    assert_eq!(exit_plan(Some(1), 10, zsh, &[], zsh), ExitPlan::GiveUp);
}

#[test]
fn ordinary_exits_close_the_pane() {
    let zsh = "/bin/zsh";
    assert_eq!(exit_plan(Some(0), 10, zsh, &[], zsh), ExitPlan::Close);
    assert_eq!(exit_plan(Some(1), 1000, zsh, &[], zsh), ExitPlan::Close);
    assert_eq!(exit_plan(None, 10, zsh, &[], zsh), ExitPlan::Close);
    assert_eq!(exit_plan(Some(-1), 10, "/bin/fish", &args(&["-l"]), zsh), ExitPlan::Close);
}
