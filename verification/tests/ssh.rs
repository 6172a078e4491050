use hyper_revamp::ssh::{askpass_password, build_ssh_args, build_ssh_command, prompt_wants_password, SshOptions};

#[test]
fn args_publickey_with_identity_and_port() {
    let ssh = SshOptions {
        host: "example.com".into(),
        user: "kate".into(),
        port: Some(2222),
        identity_file: Some("~/.ssh/id_ed25519".into()),
        forward_agent: true,
        extra_args: vec!["-v".into()],
        ..Default::default()
    };
    assert_eq!(
        build_ssh_args(&ssh),
        vec!["-p", "2222", "-o", "ConnectTimeout=15", "-i", "~/.ssh/id_ed25519", "-A", "-v", "kate@example.com"]
    );
}

#[test]
fn args_password_auth_forces_password_prefs() {
    let ssh = SshOptions {
        host: "h".into(),
        user: "u".into(),
        password_auth: true,
        ..Default::default()
    };
    assert_eq!(
        build_ssh_args(&ssh),
        vec![
            "-o",
            "ConnectTimeout=15",
            "-o",
            "PreferredAuthentications=password,keyboard-interactive",
            "-o",
            "PubkeyAuthentication=no",
            "-o",
            "StrictHostKeyChecking=accept-new",
            "u@h"
        ]
    );
}

#[test]
fn askpass_only_answers_password_prompts() {
    assert!(prompt_wants_password("kate@example.com's password: "));
    assert!(prompt_wants_password("Password:"));
    assert!(prompt_wants_password(""));
    assert!(!prompt_wants_password(
        "The authenticity of host 'h (1.2.3.4)' can't be established.\n\
         ED25519 key fingerprint is SHA256:abc.\n\
         Are you sure you want to continue connecting (yes/no/[fingerprint])?"
    ));
    assert!(!prompt_wants_password("Enter passphrase for key '/home/kate/.ssh/id_ed25519':"));
}

#[test]
fn password_file_is_reported_for_cleanup() {
    let ssh = SshOptions {
        host: "h".into(),
        user: "u".into(),
        password_auth: true,
        password: Some("hunter2".into()),
        ..Default::default()
    };
    let helper = "/usr/local/bin/hyper-revamp";
    assert_eq!(askpass_password(&ssh, true), Some("hunter2".to_string()));
    let path = "/tmp/hyper-askpass-test";
    let cmd = build_ssh_command(&ssh, Some(helper), Some(path));
    assert_eq!(cmd.password_file.as_deref(), Some(path));
    assert_eq!(cmd.env_var("HYPER_ASKPASS_FILE"), Some(path.to_string()));
    assert_eq!(cmd.env_var("SSH_ASKPASS_REQUIRE"), Some("force".to_string()));
    assert_eq!(cmd.env_var("SSH_ASKPASS"), Some(helper.to_string()));
    assert_eq!(cmd.program, "ssh");
}

#[test]
fn no_password_means_no_askpass() {
    let ssh = SshOptions {
        host: "h".into(),
        user: "u".into(),
        password_auth: true,
        password: None,
        ..Default::default()
    };
    let helper = "/usr/local/bin/hyper-revamp";
    assert_eq!(askpass_password(&ssh, true), None);
    let cmd = build_ssh_command(&ssh, Some(helper), None);
    assert!(cmd.password_file.is_none());
    assert!(cmd.env.is_empty());
}
