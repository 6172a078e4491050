use hyper_revamp::ssh_url::ssh_url_to_command;

#[test]
fn ssh_url_parsing() {
    assert_eq!(
        ssh_url_to_command("ssh://alice@example.com:2222"),
        Some("ssh alice@example.com -p 2222\n".into())
    );
    assert_eq!(ssh_url_to_command("ssh://example.com"), Some("ssh example.com\n".into()));
    assert_eq!(ssh_url_to_command("ssh://bad;host"), None);
    assert_eq!(ssh_url_to_command("http://example.com"), None);
}

#[test]
fn ssh_url_edge_cases() {
    assert_eq!(ssh_url_to_command("ssh://example.com///"), Some("ssh example.com\n".into()));
    assert_eq!(ssh_url_to_command("ssh://"), None);
    assert_eq!(ssh_url_to_command("ssh://host:"), None);
    assert_eq!(ssh_url_to_command("ssh://a@b@c"), None);
    assert_eq!(ssh_url_to_command("ssh://u@:22"), None);
}
