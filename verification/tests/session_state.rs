use hyper_revamp::ipc::{claim_next, still_ours, Claim, ClaimEvent, ClaimState, ClaimStep, IpcMessage};
use hyper_revamp::session_state::{capture_session, tabs_to_restore, StoredSessionState, StoredTab, StoredWindow};
use hyper_revamp::ssh_url::{other_ssh_handler, ssh_handler_plan, SshHandlerPlan};

fn tab(profile: &str, cwd: Option<&str>) -> StoredTab {
    StoredTab { profile: profile.to_string(), cwd: cwd.map(|c| c.to_string()) }
}

#[test]
fn capture_then_restore_keeps_known_profiles_in_order() {
    let panes = vec![tab("default", Some("/tmp")), tab("gone", None), tab("work", None)];
    let state = capture_session(&panes);
    assert_eq!(state.windows.len(), 1);
    assert_eq!(state.windows[0].tabs, panes);
    let profiles = vec!["default".to_string(), "work".to_string()];
    let restored = tabs_to_restore(&state, &profiles);
    assert_eq!(restored, vec![tab("default", Some("/tmp")), tab("work", None)]);
}

#[test]
fn nothing_open_writes_no_window() {
    let state = capture_session(&Vec::new());
    assert!(state.windows.is_empty());
    assert_eq!(StoredSessionState::default(), state);
}

#[test]
fn restore_walks_every_window() {
    let state = StoredSessionState {
        windows: vec![
            StoredWindow { tabs: vec![tab("a", None)] },
            StoredWindow { tabs: vec![tab("b", Some("/b")), tab("a", Some("/a"))] },
        ],
    };
    let restored = tabs_to_restore(&state, &vec!["a".to_string()]);
    assert_eq!(restored, vec![tab("a", None), tab("a", Some("/a"))]);
}

#[test]
fn claiming_the_socket_takes_over_only_a_stale_one() {
    assert_eq!(claim_next(ClaimState::Binding, ClaimEvent::Bound), ClaimStep::Done(Claim::Owned));
    assert_eq!(claim_next(ClaimState::Binding, ClaimEvent::AddrInUse), ClaimStep::Next(ClaimState::Probing));
    assert_eq!(claim_next(ClaimState::Binding, ClaimEvent::Failed), ClaimStep::Done(Claim::Unavailable));
    assert_eq!(claim_next(ClaimState::Probing, ClaimEvent::Answered), ClaimStep::Done(Claim::AlreadyRunning));
    assert_eq!(claim_next(ClaimState::Probing, ClaimEvent::NoAnswer), ClaimStep::Next(ClaimState::Removing));
    assert_eq!(claim_next(ClaimState::Removing, ClaimEvent::Removed), ClaimStep::Next(ClaimState::Rebinding));
    assert_eq!(claim_next(ClaimState::Removing, ClaimEvent::Failed), ClaimStep::Done(Claim::Unavailable));
    assert_eq!(claim_next(ClaimState::Rebinding, ClaimEvent::Bound), ClaimStep::Done(Claim::Owned));
    assert_eq!(claim_next(ClaimState::Rebinding, ClaimEvent::Failed), ClaimStep::Done(Claim::Unavailable));
}

#[test]
fn a_superseded_socket_is_not_unlinked() {
    assert!(still_ours(Some((1, 2)), Some((1, 2))));
    assert!(!still_ours(Some((1, 3)), Some((1, 2))));
    assert!(!still_ours(None, Some((1, 2))));
    assert!(!still_ours(Some((0, 0)), None));
    let msg = IpcMessage { paths: vec!["/tmp".to_string()] };
    assert_eq!(msg.paths.len(), 1);
}

#[test]
fn ssh_handler_is_changed_only_when_it_differs() {
    assert_eq!(ssh_handler_plan(true, None, None), SshHandlerPlan::Leave);
    assert_eq!(ssh_handler_plan(true, Some("app.id"), Some("other")), SshHandlerPlan::Claim);
    assert_eq!(ssh_handler_plan(true, Some("app.id"), None), SshHandlerPlan::Claim);
    assert_eq!(ssh_handler_plan(true, Some("app.id"), Some("app.id")), SshHandlerPlan::Leave);
    assert_eq!(ssh_handler_plan(false, Some("app.id"), Some("app.id")), SshHandlerPlan::Release);
    assert_eq!(ssh_handler_plan(false, Some("app.id"), Some("other")), SshHandlerPlan::Leave);
    let handlers = vec!["app.id".to_string(), "com.term".to_string(), "x".to_string()];
    assert_eq!(other_ssh_handler(&handlers, "app.id").as_deref(), Some("com.term"));
    assert_eq!(other_ssh_handler(&vec!["app.id".to_string()], "app.id"), None);
}
