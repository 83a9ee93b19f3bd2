use focus_core::elevation::{
    classify_elevation_failure, may_run_background_privileged, next_authorization_method,
    plan_setup, remediation_text, sudoers_policy, write_failure_message, AuthErrorKind,
    AuthMethod, AuthorizationLease, SetupStep, WriteStrategy,
};

#[test]
fn fresh_lease_is_invalid_and_needs_refresh() {
    let lease = AuthorizationLease::new();
    assert!(!lease.is_valid(1000));
    assert!(lease.needs_refresh(1000));
}

#[test]
fn lease_is_valid_until_the_timeout_elapses() {
    let mut lease = AuthorizationLease::new();
    lease.record_authentication(1000);
    assert!(lease.is_valid(1000));
    assert!(lease.is_valid(1899));
    assert!(!lease.is_valid(1900));
}

#[test]
fn refresh_is_due_inside_the_threshold_window() {
    let mut lease = AuthorizationLease::new();
    lease.record_authentication(1000);
    assert!(!lease.needs_refresh(1840));
    assert!(lease.needs_refresh(1841));
    assert!(lease.needs_refresh(5000));
}

#[test]
fn valid_lease_never_takes_an_interactive_path() {
    // the injected channel: the chosen strategy is the only way a write can
    // reach an interactive prompt, so count the interactive choices
    let mut lease = AuthorizationLease::new();
    lease.record_authentication(1000);
    let mut interactive_invocations = 0;
    for gui in [false, true] {
        match lease.choose_write_strategy(1500, gui) {
            WriteStrategy::LeasedNonInteractive => {}
            _ => interactive_invocations += 1,
        }
    }
    assert_eq!(interactive_invocations, 0);
}

#[test]
fn without_lease_the_graphical_prompt_is_preferred() {
    let lease = AuthorizationLease::new();
    assert_eq!(lease.choose_write_strategy(1500, true), WriteStrategy::GraphicalPrompt);
    assert_eq!(lease.choose_write_strategy(1500, false), WriteStrategy::BlockingPrompt);
}

#[test]
fn expired_lease_behaves_like_no_lease() {
    let mut lease = AuthorizationLease::new();
    lease.record_authentication(1000);
    assert_eq!(lease.choose_write_strategy(5000, true), WriteStrategy::GraphicalPrompt);
}

#[test]
fn background_privileged_actions_skip_without_a_lease() {
    let lease = AuthorizationLease::new();
    assert!(!may_run_background_privileged(&lease, 1000));
    let mut leased = AuthorizationLease::new();
    leased.record_authentication(990);
    assert!(may_run_background_privileged(&leased, 1000));
}

#[test]
fn classifies_missing_configuration() {
    let k = classify_elevation_failure("sudo: a password is required");
    assert_eq!(k, AuthErrorKind::NotConfigured);
}

#[test]
fn classifies_wrong_credentials() {
    assert_eq!(
        classify_elevation_failure("sudo: Authentication Failure"),
        AuthErrorKind::WrongCredentials
    );
    assert_eq!(
        classify_elevation_failure("pam authentication error"),
        AuthErrorKind::WrongCredentials
    );
}

#[test]
fn classifies_cancellation() {
    assert_eq!(classify_elevation_failure("Request dismissed"), AuthErrorKind::Cancelled);
    assert_eq!(classify_elevation_failure("prompt cancelled"), AuthErrorKind::Cancelled);
}

#[test]
fn classifies_unknown_output() {
    assert_eq!(classify_elevation_failure("disk on fire"), AuthErrorKind::Other);
}

#[test]
fn remediation_texts_are_actionable() {
    assert_eq!(
        remediation_text(AuthErrorKind::NotConfigured),
        "Authorization not configured. Please complete the onboarding process or run: sudo -v"
    );
    assert_eq!(
        remediation_text(AuthErrorKind::WrongCredentials),
        "Authentication failed. Please ensure you're entering the correct password for your user account."
    );
    assert_eq!(remediation_text(AuthErrorKind::Cancelled), "Authentication cancelled by user.");
}

#[test]
fn write_failure_message_carries_the_helper_output() {
    assert_eq!(
        write_failure_message("boom", "partial"),
        "Failed to write hosts file. Error: boom Output: partial"
    );
}

#[test]
fn sudoers_policy_grants_exactly_the_engine_commands() {
    let policy = sudoers_policy("alice");
    let expected = "# Focus App - Passwordless sudo for specific commands\n\
                    alice ALL=(ALL) NOPASSWD: /usr/bin/tee /etc/hosts\n\
                    alice ALL=(ALL) NOPASSWD: /usr/bin/cp * /etc/hosts\n\
                    alice ALL=(ALL) NOPASSWD: /usr/bin/systemctl restart systemd-resolved\n\
                    alice ALL=(ALL) NOPASSWD: /usr/bin/systemctl restart nscd\n\
                    alice ALL=(ALL) NOPASSWD: /usr/bin/resolvectl flush-caches\n\
                    alice ALL=(ALL) NOPASSWD: /usr/bin/systemd-resolve --flush-caches\n";
    assert_eq!(policy, expected);
}

#[test]
fn setup_plan_follows_the_machine_state() {
    assert_eq!(plan_setup(true, true), SetupStep::AlreadyConfigured);
    assert_eq!(plan_setup(true, false), SetupStep::AlreadyConfigured);
    assert_eq!(plan_setup(false, false), SetupStep::HelperMissing);
    assert_eq!(plan_setup(false, true), SetupStep::Install);
}

#[test]
fn interactive_authorization_tries_refresh_then_one_prompt() {
    assert_eq!(next_authorization_method(None, true), Some(AuthMethod::NonInteractiveRefresh));
    assert_eq!(
        next_authorization_method(Some(AuthMethod::NonInteractiveRefresh), true),
        Some(AuthMethod::GraphicalPrompt)
    );
    assert_eq!(
        next_authorization_method(Some(AuthMethod::NonInteractiveRefresh), false),
        Some(AuthMethod::TerminalPrompt)
    );
    assert_eq!(next_authorization_method(Some(AuthMethod::GraphicalPrompt), true), None);
    assert_eq!(next_authorization_method(Some(AuthMethod::TerminalPrompt), false), None);
}
