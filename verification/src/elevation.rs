//! Privilege elevation manager: tracks a time-bounded lease on elevated
//! credentials so that one interactive prompt is amortized across many
//! privileged operations. The manager only decides — which elevation channel
//! a privileged write must use, whether a refresh is due, what an elevation
//! failure means — while the caller invokes the elevation helper and reports
//! outcomes back, with the clock injected as a plain timestamp.

use vstd::prelude::*;

use crate::text::{chars_to_string, has_sub, str_to_chars};

verus! {

/// Seconds a lease stays usable after an authentication.
pub const LEASE_TIMEOUT_SECS: u64 = 900;

/// A lease within this many seconds of expiry is refreshed ahead of use.
pub const REFRESH_THRESHOLD_SECS: u64 = 60;

/// The lease is valid at `now`: an authentication happened and the timeout
/// has not yet elapsed since.
pub open spec fn lease_valid(lease: Option<u64>, now: u64) -> bool {
    match lease {
        Some(t) => (now as int) < (t as int) + (LEASE_TIMEOUT_SECS as int),
        None => false,
    }
}

/// A non-interactive refresh is due: no lease, or its remaining time has
/// fallen below the refresh threshold.
pub open spec fn lease_needs_refresh(lease: Option<u64>, now: u64) -> bool {
    match lease {
        Some(t) => (t as int) + (LEASE_TIMEOUT_SECS as int) - (now as int) < (
        REFRESH_THRESHOLD_SECS as int),
        None => true,
    }
}

/// How a privileged write reaches the protected file.
#[derive(Clone, Copy, PartialEq, Eq, Structural, Debug)]
pub enum WriteStrategy {
    /// The lease is valid: write through the non-interactive elevated channel.
    LeasedNonInteractive,
    /// No valid lease, a graphical helper exists: one graphical prompt copies
    /// the staged payload into place.
    GraphicalPrompt,
    /// No valid lease and no graphical helper: a blocking, possibly
    /// interactive elevated copy.
    BlockingPrompt,
}

/// The strategy a privileged write takes, in order of preference.
pub open spec fn spec_write_strategy(lease: Option<u64>, now: u64, graphical_available: bool) -> WriteStrategy {
    if lease_valid(lease, now) {
        WriteStrategy::LeasedNonInteractive
    } else if graphical_available {
        WriteStrategy::GraphicalPrompt
    } else {
        WriteStrategy::BlockingPrompt
    }
}

/// A strategy that may put a prompt in front of the user.
pub open spec fn is_interactive(s: WriteStrategy) -> bool {
    !(s is LeasedNonInteractive)
}

/// The process-wide record of the last successful authentication.
pub struct AuthorizationLease {
    last_authenticated_at: Option<u64>,
}

impl View for AuthorizationLease {
    type V = Option<u64>;

    closed spec fn view(&self) -> Option<u64> {
        self.last_authenticated_at
    }
}

impl AuthorizationLease {
    /// A fresh, unauthenticated lease.
    pub fn new() -> (r: AuthorizationLease)
        ensures
            r@ == None::<u64>,
    {
        AuthorizationLease { last_authenticated_at: None }
    }

    /// Whether the lease is valid at `now`.
    pub fn is_valid(&self, now: u64) -> (r: bool)
        ensures
            r == lease_valid(self@, now),
    {
        match self.last_authenticated_at {
            None => false,
            Some(t) => {
                if now >= t {
                    now - t < LEASE_TIMEOUT_SECS
                } else {
                    true
                }
            },
        }
    }

    /// Whether a background, non-interactive refresh is due before relying on
    /// the lease. The caller performs the refresh and, on success, records it;
    /// a failed refresh is swallowed and the lease simply stays as it was.
    pub fn needs_refresh(&self, now: u64) -> (r: bool)
        ensures
            r == lease_needs_refresh(self@, now),
    {
        match self.last_authenticated_at {
            None => true,
            Some(t) => {
                if now >= t {
                    now - t > LEASE_TIMEOUT_SECS - REFRESH_THRESHOLD_SECS
                } else {
                    false
                }
            },
        }
    }

    /// Record a successful authentication at `now`.
    pub fn record_authentication(&mut self, now: u64)
        ensures
            final(self)@ == Some(now),
    {
        self.last_authenticated_at = Some(now);
    }

    /// Pick the channel for a privileged write: the non-interactive elevated
    /// channel whenever the lease is valid, else a graphical one-shot prompt
    /// when available, else a blocking interactive copy.
    pub fn choose_write_strategy(&self, now: u64, graphical_available: bool) -> (s: WriteStrategy)
        ensures
            s == spec_write_strategy(self@, now, graphical_available),
    {
        if self.is_valid(now) {
            WriteStrategy::LeasedNonInteractive
        } else if graphical_available {
            WriteStrategy::GraphicalPrompt
        } else {
            WriteStrategy::BlockingPrompt
        }
    }
}

/// A privileged write attempted while the lease is valid never takes an
/// interactive elevation path, whatever helpers the machine offers.
pub proof fn lemma_valid_lease_never_interactive(lease: Option<u64>, now: u64, graphical_available: bool)
    requires
        lease_valid(lease, now),
    ensures
        !is_interactive(spec_write_strategy(lease, now, graphical_available)),
{
}

/// Background privileged actions (resolver restart, cache flush) silently
/// skip when no valid lease exists, deferring to the next explicit user
/// authorization: they run exactly when the lease is valid.
pub fn may_run_background_privileged(lease: &AuthorizationLease, now: u64) -> (r: bool)
    ensures
        r == lease_valid(lease@, now),
{
    lease.is_valid(now)
}

/// One way of acquiring elevated credentials during an explicit, user-invoked
/// authorization.
#[derive(Clone, Copy, PartialEq, Eq, Structural, Debug)]
pub enum AuthMethod {
    /// Try to refresh credentials without any prompt.
    NonInteractiveRefresh,
    /// Put up a graphical elevation prompt.
    GraphicalPrompt,
    /// Fall back to a prompt on the controlling terminal.
    TerminalPrompt,
}

/// The order an explicit authorization tries its methods in: first the
/// non-interactive refresh; when that failed, one prompt — graphical when a
/// helper is available, else on the terminal; after a failed prompt, nothing
/// is left and the authorization has failed.
pub fn next_authorization_method(failed: Option<AuthMethod>, graphical_available: bool) -> (r:
    Option<AuthMethod>)
    ensures
        failed is None ==> r == Some(AuthMethod::NonInteractiveRefresh),
        failed == Some(AuthMethod::NonInteractiveRefresh) ==> r == Some(
            if graphical_available {
                AuthMethod::GraphicalPrompt
            } else {
                AuthMethod::TerminalPrompt
            },
        ),
        failed == Some(AuthMethod::GraphicalPrompt) || failed == Some(AuthMethod::TerminalPrompt)
            ==> r is None,
{
    match failed {
        None => Some(AuthMethod::NonInteractiveRefresh),
        Some(AuthMethod::NonInteractiveRefresh) => {
            if graphical_available {
                Some(AuthMethod::GraphicalPrompt)
            } else {
                Some(AuthMethod::TerminalPrompt)
            }
        },
        Some(_) => None,
    }
}

/// What an elevation failure means to the user.
#[derive(Clone, Copy, PartialEq, Eq, Structural, Debug)]
pub enum AuthErrorKind {
    /// Passwordless elevation is not set up for this user.
    NotConfigured,
    /// The credentials offered were wrong.
    WrongCredentials,
    /// The user dismissed the prompt.
    Cancelled,
    /// Anything else; the helper's own output is the best guidance.
    Other,
}

/// Classify the elevation helper's error output, first match winning:
/// a password demand means elevation is not configured for non-interactive
/// use, an authentication complaint means wrong credentials, a dismissal
/// means the user cancelled.
pub open spec fn spec_classify_elevation_failure(stderr: Seq<char>) -> AuthErrorKind {
    if has_sub(stderr, "password is required"@) {
        AuthErrorKind::NotConfigured
    } else if has_sub(stderr, "Authentication Failure"@) || has_sub(stderr, "authentication"@) {
        AuthErrorKind::WrongCredentials
    } else if has_sub(stderr, "dismissed"@) || has_sub(stderr, "cancelled"@) {
        AuthErrorKind::Cancelled
    } else {
        AuthErrorKind::Other
    }
}

/// Classify the error output of a failed elevated command.
pub fn classify_elevation_failure(stderr: &str) -> (r: AuthErrorKind)
    ensures
        r == spec_classify_elevation_failure(stderr@),
{
    let cs = str_to_chars(stderr);
    let pw = str_to_chars("password is required");
    let af = str_to_chars("Authentication Failure");
    let au = str_to_chars("authentication");
    let di = str_to_chars("dismissed");
    let ca = str_to_chars("cancelled");
    if crate::text::contains_vec(&cs, &pw) {
        AuthErrorKind::NotConfigured
    } else if crate::text::contains_vec(&cs, &af) || crate::text::contains_vec(&cs, &au) {
        AuthErrorKind::WrongCredentials
    } else if crate::text::contains_vec(&cs, &di) || crate::text::contains_vec(&cs, &ca) {
        AuthErrorKind::Cancelled
    } else {
        AuthErrorKind::Other
    }
}

/// The actionable guidance each kind of elevation failure earns.
pub fn remediation_text(kind: AuthErrorKind) -> (r: String)
    ensures
        kind is NotConfigured ==> r@
            == "Authorization not configured. Please complete the onboarding process or run: sudo -v"@,
        kind is WrongCredentials ==> r@
            == "Authentication failed. Please ensure you're entering the correct password for your user account."@,
        kind is Cancelled ==> r@ == "Authentication cancelled by user."@,
        kind is Other ==> r@
            == "Elevation failed. Check the helper's error output and your sudo configuration."@,
{
    match kind {
        AuthErrorKind::NotConfigured => String::from_str(
            "Authorization not configured. Please complete the onboarding process or run: sudo -v",
        ),
        AuthErrorKind::WrongCredentials => String::from_str(
            "Authentication failed. Please ensure you're entering the correct password for your user account.",
        ),
        AuthErrorKind::Cancelled => String::from_str("Authentication cancelled by user."),
        AuthErrorKind::Other => String::from_str(
            "Elevation failed. Check the helper's error output and your sudo configuration.",
        ),
    }
}

/// The message for a privileged hosts-file write that failed for a reason the
/// classifier does not recognize, carrying the helper's own output.
pub fn write_failure_message(stderr: &str, stdout: &str) -> (r: String)
    ensures
        r@ == "Failed to write hosts file. Error: "@ + stderr@ + " Output: "@ + stdout@,
{
    let mut cs = str_to_chars("Failed to write hosts file. Error: ");
    let e = str_to_chars(stderr);
    let mid = str_to_chars(" Output: ");
    let o = str_to_chars(stdout);
    crate::text::append_chars(&mut cs, &e);
    crate::text::append_chars(&mut cs, &mid);
    crate::text::append_chars(&mut cs, &o);
    chars_to_string(&cs)
}

/// One passwordless-elevation rule: the user, the fixed sudo clause, the
/// command, and a line break.
pub open spec fn spec_policy_rule(u: Seq<char>, command: Seq<char>) -> Seq<char> {
    u + " ALL=(ALL) NOPASSWD: "@ + command + "\n"@
}

/// The whole passwordless-elevation policy for a user: a comment header and
/// one rule for each of the few commands this engine ever runs elevated —
/// overwrite the hosts file, restart the resolver service, restart the legacy
/// name-cache daemon, flush resolver caches.
pub open spec fn spec_sudoers_policy(u: Seq<char>) -> Seq<char> {
    "# Focus App - Passwordless sudo for specific commands\n"@ + spec_policy_rule(
        u,
        "/usr/bin/tee /etc/hosts"@,
    ) + spec_policy_rule(u, "/usr/bin/cp * /etc/hosts"@) + spec_policy_rule(
        u,
        "/usr/bin/systemctl restart systemd-resolved"@,
    ) + spec_policy_rule(u, "/usr/bin/systemctl restart nscd"@) + spec_policy_rule(
        u,
        "/usr/bin/resolvectl flush-caches"@,
    ) + spec_policy_rule(u, "/usr/bin/systemd-resolve --flush-caches"@)
}

/// Append one policy rule for the user and command.
fn push_policy_rule(out: &mut Vec<char>, u: &Vec<char>, command: &str)
    ensures
        final(out)@ == old(out)@ + spec_policy_rule(u@, command@),
{
    let clause = str_to_chars(" ALL=(ALL) NOPASSWD: ");
    let cmd = str_to_chars(command);
    let nl = str_to_chars("\n");
    crate::text::append_chars(out, u);
    crate::text::append_chars(out, &clause);
    crate::text::append_chars(out, &cmd);
    crate::text::append_chars(out, &nl);
}

/// Render the passwordless-elevation policy installed by the one-time
/// persistent-authorization setup: scoped to the exact commands this engine
/// issues, never a blanket grant.
pub fn sudoers_policy(username: &str) -> (r: String)
    ensures
        r@ == spec_sudoers_policy(username@),
{
    let u = str_to_chars(username);
    let mut out = str_to_chars("# Focus App - Passwordless sudo for specific commands\n");
    push_policy_rule(&mut out, &u, "/usr/bin/tee /etc/hosts");
    push_policy_rule(&mut out, &u, "/usr/bin/cp * /etc/hosts");
    push_policy_rule(&mut out, &u, "/usr/bin/systemctl restart systemd-resolved");
    push_policy_rule(&mut out, &u, "/usr/bin/systemctl restart nscd");
    push_policy_rule(&mut out, &u, "/usr/bin/resolvectl flush-caches");
    push_policy_rule(&mut out, &u, "/usr/bin/systemd-resolve --flush-caches");
    chars_to_string(&out)
}

/// What the one-time persistent-authorization setup should do next.
#[derive(Clone, Copy, PartialEq, Eq, Structural, Debug)]
pub enum SetupStep {
    /// The policy file already exists: report success without touching it.
    AlreadyConfigured,
    /// No graphical elevation helper is installed: fail with install guidance.
    HelperMissing,
    /// Stage the policy and install it through one graphical prompt.
    Install,
}

/// Decide the setup step from what the caller observed on the machine.
pub fn plan_setup(policy_file_exists: bool, helper_available: bool) -> (r: SetupStep)
    ensures
        policy_file_exists ==> r is AlreadyConfigured,
        !policy_file_exists && !helper_available ==> r is HelperMissing,
        !policy_file_exists && helper_available ==> r is Install,
{
    if policy_file_exists {
        SetupStep::AlreadyConfigured
    } else if !helper_available {
        SetupStep::HelperMissing
    } else {
        SetupStep::Install
    }
}

} // verus!
