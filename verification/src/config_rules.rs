//! Decisions of the configuration commands on peer lists and authentication settings.

use crate::ip::{IpAddr, IpNet};
use crate::ip_net_list::IpNetList;
use crate::user::UserList;
use vstd::prelude::*;

verus! {

/// What the allow and deny lists say of a peer address.
#[derive(Clone, Copy, Debug, PartialEq, Eq, Structural)]
pub enum PeerListVerdict {
    /// The peer will be accepted.
    Accepted,
    /// The peer will be rejected: there is an allow list and it does not include the peer.
    NotInAllowList,
    /// The peer will be rejected: the deny list includes it.
    InDenyList,
}

/// Some network of the list contains `ip`.
pub open spec fn list_covers(list: IpNetList, ip: IpAddr) -> bool {
    exists|net: IpNet| list@.contains(net) && net.spec_contains(ip)
}

/// Checks a peer address against the optional allow list first, then the optional deny list.
pub fn check_peer_lists(allowed: Option<&IpNetList>, denied: Option<&IpNetList>, ip: &IpAddr) -> (r: PeerListVerdict)
    ensures
        r == (if allowed matches Some(list) && !list_covers(*list, *ip) {
            PeerListVerdict::NotInAllowList
        } else if denied matches Some(list) && list_covers(*list, *ip) {
            PeerListVerdict::InDenyList
        } else {
            PeerListVerdict::Accepted
        }),
{
    if let Some(list) = allowed {
        if !list.contains(ip) {
            return PeerListVerdict::NotInAllowList;
        }
    }
    if let Some(list) = denied {
        if list.contains(ip) {
            return PeerListVerdict::InDenyList;
        }
    }
    PeerListVerdict::Accepted
}

/// Adds a network to an optional peer list, creating the list when there is none.
pub fn add_to_peer_list(list: &mut Option<IpNetList>, net: IpNet)
    ensures
        *final(list) is Some,
        (*final(list))->Some_0@ == match *old(list) {
            Some(before) => before@.insert(net),
            None => set![net],
        },
{
    let mut current = match list.take() {
        Some(current) => current,
        None => IpNetList::new(),
    };
    current.add(net);
    *list = Some(current);
    proof {
        if *old(list) is None {
            assert(Set::<IpNet>::empty().insert(net) =~= set![net]);
        }
    }
}

/// Removes a network from an optional peer list; a list left empty is dropped.
pub fn remove_from_peer_list(list: &mut Option<IpNetList>, net: IpNet)
    ensures
        match *old(list) {
            None => *final(list) is None,
            Some(before) => if before@.remove(net) == Set::<IpNet>::empty() {
                *final(list) is None
            } else {
                *final(list) matches Some(after) && after@ == before@.remove(net)
            },
        },
{
    match list.take() {
        Some(mut current) => {
            current.remove(net);
            if !current.is_empty() {
                *list = Some(current);
            }
        },
        None => {},
    }
}

/// Whether authentication over plain text stays enabled after a configuration change:
/// only while it is enabled, no TLS is configured and users are configured.
pub fn insecure_auth_after_change(allow_insecure_auth: bool, tls_configured: bool, users: &UserList) -> (r: bool)
    ensures
        r == (allow_insecure_auth && !tls_configured && users@.dom() != Set::<Seq<char>>::empty()),
{
    if allow_insecure_auth && (tls_configured || !users.has_users()) {
        false
    } else {
        allow_insecure_auth
    }
}

/// The warning shown about authentication without TLS.
#[derive(Clone, Copy, Debug, PartialEq, Eq, Structural)]
pub enum InsecureAuthWarning {
    /// No warning: TLS is configured or no users are.
    NoWarning,
    /// Users authenticate over plain text, so credentials may be stolen.
    CredentialsInPlainText,
    /// Users are configured but authentication is disabled until it is allowed over plain text.
    AuthenticationDisabled,
}

/// Which warning to show about authentication without TLS.
pub fn insecure_auth_warning(tls_configured: bool, allow_insecure_auth: bool, users: &UserList) -> (r: InsecureAuthWarning)
    ensures
        r == (if tls_configured || users@.dom() == Set::<Seq<char>>::empty() {
            InsecureAuthWarning::NoWarning
        } else if allow_insecure_auth {
            InsecureAuthWarning::CredentialsInPlainText
        } else {
            InsecureAuthWarning::AuthenticationDisabled
        }),
{
    if !tls_configured && users.has_users() {
        if allow_insecure_auth {
            InsecureAuthWarning::CredentialsInPlainText
        } else {
            InsecureAuthWarning::AuthenticationDisabled
        }
    } else {
        InsecureAuthWarning::NoWarning
    }
}

/// The setting of plain-text authentication after a request to enable or disable it.
/// With TLS configured the request is refused and the setting stays; enabling takes
/// the user's confirmation.
pub fn requested_insecure_auth(current: bool, tls_configured: bool, enable: bool, confirmed: bool) -> (r: bool)
    ensures
        r == (if tls_configured {
            current
        } else if enable {
            confirmed || current
        } else {
            false
        }),
{
    if tls_configured {
        current
    } else if enable {
        if confirmed {
            true
        } else {
            current
        }
    } else {
        false
    }
}

/// Whether a password may be set for `username`: an existing user always; a new user
/// only if the name contains `@`, as Microsoft 365 usernames do, or when forced.
pub fn username_accepted(users: &UserList, username: &str, force: bool) -> (r: bool)
    ensures
        r == (users@.contains_key(username@) || username@.contains('@') || force),
{
    if users.has_user(username) || force {
        return true;
    }
    let n = username.unicode_len();
    let mut i: usize = 0;
    while i < n
        invariant
            n == username@.len(),
            i <= n,
            forall|j: int| 0 <= j < i ==> username@[j] != '@',
        decreases n - i,
    {
        if username.get_char(i) == '@' {
            return true;
        }
        i = i + 1;
    }
    false
}

/// The maximum message size setting for a requested size; zero selects the automatic size.
pub fn max_message_size_setting(size: usize) -> (r: Option<usize>)
    ensures
        r == (if size == 0 {
            None
        } else {
            Some(size)
        }),
{
    if size == 0 {
        None
    } else {
        Some(size)
    }
}

/// A fail2ban policy; a field that is `None` takes its default.
#[derive(Clone, Copy, Debug, PartialEq, Eq)]
pub struct Fail2BanSettings<D> {
    /// Maximum number of simultaneous connections allowed per client.
    pub max_connections: Option<u32>,
    /// Number of suspicious or failed sessions before a client IP is banned.
    pub max_failures: Option<u32>,
    /// How long a client IP remains banned.
    pub ban_duration: Option<D>,
}

/// The value given, if one is, else the current value.
pub open spec fn updated<T>(given: Option<T>, current: Option<T>) -> Option<T> {
    match given {
        Some(v) => Some(v),
        None => current,
    }
}

/// The fail2ban policy after an update: a reset drops it, so that the defaults apply;
/// otherwise each given value replaces the current one and the others stay.
pub open spec fn fail2ban_updated<D>(
    current: Option<Fail2BanSettings<D>>,
    connections: Option<u32>,
    failures: Option<u32>,
    duration: Option<D>,
    reset: bool,
) -> Option<Fail2BanSettings<D>> {
    if reset {
        None
    } else {
        Some(Fail2BanSettings {
            max_connections: updated(connections, match current {
                Some(c) => c.max_connections,
                None => None,
            }),
            max_failures: updated(failures, match current {
                Some(c) => c.max_failures,
                None => None,
            }),
            ban_duration: updated(duration, match current {
                Some(c) => c.ban_duration,
                None => None,
            }),
        })
    }
}

/// The fail2ban policy after an update: a reset drops it, so that the defaults apply;
/// otherwise each given value replaces the current one and the others stay.
pub fn fail2ban_after_update<D: Copy>(
    current: Option<Fail2BanSettings<D>>,
    connections: Option<u32>,
    failures: Option<u32>,
    duration: Option<D>,
    reset: bool,
) -> (r: Option<Fail2BanSettings<D>>)
    ensures
        r == fail2ban_updated(current, connections, failures, duration, reset),
{
    if reset {
        return None;
    }
    let mut settings = match current {
        Some(c) => c,
        None => Fail2BanSettings { max_connections: None, max_failures: None, ban_duration: None },
    };
    if let Some(c) = connections {
        settings.max_connections = Some(c);
    }
    if let Some(f) = failures {
        settings.max_failures = Some(f);
    }
    if let Some(d) = duration {
        settings.ban_duration = Some(d);
    }
    Some(settings)
}

/// The note shown beside a configured maximum message size.
#[derive(Clone, Copy, Debug, PartialEq, Eq, Structural)]
pub enum MessageSizeNote {
    /// Above the maximum that the Graph API can reliably handle.
    AboveApiMaximum,
    /// Above the recommended maximum.
    AboveRecommended,
    /// No note.
    Fine,
}

/// The note for a maximum message size, given the API maximum and the recommended maximum.
pub fn message_size_note(size: usize, api_max: usize, recommended: usize) -> (r: MessageSizeNote)
    ensures
        r == (if size > api_max {
            MessageSizeNote::AboveApiMaximum
        } else if size > recommended {
            MessageSizeNote::AboveRecommended
        } else {
            MessageSizeNote::Fine
        }),
{
    if size > api_max {
        MessageSizeNote::AboveApiMaximum
    } else if size > recommended {
        MessageSizeNote::AboveRecommended
    } else {
        MessageSizeNote::Fine
    }
}

/// A fail2ban update that does not reset sets each field to the value given for it,
/// whatever the current policy holds, and keeps the current value of each field for
/// which none is given; a reset drops the policy.
pub proof fn lemma_fail2ban_given_values_win<D>(
    current: Option<Fail2BanSettings<D>>,
    connections: Option<u32>,
    failures: Option<u32>,
    duration: Option<D>,
    reset: bool,
)
    ensures
        reset ==> fail2ban_updated(current, connections, failures, duration, reset) is None,
        !reset ==> fail2ban_updated(current, connections, failures, duration, reset) is Some,
        !reset ==> ({
            let r = fail2ban_updated(current, connections, failures, duration, reset)->Some_0;
            &&& connections matches Some(c) ==> r.max_connections == Some(c)
            &&& failures matches Some(f) ==> r.max_failures == Some(f)
            &&& duration matches Some(d) ==> r.ban_duration == Some(d)
            &&& connections is None && current is Some ==> r.max_connections == current->Some_0.max_connections
            &&& failures is None && current is Some ==> r.max_failures == current->Some_0.max_failures
            &&& duration is None && current is Some ==> r.ban_duration == current->Some_0.ban_duration
            &&& connections is None && current is None ==> r.max_connections is None
            &&& failures is None && current is None ==> r.max_failures is None
            &&& duration is None && current is None ==> r.ban_duration is None
        }),
{
}

} // verus!
