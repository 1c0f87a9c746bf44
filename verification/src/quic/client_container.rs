//! A client that is replaced when its connection fails.
use vstd::prelude::*;

use crate::types::counted;

verus! {

/// Why a client is replaced.
#[derive(Clone, Copy, Debug, PartialEq, Eq, Structural)]
pub enum GenerateClientReason {
    PeriodicRefresh,
    ConnectionFailed,
}

/// A client and its state. Every replacement begins a new epoch.
pub struct ClientContainer<C> {
    pub client: C,
    pub client_epoch: u64,
    pub is_client_healthy: bool,
    /// Whether the client is being replaced.
    pub regenerating: bool,
    /// The congestion window that the next client starts with, where one is known.
    pub initial_cwnd: Option<u64>,
}

/// What a replacement does next.
#[derive(Clone, Copy, Debug, PartialEq, Eq, Structural)]
pub enum RegenerateAction {
    /// Nothing: someone else replaces, or has replaced, the client.
    Skip,
    /// Ask the client for its congestion window.
    ReadStats,
    /// Give the server time, then make a client.
    Sleep,
    /// Make a client that starts with a congestion window, where one is known.
    Make(Option<u64>),
    /// End: no client could be made.
    Fail,
}

impl<C> ClientContainer<C> {
    /// A container with its first client.
    pub fn new(client: C) -> (r: ClientContainer<C>)
        ensures
            r.client == client,
            r.client_epoch == 0,
            r.is_client_healthy,
            !r.regenerating,
            r.initial_cwnd is None,
    {
        ClientContainer {
            client,
            client_epoch: 0,
            is_client_healthy: true,
            regenerating: false,
            initial_cwnd: None,
        }
    }

    /// How the first client is made: nothing is known of a congestion window yet.
    pub fn first() -> (r: RegenerateAction)
        ensures
            r == RegenerateAction::Make(None),
    {
        RegenerateAction::Make(None)
    }

    /// The number of times that the client was replaced.
    pub fn epoch(&self) -> (r: u64)
        ensures
            r == self.client_epoch,
    {
        self.client_epoch
    }

    /// Whether the client is thought to work.
    pub fn is_healthy(&self) -> (r: bool)
        ensures
            r == self.is_client_healthy,
    {
        self.is_client_healthy
    }

    /// The client.
    pub fn client(&self) -> (r: &C)
        ensures
            *r == self.client,
    {
        &self.client
    }

    /// What a caller who saw the client in an epoch is told, and the container after that.
    pub open spec fn claimed(self, expected_epoch: u64, reason: GenerateClientReason) -> (
        RegenerateAction,
        ClientContainer<C>,
    ) {
        if self.regenerating || self.client_epoch != expected_epoch {
            (RegenerateAction::Skip, self)
        } else {
            let busy = ClientContainer { regenerating: true, initial_cwnd: None, ..self };
            match reason {
                GenerateClientReason::PeriodicRefresh => (RegenerateAction::ReadStats, busy),
                GenerateClientReason::ConnectionFailed => (
                    RegenerateAction::Sleep,
                    ClientContainer { is_client_healthy: false, ..busy },
                ),
            }
        }
    }

    /// The container with a new client.
    pub open spec fn installed(self, client: C) -> ClientContainer<C> {
        ClientContainer {
            client,
            client_epoch: counted(self.client_epoch),
            is_client_healthy: true,
            regenerating: false,
            ..self
        }
    }

    /// Starts to replace the client that was seen in an epoch. Only one caller does it, and only if
    /// no one did since. A failed connection makes the client unhealthy at once.
    pub fn regenerate_client(&mut self, expected_epoch: u64, reason: GenerateClientReason) -> (r:
        RegenerateAction)
        ensures
            final(self).client == old(self).client,
            final(self).client_epoch == old(self).client_epoch,
            ({
                let skips = old(self).regenerating || old(self).client_epoch != expected_epoch;
                &&& r == if skips {
                    RegenerateAction::Skip
                } else {
                    match reason {
                        GenerateClientReason::PeriodicRefresh => RegenerateAction::ReadStats,
                        GenerateClientReason::ConnectionFailed => RegenerateAction::Sleep,
                    }
                }
                &&& final(self).regenerating == (old(self).regenerating || !skips)
                &&& final(self).initial_cwnd == if skips {
                    old(self).initial_cwnd
                } else {
                    None
                }
                &&& final(self).is_client_healthy == (old(self).is_client_healthy && (skips
                    || reason == GenerateClientReason::PeriodicRefresh))
            }),
            (r, *final(self)) == old(self).claimed(expected_epoch, reason),
    {
        if self.regenerating || self.client_epoch != expected_epoch {
            return RegenerateAction::Skip;
        }
        self.regenerating = true;
        self.initial_cwnd = None;
        match reason {
            GenerateClientReason::PeriodicRefresh => RegenerateAction::ReadStats,
            GenerateClientReason::ConnectionFailed => {
                self.is_client_healthy = false;
                RegenerateAction::Sleep
            },
        }
    }

    /// What is done once the client was asked for its congestion window: the new client starts with
    /// it, where it was known.
    pub fn stats_read(&mut self, cwnd: Option<u64>) -> (r: RegenerateAction)
        requires
            old(self).regenerating,
        ensures
            r == RegenerateAction::Make(cwnd),
            *final(self) == (ClientContainer { initial_cwnd: cwnd, ..*old(self) }),
    {
        self.initial_cwnd = cwnd;
        RegenerateAction::Make(cwnd)
    }

    /// What is done once the server was given time: the new client starts with no known congestion
    /// window, for that of a connection that failed says nothing.
    pub fn slept(&mut self) -> (r: RegenerateAction)
        requires
            old(self).regenerating,
        ensures
            r == RegenerateAction::Make(None),
            *final(self) == (ClientContainer { initial_cwnd: None, ..*old(self) }),
    {
        self.initial_cwnd = None;
        RegenerateAction::Make(None)
    }

    /// What is done after an attempt to make a client failed: another, with the same congestion
    /// window, where it is still allowed. In the end the replacement is given up, and the client
    /// stays as it is.
    pub fn make_failed(&mut self, allowed: bool) -> (r: RegenerateAction)
        requires
            old(self).regenerating,
        ensures
            r == if allowed {
                RegenerateAction::Make(old(self).initial_cwnd)
            } else {
                RegenerateAction::Fail
            },
            *final(self) == (ClientContainer { regenerating: allowed, ..*old(self) }),
    {
        if allowed {
            RegenerateAction::Make(self.initial_cwnd)
        } else {
            self.regenerating = false;
            RegenerateAction::Fail
        }
    }

    /// Gives up a replacement that was left unfinished. The client stays as it is, and the next
    /// caller replaces it.
    pub fn abandoned(&mut self)
        ensures
            *final(self) == (ClientContainer { regenerating: false, ..*old(self) }),
    {
        self.regenerating = false;
    }

    /// Puts a new client in the place of the old one, which is given back to be dropped. A new epoch
    /// begins, and the client is healthy.
    pub fn install(&mut self, client: C) -> (r: C)
        requires
            old(self).regenerating,
        ensures
            r == old(self).client,
            *final(self) == (ClientContainer {
                client,
                client_epoch: counted(old(self).client_epoch),
                is_client_healthy: true,
                regenerating: false,
                ..*old(self)
            }),
            *final(self) == old(self).installed(client),
    {
        let mut replaced = client;
        std::mem::swap(&mut self.client, &mut replaced);
        self.client_epoch = self.client_epoch.wrapping_add(1);
        self.is_client_healthy = true;
        self.regenerating = false;
        replaced
    }
}

/// The congestion window that a client starts with: the one given, or that of the configuration.
pub fn make_client(configured: Option<u64>, initial_cwnd: Option<u64>) -> (r: Option<u64>)
    ensures
        r == if initial_cwnd is Some {
            initial_cwnd
        } else {
            configured
        },
{
    if initial_cwnd.is_some() {
        initial_cwnd
    } else {
        configured
    }
}

/// Under which label a replacement is recorded: none where it failed.
pub fn observe_regenerate(result: &Result<bool, ()>) -> (r: Option<&'static str>)
    ensures
        match *result {
            Ok(true) => r is Some && r->0@ == "regenerated"@,
            Ok(false) => r is Some && r->0@ == "skipped"@,
            Err(_) => r is None,
        },
{
    match result {
        Ok(did_regenerate) => if *did_regenerate {
            Some("regenerated")
        } else {
            Some("skipped")
        },
        Err(_) => None,
    }
}

/// Of two callers that saw the client fail in the same epoch, only one replaces it: while it does,
/// and after it has, the other is sent away.
pub proof fn law_one_caller_replaces_the_client<C>(
    seen: ClientContainer<C>,
    client: C,
)
    ensures
        ({
            let busy = ClientContainer { regenerating: true, ..seen };
            let done = ClientContainer {
                client,
                client_epoch: counted(seen.client_epoch),
                is_client_healthy: true,
                regenerating: false,
                ..seen
            };
            &&& busy.regenerating || busy.client_epoch != seen.client_epoch
            &&& done.regenerating || done.client_epoch != seen.client_epoch
        }),
{
}

/// A caller that saw the client in its present epoch, while none replaces it, replaces it: after a
/// failure the client counts as unhealthy, and for a refresh it stays in use. Until the new client is
/// there every other caller is sent away and changes nothing. Once it is there, callers who saw the
/// old one are sent away, and those who see the new one replace it when it is their turn. The client
/// in use changes only when a new one is there.
pub proof fn law_replacements_take_turns<C>(
    seen: ClientContainer<C>,
    reason: GenerateClientReason,
    other: GenerateClientReason,
    epoch: u64,
    client: C,
)
    requires
        !seen.regenerating,
    ensures
        ({
            let (told, busy) = seen.claimed(seen.client_epoch, reason);
            let done = busy.installed(client);
            &&& told == match reason {
                GenerateClientReason::PeriodicRefresh => RegenerateAction::ReadStats,
                GenerateClientReason::ConnectionFailed => RegenerateAction::Sleep,
            }
            &&& busy.regenerating && busy.client == seen.client && busy.client_epoch
                == seen.client_epoch && busy.initial_cwnd is None
            &&& busy.is_client_healthy == (seen.is_client_healthy && reason
                == GenerateClientReason::PeriodicRefresh)
            &&& busy.claimed(epoch, other) == (RegenerateAction::Skip, busy)
            &&& done.client == client && done.is_client_healthy && !done.regenerating
            &&& done.client_epoch != seen.client_epoch
            &&& done.claimed(seen.client_epoch, other) == (RegenerateAction::Skip, done)
            &&& done.claimed(done.client_epoch, other).0 != RegenerateAction::Skip
            &&& epoch != seen.client_epoch ==> seen.claimed(epoch, other) == (
                RegenerateAction::Skip,
                seen,
            )
        }),
{
}

} // verus!
