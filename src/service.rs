use vstd::prelude::*;

use crate::peer::{ConnectionId, DisconnectReason, PeerId};
use crate::sink::{SendError, SendMode};
use crate::events::ProtocolEvent;
use crate::peer::InboundDecision;
use crate::table::{
    connection_closed_effect, connection_established_effect, drain_effect, inbound_open_effect,
    local_close_effect, notification_received_effect, outbound_accepted_effect, outbound_refused_effect,
    request_open_effect, send_effect, substream_closed_effect, tick_effect, HandlerCommand, OpenRequest,
    ProtocolSettings, ProtocolTable, TableView,
};

verus! {

/// What a consumer registers for one notification protocol.
pub struct ProtocolConfig {
    /// The protocol's main name.
    pub name: String,
    /// Older names still accepted, most preferred first.
    pub fallback_names: Vec<String>,
    /// Handshake bytes sent when a substream opens.
    pub handshake: Vec<u8>,
    pub settings: ProtocolSettings,
}

/// Every name of a protocol, main name first, then the fallbacks in order.
pub open spec fn config_names(c: ProtocolConfig) -> Seq<Seq<char>> {
    seq![c.name@] + c.fallback_names@.map_values(|n: String| n@)
}

/// `k` is the first of `ours` that `theirs` supports.
pub open spec fn is_first_supported(ours: Seq<Seq<char>>, theirs: Seq<Seq<char>>, k: int) -> bool {
    &&& 0 <= k < ours.len()
    &&& theirs.contains(ours[k])
    &&& forall|j: int| 0 <= j < k ==> !theirs.contains(#[trigger] ours[j])
}

/// Result of negotiating a protocol name: which registered protocol, and
/// which of its names (0 for the main name, `k + 1` for fallback `k`).
#[derive(Clone, Copy, Debug, PartialEq, Eq, Structural)]
pub struct ProtocolIdentity {
    pub protocol: usize,
    pub name: usize,
}

/// Why a protocol could not be registered.
#[derive(Clone, Copy, Debug, PartialEq, Eq, Structural)]
pub enum RegisterError {
    /// Registration closes once the service has started.
    AlreadyActive,
    /// A queue of no room, or no slot for opening, could never make progress.
    InvalidSettings,
    /// One of the names is taken by a registered protocol.
    NameTaken,
}

fn name_in(names: &Vec<String>, name: &String) -> (r: bool)
    ensures
        r == names@.map_values(|n: String| n@).contains(name@),
{
    let ghost views = names@.map_values(|n: String| n@);
    let mut i: usize = 0;
    while i < names.len()
        invariant
            i <= names@.len(),
            views == names@.map_values(|n: String| n@),
            forall|k: int| 0 <= k < i ==> views[k] != name@,
        decreases names@.len() - i,
    {
        if names[i] == *name {
            proof {
                assert(views[i as int] == name@);
            }
            return true;
        }
        i = i + 1;
    }
    false
}

/// Name `k` of a protocol, main name first.
fn name_at(c: &ProtocolConfig, k: usize) -> (r: &String)
    requires
        k < config_names(*c).len(),
    ensures
        r@ == config_names(*c)[k as int],
{
    if k == 0 {
        &c.name
    } else {
        &c.fallback_names[k - 1]
    }
}

fn name_count(c: &ProtocolConfig) -> (r: usize)
    requires
        c.fallback_names@.len() < usize::MAX,
    ensures
        r == config_names(*c).len(),
{
    c.fallback_names.len() + 1
}

/// Dialer side: the first of our names, in order of preference, that the
/// remote supports.
pub fn negotiate_outbound(c: &ProtocolConfig, supported: &Vec<String>) -> (r: Option<usize>)
    requires
        c.fallback_names@.len() < usize::MAX,
    ensures
        match r {
            Some(k) => is_first_supported(config_names(*c), supported@.map_values(|n: String| n@), k as int),
            None => forall|k: int| 0 <= k < config_names(*c).len()
                ==> !supported@.map_values(|n: String| n@).contains(#[trigger] config_names(*c)[k]),
        },
{
    let n = name_count(c);
    let mut k: usize = 0;
    while k < n
        invariant
            k <= n,
            n == config_names(*c).len(),
            forall|j: int| 0 <= j < k ==> !supported@.map_values(|n: String| n@).contains(#[trigger] config_names(*c)[j]),
        decreases n - k,
    {
        if name_in(supported, name_at(c, k)) {
            return Some(k);
        }
        k = k + 1;
    }
    None
}

/// Listener side: which of our names the remote asked for, if any.
pub fn match_inbound(c: &ProtocolConfig, requested: &String) -> (r: Option<usize>)
    requires
        c.fallback_names@.len() < usize::MAX,
    ensures
        match r {
            Some(k) => k < config_names(*c).len() && config_names(*c)[k as int] == requested@
                && forall|j: int| 0 <= j < k ==> config_names(*c)[j] != requested@,
            None => !config_names(*c).contains(requested@),
        },
{
    let n = name_count(c);
    let mut k: usize = 0;
    while k < n
        invariant
            k <= n,
            n == config_names(*c).len(),
            forall|j: int| 0 <= j < k ==> config_names(*c)[j] != requested@,
        decreases n - k,
    {
        if *name_at(c, k) == *requested {
            return Some(k);
        }
        k = k + 1;
    }
    None
}

/// The registered protocols, one table each, reached only through this
/// service. An operation on one protocol leaves every other one as it was.
pub struct Notifications {
    local: PeerId,
    configs: Vec<ProtocolConfig>,
    tables: Vec<ProtocolTable>,
    active: bool,
}

/// Whether some name of `c` is a name of one of `configs`.
pub open spec fn name_taken(configs: Seq<ProtocolConfig>, c: ProtocolConfig) -> bool {
    exists|k: int, i: int| 0 <= k < configs.len() && 0 <= i < config_names(c).len()
        && #[trigger] config_names(configs[k]).contains(#[trigger] config_names(c)[i])
}

impl Notifications {
    pub closed spec fn local(&self) -> PeerId {
        self.local
    }

    pub closed spec fn configs(&self) -> Seq<ProtocolConfig> {
        self.configs@
    }

    pub closed spec fn tables(&self) -> Seq<ProtocolTable> {
        self.tables@
    }

    pub closed spec fn is_active(&self) -> bool {
        self.active
    }

    pub closed spec fn wf(&self) -> bool {
        &&& self.tables@.len() == self.configs@.len()
        &&& forall|k: int| 0 <= k < self.tables@.len() ==> (#[trigger] self.tables@[k]).wf()
        &&& forall|k: int| 0 <= k < self.tables@.len() ==> (#[trigger] self.tables@[k])@.local == self.local
        &&& forall|k: int| 0 <= k < self.tables@.len() ==> (#[trigger] self.tables@[k])@.settings
            == self.configs@[k].settings
        &&& forall|k: int| 0 <= k < self.configs@.len() ==> (#[trigger] self.configs@[k]).fallback_names@.len()
            < usize::MAX
    }

    /// One table per registered protocol, each well formed, with the
    /// protocol's settings and the local identity.
    pub proof fn lemma_tables_match(&self)
        requires
            self.wf(),
        ensures
            self.tables().len() == self.configs().len(),
            forall|k: int| 0 <= k < self.tables().len() ==> (#[trigger] self.tables()[k]).wf(),
            forall|k: int| 0 <= k < self.tables().len() ==> (#[trigger] self.tables()[k])@.local == self.local(),
            forall|k: int| 0 <= k < self.tables().len() ==> (#[trigger] self.tables()[k])@.settings
                == self.configs()[k].settings,
    {
    }

    /// A service with no protocol yet, not started.
    pub fn new(local: PeerId) -> (r: Notifications)
        ensures
            r.wf(),
            r.local() == local,
            r.configs().len() == 0,
            r.tables().len() == 0,
            !r.is_active(),
    {
        Notifications { local, configs: Vec::new(), tables: Vec::new(), active: false }
    }

    /// Register a protocol; it gets the next index.
    pub fn register(&mut self, config: ProtocolConfig) -> (r: Result<usize, RegisterError>)
        requires
            old(self).wf(),
        ensures
            final(self).wf(),
            final(self).local() == old(self).local(),
            final(self).is_active() == old(self).is_active(),
            old(self).is_active() ==> r == Err::<usize, RegisterError>(RegisterError::AlreadyActive),
            !old(self).is_active() && (config.settings.sink_capacity == 0 || config.settings.open_slots == 0
                || config.fallback_names@.len() >= usize::MAX) ==> r == Err::<usize, RegisterError>(
                RegisterError::InvalidSettings,
            ),
            !old(self).is_active() && config.settings.sink_capacity > 0 && config.settings.open_slots > 0
                && config.fallback_names@.len() < usize::MAX ==> r == if name_taken(old(self).configs(), config) {
                Err::<usize, RegisterError>(RegisterError::NameTaken)
            } else {
                Ok::<usize, RegisterError>(old(self).configs().len() as usize)
            },
            r.is_ok() ==> {
                &&& final(self).configs() == old(self).configs().push(config)
                &&& final(self).tables().len() == old(self).tables().len() + 1
                &&& final(self).tables().subrange(0, old(self).tables().len() as int) == old(self).tables()
                &&& final(self).tables().last()@.peers.len() == 0
                &&& final(self).tables().last()@.settings == config.settings
            },
            r.is_err() ==> final(self).configs() == old(self).configs() && final(self).tables() == old(self).tables(),
    {
        if self.active {
            return Err(RegisterError::AlreadyActive);
        }
        if config.settings.sink_capacity == 0 || config.settings.open_slots == 0 || config.fallback_names.len()
            == usize::MAX {
            return Err(RegisterError::InvalidSettings);
        }
        let n = name_count(&config);
        let mut i: usize = 0;
        while i < n
            invariant
                self.wf(),
                !self.active,
                config.settings.sink_capacity > 0 && config.settings.open_slots > 0,
                config.fallback_names@.len() < usize::MAX,
                self.configs@ == old(self).configs@,
                self.tables@ == old(self).tables@,
                self.local == old(self).local,
                i <= n,
                n == config_names(config).len(),
                forall|k: int, j: int| 0 <= k < self.configs@.len() && 0 <= j < i
                    ==> !#[trigger] config_names(self.configs@[k]).contains(#[trigger] config_names(config)[j]),
            decreases n - i,
        {
            let name = name_at(&config, i);
            let mut k: usize = 0;
            while k < self.configs.len()
                invariant
                    self.wf(),
                    !self.active,
                    config.settings.sink_capacity > 0 && config.settings.open_slots > 0,
                    config.fallback_names@.len() < usize::MAX,
                    self.configs@ == old(self).configs@,
                    self.tables@ == old(self).tables@,
                    self.local == old(self).local,
                    i < n,
                    n == config_names(config).len(),
                    name@ == config_names(config)[i as int],
                    k <= self.configs@.len(),
                    forall|q: int| 0 <= q < k ==> !config_names(self.configs@[q]).contains(name@),
                decreases self.configs@.len() - k,
            {
                if match_inbound(&self.configs[k], name).is_some() {
                    proof {
                        assert(config_names(self.configs@[k as int]).contains(config_names(config)[i as int]));
                    }
                    return Err(RegisterError::NameTaken);
                }
                k = k + 1;
            }
            i = i + 1;
        }
        let settings = config.settings;
        let ghost t0 = self.tables@;
        self.configs.push(config);
        let t = ProtocolTable::new(self.local, settings);
        self.tables.push(t);
        proof {
            assert(self.tables@.subrange(0, t0.len() as int) =~= t0);
            assert(self.tables@.last() == t);
            assert(t@.peers.dom() =~= Set::<PeerId>::empty());
        }
        Ok(self.configs.len() - 1)
    }

    /// Close registration: the protocols become active.
    pub fn start(&mut self)
        requires
            old(self).wf(),
        ensures
            final(self).wf(),
            final(self).is_active(),
            final(self).local() == old(self).local(),
            final(self).configs() == old(self).configs(),
            final(self).tables() == old(self).tables(),
    {
        self.active = true;
    }

    pub fn protocol_count(&self) -> (r: usize)
        requires
            self.wf(),
        ensures
            r == self.configs().len(),
    {
        self.configs.len()
    }

    /// Read access to the table of protocol `k`.
    pub fn table(&self, k: usize) -> (r: &ProtocolTable)
        requires
            self.wf(),
            k < self.configs().len(),
        ensures
            *r == self.tables()[k as int],
            r.wf(),
    {
        &self.tables[k]
    }

    /// Resolve a name that a remote asked for into a protocol and one of its
    /// names: the first protocol, in registration order, that has the name.
    pub fn resolve(&self, requested: &String) -> (r: Option<ProtocolIdentity>)
        requires
            self.wf(),
        ensures
            match r {
                Some(id) => {
                    &&& id.protocol < self.configs().len()
                    &&& id.name < config_names(self.configs()[id.protocol as int]).len()
                    &&& config_names(self.configs()[id.protocol as int])[id.name as int] == requested@
                    &&& forall|k: int| 0 <= k < id.protocol ==> !config_names(#[trigger] self.configs()[k]).contains(requested@)
                },
                None => forall|k: int| 0 <= k < self.configs().len() ==> !config_names(#[trigger] self.configs()[k]).contains(requested@),
            },
    {
        let mut k: usize = 0;
        while k < self.configs.len()
            invariant
                self.wf(),
                k <= self.configs@.len(),
                forall|q: int| 0 <= q < k ==> !config_names(#[trigger] self.configs@[q]).contains(requested@),
            decreases self.configs@.len() - k,
        {
            match match_inbound(&self.configs[k], requested) {
                Some(name) => {
                    return Some(ProtocolIdentity { protocol: k, name });
                },
                None => {},
            }
            k = k + 1;
        }
        None
    }

    /// Ask for a session with `p` on protocol `k`.
    pub fn open_peer(&mut self, k: usize, p: PeerId, now: u64) -> (r: OpenRequest)
        requires
            old(self).wf(),
            k < old(self).configs().len(),
        ensures
            final(self).wf(),
            final(self).configs() == old(self).configs(),
            final(self).local() == old(self).local(),
            final(self).is_active() == old(self).is_active(),
            final(self).tables().len() == old(self).tables().len(),
            forall|j: int| 0 <= j < old(self).tables().len() && j != k ==> final(self).tables()[j] == old(self).tables()[j],
            request_open_effect(old(self).tables()[k as int]@, final(self).tables()[k as int]@, p, now, r),
    {
        let ghost t0 = self.tables@;
        let mut t = self.tables.remove(k);
        let r = t.request_open(p, now);
        self.tables.insert(k, t);
        proof {
            assert(self.tables@ =~= t0.update(k as int, t));
        }
        r
    }

    /// Close the session with `p` on protocol `k`.
    pub fn close_peer(&mut self, k: usize, p: PeerId, now: u64)
        requires
            old(self).wf(),
            k < old(self).configs().len(),
        ensures
            final(self).wf(),
            final(self).configs() == old(self).configs(),
            final(self).local() == old(self).local(),
            final(self).is_active() == old(self).is_active(),
            final(self).tables().len() == old(self).tables().len(),
            forall|j: int| 0 <= j < old(self).tables().len() && j != k ==> final(self).tables()[j] == old(self).tables()[j],
            local_close_effect(old(self).tables()[k as int]@, final(self).tables()[k as int]@, p, now),
    {
        let ghost t0 = self.tables@;
        let mut t = self.tables.remove(k);
        t.local_close(p, now);
        self.tables.insert(k, t);
        proof {
            assert(self.tables@ =~= t0.update(k as int, t));
        }
    }

    /// Send `frame` to `p` on protocol `k`.
    pub fn send(&mut self, k: usize, p: PeerId, frame: &Vec<u8>, mode: SendMode) -> (r: Result<(), SendError>)
        requires
            old(self).wf(),
            k < old(self).configs().len(),
        ensures
            final(self).wf(),
            final(self).configs() == old(self).configs(),
            final(self).local() == old(self).local(),
            final(self).is_active() == old(self).is_active(),
            final(self).tables().len() == old(self).tables().len(),
            forall|j: int| 0 <= j < old(self).tables().len() && j != k ==> final(self).tables()[j] == old(self).tables()[j],
            send_effect(old(self).tables()[k as int]@, final(self).tables()[k as int]@, p, frame@, mode, r),
    {
        let ghost t0 = self.tables@;
        let mut t = self.tables.remove(k);
        let r = t.send(p, frame, mode);
        self.tables.insert(k, t);
        proof {
            assert(self.tables@ =~= t0.update(k as int, t));
        }
        r
    }

    /// A connection to `p` came up: every protocol learns of it, and those
    /// that open automatically ask for a session.
    /// The answer of protocol `j` is at index `j` of the result.
    pub fn connection_established(&mut self, p: PeerId, c: ConnectionId, now: u64) -> (r: Vec<Option<OpenRequest>>)
        requires
            old(self).wf(),
        ensures
            final(self).wf(),
            final(self).configs() == old(self).configs(),
            final(self).local() == old(self).local(),
            final(self).is_active() == old(self).is_active(),
            final(self).tables().len() == old(self).tables().len(),
            r@.len() == old(self).tables().len(),
            forall|j: int| 0 <= j < old(self).tables().len() ==> connection_established_effect(
                #[trigger] old(self).tables()[j]@, final(self).tables()[j]@, p, c, now, r@[j]),
    {
        let ghost t0 = self.tables@;
        let mut answers: Vec<Option<OpenRequest>> = Vec::new();
        let mut k: usize = 0;
        while k < self.tables.len()
            invariant
                self.wf(),
                self.configs@ == old(self).configs@,
                self.local == old(self).local,
                self.active == old(self).active,
                self.tables@.len() == t0.len(),
                t0 == old(self).tables@,
                k <= t0.len(),
                answers@.len() == k,
                forall|j: int| 0 <= j < k ==> connection_established_effect(#[trigger] t0[j]@, self.tables@[j]@, p, c, now, answers@[j]),
                forall|j: int| k <= j < t0.len() ==> #[trigger] self.tables@[j] == t0[j],
            decreases t0.len() - k,
        {
            let ghost before = self.tables@;
            let mut t = self.tables.remove(k);
            let r = t.connection_established(p, c, now);
            self.tables.insert(k, t);
            answers.push(r);
            proof {
                assert(self.tables@ =~= before.update(k as int, t));
            }
            k = k + 1;
        }
        answers
    }

    /// The connection `c` to `p` went down: every protocol learns of it.
    pub fn connection_closed(&mut self, p: PeerId, c: ConnectionId, reason: DisconnectReason, now: u64)
        requires
            old(self).wf(),
        ensures
            final(self).wf(),
            final(self).configs() == old(self).configs(),
            final(self).local() == old(self).local(),
            final(self).is_active() == old(self).is_active(),
            final(self).tables().len() == old(self).tables().len(),
            forall|j: int| 0 <= j < old(self).tables().len() ==> connection_closed_effect(
                #[trigger] old(self).tables()[j]@, final(self).tables()[j]@, p, c, reason, now),
    {
        let ghost t0 = self.tables@;
        let mut k: usize = 0;
        while k < self.tables.len()
            invariant
                self.wf(),
                self.configs@ == old(self).configs@,
                self.local == old(self).local,
                self.active == old(self).active,
                self.tables@.len() == t0.len(),
                t0 == old(self).tables@,
                k <= t0.len(),
                forall|j: int| 0 <= j < k ==> connection_closed_effect(#[trigger] t0[j]@, self.tables@[j]@, p, c, reason, now),
                forall|j: int| k <= j < t0.len() ==> #[trigger] self.tables@[j] == t0[j],
            decreases t0.len() - k,
        {
            let ghost before = self.tables@;
            let mut t = self.tables.remove(k);
            t.connection_closed(p, c, reason, now);
            self.tables.insert(k, t);
            proof {
                assert(self.tables@ =~= before.update(k as int, t));
            }
            k = k + 1;
        }
    }

    /// A substream that `p` opened on `c` for protocol `k`.
    pub fn inbound_open(&mut self, k: usize, p: PeerId, c: ConnectionId, handshake: Vec<u8>, now: u64) -> (r: InboundDecision)
        requires
            old(self).wf(),
            k < old(self).configs().len(),
        ensures
            final(self).wf(),
            final(self).configs() == old(self).configs(),
            final(self).local() == old(self).local(),
            final(self).is_active() == old(self).is_active(),
            final(self).tables().len() == old(self).tables().len(),
            forall|j: int| 0 <= j < old(self).tables().len() && j != k ==> final(self).tables()[j] == old(self).tables()[j],
            inbound_open_effect(old(self).tables()[k as int]@, final(self).tables()[k as int]@, p, c, handshake, now, r),
    {
        let ghost t0 = self.tables@;
        let mut t = self.tables.remove(k);
        let r = t.inbound_open(p, c, handshake, now);
        self.tables.insert(k, t);
        proof {
            assert(self.tables@ =~= t0.update(k as int, t));
        }
        r
    }

    /// The remote accepted our substream for protocol `k` on `c`.
    pub fn outbound_accepted(&mut self, k: usize, p: PeerId, c: ConnectionId, handshake: Vec<u8>, now: u64) -> (r: bool)
        requires
            old(self).wf(),
            k < old(self).configs().len(),
        ensures
            final(self).wf(),
            final(self).configs() == old(self).configs(),
            final(self).local() == old(self).local(),
            final(self).is_active() == old(self).is_active(),
            final(self).tables().len() == old(self).tables().len(),
            forall|j: int| 0 <= j < old(self).tables().len() && j != k ==> final(self).tables()[j] == old(self).tables()[j],
            outbound_accepted_effect(old(self).tables()[k as int]@, final(self).tables()[k as int]@, p, c, handshake, now, r),
    {
        let ghost t0 = self.tables@;
        let mut t = self.tables.remove(k);
        let r = t.outbound_accepted(p, c, handshake, now);
        self.tables.insert(k, t);
        proof {
            assert(self.tables@ =~= t0.update(k as int, t));
        }
        r
    }

    /// The remote refused our substream for protocol `k` on `c`.
    pub fn outbound_refused(&mut self, k: usize, p: PeerId, c: ConnectionId, now: u64) -> (r: bool)
        requires
            old(self).wf(),
            k < old(self).configs().len(),
        ensures
            final(self).wf(),
            final(self).configs() == old(self).configs(),
            final(self).local() == old(self).local(),
            final(self).is_active() == old(self).is_active(),
            final(self).tables().len() == old(self).tables().len(),
            forall|j: int| 0 <= j < old(self).tables().len() && j != k ==> final(self).tables()[j] == old(self).tables()[j],
            outbound_refused_effect(old(self).tables()[k as int]@, final(self).tables()[k as int]@, p, c, now, r),
    {
        let ghost t0 = self.tables@;
        let mut t = self.tables.remove(k);
        let r = t.outbound_refused(p, c, now);
        self.tables.insert(k, t);
        proof {
            assert(self.tables@ =~= t0.update(k as int, t));
        }
        r
    }

    /// A frame from `p` for protocol `k` on the substream of `c`.
    pub fn notification_received(&mut self, k: usize, p: PeerId, c: ConnectionId, payload: Vec<u8>, now: u64) -> (r: bool)
        requires
            old(self).wf(),
            k < old(self).configs().len(),
        ensures
            final(self).wf(),
            final(self).configs() == old(self).configs(),
            final(self).local() == old(self).local(),
            final(self).is_active() == old(self).is_active(),
            final(self).tables().len() == old(self).tables().len(),
            forall|j: int| 0 <= j < old(self).tables().len() && j != k ==> final(self).tables()[j] == old(self).tables()[j],
            notification_received_effect(old(self).tables()[k as int]@, final(self).tables()[k as int]@, p, c, payload, now, r),
    {
        let ghost t0 = self.tables@;
        let mut t = self.tables.remove(k);
        let r = t.notification_received(p, c, payload, now);
        self.tables.insert(k, t);
        proof {
            assert(self.tables@ =~= t0.update(k as int, t));
        }
        r
    }

    /// The substream of protocol `k` with `p` on `c` closed.
    pub fn substream_closed(&mut self, k: usize, p: PeerId, c: ConnectionId, reason: DisconnectReason, now: u64)
        requires
            old(self).wf(),
            k < old(self).configs().len(),
        ensures
            final(self).wf(),
            final(self).configs() == old(self).configs(),
            final(self).local() == old(self).local(),
            final(self).is_active() == old(self).is_active(),
            final(self).tables().len() == old(self).tables().len(),
            forall|j: int| 0 <= j < old(self).tables().len() && j != k ==> final(self).tables()[j] == old(self).tables()[j],
            substream_closed_effect(old(self).tables()[k as int]@, final(self).tables()[k as int]@, p, c, reason, now),
    {
        let ghost t0 = self.tables@;
        let mut t = self.tables.remove(k);
        t.substream_closed(p, c, reason, now);
        self.tables.insert(k, t);
        proof {
            assert(self.tables@ =~= t0.update(k as int, t));
        }
    }

    /// A timer tick for protocol `k`.
    pub fn tick(&mut self, k: usize, now: u64)
        requires
            old(self).wf(),
            k < old(self).configs().len(),
        ensures
            final(self).wf(),
            final(self).configs() == old(self).configs(),
            final(self).local() == old(self).local(),
            final(self).is_active() == old(self).is_active(),
            final(self).tables().len() == old(self).tables().len(),
            forall|j: int| 0 <= j < old(self).tables().len() && j != k ==> final(self).tables()[j] == old(self).tables()[j],
            tick_effect(old(self).tables()[k as int]@, final(self).tables()[k as int]@, now),
    {
        let ghost t0 = self.tables@;
        let mut t = self.tables.remove(k);
        t.tick(now);
        self.tables.insert(k, t);
        proof {
            assert(self.tables@ =~= t0.update(k as int, t));
        }
    }

    /// The handler takes the oldest frame of protocol `k` queued toward `p`.
    pub fn drain(&mut self, k: usize, p: PeerId) -> (r: Option<Vec<u8>>)
        requires
            old(self).wf(),
            k < old(self).configs().len(),
        ensures
            final(self).wf(),
            final(self).configs() == old(self).configs(),
            final(self).local() == old(self).local(),
            final(self).is_active() == old(self).is_active(),
            final(self).tables().len() == old(self).tables().len(),
            forall|j: int| 0 <= j < old(self).tables().len() && j != k ==> final(self).tables()[j] == old(self).tables()[j],
            drain_effect(old(self).tables()[k as int]@, final(self).tables()[k as int]@, p, r),
    {
        let ghost t0 = self.tables@;
        let mut t = self.tables.remove(k);
        let r = t.drain(p);
        self.tables.insert(k, t);
        proof {
            assert(self.tables@ =~= t0.update(k as int, t));
        }
        r
    }

    /// The consumer of protocol `k` takes its oldest event not yet taken.
    pub fn next_event(&mut self, k: usize) -> (r: Option<ProtocolEvent>)
        requires
            old(self).wf(),
            k < old(self).configs().len(),
        ensures
            final(self).wf(),
            final(self).configs() == old(self).configs(),
            final(self).local() == old(self).local(),
            final(self).is_active() == old(self).is_active(),
            final(self).tables().len() == old(self).tables().len(),
            forall|j: int| 0 <= j < old(self).tables().len() && j != k ==> final(self).tables()[j] == old(self).tables()[j],
            old(self).tables()[k as int]@.events.len() == 0 ==> r.is_none() && final(self).tables()[k as int]@ == old(self).tables()[k as int]@,
            old(self).tables()[k as int]@.events.len() > 0 ==> r == Some(old(self).tables()[k as int]@.events[0])
                && final(self).tables()[k as int]@ == (TableView {
                events: old(self).tables()[k as int]@.events.drop_first(),
                taken: old(self).tables()[k as int]@.taken.push(old(self).tables()[k as int]@.events[0]),
                ..old(self).tables()[k as int]@
            }),
    {
        let ghost t0 = self.tables@;
        let mut t = self.tables.remove(k);
        let r = t.next_event();
        self.tables.insert(k, t);
        proof {
            assert(self.tables@ =~= t0.update(k as int, t));
        }
        r
    }

    /// The handlers take the oldest command of protocol `k` not yet taken.
    pub fn next_command(&mut self, k: usize) -> (r: Option<HandlerCommand>)
        requires
            old(self).wf(),
            k < old(self).configs().len(),
        ensures
            final(self).wf(),
            final(self).configs() == old(self).configs(),
            final(self).local() == old(self).local(),
            final(self).is_active() == old(self).is_active(),
            final(self).tables().len() == old(self).tables().len(),
            forall|j: int| 0 <= j < old(self).tables().len() && j != k ==> final(self).tables()[j] == old(self).tables()[j],
            old(self).tables()[k as int]@.commands.len() == 0 ==> r.is_none() && final(self).tables()[k as int]@ == old(self).tables()[k as int]@,
            old(self).tables()[k as int]@.commands.len() > 0 ==> r == Some(old(self).tables()[k as int]@.commands[0])
                && final(self).tables()[k as int]@ == (TableView {
                commands: old(self).tables()[k as int]@.commands.drop_first(),
                ..old(self).tables()[k as int]@
            }),
    {
        let ghost t0 = self.tables@;
        let mut t = self.tables.remove(k);
        let r = t.next_command();
        self.tables.insert(k, t);
        proof {
            assert(self.tables@ =~= t0.update(k as int, t));
        }
        r
    }

    /// The handshake bytes of protocol `k`.
    pub fn handshake(&self, k: usize) -> (r: &Vec<u8>)
        requires
            self.wf(),
            k < self.configs().len(),
        ensures
            *r == self.configs()[k as int].handshake,
    {
        &self.configs[k].handshake
    }
}

} // verus!
