//! The bookkeeping behind the hooks: which resolved addresses and which
//! socket descriptors are tracked, and what each intercepted call does with
//! that knowledge.
//!
//! The two sets only grow. Each is meant to live behind a lock of its own;
//! a function that reads a set takes `None` where the lock could not be
//! acquired, and states the answer for that case too.

use crate::config::{ConfigView, HookConfig};
use crate::sorted::contains_text;
use crate::util::{get_in_addr, text_bytes, utf8_from_ptr, SockAddr};
use std::collections::BTreeSet;
use vstd::hash_set::StringHashSet;
use vstd::prelude::*;
use vstd::utf8::*;

verus! {

broadcast use {vstd::std_specs::btree::group_btree_axioms, vstd::laws_cmp::group_laws_cmp};

/// The intercepted entry points.
#[derive(Clone, Copy, Debug, PartialEq, Eq)]
pub enum Hook {
    /// Resolves a host name to a list of addresses.
    Getaddrinfo,
    /// Resolves a host name, the older way.
    Gethostbyname,
    /// Resolves an address to a host name.
    Gethostbyaddr,
    /// Connects a socket to a peer address.
    Connect,
    /// Binds a socket to a local address.
    Bind,
    /// Sends on a connected socket.
    Send,
    /// Receives on a connected socket.
    Recv,
    /// Sends to a given address.
    Sendto,
    /// Receives, together with the sender's address.
    Recvfrom,
    /// Writes to a descriptor.
    Write,
    /// Reads from a descriptor.
    Read,
    /// Writes from several buffers.
    Writev,
    /// Reads into several buffers.
    Readv,
}

/// What a hook does besides calling the real implementation and returning
/// its result unchanged.
#[derive(Clone, Copy, Debug, PartialEq, Eq)]
pub enum HookKind {
    /// After the real call, the resolved addresses are recorded.
    Resolution,
    /// Nothing.
    PassThrough,
    /// After the real call, the descriptor is recorded.
    Association,
    /// Before the real call, the calling thread is held up.
    Io,
}

impl Hook {
    /// The kind of this hook.
    pub open spec fn spec_kind(self) -> HookKind {
        match self {
            Hook::Getaddrinfo => HookKind::Resolution,
            Hook::Gethostbyname | Hook::Gethostbyaddr => HookKind::PassThrough,
            Hook::Connect | Hook::Bind => HookKind::Association,
            _ => HookKind::Io,
        }
    }

    /// The kind of this hook.
    #[verifier::when_used_as_spec(spec_kind)]
    pub fn kind(self) -> (kind: HookKind)
        ensures
            kind == self.spec_kind(),
    {
        match self {
            Hook::Getaddrinfo => HookKind::Resolution,
            Hook::Gethostbyname | Hook::Gethostbyaddr => HookKind::PassThrough,
            Hook::Connect | Hook::Bind => HookKind::Association,
            Hook::Send
            | Hook::Recv
            | Hook::Sendto
            | Hook::Recvfrom
            | Hook::Write
            | Hook::Read
            | Hook::Writev
            | Hook::Readv => HookKind::Io,
        }
    }

    /// The name of the symbol that this hook replaces.
    pub open spec fn spec_symbol(self) -> Seq<char> {
        match self {
            Hook::Getaddrinfo => "getaddrinfo"@,
            Hook::Gethostbyname => "gethostbyname"@,
            Hook::Gethostbyaddr => "gethostbyaddr"@,
            Hook::Connect => "connect"@,
            Hook::Bind => "bind"@,
            Hook::Send => "send"@,
            Hook::Recv => "recv"@,
            Hook::Sendto => "sendto"@,
            Hook::Recvfrom => "recvfrom"@,
            Hook::Write => "write"@,
            Hook::Read => "read"@,
            Hook::Writev => "writev"@,
            Hook::Readv => "readv"@,
        }
    }

    /// The name of the symbol that this hook replaces.
    pub fn symbol(self) -> (name: &'static str)
        ensures
            name@ == self.spec_symbol(),
    {
        match self {
            Hook::Getaddrinfo => "getaddrinfo",
            Hook::Gethostbyname => "gethostbyname",
            Hook::Gethostbyaddr => "gethostbyaddr",
            Hook::Connect => "connect",
            Hook::Bind => "bind",
            Hook::Send => "send",
            Hook::Recv => "recv",
            Hook::Sendto => "sendto",
            Hook::Recvfrom => "recvfrom",
            Hook::Write => "write",
            Hook::Read => "read",
            Hook::Writev => "writev",
            Hook::Readv => "readv",
        }
    }
}

/// The textual addresses known to belong to a tracked host. The empty text,
/// which stands for an address outside the two IP families, is never one of
/// them.
pub struct TrackedAddresses {
    entries: StringHashSet,
}

/// The socket descriptors bound or connected to a tracked address.
pub struct TrackedSockets {
    entries: BTreeSet<i32>,
}

impl View for TrackedAddresses {
    type V = Set<Seq<char>>;

    closed spec fn view(&self) -> Set<Seq<char>> {
        self.entries@.remove(Seq::empty())
    }
}

impl View for TrackedSockets {
    type V = Set<i32>;

    closed spec fn view(&self) -> Set<i32> {
        self.entries@
    }
}

impl TrackedAddresses {
    /// The empty text is no entry.
    #[verifier::type_invariant]
    spec fn holds_no_empty_text(self) -> bool {
        !self.entries@.contains(Seq::empty())
    }

    /// A set that tracks no address.
    pub fn new() -> (addrs: Self)
        ensures
            addrs@ == Set::<Seq<char>>::empty(),
    {
        let addrs = TrackedAddresses { entries: StringHashSet::new() };
        assert(addrs@ =~= Set::<Seq<char>>::empty());
        addrs
    }

    /// Whether `ip` is among the tracked addresses. The empty text never is.
    pub fn contains(&self, ip: &str) -> (found: bool)
        ensures
            found == self@.contains(ip@),
            ip@.len() == 0 ==> !found,
    {
        proof {
            use_type_invariant(self);
            assert(ip@.len() == 0 ==> ip@ =~= Seq::<char>::empty());
        }
        self.entries.contains(ip)
    }
}

impl TrackedSockets {
    /// A set that tracks no descriptor.
    pub fn new() -> (sockets: Self)
        ensures
            sockets@ == Set::<i32>::empty(),
    {
        TrackedSockets { entries: BTreeSet::new() }
    }

    /// Whether `socket` is among the tracked descriptors.
    pub fn contains(&self, socket: i32) -> (found: bool)
        ensures
            found == self@.contains(socket),
    {
        self.entries.contains(&socket)
    }
}

/// Whether a host is in scope under `config`: every host is if none is
/// listed, else exactly the listed ones are.
pub open spec fn intercepts_host(config: ConfigView, host: Seq<char>) -> bool {
    config.hosts.len() == 0 || config.hosts.contains(host)
}

/// Whether an address is in scope. `addrs` is the set of tracked addresses,
/// or `None` if it could not be read: then every address is in scope if no
/// host is listed, and none otherwise.
pub open spec fn intercepts_ip(
    config: ConfigView,
    addrs: Option<Set<Seq<char>>>,
    ip: Seq<char>,
) -> bool {
    match addrs {
        Some(known) => known.contains(ip),
        None => config.hosts.len() == 0,
    }
}

/// Whether a descriptor is in scope. `sockets` is the set of tracked
/// descriptors, or `None` if it could not be read. The three standard
/// descriptors are never in scope, and nothing is while the set is
/// unreadable.
pub open spec fn intercepts_socket(sockets: Option<Set<i32>>, socket: i32) -> bool {
    socket > 2 && match sockets {
        Some(known) => known.contains(socket),
        None => false,
    }
}

/// The model of what an attempt to read the tracked addresses gave.
pub open spec fn addresses_read(addrs: Option<&TrackedAddresses>) -> Option<Set<Seq<char>>> {
    match addrs {
        Some(known) => Some(known@),
        None => None,
    }
}

/// The model of what an attempt to read the tracked descriptors gave.
pub open spec fn sockets_read(sockets: Option<&TrackedSockets>) -> Option<Set<i32>> {
    match sockets {
        Some(known) => Some(known@),
        None => None,
    }
}

/// Whether `socket` is one of the three standard descriptors, for which the
/// tracked descriptors need not be consulted at all.
pub fn is_standard_descriptor(socket: i32) -> (standard: bool)
    ensures
        standard == (socket <= 2),
        standard ==> forall|sockets: Option<Set<i32>>| !intercepts_socket(sockets, socket),
{
    socket <= 2
}

/// Whether calls that resolve `host` are to be tracked.
pub fn should_intercept_host(config: &HookConfig, host: &str) -> (intercept: bool)
    ensures
        intercept == intercepts_host(config@, host@),
{
    let hosts = config.hosts();
    hosts.len() == 0 || contains_text(hosts, host)
}

/// The tracked addresses after `ip` is recorded: `ip` is added, unless it is
/// the empty text, which is never tracked.
pub open spec fn with_address(known: Set<Seq<char>>, ip: Seq<char>) -> Set<Seq<char>> {
    if ip.len() == 0 {
        known
    } else {
        known.insert(ip)
    }
}

/// Adds `ip` to the tracked addresses, unless it is the empty text. Nothing
/// is ever removed.
pub fn record_resolved_address(addrs: &mut TrackedAddresses, ip: &str)
    ensures
        final(addrs)@ == with_address(old(addrs)@, ip@),
{
    proof {
        use_type_invariant(&*addrs);
    }
    if ip.unicode_len() > 0 {
        // The entries leave the set while they are changed, and come back whole.
        let mut entries = StringHashSet::new();
        std::mem::swap(&mut entries, &mut addrs.entries);
        entries.insert(ip.to_owned());
        addrs.entries = entries;
        assert(addrs@ =~= old(addrs)@.insert(ip@));
    }
}

/// Whether sockets bound or connected to `ip` are to be tracked. `addrs` is
/// `None` where the lock on the tracked addresses could not be acquired.
/// Where it could, the empty text is never in scope.
pub fn should_intercept_ip(
    config: &HookConfig,
    addrs: Option<&TrackedAddresses>,
    ip: &str,
) -> (intercept: bool)
    ensures
        intercept == intercepts_ip(config@, addresses_read(addrs), ip@),
        addrs is Some && ip@.len() == 0 ==> !intercept,
{
    match addrs {
        Some(known) => known.contains(ip),
        None => config.hosts().len() == 0,
    }
}

/// Adds `socket` to the tracked descriptors. Nothing is ever removed.
pub fn record_tracked_socket(sockets: &mut TrackedSockets, socket: i32)
    ensures
        final(sockets)@ == old(sockets)@.insert(socket),
{
    sockets.entries.insert(socket);
}

/// Whether I/O on `socket` is to be delayed. `sockets` is `None` where the
/// lock on the tracked descriptors could not be acquired.
pub fn should_intercept_socket(sockets: Option<&TrackedSockets>, socket: i32) -> (intercept: bool)
    ensures
        intercept == intercepts_socket(sockets_read(sockets), socket),
        socket <= 2 ==> !intercept,
{
    // Never delay stdin, stdout or stderr.
    if is_standard_descriptor(socket) {
        false
    } else {
        match sockets {
            Some(known) => known.contains(socket),
            None => false,
        }
    }
}

/// Whether the addresses of a finished resolution are to be recorded: the
/// resolver succeeded, the queried name was decoded, and it names a host in
/// scope. `result` is the resolver's return value, `node` the buffer that
/// holds the queried name, or `None` where no name was given.
pub open spec fn resolution_in_scope(config: ConfigView, result: i32, node: Option<Seq<u8>>) -> bool {
    result == 0 && match node {
        Some(buf) => valid_utf8(text_bytes(buf)) && intercepts_host(
            config,
            decode_utf8(text_bytes(buf)),
        ),
        None => false,
    }
}

/// The model of the buffer that holds a queried name.
pub open spec fn node_bytes(node: Option<&[u8]>) -> Option<Seq<u8>> {
    match node {
        Some(buf) => Some(buf@),
        None => None,
    }
}

/// The texts of the IP addresses in a list of resolution records. A record
/// of another family has no part in it.
pub open spec fn record_texts(records: Seq<SockAddr>) -> Set<Seq<char>> {
    Set::new(
        |text: Seq<char>|
            exists|i: int|
                0 <= i < records.len() && !(records[i] is Other) && records[i].text() == text,
    )
}

/// Decides, after the real resolver has run, whether its answer is to be
/// recorded.
pub fn resolution_is_tracked(config: &HookConfig, result: i32, node: Option<&[u8]>) -> (record:
    bool)
    ensures
        record == resolution_in_scope(config@, result, node_bytes(node)),
{
    if result != 0 {
        return false;
    }
    match node {
        Some(buf) => match utf8_from_ptr(buf) {
            Ok(host) => should_intercept_host(config, host),
            Err(_) => false,
        },
        None => false,
    }
}

/// Records the address of every record of the two IP families that a
/// resolution returned. A record of another family is passed over.
pub fn record_resolved_addresses(addrs: &mut TrackedAddresses, records: &[SockAddr])
    ensures
        final(addrs)@ == old(addrs)@.union(record_texts(records@)),
{
    let mut i: usize = 0;
    assert(addrs@ =~= old(addrs)@.union(record_texts(records@.take(0))));
    while i < records.len()
        invariant
            i <= records@.len(),
            addrs@ == old(addrs)@.union(record_texts(records@.take(i as int))),
        decreases records@.len() - i,
    {
        let ghost so_far = addrs@;
        let ip = get_in_addr(&records[i]);
        record_resolved_address(addrs, ip.as_str());
        proof {
            let before = records@.take(i as int);
            let after = records@.take(i + 1);
            let record = records@[i as int];
            assert(after[i as int] == record);
            crate::util::lemma_text_len(record);
            assert forall|text: Seq<char>| #[trigger]
                record_texts(after).contains(text) <==> record_texts(before).contains(text) || (
                !(record is Other) && text == ip@) by {
                if record_texts(before).contains(text) {
                    let j = choose|j: int|
                        0 <= j < before.len() && !(before[j] is Other) && before[j].text() == text;
                    assert(after[j] == before[j]);
                }
                if record_texts(after).contains(text) && !(!(record is Other) && text == ip@) {
                    let j = choose|j: int|
                        0 <= j < after.len() && !(after[j] is Other) && after[j].text() == text;
                    assert(before[j] == after[j]);
                }
            }
            assert(addrs@ == with_address(so_far, ip@));
            assert(addrs@ =~= old(addrs)@.union(record_texts(after)));
        }
        i = i + 1;
    }
    assert(records@.take(i as int) =~= records@);
}

/// Whether a socket bound or connected to `address` is in scope: the address
/// is of one of the two IP families and its text is in scope. An address of
/// another family never is, whether the tracked addresses can be read or
/// not.
pub open spec fn association_in_scope(
    config: ConfigView,
    addrs: Option<Set<Seq<char>>>,
    address: SockAddr,
) -> bool {
    !(address is Other) && intercepts_ip(config, addrs, address.text())
}

/// Decides, after the real `connect` or `bind` has run, whether the
/// descriptor is to be recorded: it is where its address is in scope. For an
/// address outside the two IP families nothing is ever recorded.
pub fn association_is_tracked(
    config: &HookConfig,
    addrs: Option<&TrackedAddresses>,
    address: &SockAddr,
) -> (record: bool)
    ensures
        record == association_in_scope(config@, addresses_read(addrs), *address),
        address is Other ==> !record,
{
    match address {
        SockAddr::Other => false,
        _ => {
            let ip = get_in_addr(address);
            should_intercept_ip(config, addrs, ip.as_str())
        },
    }
}

/// Decides how long an I/O call on `socket` is held up before the real call
/// is made: for the configured delay, in microseconds, where the descriptor
/// is in scope, and not at all otherwise.
pub fn delay_before_io(config: &HookConfig, sockets: Option<&TrackedSockets>, socket: i32) -> (delay:
    Option<u64>)
    ensures
        delay == if intercepts_socket(sockets_read(sockets), socket) {
            Some((config@.sleep_duration_millis * 1000) as u64)
        } else {
            None
        },
{
    if should_intercept_socket(sockets, socket) {
        Some(config.sleep_duration())
    } else {
        None
    }
}

/// The tracked addresses after a resolution hook has run with the set
/// locked: the addresses of all records are added where the resolution is in
/// scope, and nothing changes where it is not.
pub open spec fn after_resolution(
    config: ConfigView,
    known: Set<Seq<char>>,
    result: i32,
    node: Option<Seq<u8>>,
    records: Seq<SockAddr>,
) -> Set<Seq<char>> {
    if resolution_in_scope(config, result, node) {
        known.union(record_texts(records))
    } else {
        known
    }
}

/// The tracked descriptors after a `connect` or `bind` hook has run with the
/// set locked: the descriptor is added where its address is in scope, and
/// nothing changes where it is not.
pub open spec fn after_association(
    config: ConfigView,
    addrs: Option<Set<Seq<char>>>,
    known: Set<i32>,
    socket: i32,
    address: SockAddr,
) -> Set<i32> {
    if association_in_scope(config, addrs, address) {
        known.insert(socket)
    } else {
        known
    }
}

/// Recording is idempotent, and the order of two recordings does not matter.
pub proof fn lemma_recording_is_idempotent(
    addrs: Set<Seq<char>>,
    ip: Seq<char>,
    other_ip: Seq<char>,
    sockets: Set<i32>,
    socket: i32,
    other_socket: i32,
)
    ensures
        addrs.insert(ip).insert(ip) == addrs.insert(ip),
        addrs.insert(ip).insert(other_ip) == addrs.insert(other_ip).insert(ip),
        sockets.insert(socket).insert(socket) == sockets.insert(socket),
        sockets.insert(socket).insert(other_socket) == sockets.insert(other_socket).insert(socket),
{
    assert(addrs.insert(ip).insert(ip) =~= addrs.insert(ip));
    assert(addrs.insert(ip).insert(other_ip) =~= addrs.insert(other_ip).insert(ip));
    assert(sockets.insert(socket).insert(socket) =~= sockets.insert(socket));
    assert(sockets.insert(socket).insert(other_socket) =~= sockets.insert(other_socket).insert(
        socket,
    ));
}

/// Neither hook ever removes an entry.
pub proof fn lemma_tracked_sets_only_grow(
    config: ConfigView,
    addrs: Set<Seq<char>>,
    sockets: Set<i32>,
    result: i32,
    node: Option<Seq<u8>>,
    records: Seq<SockAddr>,
    socket: i32,
    address: SockAddr,
)
    ensures
        addrs.subset_of(after_resolution(config, addrs, result, node, records)),
        sockets.subset_of(after_association(config, Some(addrs), sockets, socket, address)),
        sockets.subset_of(after_association(config, None, sockets, socket, address)),
{
}

/// After a successful resolution of a host in scope, each IP address among
/// the records is in scope wherever the tracked addresses can be read, and
/// stays so whatever is recorded later.
pub proof fn lemma_resolved_addresses_stay_in_scope(
    config: ConfigView,
    known: Set<Seq<char>>,
    result: i32,
    node: Option<Seq<u8>>,
    records: Seq<SockAddr>,
    later: Set<Seq<char>>,
    i: int,
)
    requires
        resolution_in_scope(config, result, node),
        0 <= i < records.len(),
        !(records[i] is Other),
    ensures
        intercepts_ip(
            config,
            Some(after_resolution(config, known, result, node, records)),
            records[i].text(),
        ),
        intercepts_ip(
            config,
            Some(after_resolution(config, known, result, node, records).union(later)),
            records[i].text(),
        ),
{
    assert(record_texts(records).contains(records[i].text()));
}

/// Recording the records of a resolution brings exactly their addresses into
/// scope: an IP address whose text is among those of the records is the
/// address of one of them.
pub proof fn lemma_only_recorded_addresses_match(records: Seq<SockAddr>, address: SockAddr)
    requires
        !(address is Other),
    ensures
        record_texts(records).contains(address.text()) <==> exists|i: int|
            0 <= i < records.len() && records[i] == address,
{
    if record_texts(records).contains(address.text()) {
        let i = choose|i: int|
            0 <= i < records.len() && !(records[i] is Other) && records[i].text()
                == address.text();
        crate::text_laws::lemma_text_determines_address(records[i], address);
    }
    if exists|i: int| 0 <= i < records.len() && records[i] == address {
        let i = choose|i: int| 0 <= i < records.len() && records[i] == address;
        assert(records[i].text() == address.text());
    }
}

/// None of the three standard descriptors is ever in scope, whatever the
/// tracked descriptors hold.
pub proof fn lemma_standard_descriptors_out_of_scope(sockets: Option<Set<i32>>, socket: i32)
    requires
        socket <= 2,
    ensures
        !intercepts_socket(sockets, socket),
{
}

/// A descriptor above the standard ones that is connected or bound to an
/// address in scope is itself in scope afterwards wherever the tracked
/// descriptors can be read, and stays so whatever is recorded later.
pub proof fn lemma_associated_socket_stays_in_scope(
    config: ConfigView,
    addrs: Option<Set<Seq<char>>>,
    known: Set<i32>,
    socket: i32,
    address: SockAddr,
    later: Set<i32>,
)
    requires
        association_in_scope(config, addrs, address),
        socket > 2,
    ensures
        intercepts_socket(Some(after_association(config, addrs, known, socket, address)), socket),
        intercepts_socket(
            Some(after_association(config, addrs, known, socket, address).union(later)),
            socket,
        ),
{
}

/// The empty text is never a tracked address: not in any set of tracked
/// addresses, and not among the texts that a resolution records.
pub proof fn lemma_empty_text_is_never_tracked(addrs: TrackedAddresses, records: Seq<SockAddr>)
    ensures
        !addrs@.contains(Seq::<char>::empty()),
        !record_texts(records).contains(Seq::<char>::empty()),
        !with_address(addrs@, Seq::<char>::empty()).contains(Seq::<char>::empty()),
        !addrs@.union(record_texts(records)).contains(Seq::<char>::empty()),
{
    if record_texts(records).contains(Seq::<char>::empty()) {
        let i = choose|i: int|
            0 <= i < records.len() && !(records[i] is Other) && records[i].text() == Seq::<
                char,
            >::empty();
        crate::util::lemma_text_len(records[i]);
    }
}

/// An address outside the two IP families has the empty text, which matches
/// no tracked address, whatever was recorded, and a `connect` or `bind` to
/// such an address records nothing, whether the tracked addresses can be
/// read or not.
pub proof fn lemma_other_family_out_of_scope(
    config: ConfigView,
    addrs: TrackedAddresses,
    read: Option<Set<Seq<char>>>,
    address: SockAddr,
    records: Seq<SockAddr>,
    sockets: Set<i32>,
    socket: i32,
)
    requires
        address is Other,
    ensures
        address.text() == Seq::<char>::empty(),
        !intercepts_ip(config, Some(addrs@), address.text()),
        !intercepts_ip(config, Some(addrs@.union(record_texts(records))), address.text()),
        !association_in_scope(config, read, address),
        after_association(config, read, sockets, socket, address) == sockets,
{
    lemma_empty_text_is_never_tracked(addrs, records);
}

} // verus!
