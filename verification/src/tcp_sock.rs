//! One socket of the guest's TCP hash table.

use vstd::prelude::*;
use crate::guest_mem::{
    EventView, GuestEvent, GuestMemory, GuestModel, GuestRequest, ReplyView, Step,
};
use crate::guest_read;
use crate::guest_read::{GuestRead, ReadState};
use crate::guest_word;
use crate::guest_word::{read_guest_be16, read_guest_be32, read_guest_u16, read_guest_u8};
use crate::sock_cache;
use crate::sock_cache::{LoggedSockCache, SockRing};

verus! {

// Where the fields of `struct sock_common` lie, in Linux version 6.12.0-233.el10.x86_64.
pub const SOCK_COMMON_DADDR_OFFSET: u64 = 0;

pub const SOCK_COMMON_RCV_SADDR_OFFSET: u64 = 4;

pub const SOCK_COMMON_DPORT_OFFSET: u64 = 12;

pub const SOCK_COMMON_NUM_OFFSET: u64 = 14;

pub const SOCK_COMMON_FAMILY_OFFSET: u64 = 16;

pub const SOCK_COMMON_STATE_OFFSET: u64 = 18;

/// The address family of IPv4.
pub const AF_INET: u16 = 2;

/// The state of an open connection.
pub const TCP_ESTABLISHED: u8 = 1;

/// The state of a connection that was closed a short while ago.
pub const TCP_TIME_WAIT: u8 = 6;

/// A connection as its socket describes it.
#[derive(Clone, Copy, Debug, PartialEq, Eq, Structural)]
pub struct TcpConnection {
    pub bucket_index: u32,
    pub sock_ptr: u64,
    pub state: u8,
    pub saddr: u32,
    pub sport: u16,
    pub daddr: u32,
    pub dport: u16,
}

/// The field of the socket that is being read, or what became of the socket.
#[derive(Clone, Copy, Debug, PartialEq, Eq, Structural)]
pub enum SockField {
    Family,
    State,
    Daddr,
    Saddr,
    Dport,
    Sport,
    Skipped,
    Logged,
}

/// How far a socket has been read: the field that is next, and what is known so far.
#[derive(Clone, Copy, Debug, PartialEq, Eq, Structural)]
pub struct SockPhase {
    pub field: SockField,
    pub conn: TcpConnection,
}

/// A task that reads guest memory: how far it has come, and the read it waits for.
pub struct Scan<P> {
    pub phase: P,
    pub read: GuestRead,
}

/// The mathematical content of a `Scan`.
pub struct ScanState<P> {
    pub phase: P,
    pub read: ReadState,
}

impl<P> View for Scan<P> {
    type V = ScanState<P>;

    open spec fn view(&self) -> ScanState<P> {
        ScanState { phase: self.phase, read: self.read@ }
    }
}

/// The task behind `try_log_sock`.
pub type SockProbe = Scan<SockPhase>;

impl SockField {
    /// Where the field lies in the socket.
    pub open spec fn spec_offset(self) -> u64 {
        match self {
            SockField::Family => SOCK_COMMON_FAMILY_OFFSET,
            SockField::State => SOCK_COMMON_STATE_OFFSET,
            SockField::Daddr => SOCK_COMMON_DADDR_OFFSET,
            SockField::Saddr => SOCK_COMMON_RCV_SADDR_OFFSET,
            SockField::Dport => SOCK_COMMON_DPORT_OFFSET,
            SockField::Sport => SOCK_COMMON_NUM_OFFSET,
            _ => 0,
        }
    }

    /// How many bytes the field has; none once the socket was dealt with.
    pub open spec fn spec_width(self) -> usize {
        match self {
            SockField::Family => 2,
            SockField::State => 1,
            SockField::Daddr => 4,
            SockField::Saddr => 4,
            SockField::Dport => 2,
            SockField::Sport => 2,
            _ => 0,
        }
    }

    /// How many fields are still to be read behind this one.
    pub open spec fn left(self) -> nat {
        match self {
            SockField::Family => 5,
            SockField::State => 4,
            SockField::Daddr => 3,
            SockField::Saddr => 2,
            SockField::Dport => 1,
            _ => 0,
        }
    }

    fn offset(self) -> (res: u64)
        ensures
            res == self.spec_offset(),
    {
        match self {
            SockField::Family => SOCK_COMMON_FAMILY_OFFSET,
            SockField::State => SOCK_COMMON_STATE_OFFSET,
            SockField::Daddr => SOCK_COMMON_DADDR_OFFSET,
            SockField::Saddr => SOCK_COMMON_RCV_SADDR_OFFSET,
            SockField::Dport => SOCK_COMMON_DPORT_OFFSET,
            SockField::Sport => SOCK_COMMON_NUM_OFFSET,
            _ => 0,
        }
    }

    fn width(self) -> (res: usize)
        ensures
            res == self.spec_width(),
    {
        match self {
            SockField::Family => 2,
            SockField::State => 1,
            SockField::Daddr => 4,
            SockField::Saddr => 4,
            SockField::Dport => 2,
            SockField::Sport => 2,
            _ => 0,
        }
    }
}

/// The read of `field` in the socket at `sock_ptr`.
pub open spec fn field_read(sock_ptr: u64, field: SockField) -> ReadState {
    ReadState::zeroed(sock_ptr.wrapping_add(field.spec_offset()), field.spec_width() as nat)
}

/// What is known of a socket before anything was read.
pub open spec fn blank_connection(bucket_index: u32, sock_ptr: u64) -> TcpConnection {
    TcpConnection { bucket_index, sock_ptr, state: 0, saddr: 0, sport: 0, daddr: 0, dport: 0 }
}

impl ScanState<SockPhase> {
    /// The task before it reads `field`, with `conn` known.
    pub open spec fn at_field(field: SockField, conn: TcpConnection) -> ScanState<SockPhase> {
        ScanState { phase: SockPhase { field, conn }, read: field_read(conn.sock_ptr, field) }
    }

    /// The task before its first question.
    pub open spec fn start(bucket_index: u32, sock_ptr: u64) -> ScanState<SockPhase> {
        ScanState::<SockPhase>::at_field(SockField::Family, blank_connection(bucket_index, sock_ptr))
    }

    /// The task with the socket passed over.
    pub open spec fn skipped(self) -> ScanState<SockPhase> {
        ScanState {
            phase: SockPhase { field: SockField::Skipped, conn: self.phase.conn },
            read: self.read,
        }
    }

    /// The task, and the sockets remembered, after the field's bytes were read.
    pub open spec fn decided(self, socks: SockRing) -> (ScanState<SockPhase>, SockRing) {
        let conn = self.phase.conn;
        let bytes = self.read.buf;
        match self.phase.field {
            SockField::Family => if guest_word::le_value(bytes) as u16 == AF_INET {
                (ScanState::<SockPhase>::at_field(SockField::State, conn), socks)
            } else {
                (self.skipped(), socks)
            },
            SockField::State => if bytes[0] == TCP_ESTABLISHED || bytes[0] == TCP_TIME_WAIT {
                (
                    ScanState::<SockPhase>::at_field(
                        SockField::Daddr,
                        TcpConnection { state: bytes[0], ..conn },
                    ),
                    socks,
                )
            } else {
                (self.skipped(), socks)
            },
            SockField::Daddr => (
                ScanState::<SockPhase>::at_field(
                    SockField::Saddr,
                    TcpConnection { daddr: guest_word::be_value(bytes) as u32, ..conn },
                ),
                socks,
            ),
            SockField::Saddr => (
                ScanState::<SockPhase>::at_field(
                    SockField::Dport,
                    TcpConnection { saddr: guest_word::be_value(bytes) as u32, ..conn },
                ),
                socks,
            ),
            SockField::Dport => (
                ScanState::<SockPhase>::at_field(
                    SockField::Sport,
                    TcpConnection { dport: guest_word::be_value(bytes) as u16, ..conn },
                ),
                socks,
            ),
            SockField::Sport => if socks.contains(conn.sock_ptr) {
                (self.skipped(), socks)
            } else {
                (
                    ScanState {
                        phase: SockPhase {
                            field: SockField::Logged,
                            conn: TcpConnection {
                                sport: guest_word::le_value(bytes) as u16,
                                ..conn
                            },
                        },
                        read: self.read,
                    },
                    socks.after(conn.sock_ptr),
                )
            },
            _ => (self, socks),
        }
    }

    /// The open question, or the connection that was logged.
    pub open spec fn pending(self) -> Step<Option<TcpConnection>> {
        match self.phase.field {
            SockField::Skipped => Step::Done(None),
            SockField::Logged => Step::Done(Some(self.phase.conn)),
            _ => match self.read.pending() {
                Step::Ask(request) => Step::Ask(request),
                Step::Done(_) => Step::Done(None),
            },
        }
    }

    /// The task, and the sockets remembered, after `reply`.
    pub open spec fn after(self, reply: ReplyView, socks: SockRing) -> (
        ScanState<SockPhase>,
        SockRing,
    ) {
        if self.pending() is Done {
            (self, socks)
        } else {
            let next = ScanState { read: self.read.after(reply), ..self };
            match next.read.pending() {
                Step::Ask(_) => (next, socks),
                Step::Done(None) => (next.skipped(), socks),
                Step::Done(Some(_)) => next.decided(socks),
            }
        }
    }

    /// The task, and the sockets remembered, after `event`; a call changes nothing and
    /// asks the same question again.
    pub open spec fn step(self, event: EventView, socks: SockRing) -> (
        ScanState<SockPhase>,
        SockRing,
    ) {
        match event {
            EventView::Call => (self, socks),
            EventView::Reply(reply) => self.after(reply, socks),
        }
    }

    /// What holds of the task at every moment: while it is not over, it waits for the
    /// bytes of its field.
    pub open spec fn wf(self) -> bool {
        self.phase.field.spec_width() > 0 ==> {
            &&& self.read.buf.len() == self.phase.field.spec_width()
            &&& self.read.pending() is Ask
        }
    }
}

impl Scan<SockPhase> {
    /// The task that looks at the socket at `sock_ptr`.
    pub fn new(bucket_index: u32, sock_ptr: u64) -> (res: SockProbe)
        ensures
            res@ == ScanState::<SockPhase>::start(bucket_index, sock_ptr),
            res@.wf(),
    {
        let conn = TcpConnection {
            bucket_index,
            sock_ptr,
            state: 0,
            saddr: 0,
            sport: 0,
            daddr: 0,
            dport: 0,
        };
        ask_field(SockField::Family, conn).0
    }
}

/// Turns to `field`, with `conn` known.
fn ask_field(field: SockField, conn: TcpConnection) -> (res: (SockProbe, Step<Option<TcpConnection>>))
    requires
        field.spec_width() > 0,
    ensures
        res.0@ == ScanState::<SockPhase>::at_field(field, conn),
        res.1 == res.0@.pending(),
        res.0@.wf(),
{
    let gva: u64 = conn.sock_ptr.wrapping_add(field.offset());
    let read = GuestRead::zeroed(gva, field.width());
    (
        Scan { phase: SockPhase { field, conn }, read },
        Step::Ask(GuestRequest::Translate { gva }),
    )
}

/// Passes the socket over.
fn skip_sock(conn: TcpConnection, read: GuestRead) -> (res: (SockProbe, Step<Option<TcpConnection>>))
    ensures
        res.0@.phase == (SockPhase { field: SockField::Skipped, conn }),
        res.0@.read == read@,
        res.1 == res.0@.pending(),
        res.0@.wf(),
{
    (Scan { phase: SockPhase { field: SockField::Skipped, conn }, read }, Step::Done(None))
}

/// Remembers that a socket was logged, and says whether that is new.
pub fn remember_sock(socks: &mut LoggedSockCache, sock_ptr: u64) -> (res: bool)
    requires
        old(socks).wf(),
    ensures
        final(socks).wf(),
        res == !old(socks)@.contains(sock_ptr),
        final(socks)@ == old(socks)@.after(sock_ptr),
{
    socks.insert_if_new(sock_ptr)
}

/// Looks at one socket, and logs the connection that it stands for: it must be an IPv4
/// socket of an established connection, or of one that waits to be forgotten, its
/// addresses and ports must be readable, and it must not be remembered already. The
/// result is the connection, if it was logged.
pub fn try_log_sock(probe: SockProbe, socks: &mut LoggedSockCache, event: GuestEvent) -> (res: (
    SockProbe,
    Step<Option<TcpConnection>>,
))
    requires
        probe@.wf(),
        old(socks).wf(),
    ensures
        (res.0@, final(socks)@) == probe@.step(event@, old(socks)@),
        res.1 == res.0@.pending(),
        res.0@.wf(),
        final(socks).wf(),
{
    let Scan { phase, read } = probe;
    let conn = phase.conn;
    match phase.field {
        SockField::Family => {
            let (read, step) = read_guest_u16(read, event);
            match step {
                Step::Ask(request) => (Scan { phase, read }, Step::Ask(request)),
                Step::Done(Some(family)) if family == AF_INET => ask_field(SockField::State, conn),
                Step::Done(_) => skip_sock(conn, read),
            }
        },
        SockField::State => {
            let (read, step) = read_guest_u8(read, event);
            match step {
                Step::Ask(request) => (Scan { phase, read }, Step::Ask(request)),
                Step::Done(Some(state)) if state == TCP_ESTABLISHED || state == TCP_TIME_WAIT => {
                    ask_field(SockField::Daddr, TcpConnection { state, ..conn })
                },
                Step::Done(_) => skip_sock(conn, read),
            }
        },
        SockField::Daddr => {
            let (read, step) = read_guest_be32(read, event);
            match step {
                Step::Ask(request) => (Scan { phase, read }, Step::Ask(request)),
                Step::Done(Some(daddr)) => ask_field(
                    SockField::Saddr,
                    TcpConnection { daddr, ..conn },
                ),
                Step::Done(None) => skip_sock(conn, read),
            }
        },
        SockField::Saddr => {
            let (read, step) = read_guest_be32(read, event);
            match step {
                Step::Ask(request) => (Scan { phase, read }, Step::Ask(request)),
                Step::Done(Some(saddr)) => ask_field(
                    SockField::Dport,
                    TcpConnection { saddr, ..conn },
                ),
                Step::Done(None) => skip_sock(conn, read),
            }
        },
        SockField::Dport => {
            let (read, step) = read_guest_be16(read, event);
            match step {
                Step::Ask(request) => (Scan { phase, read }, Step::Ask(request)),
                Step::Done(Some(dport)) => ask_field(
                    SockField::Sport,
                    TcpConnection { dport, ..conn },
                ),
                Step::Done(None) => skip_sock(conn, read),
            }
        },
        SockField::Sport => {
            let (read, step) = read_guest_u16(read, event);
            match step {
                Step::Ask(request) => (Scan { phase, read }, Step::Ask(request)),
                Step::Done(Some(sport)) => {
                    if remember_sock(socks, conn.sock_ptr) {
                        let conn = TcpConnection { sport, ..conn };
                        let phase = SockPhase { field: SockField::Logged, conn };
                        (Scan { phase, read }, Step::Done(Some(conn)))
                    } else {
                        skip_sock(conn, read)
                    }
                },
                Step::Done(None) => skip_sock(conn, read),
            }
        },
        SockField::Skipped => (Scan { phase, read }, Step::Done(None)),
        SockField::Logged => (Scan { phase, read }, Step::Done(Some(conn))),
    }
}

impl ScanState<SockPhase> {
    /// An upper bound on the questions that the task will still ask.
    pub open spec fn measure(self) -> nat {
        if self.pending() is Done {
            0
        } else {
            25 * self.phase.field.left() + self.read.measure()
        }
    }

    /// Where the task ends up, with which sockets remembered, and when, if `guest`
    /// answers from moment `t` on.
    pub open spec fn run(self, guest: GuestModel, t: nat, socks: SockRing) -> (
        ScanState<SockPhase>,
        SockRing,
        nat,
    )
        decreases self.measure(),
    {
        match self.pending() {
            Step::Ask(request) => {
                proof {
                    self.lemma_after(guest.at(t, request), socks);
                }
                let (next, socks) = self.after(guest.at(t, request), socks);
                next.run(guest, t + 1, socks)
            },
            Step::Done(_) => (self, socks, t),
        }
    }

    /// Each answer brings the task nearer its end.
    pub proof fn lemma_after(self, reply: ReplyView, socks: SockRing)
        requires
            self.pending() is Ask,
        ensures
            self.after(reply, socks).0.measure() < self.measure(),
    {
        self.read.lemma_after(reply);
    }
}

/// The bytes of `field` in the socket at `sock_ptr`; and the moment after.
pub open spec fn field_bytes(guest: GuestModel, t: nat, sock_ptr: u64, field: SockField) -> (
    Option<Seq<u8>>,
    nat,
) {
    guest_read::guest_slice(
        guest,
        t,
        sock_ptr.wrapping_add(field.spec_offset()),
        field.spec_width() as nat,
    )
}

/// The connection that the socket at `sock_ptr` stands for, if it is one worth logging;
/// and the moment after.
pub open spec fn sock_connection(guest: GuestModel, t: nat, bucket_index: u32, sock_ptr: u64) -> (
    Option<TcpConnection>,
    nat,
) {
    let (family, t1) = field_bytes(guest, t, sock_ptr, SockField::Family);
    let (state, t2) = field_bytes(guest, t1, sock_ptr, SockField::State);
    let (daddr, t3) = field_bytes(guest, t2, sock_ptr, SockField::Daddr);
    let (saddr, t4) = field_bytes(guest, t3, sock_ptr, SockField::Saddr);
    let (dport, t5) = field_bytes(guest, t4, sock_ptr, SockField::Dport);
    let (sport, t6) = field_bytes(guest, t5, sock_ptr, SockField::Sport);
    if !(family matches Some(bytes) && guest_word::le_value(bytes) as u16 == AF_INET) {
        (None, t1)
    } else if !(state matches Some(bytes) && logged_state(bytes[0])) {
        (None, t2)
    } else if daddr is None {
        (None, t3)
    } else if saddr is None {
        (None, t4)
    } else if dport is None {
        (None, t5)
    } else if sport is None {
        (None, t6)
    } else {
        (
            Some(
                TcpConnection {
                    bucket_index,
                    sock_ptr,
                    state: state.unwrap()[0],
                    saddr: guest_word::be_value(saddr.unwrap()) as u32,
                    sport: guest_word::le_value(sport.unwrap()) as u16,
                    daddr: guest_word::be_value(daddr.unwrap()) as u32,
                    dport: guest_word::be_value(dport.unwrap()) as u16,
                },
            ),
            t6,
        )
    }
}

/// The states of the connections that are logged.
pub open spec fn logged_state(state: u8) -> bool {
    state == TCP_ESTABLISHED || state == TCP_TIME_WAIT
}

/// The connection that is logged for the socket at `sock_ptr`, if one is; the sockets
/// remembered after; and the moment after.
pub open spec fn sock_logged(
    guest: GuestModel,
    t: nat,
    bucket_index: u32,
    sock_ptr: u64,
    socks: SockRing,
) -> (Option<TcpConnection>, SockRing, nat) {
    let (conn, t1) = sock_connection(guest, t, bucket_index, sock_ptr);
    if conn is Some && !socks.contains(sock_ptr) {
        (conn, socks.after(sock_ptr), t1)
    } else {
        (None, socks, t1)
    }
}

/// The task in the middle of a field goes on where the read of the field ends.
proof fn lemma_run_read(probe: ScanState<SockPhase>, guest: GuestModel, t: nat, socks: SockRing)
    requires
        probe.phase.field.spec_width() > 0,
        probe.read.pending() is Ask,
    ensures
        ({
            let (read, t1) = probe.read.run(guest, t);
            let next = ScanState { read, ..probe };
            if read.pending() == Step::Done(Some(())) {
                let (decided, after) = next.decided(socks);
                probe.run(guest, t, socks) == decided.run(guest, t1, after)
            } else {
                probe.run(guest, t, socks) == (next.skipped(), socks, t1)
            }
        }),
    decreases probe.read.measure(),
{
    let request = probe.read.pending()->Ask_0;
    let reply = guest.at(t, request);
    probe.read.lemma_after(reply);
    let (next, after) = probe.after(reply, socks);
    assert(probe.run(guest, t, socks) == next.run(guest, t + 1, after));
    assert(probe.read.run(guest, t) == probe.read.after(reply).run(guest, t + 1));
    if probe.read.after(reply).pending() is Ask {
        lemma_run_read(next, guest, t + 1, socks);
    }
}

/// The task before a field goes on with the bytes of the field, or passes the socket
/// over when there are none.
proof fn lemma_run_field(
    field: SockField,
    conn: TcpConnection,
    guest: GuestModel,
    t: nat,
    socks: SockRing,
)
    requires
        field.spec_width() > 0,
    ensures
        ({
            let probe = ScanState::<SockPhase>::at_field(field, conn);
            let (bytes, t1) = field_bytes(guest, t, conn.sock_ptr, field);
            let read = probe.read.run(guest, t).0;
            let next = ScanState { read, ..probe };
            match bytes {
                Some(bytes) => {
                    let (decided, after) = next.decided(socks);
                    &&& read.buf == bytes
                    &&& probe.run(guest, t, socks) == decided.run(guest, t1, after)
                },
                None => probe.run(guest, t, socks) == (next.skipped(), socks, t1),
            }
        }),
{
    let probe = ScanState::<SockPhase>::at_field(field, conn);
    let gva = conn.sock_ptr.wrapping_add(field.spec_offset());
    let zeros = Seq::new(field.spec_width() as nat, |i: int| 0u8);
    guest_read::law_read_guest_virt_slice(gva, zeros, guest, t);
    lemma_run_read(probe, guest, t, socks);
}

/// A look at a socket that runs to its end logs the connection that the socket stands
/// for, if it is one worth logging and not yet remembered, and nothing otherwise.
pub proof fn law_try_log_sock(
    bucket_index: u32,
    sock_ptr: u64,
    guest: GuestModel,
    t: nat,
    socks: SockRing,
)
    ensures
        ({
            let (end, after, t1) = ScanState::<SockPhase>::start(bucket_index, sock_ptr).run(
                guest,
                t,
                socks,
            );
            let (conn, socks2, t2) = sock_logged(guest, t, bucket_index, sock_ptr, socks);
            &&& end.pending() == Step::Done(conn)
            &&& after == socks2
            &&& t1 == t2
        }),
{
    let conn = blank_connection(bucket_index, sock_ptr);
    lemma_run_field(SockField::Family, conn, guest, t, socks);
    let (family, t1) = field_bytes(guest, t, sock_ptr, SockField::Family);
    if family matches Some(bytes) && guest_word::le_value(bytes) as u16 == AF_INET {
        lemma_run_field(SockField::State, conn, guest, t1, socks);
        let (state, t2) = field_bytes(guest, t1, sock_ptr, SockField::State);
        if state matches Some(bytes) && logged_state(bytes[0]) {
            let conn = TcpConnection { state: state.unwrap()[0], ..conn };
            lemma_run_field(SockField::Daddr, conn, guest, t2, socks);
            let (daddr, t3) = field_bytes(guest, t2, sock_ptr, SockField::Daddr);
            if let Some(daddr) = daddr {
                let conn = TcpConnection { daddr: guest_word::be_value(daddr) as u32, ..conn };
                lemma_run_field(SockField::Saddr, conn, guest, t3, socks);
                let (saddr, t4) = field_bytes(guest, t3, sock_ptr, SockField::Saddr);
                if let Some(saddr) = saddr {
                    let conn = TcpConnection { saddr: guest_word::be_value(saddr) as u32, ..conn };
                    lemma_run_field(SockField::Dport, conn, guest, t4, socks);
                    let (dport, t5) = field_bytes(guest, t4, sock_ptr, SockField::Dport);
                    if let Some(dport) = dport {
                        let conn = TcpConnection {
                            dport: guest_word::be_value(dport) as u16,
                            ..conn
                        };
                        lemma_run_field(SockField::Sport, conn, guest, t5, socks);
                    }
                }
            }
        }
    }
}

/// A look at a socket comes to an end, whatever the guest answers.
pub proof fn law_probe_ends(probe: ScanState<SockPhase>, guest: GuestModel, t: nat, socks: SockRing)
    ensures
        probe.run(guest, t, socks).0.pending() is Done,
        t <= probe.run(guest, t, socks).2 <= t + probe.measure(),
    decreases probe.measure(),
{
    if let Step::Ask(request) = probe.pending() {
        let reply = guest.at(t, request);
        probe.lemma_after(reply, socks);
        let (next, after) = probe.after(reply, socks);
        law_probe_ends(next, guest, t + 1, after);
    }
}

/// Only IPv4 sockets of established connections, and of those that wait to be forgotten,
/// are logged, each under its own address, and only if it was not remembered; what is logged
/// is remembered.
pub proof fn law_what_is_logged(
    guest: GuestModel,
    t: nat,
    bucket_index: u32,
    sock_ptr: u64,
    socks: SockRing,
)
    requires
        socks.wf(),
    ensures
        ({
            let (conn, after, _) = sock_logged(guest, t, bucket_index, sock_ptr, socks);
            &&& after.wf()
            &&& match conn {
                Some(conn) => {
                    &&& field_bytes(guest, t, sock_ptr, SockField::Family).0 matches Some(bytes)
                    &&& guest_word::le_value(bytes) as u16 == AF_INET
                    &&& conn.state == TCP_ESTABLISHED || conn.state == TCP_TIME_WAIT
                    &&& conn.sock_ptr == sock_ptr
                    &&& conn.bucket_index == bucket_index
                    &&& !socks.contains(sock_ptr)
                    &&& after.contains(sock_ptr)
                },
                None => after == socks,
            }
        }),
{
    socks.law_after(sock_ptr);
    sock_cache::law_sock_memory(socks.socks(), sock_ptr);
}

/// Whether the whole of `field` in the socket at `sock_ptr` can be read.
pub open spec fn field_readable(memory: GuestMemory, sock_ptr: u64, field: SockField) -> bool {
    memory.readable(sock_ptr.wrapping_add(field.spec_offset()), field.spec_width() as nat)
}

/// The bytes that `memory` holds of `field` in the socket at `sock_ptr`.
pub open spec fn field_in(memory: GuestMemory, sock_ptr: u64, field: SockField) -> Seq<u8> {
    memory.bytes(sock_ptr.wrapping_add(field.spec_offset()), field.spec_width() as nat)
}

/// The connection that the socket at `sock_ptr` in `memory` stands for, if it is an IPv4
/// socket in one of the logged states and all of its fields can be read.
pub open spec fn connection_in(memory: GuestMemory, bucket_index: u32, sock_ptr: u64) -> Option<
    TcpConnection,
> {
    let state = field_in(memory, sock_ptr, SockField::State)[0];
    if {
        &&& field_readable(memory, sock_ptr, SockField::Family)
        &&& field_readable(memory, sock_ptr, SockField::State)
        &&& field_readable(memory, sock_ptr, SockField::Daddr)
        &&& field_readable(memory, sock_ptr, SockField::Saddr)
        &&& field_readable(memory, sock_ptr, SockField::Dport)
        &&& field_readable(memory, sock_ptr, SockField::Sport)
        &&& guest_word::le_value(field_in(memory, sock_ptr, SockField::Family)) as u16 == AF_INET
        &&& logged_state(state)
    } {
        Some(
            TcpConnection {
                bucket_index,
                sock_ptr,
                state,
                saddr: guest_word::be_value(field_in(memory, sock_ptr, SockField::Saddr)) as u32,
                sport: guest_word::le_value(field_in(memory, sock_ptr, SockField::Sport)) as u16,
                daddr: guest_word::be_value(field_in(memory, sock_ptr, SockField::Daddr)) as u32,
                dport: guest_word::be_value(field_in(memory, sock_ptr, SockField::Dport)) as u16,
            },
        )
    } else {
        None
    }
}

/// Of a guest that stands still, the connection that is logged is the one that the
/// socket's fields in memory describe.
pub proof fn law_connection_in_memory(
    memory: GuestMemory,
    t: nat,
    bucket_index: u32,
    sock_ptr: u64,
)
    ensures
        sock_connection(memory.model(), t, bucket_index, sock_ptr).0 == connection_in(
            memory,
            bucket_index,
            sock_ptr,
        ),
{
    assert forall|t: nat, field: SockField| field.spec_width() > 0 implies (
    #[trigger] field_bytes(memory.model(), t, sock_ptr, field)).0 == if field_readable(
        memory,
        sock_ptr,
        field,
    ) {
        Some(field_in(memory, sock_ptr, field))
    } else {
        None
    } by {
        guest_read::law_read_gives_memory(
            memory,
            t,
            sock_ptr.wrapping_add(field.spec_offset()),
            field.spec_width() as nat,
        );
    }
}

/// A guest that does not change gives the same connection at every moment.
pub proof fn lemma_connection_still(
    guest: GuestModel,
    t1: nat,
    t2: nat,
    bucket_index: u32,
    sock_ptr: u64,
)
    requires
        guest.still(),
    ensures
        sock_connection(guest, t1, bucket_index, sock_ptr).0 == sock_connection(
            guest,
            t2,
            bucket_index,
            sock_ptr,
        ).0,
{
    assert forall|a: nat, b: nat, field: SockField|
        (#[trigger] field_bytes(guest, a, sock_ptr, field)).0 == (#[trigger] field_bytes(
            guest,
            b,
            sock_ptr,
            field,
        )).0 by {
        guest_read::lemma_slice_still(
            guest,
            a,
            b,
            sock_ptr.wrapping_add(field.spec_offset()),
            field.spec_width() as nat,
        );
    }
}

/// When a socket is logged, and what as. Its family is read first, then its state, its two
/// addresses and its two ports, each at its place in the socket; the look ends at the
/// first that cannot be read, at a family that is not 2, or at a state that is neither 1
/// nor 6. A socket that passes all that and is not remembered is logged with what was read
/// of it, and is then remembered. No other is logged, and nothing else is remembered.
pub proof fn law_logged_connection(
    bucket_index: u32,
    sock_ptr: u64,
    guest: GuestModel,
    t: nat,
    socks: SockRing,
)
    ensures
        ({
            let (end, after, t_end) = ScanState::<SockPhase>::start(bucket_index, sock_ptr).run(
                guest,
                t,
                socks,
            );
            let (family, t1) = guest_read::guest_slice(guest, t, sock_ptr.wrapping_add(16), 2);
            let (state, t2) = guest_read::guest_slice(guest, t1, sock_ptr.wrapping_add(18), 1);
            let (daddr, t3) = guest_read::guest_slice(guest, t2, sock_ptr, 4);
            let (saddr, t4) = guest_read::guest_slice(guest, t3, sock_ptr.wrapping_add(4), 4);
            let (dport, t5) = guest_read::guest_slice(guest, t4, sock_ptr.wrapping_add(12), 2);
            let (sport, t6) = guest_read::guest_slice(guest, t5, sock_ptr.wrapping_add(14), 2);
            if !(family matches Some(f) && f[0] == 2 && f[1] == 0) {
                end.pending() == Step::Done(None::<TcpConnection>) && after == socks && t_end == t1
            } else if !(state matches Some(s) && (s[0] == 1 || s[0] == 6)) {
                end.pending() == Step::Done(None::<TcpConnection>) && after == socks && t_end == t2
            } else if daddr is None {
                end.pending() == Step::Done(None::<TcpConnection>) && after == socks && t_end == t3
            } else if saddr is None {
                end.pending() == Step::Done(None::<TcpConnection>) && after == socks && t_end == t4
            } else if dport is None {
                end.pending() == Step::Done(None::<TcpConnection>) && after == socks && t_end == t5
            } else if sport is None || socks.contains(sock_ptr) {
                end.pending() == Step::Done(None::<TcpConnection>) && after == socks && t_end == t6
            } else {
                let s = saddr.unwrap();
                let d = daddr.unwrap();
                &&& end.pending() matches Step::Done(Some(conn))
                &&& conn.bucket_index == bucket_index
                &&& conn.sock_ptr == sock_ptr
                &&& conn.state == state.unwrap()[0]
                &&& conn.saddr == 0x100_0000 * s[0] + 0x1_0000 * s[1] + 0x100 * s[2] + s[3]
                &&& conn.daddr == 0x100_0000 * d[0] + 0x1_0000 * d[1] + 0x100 * d[2] + d[3]
                &&& conn.dport == 0x100 * dport.unwrap()[0] + dport.unwrap()[1]
                &&& conn.sport == sport.unwrap()[0] + 0x100 * sport.unwrap()[1]
                &&& after == socks.after(sock_ptr)
                &&& t_end == t6
            }
        }),
{
    law_try_log_sock(bucket_index, sock_ptr, guest, t, socks);
    let (family, t1) = field_bytes(guest, t, sock_ptr, SockField::Family);
    let (state, t2) = field_bytes(guest, t1, sock_ptr, SockField::State);
    let (daddr, t3) = field_bytes(guest, t2, sock_ptr, SockField::Daddr);
    let (saddr, t4) = field_bytes(guest, t3, sock_ptr, SockField::Saddr);
    let (dport, t5) = field_bytes(guest, t4, sock_ptr, SockField::Dport);
    let (sport, t6) = field_bytes(guest, t5, sock_ptr, SockField::Sport);
    assert(sock_ptr.wrapping_add(0) == sock_ptr);
    lemma_field_len(guest, t, sock_ptr, SockField::Family);
    lemma_field_len(guest, t2, sock_ptr, SockField::Daddr);
    lemma_field_len(guest, t3, sock_ptr, SockField::Saddr);
    lemma_field_len(guest, t4, sock_ptr, SockField::Dport);
    lemma_field_len(guest, t5, sock_ptr, SockField::Sport);
    if let Some(bytes) = family {
        guest_word::law_word_values(bytes);
    }
    if let Some(bytes) = daddr {
        guest_word::law_word_values(bytes);
    }
    if let Some(bytes) = saddr {
        guest_word::law_word_values(bytes);
    }
    if let Some(bytes) = dport {
        guest_word::law_word_values(bytes);
    }
    if let Some(bytes) = sport {
        guest_word::law_word_values(bytes);
    }
}

/// The bytes of a field are as many as it has.
proof fn lemma_field_len(guest: GuestModel, t: nat, sock_ptr: u64, field: SockField)
    ensures
        field_bytes(guest, t, sock_ptr, field).0 matches Some(bytes) ==> bytes.len()
            == field.spec_width(),
{
    let gva = sock_ptr.wrapping_add(field.spec_offset());
    guest_read::law_refused_page(guest, t, gva, field.spec_width() as nat);
}

/// A call leaves the look at a socket as it is; an answer takes it on; once it is over,
/// nothing changes it.
pub proof fn law_probe_events(probe: ScanState<SockPhase>, reply: ReplyView, socks: SockRing)
    ensures
        probe.step(EventView::Call, socks) == (probe, socks),
        probe.step(EventView::Reply(reply), socks) == probe.after(reply, socks),
        probe.pending() is Done ==> probe.after(reply, socks) == (probe, socks),
{
}

/// The look at a socket is driven by putting its question to the guest and handing it the
/// answer, one question at each moment, until it asks none.
pub proof fn law_probe_driven(
    probe: ScanState<SockPhase>,
    guest: GuestModel,
    t: nat,
    socks: SockRing,
)
    ensures
        match probe.pending() {
            Step::Ask(request) => {
                let (next, after) = probe.step(
                    EventView::Reply((guest.answers)(t, request)),
                    socks,
                );
                probe.run(guest, t, socks) == next.run(guest, t + 1, after)
            },
            Step::Done(_) => probe.run(guest, t, socks) == (probe, socks, t),
        },
{
}

} // verus!
