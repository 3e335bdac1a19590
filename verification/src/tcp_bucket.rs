//! One bucket of the guest's TCP hash table: a list of sockets.

use vstd::prelude::*;
use crate::guest_mem::{
    EventView, GuestEvent, GuestMemory, GuestModel, GuestRequest, ReplyView, Step,
};
use crate::guest_read;
use crate::guest_read::{GuestRead, ReadState};
use crate::guest_word;
use crate::guest_word::read_guest_u64;
use crate::sock_cache;
use crate::sock_cache::{LoggedSockCache, SockRing};
use crate::tcp_sock;
use crate::tcp_sock::{try_log_sock, Scan, ScanState, SockPhase};

verus! {

// The layout of the table, in Linux version 6.12.0-233.el10.x86_64.
pub const INET_EHASH_BUCKET_SIZE: u64 = 8;

pub const INET_EHASH_BUCKET_CHAIN_OFFSET: u64 = 0;

pub const HLIST_NULLS_NODE_NEXT_OFFSET: u64 = 0;

pub const SOCK_COMMON_NULLS_NODE_OFFSET: u64 = 104;

/// The bit that marks a pointer as the end of its list.
pub const HLIST_NULLS_MARKER_BIT: u64 = 0x1;

/// How many sockets of one bucket are looked at.
pub const MAX_BUCKET_NODES: usize = 64;

/// How far a bucket has been walked: its head is being read, a socket is looked at, the
/// link to the next is being read, or the walk is over.
#[derive(Clone, Copy, Debug, PartialEq, Eq, Structural)]
pub enum BucketPhase {
    Head { bucket_index: u32 },
    Sock { bucket_index: u32, node_ptr: u64, scanned: usize, sock: SockPhase },
    Next { bucket_index: u32, node_ptr: u64, scanned: usize },
    Finished,
}

/// The task behind `scan_bucket`.
pub type BucketScan = Scan<BucketPhase>;

/// The address of a bucket, if the address space reaches that far.
pub open spec fn bucket_gva(ehash_ptr: u64, bucket_index: u32) -> Option<u64> {
    let gva = ehash_ptr + bucket_index * INET_EHASH_BUCKET_SIZE + INET_EHASH_BUCKET_CHAIN_OFFSET;
    if gva <= u64::MAX {
        Some(gva as u64)
    } else {
        None
    }
}

/// The socket that a list node belongs to, if the node is one: the end of a list is
/// marked by an odd pointer.
pub open spec fn node_sock(node_ptr: u64) -> Option<u64> {
    if node_ptr % 2 == 0 && node_ptr >= SOCK_COMMON_NULLS_NODE_OFFSET {
        Some((node_ptr - SOCK_COMMON_NULLS_NODE_OFFSET) as u64)
    } else {
        None
    }
}

impl ScanState<BucketPhase> {
    /// The task that is over.
    pub open spec fn finished(self) -> ScanState<BucketPhase> {
        ScanState { phase: BucketPhase::Finished, read: self.read }
    }

    /// The task before its first question.
    pub open spec fn start(ehash_ptr: u64, bucket_index: u32) -> ScanState<BucketPhase> {
        match bucket_gva(ehash_ptr, bucket_index) {
            Some(gva) => ScanState {
                phase: BucketPhase::Head { bucket_index },
                read: ReadState::zeroed(gva, 8),
            },
            None => ScanState { phase: BucketPhase::Finished, read: ReadState::zeroed(0, 0) },
        }
    }

    /// The task that has come to the node at `node_ptr`, with `scanned` behind it.
    pub open spec fn at_node(self, bucket_index: u32, node_ptr: u64, scanned: int) -> ScanState<
        BucketPhase,
    > {
        match node_sock(node_ptr) {
            Some(sock_ptr) if scanned < MAX_BUCKET_NODES => {
                let probe = ScanState::<SockPhase>::start(bucket_index, sock_ptr);
                ScanState {
                    phase: BucketPhase::Sock {
                        bucket_index,
                        node_ptr,
                        scanned: scanned as usize,
                        sock: probe.phase,
                    },
                    read: probe.read,
                }
            },
            _ => self.finished(),
        }
    }

    /// The task that reads the link behind the node at `node_ptr`.
    pub open spec fn at_link(bucket_index: u32, node_ptr: u64, scanned: usize) -> ScanState<
        BucketPhase,
    > {
        ScanState {
            phase: BucketPhase::Next { bucket_index, node_ptr, scanned },
            read: ReadState::zeroed(node_ptr.wrapping_add(HLIST_NULLS_NODE_NEXT_OFFSET), 8),
        }
    }

    /// The open question, or the end.
    pub open spec fn pending(self) -> Step<()> {
        match self.phase {
            BucketPhase::Finished => Step::Done(()),
            _ => match self.read.pending() {
                Step::Ask(request) => Step::Ask(request),
                Step::Done(_) => Step::Done(()),
            },
        }
    }

    /// The look at a socket that is under way.
    pub open spec fn probe(self, sock: SockPhase) -> ScanState<SockPhase> {
        ScanState { phase: sock, read: self.read }
    }

    /// The task, and the sockets remembered, after `reply`.
    pub open spec fn after(self, reply: ReplyView, socks: SockRing) -> (
        ScanState<BucketPhase>,
        SockRing,
    ) {
        let next = ScanState { read: self.read.after(reply), ..self };
        match self.phase {
            BucketPhase::Head { bucket_index } => match next.read.pending() {
                Step::Ask(_) => (next, socks),
                Step::Done(None) => (next.finished(), socks),
                Step::Done(Some(_)) => (
                    next.at_node(bucket_index, guest_word::le_value(next.read.buf) as u64, 0),
                    socks,
                ),
            },
            BucketPhase::Sock { bucket_index, node_ptr, scanned, sock } => {
                let (probe, after) = self.probe(sock).after(reply, socks);
                if probe.pending() is Ask {
                    (
                        ScanState {
                            phase: BucketPhase::Sock {
                                bucket_index,
                                node_ptr,
                                scanned,
                                sock: probe.phase,
                            },
                            read: probe.read,
                        },
                        after,
                    )
                } else {
                    (
                        ScanState::<BucketPhase>::at_link(bucket_index, node_ptr, scanned),
                        after,
                    )
                }
            },
            BucketPhase::Next { bucket_index, node_ptr, scanned } => match next.read.pending() {
                Step::Ask(_) => (next, socks),
                Step::Done(None) => (next.finished(), socks),
                Step::Done(Some(_)) => (
                    next.at_node(
                        bucket_index,
                        guest_word::le_value(next.read.buf) as u64,
                        scanned + 1,
                    ),
                    socks,
                ),
            },
            BucketPhase::Finished => (self, socks),
        }
    }

    /// The task, and the sockets remembered, after `event`; a call changes nothing and
    /// asks the same question again.
    pub open spec fn step(self, event: EventView, socks: SockRing) -> (
        ScanState<BucketPhase>,
        SockRing,
    ) {
        match event {
            EventView::Call => (self, socks),
            EventView::Reply(reply) => self.after(reply, socks),
        }
    }

    /// What holds of the task at every moment.
    pub open spec fn wf(self) -> bool {
        match self.phase {
            BucketPhase::Head { bucket_index } => {
                self.read.buf.len() == 8 && self.read.pending() is Ask
            },
            BucketPhase::Sock { bucket_index, node_ptr, scanned, sock } => {
                &&& scanned < MAX_BUCKET_NODES
                &&& sock.field.spec_width() > 0
                &&& self.probe(sock).wf()
            },
            BucketPhase::Next { bucket_index, node_ptr, scanned } => {
                &&& scanned < MAX_BUCKET_NODES
                &&& self.read.buf.len() == 8
                &&& self.read.pending() is Ask
            },
            BucketPhase::Finished => true,
        }
    }
}

impl Scan<BucketPhase> {
    /// The task that walks the bucket `bucket_index` of the table at `ehash_ptr`.
    pub fn new(ehash_ptr: u64, bucket_index: u32) -> (res: BucketScan)
        ensures
            res@ == ScanState::<BucketPhase>::start(ehash_ptr, bucket_index),
            res@.wf(),
    {
        let gva = match (bucket_index as u64).checked_mul(INET_EHASH_BUCKET_SIZE) {
            Some(offset) => match ehash_ptr.checked_add(offset) {
                Some(addr) => addr.checked_add(INET_EHASH_BUCKET_CHAIN_OFFSET),
                None => None,
            },
            None => None,
        };
        match gva {
            Some(gva) => Scan {
                phase: BucketPhase::Head { bucket_index },
                read: GuestRead::zeroed(gva, 8),
            },
            None => Scan { phase: BucketPhase::Finished, read: GuestRead::zeroed(0, 0) },
        }
    }
}

/// Ends the walk.
fn finish(read: GuestRead) -> (res: (BucketScan, Step<()>))
    ensures
        res.0@ == (ScanState { phase: BucketPhase::Finished, read: read@ }),
        res.1 == res.0@.pending(),
        res.0@.wf(),
{
    (Scan { phase: BucketPhase::Finished, read }, Step::Done(()))
}

/// Turns to the node at `node_ptr`, with `scanned` behind it.
fn visit(read: GuestRead, bucket_index: u32, node_ptr: u64, scanned: usize) -> (res: (
    BucketScan,
    Step<()>,
))
    ensures
        res.0@ == (ScanState { phase: BucketPhase::Finished, read: read@ }).at_node(
            bucket_index,
            node_ptr,
            scanned as int,
        ),
        res.1 == res.0@.pending(),
        res.0@.wf(),
{
    assert(node_ptr & 1 == node_ptr % 2) by (bit_vector);
    if node_ptr != 0 && (node_ptr & HLIST_NULLS_MARKER_BIT) == 0 && scanned < MAX_BUCKET_NODES {
        match node_ptr.checked_sub(SOCK_COMMON_NULLS_NODE_OFFSET) {
            Some(sock_ptr) => {
                let probe = Scan::<SockPhase>::new(bucket_index, sock_ptr);
                let Scan { phase: sock, read } = probe;
                let gva: u64 = sock_ptr.wrapping_add(tcp_sock::SOCK_COMMON_FAMILY_OFFSET);
                (
                    Scan {
                        phase: BucketPhase::Sock { bucket_index, node_ptr, scanned, sock },
                        read,
                    },
                    Step::Ask(GuestRequest::Translate { gva }),
                )
            },
            None => finish(read),
        }
    } else {
        finish(read)
    }
}

/// Walks one bucket of the table, and tries to log each socket in it. The walk ends with
/// the list, at a link that cannot be read, or when `MAX_BUCKET_NODES` sockets were
/// looked at.
pub fn scan_bucket(scan: BucketScan, socks: &mut LoggedSockCache, event: GuestEvent) -> (res: (
    BucketScan,
    Step<()>,
))
    requires
        scan@.wf(),
        old(socks).wf(),
    ensures
        (res.0@, final(socks)@) == scan@.step(event@, old(socks)@),
        res.1 == res.0@.pending(),
        res.0@.wf(),
        final(socks).wf(),
{
    let Scan { phase, read } = scan;
    match phase {
        BucketPhase::Head { bucket_index } => {
            let (read, step) = read_guest_u64(read, event);
            match step {
                Step::Ask(request) => (Scan { phase, read }, Step::Ask(request)),
                Step::Done(None) => finish(read),
                Step::Done(Some(node_ptr)) => visit(read, bucket_index, node_ptr, 0),
            }
        },
        BucketPhase::Sock { bucket_index, node_ptr, scanned, sock } => {
            let (probe, step) = try_log_sock(Scan { phase: sock, read }, socks, event);
            match step {
                Step::Ask(request) => {
                    let Scan { phase: sock, read } = probe;
                    (
                        Scan {
                            phase: BucketPhase::Sock { bucket_index, node_ptr, scanned, sock },
                            read,
                        },
                        Step::Ask(request),
                    )
                },
                Step::Done(_) => {
                    let gva: u64 = node_ptr.wrapping_add(HLIST_NULLS_NODE_NEXT_OFFSET);
                    (
                        Scan {
                            phase: BucketPhase::Next { bucket_index, node_ptr, scanned },
                            read: GuestRead::zeroed(gva, 8),
                        },
                        Step::Ask(GuestRequest::Translate { gva }),
                    )
                },
            }
        },
        BucketPhase::Next { bucket_index, node_ptr: _, scanned } => {
            let (read, step) = read_guest_u64(read, event);
            match step {
                Step::Ask(request) => (Scan { phase, read }, Step::Ask(request)),
                Step::Done(None) => finish(read),
                Step::Done(Some(next_ptr)) => visit(read, bucket_index, next_ptr, scanned + 1),
            }
        },
        BucketPhase::Finished => finish(read),
    }
}

/// How many more sockets may be looked at when `scanned` and one more were.
pub open spec fn nodes_left(scanned: usize) -> nat {
    if scanned < MAX_BUCKET_NODES {
        (MAX_BUCKET_NODES - 1 - scanned) as nat
    } else {
        0
    }
}

impl ScanState<BucketPhase> {
    /// An upper bound on the questions that the task will still ask.
    pub open spec fn measure(self) -> nat {
        if self.pending() is Done {
            0
        } else {
            match self.phase {
                BucketPhase::Head { bucket_index } => 200 * 64 + self.read.measure(),
                BucketPhase::Sock { bucket_index, node_ptr, scanned, sock } => 200 * nodes_left(
                    scanned,
                ) + 25 + self.probe(sock).measure(),
                BucketPhase::Next { bucket_index, node_ptr, scanned } => 200 * nodes_left(scanned)
                    + self.read.measure(),
                BucketPhase::Finished => 0,
            }
        }
    }

    /// Where the task ends up, with which sockets remembered, and when, if `guest`
    /// answers from moment `t` on.
    pub open spec fn run(self, guest: GuestModel, t: nat, socks: SockRing) -> (
        ScanState<BucketPhase>,
        SockRing,
        nat,
    )
        decreases self.measure(),
    {
        match self.pending() {
            Step::Ask(request) => {
                proof {
                    self.lemma_after(guest.at(t, request), socks);
                }
                let (next, socks) = self.after(guest.at(t, request), socks);
                next.run(guest, t + 1, socks)
            },
            Step::Done(_) => (self, socks, t),
        }
    }

    /// Each answer brings the task nearer its end.
    pub proof fn lemma_after(self, reply: ReplyView, socks: SockRing)
        requires
            self.pending() is Ask,
        ensures
            self.after(reply, socks).0.measure() < self.measure(),
    {
        self.read.lemma_after(reply);
        if let BucketPhase::Sock { bucket_index, node_ptr, scanned, sock } = self.phase {
            if self.probe(sock).pending() is Ask {
                self.probe(sock).lemma_after(reply, socks);
            }
        }
    }
}

/// The sockets in the list from `node_ptr` on that stand for connections worth logging,
/// in order, with `scanned` sockets behind them; and the moment after.
pub open spec fn list_socks(
    guest: GuestModel,
    t: nat,
    bucket_index: u32,
    node_ptr: u64,
    scanned: int,
) -> (Seq<u64>, nat)
    decreases MAX_BUCKET_NODES - scanned,
{
    match node_sock(node_ptr) {
        Some(sock_ptr) if scanned < MAX_BUCKET_NODES => {
            let (conn, t1) = tcp_sock::sock_connection(guest, t, bucket_index, sock_ptr);
            let here = if conn is Some {
                seq![sock_ptr]
            } else {
                Seq::empty()
            };
            let gva = node_ptr.wrapping_add(HLIST_NULLS_NODE_NEXT_OFFSET);
            match guest_read::guest_slice(guest, t1, gva, 8) {
                (Some(link), t2) => {
                    let link_ptr = guest_word::le_value(link) as u64;
                    let (rest, t3) = list_socks(guest, t2, bucket_index, link_ptr, scanned + 1);
                    (here + rest, t3)
                },
                (None, t2) => (here, t2),
            }
        },
        _ => (Seq::empty(), t),
    }
}

/// The sockets in the bucket `bucket_index` that stand for connections worth logging, in
/// order; and the moment after.
pub open spec fn bucket_socks(guest: GuestModel, t: nat, ehash_ptr: u64, bucket_index: u32) -> (
    Seq<u64>,
    nat,
) {
    match bucket_gva(ehash_ptr, bucket_index) {
        Some(gva) => match guest_read::guest_slice(guest, t, gva, 8) {
            (Some(head), t1) => list_socks(
                guest,
                t1,
                bucket_index,
                guest_word::le_value(head) as u64,
                0,
            ),
            (None, t1) => (Seq::empty(), t1),
        },
        None => (Seq::empty(), t),
    }
}

/// The task in the middle of a link goes on where the read of the link ends.
proof fn lemma_run_link(
    scan: ScanState<BucketPhase>,
    bucket_index: u32,
    scanned: int,
    guest: GuestModel,
    t: nat,
    socks: SockRing,
)
    requires
        match scan.phase {
            BucketPhase::Head { bucket_index: index } => index == bucket_index && scanned == 0,
            BucketPhase::Next { bucket_index: index, node_ptr, scanned: before } => {
                index == bucket_index && scanned == before + 1
            },
            _ => false,
        },
        scan.read.pending() is Ask,
    ensures
        ({
            let (read, t1) = scan.read.run(guest, t);
            let next = ScanState { read, ..scan };
            if read.pending() == Step::Done(Some(())) {
                let node_ptr = guest_word::le_value(read.buf) as u64;
                scan.run(guest, t, socks) == next.at_node(bucket_index, node_ptr, scanned).run(
                    guest,
                    t1,
                    socks,
                )
            } else {
                scan.run(guest, t, socks) == (next.finished(), socks, t1)
            }
        }),
    decreases scan.read.measure(),
{
    let request = scan.read.pending()->Ask_0;
    let reply = guest.at(t, request);
    scan.read.lemma_after(reply);
    let (next, after) = scan.after(reply, socks);
    assert(scan.run(guest, t, socks) == next.run(guest, t + 1, after));
    assert(scan.read.run(guest, t) == scan.read.after(reply).run(guest, t + 1));
    if scan.read.after(reply).pending() is Ask {
        lemma_run_link(next, bucket_index, scanned, guest, t + 1, socks);
    }
}

/// The task in the middle of a socket goes on where the look at the socket ends.
proof fn lemma_run_probe(
    scan: ScanState<BucketPhase>,
    bucket_index: u32,
    node_ptr: u64,
    scanned: usize,
    sock: SockPhase,
    guest: GuestModel,
    t: nat,
    socks: SockRing,
)
    requires
        scan.phase == (BucketPhase::Sock { bucket_index, node_ptr, scanned, sock }),
        scan.probe(sock).pending() is Ask,
    ensures
        ({
            let (_, after, t1) = scan.probe(sock).run(guest, t, socks);
            scan.run(guest, t, socks) == ScanState::<BucketPhase>::at_link(
                bucket_index,
                node_ptr,
                scanned,
            ).run(guest, t1, after)
        }),
    decreases scan.probe(sock).measure(),
{
    let probe = scan.probe(sock);
    let request = probe.pending()->Ask_0;
    let reply = guest.at(t, request);
    probe.lemma_after(reply, socks);
    let (next, after) = scan.after(reply, socks);
    assert(scan.run(guest, t, socks) == next.run(guest, t + 1, after));
    let (next_probe, next_socks) = probe.after(reply, socks);
    assert(probe.run(guest, t, socks) == next_probe.run(guest, t + 1, next_socks));
    if next_probe.pending() is Ask {
        assert(next.probe(next_probe.phase) == next_probe);
        lemma_run_probe(
            next,
            bucket_index,
            node_ptr,
            scanned,
            next_probe.phase,
            guest,
            t + 1,
            after,
        );
    }
}

/// The task that has come to a node ends as the list from there on says.
proof fn lemma_run_list(
    scan: ScanState<BucketPhase>,
    bucket_index: u32,
    node_ptr: u64,
    scanned: int,
    guest: GuestModel,
    t: nat,
    socks: SockRing,
)
    requires
        0 <= scanned,
    ensures
        ({
            let (end, after, t1) = scan.at_node(bucket_index, node_ptr, scanned).run(
                guest,
                t,
                socks,
            );
            let (met, t2) = list_socks(guest, t, bucket_index, node_ptr, scanned);
            &&& end.phase is Finished
            &&& after == socks.after_all(met)
            &&& t1 == t2
        }),
    decreases MAX_BUCKET_NODES - scanned,
{
    let start = scan.at_node(bucket_index, node_ptr, scanned);
    match node_sock(node_ptr) {
        Some(sock_ptr) if scanned < MAX_BUCKET_NODES => {
            let probe = ScanState::<SockPhase>::start(bucket_index, sock_ptr);
            assert(start.probe(probe.phase) == probe);
            lemma_run_probe(
                start,
                bucket_index,
                node_ptr,
                scanned as usize,
                probe.phase,
                guest,
                t,
                socks,
            );
            tcp_sock::law_try_log_sock(bucket_index, sock_ptr, guest, t, socks);
            let (_, after, t1) = probe.run(guest, t, socks);
            let here = if tcp_sock::sock_connection(guest, t, bucket_index, sock_ptr).0 is Some {
                seq![sock_ptr]
            } else {
                Seq::empty()
            };
            assert(after == socks.after_all(here)) by {
                reveal_with_fuel(SockRing::after_all, 2);
            }
            let link = ScanState::<BucketPhase>::at_link(bucket_index, node_ptr, scanned as usize);
            lemma_run_link(link, bucket_index, scanned + 1, guest, t1, after);
            let zeros = Seq::new(8, |i: int| 0u8);
            guest_read::law_read_guest_virt_slice(link.read.gva, zeros, guest, t1);
            let (read, t2) = link.read.run(guest, t1);
            if read.pending() == Step::Done(Some(())) {
                let next = ScanState { read, ..link };
                let link_ptr = guest_word::le_value(read.buf) as u64;
                lemma_run_list(next, bucket_index, link_ptr, scanned + 1, guest, t2, after);
                let (rest, _) = list_socks(guest, t2, bucket_index, link_ptr, scanned + 1);
                socks.lemma_after_add(here, rest);
            }
        },
        _ => {},
    }
}

/// A walk of a bucket that runs to its end has met each socket of its list in turn that
/// stands for a connection worth logging, up to the bound on their number.
pub proof fn law_scan_bucket(
    ehash_ptr: u64,
    bucket_index: u32,
    guest: GuestModel,
    t: nat,
    socks: SockRing,
)
    ensures
        ({
            let (end, after, t1) = ScanState::<BucketPhase>::start(ehash_ptr, bucket_index).run(
                guest,
                t,
                socks,
            );
            let (met, t2) = bucket_socks(guest, t, ehash_ptr, bucket_index);
            &&& end.phase is Finished
            &&& after == socks.after_all(met)
            &&& t1 == t2
        }),
{
    let start = ScanState::<BucketPhase>::start(ehash_ptr, bucket_index);
    if let Some(gva) = bucket_gva(ehash_ptr, bucket_index) {
        lemma_run_link(start, bucket_index, 0, guest, t, socks);
        let zeros = Seq::new(8, |i: int| 0u8);
        guest_read::law_read_guest_virt_slice(gva, zeros, guest, t);
        let (read, t1) = start.read.run(guest, t);
        if read.pending() == Step::Done(Some(())) {
            lemma_run_list(
                ScanState { read, ..start },
                bucket_index,
                guest_word::le_value(read.buf) as u64,
                0,
                guest,
                t1,
                socks,
            );
        }
    }
}

/// A walk of a bucket comes to an end, whatever the guest answers.
pub proof fn law_bucket_ends(scan: ScanState<BucketPhase>, guest: GuestModel, t: nat, socks: SockRing)
    ensures
        scan.run(guest, t, socks).0.pending() is Done,
        t <= scan.run(guest, t, socks).2 <= t + scan.measure(),
    decreases scan.measure(),
{
    if let Step::Ask(request) = scan.pending() {
        let reply = guest.at(t, request);
        scan.lemma_after(reply, socks);
        let (next, after) = scan.after(reply, socks);
        law_bucket_ends(next, guest, t + 1, after);
    }
}

/// A list gives no more sockets than may still be looked at.
proof fn lemma_list_bound(
    guest: GuestModel,
    t: nat,
    bucket_index: u32,
    node_ptr: u64,
    scanned: int,
)
    requires
        0 <= scanned <= MAX_BUCKET_NODES,
    ensures
        list_socks(guest, t, bucket_index, node_ptr, scanned).0.len() <= MAX_BUCKET_NODES - scanned,
    decreases MAX_BUCKET_NODES - scanned,
{
    match node_sock(node_ptr) {
        Some(sock_ptr) if scanned < MAX_BUCKET_NODES => {
            let (_, t1) = tcp_sock::sock_connection(guest, t, bucket_index, sock_ptr);
            let gva = node_ptr.wrapping_add(HLIST_NULLS_NODE_NEXT_OFFSET);
            if let (Some(link), t2) = guest_read::guest_slice(guest, t1, gva, 8) {
                let link_ptr = guest_word::le_value(link) as u64;
                lemma_list_bound(guest, t2, bucket_index, link_ptr, scanned + 1);
            }
        },
        _ => {},
    }
}

/// One bucket gives at most `MAX_BUCKET_NODES` sockets, however long its list is and even
/// if it runs in a circle.
pub proof fn law_bucket_bound(guest: GuestModel, t: nat, ehash_ptr: u64, bucket_index: u32)
    ensures
        bucket_socks(guest, t, ehash_ptr, bucket_index).0.len() <= MAX_BUCKET_NODES,
{
    if let Some(gva) = bucket_gva(ehash_ptr, bucket_index) {
        if let (Some(head), t1) = guest_read::guest_slice(guest, t, gva, 8) {
            lemma_list_bound(guest, t1, bucket_index, guest_word::le_value(head) as u64, 0);
        }
    }
}

/// A guest that does not change has the same list at every moment.
proof fn lemma_list_still(
    guest: GuestModel,
    t1: nat,
    t2: nat,
    bucket_index: u32,
    node_ptr: u64,
    scanned: int,
)
    requires
        guest.still(),
    ensures
        list_socks(guest, t1, bucket_index, node_ptr, scanned).0 == list_socks(
            guest,
            t2,
            bucket_index,
            node_ptr,
            scanned,
        ).0,
    decreases MAX_BUCKET_NODES - scanned,
{
    match node_sock(node_ptr) {
        Some(sock_ptr) if scanned < MAX_BUCKET_NODES => {
            tcp_sock::lemma_connection_still(guest, t1, t2, bucket_index, sock_ptr);
            let (_, a) = tcp_sock::sock_connection(guest, t1, bucket_index, sock_ptr);
            let (_, b) = tcp_sock::sock_connection(guest, t2, bucket_index, sock_ptr);
            let gva = node_ptr.wrapping_add(HLIST_NULLS_NODE_NEXT_OFFSET);
            guest_read::lemma_slice_still(guest, a, b, gva, 8);
            let (link, a) = guest_read::guest_slice(guest, a, gva, 8);
            let (_, b) = guest_read::guest_slice(guest, b, gva, 8);
            if let Some(link) = link {
                let link_ptr = guest_word::le_value(link) as u64;
                lemma_list_still(guest, a, b, bucket_index, link_ptr, scanned + 1);
            }
        },
        _ => {},
    }
}

/// A guest that does not change gives the same sockets at every moment.
pub proof fn lemma_bucket_still(
    guest: GuestModel,
    t1: nat,
    t2: nat,
    ehash_ptr: u64,
    bucket_index: u32,
)
    requires
        guest.still(),
    ensures
        bucket_socks(guest, t1, ehash_ptr, bucket_index).0 == bucket_socks(
            guest,
            t2,
            ehash_ptr,
            bucket_index,
        ).0,
{
    if let Some(gva) = bucket_gva(ehash_ptr, bucket_index) {
        guest_read::lemma_slice_still(guest, t1, t2, gva, 8);
        let (head, a) = guest_read::guest_slice(guest, t1, gva, 8);
        let (_, b) = guest_read::guest_slice(guest, t2, gva, 8);
        if let Some(head) = head {
            lemma_list_still(guest, a, b, bucket_index, guest_word::le_value(head) as u64, 0);
        }
    }
}

/// The 64-bit pointer that `memory` holds at `gva`, if it can be read.
pub open spec fn pointer_in(memory: GuestMemory, gva: u64) -> Option<u64> {
    if memory.readable(gva, 8) {
        Some(guest_word::le_value(memory.bytes(gva, 8)) as u64)
    } else {
        None
    }
}

/// The list nodes in `memory` from `node_ptr` on, at most `max`: each node holds the
/// pointer to the next, and a pointer that is no node, or that cannot be read, ends the
/// list.
pub open spec fn nodes_in(memory: GuestMemory, node_ptr: u64, max: nat) -> Seq<u64>
    decreases max,
{
    if max == 0 || node_sock(node_ptr) is None {
        Seq::empty()
    } else {
        let link = pointer_in(memory, node_ptr.wrapping_add(HLIST_NULLS_NODE_NEXT_OFFSET));
        seq![node_ptr] + match link {
            Some(link_ptr) => nodes_in(memory, link_ptr, (max - 1) as nat),
            None => Seq::empty(),
        }
    }
}

/// The sockets that the list `nodes` belong to and that in `memory` stand for connections
/// worth logging, in order.
pub open spec fn worth_logging(memory: GuestMemory, bucket_index: u32, nodes: Seq<u64>) -> Seq<u64> {
    nodes.map_values(|node_ptr: u64| node_sock(node_ptr).unwrap()).filter(
        |sock_ptr: u64| tcp_sock::connection_in(memory, bucket_index, sock_ptr) is Some,
    )
}

/// The list nodes in the bucket `bucket_index` of the table at `ehash_ptr` in `memory`.
pub open spec fn bucket_nodes_in(memory: GuestMemory, ehash_ptr: u64, bucket_index: u32) -> Seq<
    u64,
> {
    match bucket_gva(ehash_ptr, bucket_index) {
        Some(gva) => match pointer_in(memory, gva) {
            Some(head_ptr) => nodes_in(memory, head_ptr, MAX_BUCKET_NODES as nat),
            None => Seq::empty(),
        },
        None => Seq::empty(),
    }
}

/// The sockets in the bucket `bucket_index` of the table at `ehash_ptr` in `memory` that
/// stand for connections worth logging, in order.
pub open spec fn bucket_in(memory: GuestMemory, ehash_ptr: u64, bucket_index: u32) -> Seq<u64> {
    worth_logging(memory, bucket_index, bucket_nodes_in(memory, ehash_ptr, bucket_index))
}

/// The worth of a list's nodes is that of the first, and that of the rest.
proof fn lemma_worth_first(memory: GuestMemory, bucket_index: u32, node_ptr: u64, rest: Seq<u64>)
    ensures
        ({
            let sock_ptr = node_sock(node_ptr).unwrap();
            let here = if tcp_sock::connection_in(memory, bucket_index, sock_ptr) is Some {
                seq![sock_ptr]
            } else {
                Seq::empty()
            };
            worth_logging(memory, bucket_index, seq![node_ptr] + rest) == here + worth_logging(
                memory,
                bucket_index,
                rest,
            )
        }),
{
    let sock_of = |node_ptr: u64| node_sock(node_ptr).unwrap();
    let worth = |sock_ptr: u64|
        tcp_sock::connection_in(memory, bucket_index, sock_ptr) is Some;
    let first = seq![node_sock(node_ptr).unwrap()];
    let later = rest.map_values(sock_of);
    assert((seq![node_ptr] + rest).map_values(sock_of) =~= first + later);
    Seq::filter_distributes_over_add(first, later, worth);
    assert(first.filter(worth) =~= if worth(first[0]) {
        first
    } else {
        Seq::empty()
    }) by {
        reveal(Seq::filter);
        assert(first.drop_last() =~= Seq::empty());
        assert(Seq::<u64>::empty().filter(worth) =~= Seq::empty());
        assert(Seq::<u64>::empty().push(first[0]) =~= first);
    }
}

/// A list read from a guest that stands still gives the sockets of the nodes in its memory.
proof fn lemma_list_in_memory(
    memory: GuestMemory,
    t: nat,
    bucket_index: u32,
    node_ptr: u64,
    scanned: int,
)
    requires
        0 <= scanned <= MAX_BUCKET_NODES,
    ensures
        list_socks(memory.model(), t, bucket_index, node_ptr, scanned).0 == worth_logging(
            memory,
            bucket_index,
            nodes_in(memory, node_ptr, (MAX_BUCKET_NODES - scanned) as nat),
        ),
    decreases MAX_BUCKET_NODES - scanned,
{
    let guest = memory.model();
    let none = Seq::<u64>::empty();
    assert(worth_logging(memory, bucket_index, none) =~= none) by {
        reveal(Seq::filter);
    }
    match node_sock(node_ptr) {
        Some(sock_ptr) if scanned < MAX_BUCKET_NODES => {
            tcp_sock::law_connection_in_memory(memory, t, bucket_index, sock_ptr);
            let (_, t1) = tcp_sock::sock_connection(guest, t, bucket_index, sock_ptr);
            let gva = node_ptr.wrapping_add(HLIST_NULLS_NODE_NEXT_OFFSET);
            guest_read::law_read_gives_memory(memory, t1, gva, 8);
            let (link, t2) = guest_read::guest_slice(guest, t1, gva, 8);
            let rest = if let Some(link) = link {
                let link_ptr = guest_word::le_value(link) as u64;
                lemma_list_in_memory(memory, t2, bucket_index, link_ptr, scanned + 1);
                nodes_in(memory, link_ptr, (MAX_BUCKET_NODES - scanned - 1) as nat)
            } else {
                none
            };
            lemma_worth_first(memory, bucket_index, node_ptr, rest);
            assert(nodes_in(memory, node_ptr, (MAX_BUCKET_NODES - scanned) as nat) == seq![
                node_ptr,
            ] + rest);
            if link is None {
                let here = list_socks(guest, t, bucket_index, node_ptr, scanned).0;
                assert(here + none =~= here);
            }
        },
        _ => {},
    }
}

/// Of a guest that stands still, the sockets met in a bucket are those of the list nodes
/// in its memory that stand for connections worth logging.
pub proof fn law_bucket_in_memory(memory: GuestMemory, t: nat, ehash_ptr: u64, bucket_index: u32)
    ensures
        bucket_socks(memory.model(), t, ehash_ptr, bucket_index).0 == bucket_in(
            memory,
            ehash_ptr,
            bucket_index,
        ),
{
    let none = Seq::<u64>::empty();
    assert(worth_logging(memory, bucket_index, none) =~= none) by {
        reveal(Seq::filter);
    }
    if let Some(gva) = bucket_gva(ehash_ptr, bucket_index) {
        guest_read::law_read_gives_memory(memory, t, gva, 8);
        let (head, t1) = guest_read::guest_slice(memory.model(), t, gva, 8);
        if let Some(head) = head {
            let head_ptr = guest_word::le_value(head) as u64;
            lemma_list_in_memory(memory, t1, bucket_index, head_ptr, 0);
        }
    }
}

/// Bucket `i` of the table at `e` lies eight bytes for each bucket before it behind `e`, if
/// the address space reaches that far; so different buckets lie at different addresses.
pub proof fn law_bucket_address(ehash_ptr: u64, bucket_index: u32, other_index: u32)
    ensures
        ehash_ptr + 8 * bucket_index <= u64::MAX ==> {
            &&& bucket_gva(ehash_ptr, bucket_index) matches Some(gva)
            &&& gva == ehash_ptr + 8 * bucket_index
            &&& gva == ehash_ptr + bucket_index * INET_EHASH_BUCKET_SIZE
                + INET_EHASH_BUCKET_CHAIN_OFFSET
        },
        ehash_ptr + 8 * bucket_index > u64::MAX ==> bucket_gva(ehash_ptr, bucket_index) is None,
        bucket_index != other_index && bucket_gva(ehash_ptr, bucket_index) is Some ==> bucket_gva(
            ehash_ptr,
            bucket_index,
        ) != bucket_gva(ehash_ptr, other_index),
{
}

/// A pointer stands for a list node exactly when it is even and leaves room for the part of
/// a socket before its node, wherever in the address space it points; the socket begins
/// that far before the node. Every other pointer ends its list.
pub proof fn law_list_node(node_ptr: u64)
    ensures
        node_ptr % 2 == 0 && node_ptr >= 104 ==> {
            &&& node_sock(node_ptr) matches Some(sock_ptr)
            &&& sock_ptr == node_ptr - 104
            &&& sock_ptr == node_ptr - SOCK_COMMON_NULLS_NODE_OFFSET
        },
        node_ptr % 2 == 1 || node_ptr < 104 ==> node_sock(node_ptr) is None,
{
}

/// How a list goes on from a pointer. If the pointer is even and at least 104, and fewer
/// than 64 sockets are behind, the socket 104 bytes before it is looked at; it is met if it
/// stands for a connection worth logging. Then the eight bytes at the pointer are read, and
/// the list goes on from what they point to, with one more behind; it ends when they cannot
/// be read. From any other pointer there is nothing more.
pub proof fn law_list_goes_on(
    guest: GuestModel,
    t: nat,
    bucket_index: u32,
    node_ptr: u64,
    scanned: int,
)
    requires
        0 <= scanned,
    ensures
        ({
            let (met, t_end) = list_socks(guest, t, bucket_index, node_ptr, scanned);
            if node_ptr % 2 == 0 && node_ptr >= 104 && scanned < 64 {
                let sock_ptr = (node_ptr - 104) as u64;
                let (conn, t1) = tcp_sock::sock_connection(guest, t, bucket_index, sock_ptr);
                let (link, t2) = guest_read::guest_slice(guest, t1, node_ptr, 8);
                let here = if conn is Some {
                    seq![sock_ptr]
                } else {
                    Seq::empty()
                };
                match link {
                    Some(b) => {
                        let next_ptr = (b[0] + 0x100 * b[1] + 0x1_0000 * b[2] + 0x100_0000 * b[3]
                            + 0x1_0000_0000 * b[4] + 0x100_0000_0000 * b[5] + 0x1_0000_0000_0000
                            * b[6] + 0x100_0000_0000_0000 * b[7]) as u64;
                        let (rest, t3) = list_socks(guest, t2, bucket_index, next_ptr, scanned + 1);
                        met == here + rest && t_end == t3
                    },
                    None => met == here && t_end == t2,
                }
            } else {
                met.len() == 0 && t_end == t
            }
        }),
{
    law_list_node(node_ptr);
    if let Some(sock_ptr) = node_sock(node_ptr) {
        let (_, t1) = tcp_sock::sock_connection(guest, t, bucket_index, sock_ptr);
        assert(node_ptr.wrapping_add(HLIST_NULLS_NODE_NEXT_OFFSET) == node_ptr);
        guest_read::law_refused_page(guest, t1, node_ptr, 8);
        if let Some(link) = guest_read::guest_slice(guest, t1, node_ptr, 8).0 {
            guest_word::law_word_values(link);
        }
    }
}

/// A bucket's list begins at the pointer in its eight bytes, with no socket behind. A
/// bucket that cannot be read, or that lies outside the address space, has no list.
pub proof fn law_bucket_list(guest: GuestModel, t: nat, ehash_ptr: u64, bucket_index: u32)
    ensures
        ({
            let gva = ehash_ptr + 8 * bucket_index;
            let (met, t_end) = bucket_socks(guest, t, ehash_ptr, bucket_index);
            if gva <= u64::MAX {
                let (head, t1) = guest_read::guest_slice(guest, t, gva as u64, 8);
                match head {
                    Some(b) => {
                        let head_ptr = (b[0] + 0x100 * b[1] + 0x1_0000 * b[2] + 0x100_0000 * b[3]
                            + 0x1_0000_0000 * b[4] + 0x100_0000_0000 * b[5] + 0x1_0000_0000_0000
                            * b[6] + 0x100_0000_0000_0000 * b[7]) as u64;
                        (met, t_end) == list_socks(guest, t1, bucket_index, head_ptr, 0)
                    },
                    None => met.len() == 0 && t_end == t1,
                }
            } else {
                met.len() == 0 && t_end == t
            }
        }),
{
    law_bucket_address(ehash_ptr, bucket_index, bucket_index);
    let gva = ehash_ptr + 8 * bucket_index;
    if gva <= u64::MAX {
        guest_read::law_refused_page(guest, t, gva as u64, 8);
        if let Some(head) = guest_read::guest_slice(guest, t, gva as u64, 8).0 {
            guest_word::law_word_values(head);
        }
    }
}

/// A call leaves the walk of a bucket as it is; an answer takes it on; once it is over,
/// nothing changes it.
pub proof fn law_bucket_events(scan: ScanState<BucketPhase>, reply: ReplyView, socks: SockRing)
    ensures
        scan.step(EventView::Call, socks) == (scan, socks),
        scan.step(EventView::Reply(reply), socks) == scan.after(reply, socks),
        scan.phase is Finished ==> scan.pending() == Step::Done(()) && scan.after(reply, socks) == (
            scan,
            socks,
        ),
{
}

/// The walk of a bucket is driven by putting its question to the guest and handing it the
/// answer, one question at each moment, until it asks none.
pub proof fn law_bucket_driven(
    scan: ScanState<BucketPhase>,
    guest: GuestModel,
    t: nat,
    socks: SockRing,
)
    ensures
        match scan.pending() {
            Step::Ask(request) => {
                let (next, after) = scan.step(
                    EventView::Reply((guest.answers)(t, request)),
                    socks,
                );
                scan.run(guest, t, socks) == next.run(guest, t + 1, after)
            },
            Step::Done(_) => scan.run(guest, t, socks) == (scan, socks, t),
        },
{
}

/// A list that is linked in memory is walked along its links: the first nodes found are
/// those of the list.
proof fn lemma_chain(memory: GuestMemory, chain: Seq<u64>, max: nat)
    requires
        0 < chain.len() <= max,
        forall|k: int| 0 <= k < chain.len() ==> (#[trigger] chain[k]) % 2 == 0 && chain[k] >= 104,
        forall|k: int|
            0 <= k < chain.len() - 1 ==> pointer_in(memory, #[trigger] chain[k]) == Some(
                chain[k + 1],
            ),
    ensures
        chain.is_prefix_of(nodes_in(memory, chain[0], max)),
    decreases chain.len(),
{
    let nodes = nodes_in(memory, chain[0], max);
    law_list_node(chain[0]);
    assert(chain[0].wrapping_add(HLIST_NULLS_NODE_NEXT_OFFSET) == chain[0]);
    if chain.len() > 1 {
        let rest = chain.drop_first();
        assert forall|k: int| 0 <= k < rest.len() implies (#[trigger] rest[k]) % 2 == 0 && rest[k]
            >= 104 by {
            assert(rest[k] == chain[k + 1]);
        }
        assert forall|k: int| 0 <= k < rest.len() - 1 implies pointer_in(
            memory,
            #[trigger] rest[k],
        ) == Some(rest[k + 1]) by {
            assert(rest[k] == chain[k + 1]);
            assert(rest[k + 1] == chain[k + 2]);
        }
        lemma_chain(memory, rest, (max - 1) as nat);
        let later = nodes_in(memory, rest[0], (max - 1) as nat);
        assert(nodes =~= seq![chain[0]] + later);
        assert(nodes.take(chain.len() as int) =~= seq![chain[0]] + later.take(rest.len() as int));
        assert(chain =~= seq![chain[0]] + rest);
    } else {
        assert(nodes.take(1) =~= chain);
    }
}

/// Every socket of a list that is linked in memory is met, up to the 64th: if the pointer
/// in a bucket leads to the first node of `chain`, each node to the next, and the socket of
/// the last stands for a connection worth logging, a walk of the bucket meets that socket.
pub proof fn law_chain_is_met(
    memory: GuestMemory,
    t: nat,
    ehash_ptr: u64,
    bucket_index: u32,
    chain: Seq<u64>,
)
    requires
        ehash_ptr + 8 * bucket_index <= u64::MAX,
        0 < chain.len() <= 64,
        pointer_in(memory, (ehash_ptr + 8 * bucket_index) as u64) == Some(chain[0]),
        forall|k: int| 0 <= k < chain.len() ==> (#[trigger] chain[k]) % 2 == 0 && chain[k] >= 104,
        forall|k: int|
            0 <= k < chain.len() - 1 ==> pointer_in(memory, #[trigger] chain[k]) == Some(
                chain[k + 1],
            ),
        tcp_sock::connection_in(memory, bucket_index, (chain.last() - 104) as u64) is Some,
    ensures
        bucket_socks(memory.model(), t, ehash_ptr, bucket_index).0.contains(
            (chain.last() - 104) as u64,
        ),
{
    law_bucket_address(ehash_ptr, bucket_index, bucket_index);
    law_bucket_in_memory(memory, t, ehash_ptr, bucket_index);
    lemma_chain(memory, chain, 64);
    let nodes = bucket_nodes_in(memory, ehash_ptr, bucket_index);
    let at = chain.len() - 1;
    assert(nodes.take(chain.len() as int)[at] == chain[at]);
    law_list_node(chain[at]);
    let socks = nodes.map_values(|node_ptr: u64| node_sock(node_ptr).unwrap());
    assert(socks[at] == (chain.last() - 104) as u64);
    let worth = |sock_ptr: u64|
        tcp_sock::connection_in(memory, bucket_index, sock_ptr) is Some;
    socks.lemma_filter_contains(worth, at);
}

} // verus!
