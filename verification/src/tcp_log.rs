//! The guest's TCP connections, found by walking the hash table of its sockets.

use vstd::prelude::*;
use crate::guest_mem::{
    EventView, GuestEvent, GuestMemory, GuestModel, GuestReply, GuestRequest, ReplyView, Step,
};
use crate::guest_read;
use crate::guest_read::{GuestRead, ReadState};
use crate::guest_symbols;
use crate::guest_symbols::{
    tcp_hashinfo_gva, GuestSymbols, SymbolsState, TCP_HASHINFO_OFFSET,
};
use crate::guest_word;
use crate::guest_word::{read_guest_u32, read_guest_u64};
use crate::sock_cache;
use crate::sock_cache::{LoggedSockCache, SockRing};
use crate::tcp_bucket;
use crate::tcp_bucket::{scan_bucket, BucketPhase};
use crate::tcp_sock;
use crate::tcp_sock::{Scan, ScanState};

verus! {

// Where the fields of `struct inet_hashinfo` lie, in Linux version 6.12.0-233.el10.x86_64.
pub const INET_HASHINFO_EHASH_OFFSET: u64 = 0;

pub const INET_HASHINFO_EHASH_MASK_OFFSET: u64 = 16;

/// What was logged: the sockets remembered, and whether a hash table was ever found.
pub struct TcpLog {
    socks: LoggedSockCache,
    hashinfo_logged: bool,
}

/// The mathematical content of a `TcpLog`.
pub struct LogState {
    pub socks: SockRing,
    pub hashinfo_logged: bool,
}

impl View for TcpLog {
    type V = LogState;

    closed spec fn view(&self) -> LogState {
        LogState { socks: self.socks@, hashinfo_logged: self.hashinfo_logged }
    }
}

impl TcpLog {
    /// What holds of the log at every moment.
    pub open spec fn wf(self) -> bool {
        self@.socks.wf()
    }

    /// The sockets remembered are bounded in number, and none is remembered twice.
    pub proof fn law_bounded(self)
        requires
            self.wf(),
        ensures
            sock_cache::socks_wf(self@.socks.socks()),
    {
    }

    /// Nothing logged yet.
    pub fn new() -> (res: TcpLog)
        ensures
            res.wf(),
            res@ == (LogState { socks: SockRing::empty(), hashinfo_logged: false }),
    {
        TcpLog { socks: LoggedSockCache::new(), hashinfo_logged: false }
    }

    /// Whether the socket at `sock_ptr` is remembered.
    pub fn contains(&self, sock_ptr: u64) -> (res: bool)
        requires
            self.wf(),
        ensures
            res == self@.socks.contains(sock_ptr),
    {
        self.socks.contains(sock_ptr)
    }

    /// Whether a hash table was ever found.
    pub fn hashinfo_logged(&self) -> (res: bool)
        ensures
            res == self@.hashinfo_logged,
    {
        self.hashinfo_logged
    }
}

/// How far the table has been walked: the question that is open, or the end.
#[derive(Clone, Copy, Debug, PartialEq, Eq, Structural)]
pub enum TcpPhase {
    Cr3 { tcp_hashinfo: u64 },
    Ehash { tcp_hashinfo: u64 },
    Mask { ehash_ptr: u64 },
    Bucket { ehash_ptr: u64, ehash_size: u32, bucket_index: u32, bucket: BucketPhase },
    Finished,
}

/// The task behind `maybe_log_tcp_connections`.
pub type TcpScan = Scan<TcpPhase>;

impl ScanState<TcpPhase> {
    /// The task that is over.
    pub open spec fn finished(self) -> ScanState<TcpPhase> {
        ScanState { phase: TcpPhase::Finished, read: self.read }
    }

    /// The task before its first question; over when the table is not known.
    pub open spec fn start(tcp_hashinfo: Option<u64>) -> ScanState<TcpPhase> {
        ScanState {
            phase: match tcp_hashinfo {
                Some(tcp_hashinfo) => TcpPhase::Cr3 { tcp_hashinfo },
                None => TcpPhase::Finished,
            },
            read: ReadState::zeroed(0, 0),
        }
    }

    /// The task that reads where the buckets lie.
    pub open spec fn at_ehash(tcp_hashinfo: u64) -> ScanState<TcpPhase> {
        ScanState {
            phase: TcpPhase::Ehash { tcp_hashinfo },
            read: ReadState::zeroed(tcp_hashinfo.wrapping_add(INET_HASHINFO_EHASH_OFFSET), 8),
        }
    }

    /// The task that reads how many buckets there are.
    pub open spec fn at_mask(tcp_hashinfo: u64, ehash_ptr: u64) -> ScanState<TcpPhase> {
        ScanState {
            phase: TcpPhase::Mask { ehash_ptr },
            read: ReadState::zeroed(tcp_hashinfo.wrapping_add(INET_HASHINFO_EHASH_MASK_OFFSET), 4),
        }
    }

    /// The task that has come to bucket `bucket_index`; over when there is none, or when
    /// it, and with it all that follow, would lie outside the address space.
    pub open spec fn at_bucket(
        self,
        ehash_ptr: u64,
        ehash_size: u32,
        bucket_index: int,
    ) -> ScanState<TcpPhase> {
        let index = bucket_index as u32;
        if bucket_index < ehash_size && tcp_bucket::bucket_gva(ehash_ptr, index) is Some {
            let scan = ScanState::<BucketPhase>::start(ehash_ptr, index);
            ScanState {
                phase: TcpPhase::Bucket {
                    ehash_ptr,
                    ehash_size,
                    bucket_index: index,
                    bucket: scan.phase,
                },
                read: scan.read,
            }
        } else {
            self.finished()
        }
    }

    /// The walk of a bucket that is under way.
    pub open spec fn scan(self, bucket: BucketPhase) -> ScanState<BucketPhase> {
        ScanState { phase: bucket, read: self.read }
    }

    /// The open question, or the end.
    pub open spec fn pending(self) -> Step<()> {
        match self.phase {
            TcpPhase::Finished => Step::Done(()),
            TcpPhase::Cr3 { tcp_hashinfo } => Step::Ask(GuestRequest::ReadCr3),
            TcpPhase::Bucket { ehash_ptr, ehash_size, bucket_index, bucket } => self.scan(
                bucket,
            ).pending(),
            _ => match self.read.pending() {
                Step::Ask(request) => Step::Ask(request),
                Step::Done(_) => Step::Done(()),
            },
        }
    }

    /// The task, and the log, after `reply`.
    pub open spec fn after(self, reply: ReplyView, log: LogState) -> (
        ScanState<TcpPhase>,
        LogState,
    ) {
        let next = ScanState { read: self.read.after(reply), ..self };
        let value = guest_word::le_value(next.read.buf);
        match self.phase {
            TcpPhase::Cr3 { tcp_hashinfo } => match reply {
                ReplyView::Cr3(cr3) if cr3 != 0 => (
                    ScanState::<TcpPhase>::at_ehash(tcp_hashinfo),
                    log,
                ),
                _ => (self.finished(), log),
            },
            TcpPhase::Ehash { tcp_hashinfo } => match next.read.pending() {
                Step::Ask(_) => (next, log),
                Step::Done(Some(_)) if value as u64 != 0 => (
                    ScanState::<TcpPhase>::at_mask(tcp_hashinfo, value as u64),
                    log,
                ),
                Step::Done(_) => (next.finished(), log),
            },
            TcpPhase::Mask { ehash_ptr } => match next.read.pending() {
                Step::Ask(_) => (next, log),
                Step::Done(Some(_)) if (value as u32) < u32::MAX => (
                    next.at_bucket(ehash_ptr, (value as u32 + 1) as u32, 0),
                    LogState { hashinfo_logged: true, ..log },
                ),
                Step::Done(_) => (next.finished(), log),
            },
            TcpPhase::Bucket { ehash_ptr, ehash_size, bucket_index, bucket } => {
                let (scan, socks) = self.scan(bucket).after(reply, log.socks);
                let log = LogState { socks, ..log };
                let walked = ScanState {
                    phase: TcpPhase::Bucket {
                        ehash_ptr,
                        ehash_size,
                        bucket_index,
                        bucket: scan.phase,
                    },
                    read: scan.read,
                };
                if scan.pending() is Ask {
                    (walked, log)
                } else {
                    (walked.at_bucket(ehash_ptr, ehash_size, bucket_index + 1), log)
                }
            },
            TcpPhase::Finished => (self, log),
        }
    }

    /// The task, and the log, after `event`; a call changes nothing and asks the same
    /// question again.
    pub open spec fn step(self, event: EventView, log: LogState) -> (
        ScanState<TcpPhase>,
        LogState,
    ) {
        match event {
            EventView::Call => (self, log),
            EventView::Reply(reply) => self.after(reply, log),
        }
    }

    /// What holds of the task at every moment.
    pub open spec fn wf(self) -> bool {
        match self.phase {
            TcpPhase::Ehash { tcp_hashinfo } => {
                self.read.buf.len() == 8 && self.read.pending() is Ask
            },
            TcpPhase::Mask { ehash_ptr } => {
                self.read.buf.len() == 4 && self.read.pending() is Ask
            },
            TcpPhase::Bucket { ehash_ptr, ehash_size, bucket_index, bucket } => {
                &&& bucket_index < ehash_size
                &&& !(bucket is Finished)
                &&& self.scan(bucket).wf()
            },
            _ => true,
        }
    }
}

impl Scan<TcpPhase> {
    /// The task that walks the table at `tcp_hashinfo`.
    pub fn new(tcp_hashinfo: Option<u64>) -> (res: TcpScan)
        ensures
            res@ == ScanState::<TcpPhase>::start(tcp_hashinfo),
            res@.wf(),
    {
        let phase = match tcp_hashinfo {
            Some(tcp_hashinfo) => TcpPhase::Cr3 { tcp_hashinfo },
            None => TcpPhase::Finished,
        };
        Scan { phase, read: GuestRead::zeroed(0, 0) }
    }

    /// The task that walks the table that the search for the guest's symbols found.
    pub fn of_symbols(symbols: &GuestSymbols) -> (res: TcpScan)
        ensures
            res@ == ScanState::<TcpPhase>::start(symbols@.tcp_hashinfo()),
            res@.wf(),
    {
        Scan::<TcpPhase>::new(tcp_hashinfo_gva(symbols))
    }
}

/// Ends the walk.
fn finish(read: GuestRead) -> (res: (TcpScan, Step<()>))
    ensures
        res.0@ == (ScanState { phase: TcpPhase::Finished, read: read@ }),
        res.1 == res.0@.pending(),
        res.0@.wf(),
{
    (Scan { phase: TcpPhase::Finished, read }, Step::Done(()))
}

/// Turns to the bucket `bucket_index`.
fn enter_bucket(read: GuestRead, ehash_ptr: u64, ehash_size: u32, bucket_index: u32) -> (res: (
    TcpScan,
    Step<()>,
))
    ensures
        res.0@ == (ScanState { phase: TcpPhase::Finished, read: read@ }).at_bucket(
            ehash_ptr,
            ehash_size,
            bucket_index as int,
        ),
        res.1 == res.0@.pending(),
        res.0@.wf(),
{
    if bucket_index >= ehash_size {
        return finish(read);
    }
    let Scan { phase: bucket, read: head } = Scan::<BucketPhase>::new(ehash_ptr, bucket_index);
    match bucket {
        BucketPhase::Finished => finish(read),
        _ => {
            let gva: u64 = ehash_ptr + bucket_index as u64 * tcp_bucket::INET_EHASH_BUCKET_SIZE
                + tcp_bucket::INET_EHASH_BUCKET_CHAIN_OFFSET;
            (
                Scan {
                    phase: TcpPhase::Bucket { ehash_ptr, ehash_size, bucket_index, bucket },
                    read: head,
                },
                Step::Ask(GuestRequest::Translate { gva }),
            )
        },
    }
}

/// Walks the guest's table of TCP sockets and logs the connections that were not logged
/// before. Nothing is done while the table is not known, the guest has no page tables,
/// or the table has no buckets.
pub fn maybe_log_tcp_connections(scan: TcpScan, log: &mut TcpLog, event: GuestEvent) -> (res: (
    TcpScan,
    Step<()>,
))
    requires
        scan@.wf(),
        old(log).wf(),
    ensures
        (res.0@, final(log)@) == scan@.step(event@, old(log)@),
        res.1 == res.0@.pending(),
        res.0@.wf(),
        final(log).wf(),
{
    let Scan { phase, read } = scan;
    match phase {
        TcpPhase::Cr3 { tcp_hashinfo } => match event {
            GuestEvent::Call => (Scan { phase, read }, Step::Ask(GuestRequest::ReadCr3)),
            GuestEvent::Reply(reply) => {
                let running: bool = match reply {
                    GuestReply::Cr3(cr3) => cr3 != 0,
                    _ => false,
                };
                if running {
                    let gva: u64 = tcp_hashinfo.wrapping_add(INET_HASHINFO_EHASH_OFFSET);
                    (
                        Scan {
                            phase: TcpPhase::Ehash { tcp_hashinfo },
                            read: GuestRead::zeroed(gva, 8),
                        },
                        Step::Ask(GuestRequest::Translate { gva }),
                    )
                } else {
                    finish(read)
                }
            },
        },
        TcpPhase::Ehash { tcp_hashinfo } => {
            let (read, step) = read_guest_u64(read, event);
            match step {
                Step::Ask(request) => (Scan { phase, read }, Step::Ask(request)),
                Step::Done(Some(ehash_ptr)) if ehash_ptr != 0 => {
                    let gva: u64 = tcp_hashinfo.wrapping_add(INET_HASHINFO_EHASH_MASK_OFFSET);
                    (
                        Scan {
                            phase: TcpPhase::Mask { ehash_ptr },
                            read: GuestRead::zeroed(gva, 4),
                        },
                        Step::Ask(GuestRequest::Translate { gva }),
                    )
                },
                Step::Done(_) => finish(read),
            }
        },
        TcpPhase::Mask { ehash_ptr } => {
            let (read, step) = read_guest_u32(read, event);
            match step {
                Step::Ask(request) => (Scan { phase, read }, Step::Ask(request)),
                Step::Done(Some(ehash_mask)) => match ehash_mask.checked_add(1) {
                    Some(ehash_size) => {
                        log.hashinfo_logged = true;
                        enter_bucket(read, ehash_ptr, ehash_size, 0)
                    },
                    None => finish(read),
                },
                Step::Done(None) => finish(read),
            }
        },
        TcpPhase::Bucket { ehash_ptr, ehash_size, bucket_index, bucket } => {
            let (scan, step) = scan_bucket(Scan { phase: bucket, read }, &mut log.socks, event);
            let Scan { phase: bucket, read } = scan;
            match step {
                Step::Ask(request) => (
                    Scan {
                        phase: TcpPhase::Bucket { ehash_ptr, ehash_size, bucket_index, bucket },
                        read,
                    },
                    Step::Ask(request),
                ),
                Step::Done(()) => enter_bucket(read, ehash_ptr, ehash_size, bucket_index + 1),
            }
        },
        TcpPhase::Finished => finish(read),
    }
}

/// How many buckets there are behind `bucket_index`.
pub open spec fn buckets_left(ehash_size: u32, bucket_index: u32) -> nat {
    if bucket_index < ehash_size {
        (ehash_size - 1 - bucket_index) as nat
    } else {
        0
    }
}

impl ScanState<TcpPhase> {
    /// An upper bound on the questions that the task will still ask.
    pub open spec fn measure(self) -> nat {
        if self.pending() is Done {
            0
        } else {
            match self.phase {
                TcpPhase::Cr3 { tcp_hashinfo } => 13_000 * 0x1_0000_0000 + 100,
                TcpPhase::Ehash { tcp_hashinfo } => 13_000 * 0x1_0000_0000 + 20
                    + self.read.measure(),
                TcpPhase::Mask { ehash_ptr } => 13_000 * 0x1_0000_0000 + self.read.measure(),
                TcpPhase::Bucket { ehash_ptr, ehash_size, bucket_index, bucket } => 13_000
                    * buckets_left(ehash_size, bucket_index) + self.scan(bucket).measure(),
                TcpPhase::Finished => 0,
            }
        }
    }

    /// Where the task ends up, with which log, and when, if `guest` answers from moment
    /// `t` on.
    pub open spec fn run(self, guest: GuestModel, t: nat, log: LogState) -> (
        ScanState<TcpPhase>,
        LogState,
        nat,
    )
        decreases self.measure(),
    {
        match self.pending() {
            Step::Ask(request) => {
                proof {
                    self.lemma_after(guest.at(t, request), log);
                }
                let (next, log) = self.after(guest.at(t, request), log);
                next.run(guest, t + 1, log)
            },
            Step::Done(_) => (self, log, t),
        }
    }

    /// Each answer brings the task nearer its end.
    pub proof fn lemma_after(self, reply: ReplyView, log: LogState)
        requires
            self.pending() is Ask,
        ensures
            self.after(reply, log).0.measure() < self.measure(),
    {
        if self.read.pending() is Ask {
            self.read.lemma_after(reply);
        }
        if let TcpPhase::Bucket { ehash_ptr, ehash_size, bucket_index, bucket } = self.phase {
            if self.scan(bucket).pending() is Ask {
                self.scan(bucket).lemma_after(reply, log.socks);
            }
        }
    }
}

/// The sockets in the buckets from `bucket_index` on that stand for connections worth
/// logging, in order; and the moment after.
pub open spec fn buckets_socks(
    guest: GuestModel,
    t: nat,
    ehash_ptr: u64,
    ehash_size: u32,
    bucket_index: int,
) -> (Seq<u64>, nat)
    decreases ehash_size - bucket_index,
{
    if 0 <= bucket_index < ehash_size {
        let (here, t1) = tcp_bucket::bucket_socks(guest, t, ehash_ptr, bucket_index as u32);
        let (rest, t2) = buckets_socks(guest, t1, ehash_ptr, ehash_size, bucket_index + 1);
        (here + rest, t2)
    } else {
        (Seq::empty(), t)
    }
}

/// The sockets in the table at `tcp_hashinfo` that stand for connections worth logging, in
/// order, if there is a table: its fields must be readable, and the pointer to its
/// buckets not null. And the moment after.
pub open spec fn table_socks(guest: GuestModel, t: nat, tcp_hashinfo: u64) -> (
    Option<Seq<u64>>,
    nat,
) {
    let (ehash, t1) = guest_read::guest_slice(
        guest,
        t,
        tcp_hashinfo.wrapping_add(INET_HASHINFO_EHASH_OFFSET),
        8,
    );
    let (mask, t2) = guest_read::guest_slice(
        guest,
        t1,
        tcp_hashinfo.wrapping_add(INET_HASHINFO_EHASH_MASK_OFFSET),
        4,
    );
    if !(ehash matches Some(bytes) && guest_word::le_value(bytes) as u64 != 0) {
        (None, t1)
    } else if !(mask matches Some(bytes) && (guest_word::le_value(bytes) as u32) < u32::MAX) {
        (None, t2)
    } else {
        let (met, t3) = buckets_socks(
            guest,
            t2,
            guest_word::le_value(ehash.unwrap()) as u64,
            (guest_word::le_value(mask.unwrap()) as u32 + 1) as u32,
            0,
        );
        (Some(met), t3)
    }
}

/// The sockets that a walk meets: those of the table, if the table is known, the guest
/// has page tables, and there is a table. And the moment after.
pub open spec fn walk_socks(guest: GuestModel, t: nat, tcp_hashinfo: Option<u64>) -> (
    Option<Seq<u64>>,
    nat,
) {
    match tcp_hashinfo {
        Some(gva) => match guest.at(t, GuestRequest::ReadCr3) {
            ReplyView::Cr3(cr3) if cr3 != 0 => table_socks(guest, t + 1, gva),
            _ => (None, t + 1),
        },
        None => (None, t),
    }
}

/// The log after the sockets of a table were met, if there was a table.
pub open spec fn log_with(log: LogState, met: Option<Seq<u64>>) -> LogState {
    match met {
        Some(met) => LogState {
            socks: log.socks.after_all(met),
            hashinfo_logged: true,
        },
        None => log,
    }
}

/// Buckets that lie outside the address space hold no sockets.
proof fn lemma_no_bucket(
    guest: GuestModel,
    t: nat,
    ehash_ptr: u64,
    ehash_size: u32,
    bucket_index: int,
)
    requires
        0 <= bucket_index,
        bucket_index < ehash_size ==> tcp_bucket::bucket_gva(ehash_ptr, bucket_index as u32) is None,
    ensures
        buckets_socks(guest, t, ehash_ptr, ehash_size, bucket_index) == (Seq::<u64>::empty(), t),
    decreases ehash_size - bucket_index,
{
    if bucket_index < ehash_size {
        lemma_no_bucket(guest, t, ehash_ptr, ehash_size, bucket_index + 1);
        assert(Seq::<u64>::empty() + Seq::<u64>::empty() =~= Seq::<u64>::empty());
    }
}

/// The task in the middle of the table's own fields goes on where their read ends.
proof fn lemma_run_read(scan: ScanState<TcpPhase>, guest: GuestModel, t: nat, log: LogState)
    requires
        scan.phase is Ehash || scan.phase is Mask,
        scan.read.pending() is Ask,
    ensures
        ({
            let (read, t1) = scan.read.run(guest, t);
            let next = ScanState { read, ..scan };
            let value = guest_word::le_value(read.buf);
            if !(read.pending() == Step::Done(Some(()))) {
                scan.run(guest, t, log) == (next.finished(), log, t1)
            } else {
                match scan.phase {
                    TcpPhase::Ehash { tcp_hashinfo } => if value as u64 != 0 {
                        scan.run(guest, t, log) == ScanState::<TcpPhase>::at_mask(
                            tcp_hashinfo,
                            value as u64,
                        ).run(guest, t1, log)
                    } else {
                        scan.run(guest, t, log) == (next.finished(), log, t1)
                    },
                    TcpPhase::Mask { ehash_ptr } => if (value as u32) < u32::MAX {
                        scan.run(guest, t, log) == next.at_bucket(
                            ehash_ptr,
                            (value as u32 + 1) as u32,
                            0,
                        ).run(guest, t1, LogState { hashinfo_logged: true, ..log })
                    } else {
                        scan.run(guest, t, log) == (next.finished(), log, t1)
                    },
                    _ => false,
                }
            }
        }),
    decreases scan.read.measure(),
{
    let request = scan.read.pending()->Ask_0;
    let reply = guest.at(t, request);
    scan.read.lemma_after(reply);
    let (next, after) = scan.after(reply, log);
    assert(scan.run(guest, t, log) == next.run(guest, t + 1, after));
    assert(scan.read.run(guest, t) == scan.read.after(reply).run(guest, t + 1));
    if scan.read.after(reply).pending() is Ask {
        lemma_run_read(next, guest, t + 1, log);
    }
}

/// The task in the middle of a bucket goes on where the walk of the bucket ends.
proof fn lemma_run_bucket(
    scan: ScanState<TcpPhase>,
    ehash_ptr: u64,
    ehash_size: u32,
    bucket_index: u32,
    bucket: BucketPhase,
    guest: GuestModel,
    t: nat,
    log: LogState,
)
    requires
        scan.phase == (TcpPhase::Bucket { ehash_ptr, ehash_size, bucket_index, bucket }),
        scan.scan(bucket).pending() is Ask,
    ensures
        ({
            let (end, socks, t1) = scan.scan(bucket).run(guest, t, log.socks);
            let walked = ScanState {
                phase: TcpPhase::Bucket { ehash_ptr, ehash_size, bucket_index, bucket: end.phase },
                read: end.read,
            };
            scan.run(guest, t, log) == walked.at_bucket(
                ehash_ptr,
                ehash_size,
                bucket_index + 1,
            ).run(guest, t1, LogState { socks, ..log })
        }),
    decreases scan.scan(bucket).measure(),
{
    let inner = scan.scan(bucket);
    let request = inner.pending()->Ask_0;
    let reply = guest.at(t, request);
    inner.lemma_after(reply, log.socks);
    let (next, after) = scan.after(reply, log);
    assert(scan.run(guest, t, log) == next.run(guest, t + 1, after));
    let (next_inner, next_socks) = inner.after(reply, log.socks);
    assert(inner.run(guest, t, log.socks) == next_inner.run(guest, t + 1, next_socks));
    if next_inner.pending() is Ask {
        assert(next.scan(next_inner.phase) == next_inner);
        lemma_run_bucket(
            next,
            ehash_ptr,
            ehash_size,
            bucket_index,
            next_inner.phase,
            guest,
            t + 1,
            after,
        );
    }
}

/// The task that has come to a bucket ends as the buckets from there on say.
proof fn lemma_run_buckets(
    scan: ScanState<TcpPhase>,
    ehash_ptr: u64,
    ehash_size: u32,
    bucket_index: int,
    guest: GuestModel,
    t: nat,
    log: LogState,
)
    requires
        0 <= bucket_index,
    ensures
        ({
            let (end, after, t1) = scan.at_bucket(ehash_ptr, ehash_size, bucket_index).run(
                guest,
                t,
                log,
            );
            let (met, t2) = buckets_socks(guest, t, ehash_ptr, ehash_size, bucket_index);
            &&& end.phase is Finished
            &&& after == (LogState { socks: log.socks.after_all(met), ..log })
            &&& t1 == t2
        }),
    decreases ehash_size - bucket_index,
{
    let index = bucket_index as u32;
    if bucket_index < ehash_size && tcp_bucket::bucket_gva(ehash_ptr, index) is Some {
        let start = scan.at_bucket(ehash_ptr, ehash_size, bucket_index);
        let inner = ScanState::<BucketPhase>::start(ehash_ptr, index);
        assert(start.scan(inner.phase) == inner);
        lemma_run_bucket(start, ehash_ptr, ehash_size, index, inner.phase, guest, t, log);
        tcp_bucket::law_scan_bucket(ehash_ptr, index, guest, t, log.socks);
        let (end, socks, t1) = inner.run(guest, t, log.socks);
        let walked = ScanState {
            phase: TcpPhase::Bucket {
                ehash_ptr,
                ehash_size,
                bucket_index: index,
                bucket: end.phase,
            },
            read: end.read,
        };
        lemma_run_buckets(
            walked,
            ehash_ptr,
            ehash_size,
            bucket_index + 1,
            guest,
            t1,
            LogState { socks, ..log },
        );
        let (here, _) = tcp_bucket::bucket_socks(guest, t, ehash_ptr, index);
        let (rest, _) = buckets_socks(guest, t1, ehash_ptr, ehash_size, bucket_index + 1);
        log.socks.lemma_after_add(here, rest);
    } else {
        lemma_no_bucket(guest, t, ehash_ptr, ehash_size, bucket_index);
    }
}

/// A walk of the table that runs to its end has met, bucket by bucket, the sockets that
/// stand for connections worth logging, and remembers those that are new. It changes
/// nothing when the table is not known or the guest has no page tables.
pub proof fn law_maybe_log_tcp_connections(
    tcp_hashinfo: Option<u64>,
    guest: GuestModel,
    t: nat,
    log: LogState,
)
    ensures
        ({
            let (end, after, t1) = ScanState::<TcpPhase>::start(tcp_hashinfo).run(guest, t, log);
            let (met, t2) = walk_socks(guest, t, tcp_hashinfo);
            &&& end.phase is Finished
            &&& after == log_with(log, met)
            &&& t1 == t2
        }),
{
    let start = ScanState::<TcpPhase>::start(tcp_hashinfo);
    if let Some(gva) = tcp_hashinfo {
        let reply = guest.at(t, GuestRequest::ReadCr3);
        let (next, _) = start.after(reply, log);
        assert(start.run(guest, t, log) == next.run(guest, t + 1, log));
        if reply matches ReplyView::Cr3(cr3) && cr3 != 0 {
            let ehash = ScanState::<TcpPhase>::at_ehash(gva);
            lemma_run_read(ehash, guest, t + 1, log);
            let zeros = Seq::new(8, |i: int| 0u8);
            guest_read::law_read_guest_virt_slice(ehash.read.gva, zeros, guest, t + 1);
            let (read, t1) = ehash.read.run(guest, t + 1);
            let ehash_ptr = guest_word::le_value(read.buf) as u64;
            if read.pending() == Step::Done(Some(())) && ehash_ptr != 0 {
                let mask = ScanState::<TcpPhase>::at_mask(gva, ehash_ptr);
                lemma_run_read(mask, guest, t1, log);
                let zeros = Seq::new(4, |i: int| 0u8);
                guest_read::law_read_guest_virt_slice(mask.read.gva, zeros, guest, t1);
                let (read, t2) = mask.read.run(guest, t1);
                let value = guest_word::le_value(read.buf) as u32;
                if read.pending() == Step::Done(Some(())) && value < u32::MAX {
                    lemma_run_buckets(
                        ScanState { read, ..mask },
                        ehash_ptr,
                        (value + 1) as u32,
                        0,
                        guest,
                        t2,
                        LogState { hashinfo_logged: true, ..log },
                    );
                }
            }
        }
    }
}

/// The table that is walked for known symbols is the one that lies behind the banner that
/// was found. No walk begins while no banner was found, or when the address space ends
/// before the table.
pub proof fn law_walk_follows_search(symbols: SymbolsState)
    requires
        symbols.wf(),
    ensures
        ScanState::<TcpPhase>::start(symbols.tcp_hashinfo()).phase == if symbols.banner_gva != 0
            && symbols.banner_gva + TCP_HASHINFO_OFFSET <= u64::MAX {
            TcpPhase::Cr3 { tcp_hashinfo: (symbols.banner_gva + TCP_HASHINFO_OFFSET) as u64 }
        } else {
            TcpPhase::Finished
        },
{
    guest_symbols::law_hashinfo_follows_banner(symbols);
}

/// A walk of the table comes to an end, whatever the guest answers.
pub proof fn law_table_ends(scan: ScanState<TcpPhase>, guest: GuestModel, t: nat, log: LogState)
    ensures
        scan.run(guest, t, log).0.pending() is Done,
        t <= scan.run(guest, t, log).2 <= t + scan.measure(),
    decreases scan.measure(),
{
    if let Step::Ask(request) = scan.pending() {
        let reply = guest.at(t, request);
        scan.lemma_after(reply, log);
        let (next, after) = scan.after(reply, log);
        law_table_ends(next, guest, t + 1, after);
    }
}

/// A guest that does not change has the same sockets in its buckets at every moment.
proof fn lemma_buckets_still(
    guest: GuestModel,
    t1: nat,
    t2: nat,
    ehash_ptr: u64,
    ehash_size: u32,
    bucket_index: int,
)
    requires
        guest.still(),
    ensures
        buckets_socks(guest, t1, ehash_ptr, ehash_size, bucket_index).0 == buckets_socks(
            guest,
            t2,
            ehash_ptr,
            ehash_size,
            bucket_index,
        ).0,
    decreases ehash_size - bucket_index,
{
    if 0 <= bucket_index < ehash_size {
        let index = bucket_index as u32;
        tcp_bucket::lemma_bucket_still(guest, t1, t2, ehash_ptr, index);
        let (_, a) = tcp_bucket::bucket_socks(guest, t1, ehash_ptr, index);
        let (_, b) = tcp_bucket::bucket_socks(guest, t2, ehash_ptr, index);
        lemma_buckets_still(guest, a, b, ehash_ptr, ehash_size, bucket_index + 1);
    }
}

/// A guest that does not change has the same sockets in its table at every moment.
proof fn lemma_table_still(guest: GuestModel, t1: nat, t2: nat, tcp_hashinfo: u64)
    requires
        guest.still(),
    ensures
        table_socks(guest, t1, tcp_hashinfo).0 == table_socks(guest, t2, tcp_hashinfo).0,
{
    let ehash_gva = tcp_hashinfo.wrapping_add(INET_HASHINFO_EHASH_OFFSET);
    let mask_gva = tcp_hashinfo.wrapping_add(INET_HASHINFO_EHASH_MASK_OFFSET);
    guest_read::lemma_slice_still(guest, t1, t2, ehash_gva, 8);
    let (ehash, a) = guest_read::guest_slice(guest, t1, ehash_gva, 8);
    let (_, b) = guest_read::guest_slice(guest, t2, ehash_gva, 8);
    guest_read::lemma_slice_still(guest, a, b, mask_gva, 4);
    let (mask, a) = guest_read::guest_slice(guest, a, mask_gva, 4);
    let (_, b) = guest_read::guest_slice(guest, b, mask_gva, 4);
    if ehash is Some && mask is Some {
        lemma_buckets_still(
            guest,
            a,
            b,
            guest_word::le_value(ehash.unwrap()) as u64,
            (guest_word::le_value(mask.unwrap()) as u32 + 1) as u32,
            0,
        );
    }
}

/// A second walk of the table of a guest that has not changed meets only sockets that are
/// remembered, and changes nothing of the log, down to the slots of its memory, as long as
/// the first walk left all the sockets that it met remembered.
pub proof fn law_logged_once(
    tcp_hashinfo: Option<u64>,
    guest: GuestModel,
    t1: nat,
    t2: nat,
    log: LogState,
)
    requires
        guest.still(),
        walk_socks(guest, t1, tcp_hashinfo).0 matches Some(met) ==> sock_cache::all_in(
            met,
            log.socks.after_all(met).socks(),
        ),
    ensures
        ({
            let start = ScanState::<TcpPhase>::start(tcp_hashinfo);
            let (_, first, _) = start.run(guest, t1, log);
            let (_, second, _) = start.run(guest, t2, first);
            &&& walk_socks(guest, t2, tcp_hashinfo).0 matches Some(met) ==> sock_cache::all_in(
                met,
                first.socks.socks(),
            )
            &&& second == first
        }),
{
    let start = ScanState::<TcpPhase>::start(tcp_hashinfo);
    let first = start.run(guest, t1, log).1;
    law_maybe_log_tcp_connections(tcp_hashinfo, guest, t1, log);
    law_maybe_log_tcp_connections(tcp_hashinfo, guest, t2, first);
    if let Some(gva) = tcp_hashinfo {
        assert(guest.at(t1, GuestRequest::ReadCr3) == guest.at(t2, GuestRequest::ReadCr3));
        lemma_table_still(guest, t1 + 1, t2 + 1, gva);
    }
    if let Some(met) = walk_socks(guest, t1, tcp_hashinfo).0 {
        log.socks.after_all(met).law_known(met);
    }
}

/// The sockets of a table are all remembered after it was walked, and those from before
/// with them, and no others, as long as there is room for all, each counted once.
pub proof fn law_nothing_lost(
    tcp_hashinfo: Option<u64>,
    guest: GuestModel,
    t: nat,
    log: LogState,
)
    requires
        log.socks.wf(),
    ensures
        ({
            let (_, after, _) = ScanState::<TcpPhase>::start(tcp_hashinfo).run(guest, t, log);
            &&& after.socks.wf()
            &&& match walk_socks(guest, t, tcp_hashinfo).0 {
                Some(met) => {
                    let all = log.socks.socks().to_set() + met.to_set();
                    all.len() <= sock_cache::MAX_LOGGED_SOCKS ==> {
                        &&& after.socks.socks().to_set() == all
                        &&& sock_cache::all_in(log.socks.socks(), after.socks.socks())
                        &&& sock_cache::all_in(met, after.socks.socks())
                    }
                },
                None => after == log,
            }
        }),
{
    law_maybe_log_tcp_connections(tcp_hashinfo, guest, t, log);
    if let Some(met) = walk_socks(guest, t, tcp_hashinfo).0 {
        log.socks.law_after_all(met);
        sock_cache::law_socks_memory(log.socks.socks(), met);
    }
}

/// While the memory has room for all the sockets that it holds and that the table of a
/// guest that does not change puts before it, a second walk leaves the log exactly as the
/// first left it: slots, their number, the one that goes next, and the mark of the table.
pub proof fn law_second_walk(
    tcp_hashinfo: Option<u64>,
    guest: GuestModel,
    t1: nat,
    t2: nat,
    log: LogState,
)
    requires
        guest.still(),
        log.socks.wf(),
        walk_socks(guest, t1, tcp_hashinfo).0 matches Some(met) ==> (log.socks.socks().to_set()
            + met.to_set()).len() <= sock_cache::MAX_LOGGED_SOCKS,
    ensures
        ({
            let start = ScanState::<TcpPhase>::start(tcp_hashinfo);
            let (_, first, _) = start.run(guest, t1, log);
            let (_, second, _) = start.run(guest, t2, first);
            second == first
        }),
{
    law_maybe_log_tcp_connections(tcp_hashinfo, guest, t1, log);
    law_nothing_lost(tcp_hashinfo, guest, t1, log);
    law_logged_once(tcp_hashinfo, guest, t1, t2, log);
}

/// The sockets in the buckets of the table at `ehash_ptr` in `memory`, from `bucket_index`
/// on, that stand for connections worth logging: those of each bucket in turn.
pub open spec fn buckets_in(
    memory: GuestMemory,
    ehash_ptr: u64,
    ehash_size: u32,
    bucket_index: int,
) -> Seq<u64>
    decreases ehash_size - bucket_index,
{
    if 0 <= bucket_index < ehash_size {
        tcp_bucket::bucket_in(memory, ehash_ptr, bucket_index as u32) + buckets_in(
            memory,
            ehash_ptr,
            ehash_size,
            bucket_index + 1,
        )
    } else {
        Seq::empty()
    }
}

/// The number of the highest bucket of the table at `tcp_hashinfo` in `memory`, if it can
/// be read.
pub open spec fn mask_in(memory: GuestMemory, tcp_hashinfo: u64) -> Option<u32> {
    let gva = tcp_hashinfo.wrapping_add(INET_HASHINFO_EHASH_MASK_OFFSET);
    if memory.readable(gva, 4) {
        Some(guest_word::le_value(memory.bytes(gva, 4)) as u32)
    } else {
        None
    }
}

/// The sockets in the table at `tcp_hashinfo` in `memory` that stand for connections worth
/// logging, if there is a table: its fields can be read, the pointer to its buckets is not
/// null, and their number is one that 32 bits hold.
pub open spec fn table_in(memory: GuestMemory, tcp_hashinfo: u64) -> Option<Seq<u64>> {
    let ehash = tcp_bucket::pointer_in(
        memory,
        tcp_hashinfo.wrapping_add(INET_HASHINFO_EHASH_OFFSET),
    );
    match (ehash, mask_in(memory, tcp_hashinfo)) {
        (Some(ehash_ptr), Some(ehash_mask)) if ehash_ptr != 0 && ehash_mask < u32::MAX => Some(
            buckets_in(memory, ehash_ptr, (ehash_mask + 1) as u32, 0),
        ),
        _ => None,
    }
}

/// The buckets read from a guest that stands still give the sockets in its memory.
proof fn lemma_buckets_in_memory(
    memory: GuestMemory,
    t: nat,
    ehash_ptr: u64,
    ehash_size: u32,
    bucket_index: int,
)
    ensures
        buckets_socks(memory.model(), t, ehash_ptr, ehash_size, bucket_index).0 == buckets_in(
            memory,
            ehash_ptr,
            ehash_size,
            bucket_index,
        ),
    decreases ehash_size - bucket_index,
{
    if 0 <= bucket_index < ehash_size {
        let index = bucket_index as u32;
        tcp_bucket::law_bucket_in_memory(memory, t, ehash_ptr, index);
        let (_, t1) = tcp_bucket::bucket_socks(memory.model(), t, ehash_ptr, index);
        lemma_buckets_in_memory(memory, t1, ehash_ptr, ehash_size, bucket_index + 1);
    }
}

/// Of a guest that stands still, the sockets met in a table are those that the table's
/// buckets hold in its memory.
pub proof fn law_table_in_memory(memory: GuestMemory, t: nat, tcp_hashinfo: u64)
    ensures
        table_socks(memory.model(), t, tcp_hashinfo).0 == table_in(memory, tcp_hashinfo),
{
    let guest = memory.model();
    let ehash_gva = tcp_hashinfo.wrapping_add(INET_HASHINFO_EHASH_OFFSET);
    let mask_gva = tcp_hashinfo.wrapping_add(INET_HASHINFO_EHASH_MASK_OFFSET);
    guest_read::law_read_gives_memory(memory, t, ehash_gva, 8);
    let (ehash, t1) = guest_read::guest_slice(guest, t, ehash_gva, 8);
    guest_read::law_read_gives_memory(memory, t1, mask_gva, 4);
    let (mask, t2) = guest_read::guest_slice(guest, t1, mask_gva, 4);
    if ehash is Some && mask is Some {
        lemma_buckets_in_memory(
            memory,
            t2,
            guest_word::le_value(ehash.unwrap()) as u64,
            (guest_word::le_value(mask.unwrap()) as u32 + 1) as u32,
            0,
        );
    }
}

/// A walk of the table of a guest that stands still and has page tables leaves the log
/// with the sockets met that its memory puts in the table; without page tables, or while
/// the table is not known, it leaves the log as it was.
pub proof fn law_walk_of_memory(
    memory: GuestMemory,
    t: nat,
    tcp_hashinfo: Option<u64>,
    log: LogState,
)
    ensures
        ScanState::<TcpPhase>::start(tcp_hashinfo).run(memory.model(), t, log).1 == log_with(
            log,
            match tcp_hashinfo {
                Some(gva) if memory.cr3 != 0 => table_in(memory, gva),
                _ => None,
            },
        ),
{
    law_maybe_log_tcp_connections(tcp_hashinfo, memory.model(), t, log);
    if let Some(gva) = tcp_hashinfo {
        law_table_in_memory(memory, t + 1, gva);
    }
}

/// The buckets of a table are walked one after the other, each of them, up to the last.
pub proof fn law_every_bucket(
    guest: GuestModel,
    t: nat,
    ehash_ptr: u64,
    ehash_size: u32,
    bucket_index: int,
)
    requires
        0 <= bucket_index,
    ensures
        ({
            let (met, t_end) = buckets_socks(guest, t, ehash_ptr, ehash_size, bucket_index);
            if bucket_index < ehash_size {
                let (here, t1) = tcp_bucket::bucket_socks(
                    guest,
                    t,
                    ehash_ptr,
                    bucket_index as u32,
                );
                let (rest, t2) = buckets_socks(
                    guest,
                    t1,
                    ehash_ptr,
                    ehash_size,
                    bucket_index + 1,
                );
                met == here + rest && t_end == t2
            } else {
                met.len() == 0 && t_end == t
            }
        }),
{
}

/// What a walk does to the log. It asks nothing while the table is not known. The guest
/// must have page tables; the eight bytes at the table, which point to its buckets, must be
/// readable and not all zero, and the four bytes sixteen behind must be readable and not
/// all ones: they are the number of the last bucket. Otherwise the log stays as it was.
/// Then the table counts as found, and all the sockets met in the buckets from the first to
/// that last one are met by the memory, in order.
pub proof fn law_walk_result(
    tcp_hashinfo: Option<u64>,
    guest: GuestModel,
    t: nat,
    log: LogState,
)
    ensures
        ({
            let (end, after, t_end) = ScanState::<TcpPhase>::start(tcp_hashinfo).run(
                guest,
                t,
                log,
            );
            &&& end.pending() == Step::Done(())
            &&& match tcp_hashinfo {
                None => after == log && t_end == t,
                Some(gva) => {
                    let cr3 = (guest.answers)(t, GuestRequest::ReadCr3);
                    let (ehash, t1) = guest_read::guest_slice(guest, t + 1, gva, 8);
                    let (mask, t2) = guest_read::guest_slice(
                        guest,
                        t1,
                        gva.wrapping_add(16),
                        4,
                    );
                    if !(cr3 matches ReplyView::Cr3(root) && root != 0) {
                        after == log && t_end == t + 1
                    } else if !(ehash matches Some(b) && exists|i: int| 0 <= i < 8 && b[i] != 0) {
                        after == log && t_end == t1
                    } else if !(mask matches Some(m) && exists|i: int| 0 <= i < 4 && m[i] != 255) {
                        after == log && t_end == t2
                    } else {
                        let b = ehash.unwrap();
                        let m = mask.unwrap();
                        let ehash_ptr = (b[0] + 0x100 * b[1] + 0x1_0000 * b[2] + 0x100_0000 * b[3]
                            + 0x1_0000_0000 * b[4] + 0x100_0000_0000 * b[5] + 0x1_0000_0000_0000
                            * b[6] + 0x100_0000_0000_0000 * b[7]) as u64;
                        let last = m[0] + 0x100 * m[1] + 0x1_0000 * m[2] + 0x100_0000 * m[3];
                        let (met, t3) = buckets_socks(
                            guest,
                            t2,
                            ehash_ptr,
                            (last + 1) as u32,
                            0,
                        );
                        &&& after.socks == log.socks.after_all(met)
                        &&& after.hashinfo_logged
                        &&& t_end == t3
                    }
                },
            }
        }),
{
    law_maybe_log_tcp_connections(tcp_hashinfo, guest, t, log);
    if let Some(gva) = tcp_hashinfo {
        let (ehash, t1) = guest_read::guest_slice(guest, t + 1, gva, 8);
        let (mask, t2) = guest_read::guest_slice(guest, t1, gva.wrapping_add(16), 4);
        assert(gva.wrapping_add(INET_HASHINFO_EHASH_OFFSET) == gva);
        guest_read::law_refused_page(guest, t + 1, gva, 8);
        guest_read::law_refused_page(guest, t1, gva.wrapping_add(16), 4);
        if let Some(b) = ehash {
            guest_word::law_word_values(b);
            if guest_word::le_value(b) != 0 {
                assert(exists|i: int| 0 <= i < 8 && b[i] != 0) by {
                    assert(b[0] != 0 || b[1] != 0 || b[2] != 0 || b[3] != 0 || b[4] != 0 || b[5]
                        != 0 || b[6] != 0 || b[7] != 0);
                }
            }
        }
        if let Some(m) = mask {
            guest_word::law_word_values(m);
            if guest_word::le_value(m) != u32::MAX {
                assert(exists|i: int| 0 <= i < 4 && m[i] != 255) by {
                    assert(m[0] != 255 || m[1] != 255 || m[2] != 255 || m[3] != 255);
                }
            }
        }
    }
}

/// A call leaves the walk of the table as it is; an answer takes it on; once it is over,
/// nothing changes it.
pub proof fn law_table_events(scan: ScanState<TcpPhase>, reply: ReplyView, log: LogState)
    ensures
        scan.step(EventView::Call, log) == (scan, log),
        scan.step(EventView::Reply(reply), log) == scan.after(reply, log),
        scan.phase is Finished ==> scan.pending() == Step::Done(()) && scan.after(reply, log) == (
            scan,
            log,
        ),
{
}

/// The walk of the table is driven by putting its question to the guest and handing it the
/// answer, one question at each moment, until it asks none.
pub proof fn law_table_driven(
    scan: ScanState<TcpPhase>,
    guest: GuestModel,
    t: nat,
    log: LogState,
)
    ensures
        match scan.pending() {
            Step::Ask(request) => {
                let (next, after) = scan.step(
                    EventView::Reply((guest.answers)(t, request)),
                    log,
                );
                scan.run(guest, t, log) == next.run(guest, t + 1, after)
            },
            Step::Done(_) => scan.run(guest, t, log) == (scan, log, t),
        },
{
}

/// The sockets of each bucket are among those of all.
proof fn lemma_bucket_among(
    guest: GuestModel,
    t: nat,
    ehash_ptr: u64,
    ehash_size: u32,
    from: int,
    bucket_index: u32,
    sock_ptr: u64,
)
    requires
        0 <= from <= bucket_index < ehash_size,
        forall|t: nat|
            (#[trigger] tcp_bucket::bucket_socks(guest, t, ehash_ptr, bucket_index)).0.contains(
                sock_ptr,
            ),
    ensures
        buckets_socks(guest, t, ehash_ptr, ehash_size, from).0.contains(sock_ptr),
    decreases bucket_index - from,
{
    let (here, t1) = tcp_bucket::bucket_socks(guest, t, ehash_ptr, from as u32);
    let (rest, _) = buckets_socks(guest, t1, ehash_ptr, ehash_size, from + 1);
    let all = here + rest;
    if from == bucket_index {
        let i = choose|i: int| 0 <= i < here.len() && here[i] == sock_ptr;
        assert(all[i] == sock_ptr);
    } else {
        lemma_bucket_among(guest, t1, ehash_ptr, ehash_size, from + 1, bucket_index, sock_ptr);
        let i = choose|i: int| 0 <= i < rest.len() && rest[i] == sock_ptr;
        assert(all[here.len() + i] == sock_ptr);
    }
}

/// Every live connection of the guest is found: a socket that stands for a connection worth
/// logging, and that a chain of at most 64 nodes in any bucket of the table leads to, is
/// remembered after a walk, as long as the memory has room for all that the walk meets.
pub proof fn law_live_socket_is_remembered(
    memory: GuestMemory,
    t: nat,
    tcp_hashinfo: u64,
    log: LogState,
    ehash_ptr: u64,
    last: u32,
    bucket_index: u32,
    chain: Seq<u64>,
)
    requires
        log.socks.wf(),
        memory.cr3 != 0,
        tcp_bucket::pointer_in(memory, tcp_hashinfo) == Some(ehash_ptr),
        ehash_ptr != 0,
        mask_in(memory, tcp_hashinfo) == Some(last),
        bucket_index <= last < u32::MAX,
        ehash_ptr + 8 * bucket_index <= u64::MAX,
        0 < chain.len() <= 64,
        tcp_bucket::pointer_in(memory, (ehash_ptr + 8 * bucket_index) as u64) == Some(chain[0]),
        forall|k: int| 0 <= k < chain.len() ==> (#[trigger] chain[k]) % 2 == 0 && chain[k] >= 104,
        forall|k: int|
            0 <= k < chain.len() - 1 ==> tcp_bucket::pointer_in(memory, #[trigger] chain[k])
                == Some(chain[k + 1]),
        tcp_sock::connection_in(memory, bucket_index, (chain.last() - 104) as u64) is Some,
        (log.socks.socks().to_set() + table_in(memory, tcp_hashinfo).unwrap().to_set()).len()
            <= 1024,
    ensures
        ScanState::<TcpPhase>::start(Some(tcp_hashinfo)).run(
            memory.model(),
            t,
            log,
        ).1.socks.contains((chain.last() - 104) as u64),
{
    let guest = memory.model();
    let sock_ptr = (chain.last() - 104) as u64;
    let size = (last + 1) as u32;
    assert(tcp_hashinfo.wrapping_add(INET_HASHINFO_EHASH_OFFSET) == tcp_hashinfo);
    law_nothing_lost(Some(tcp_hashinfo), guest, t, log);
    law_table_in_memory(memory, t + 1, tcp_hashinfo);
    let met = buckets_in(memory, ehash_ptr, size, 0);
    assert(table_in(memory, tcp_hashinfo) == Some(met));
    assert forall|t: nat|
        (#[trigger] tcp_bucket::bucket_socks(guest, t, ehash_ptr, bucket_index)).0.contains(
            sock_ptr,
        ) by {
        tcp_bucket::law_chain_is_met(memory, t, ehash_ptr, bucket_index, chain);
    }
    lemma_bucket_among(guest, t, ehash_ptr, size, 0, bucket_index, sock_ptr);
    lemma_buckets_in_memory(memory, t, ehash_ptr, size, 0);
    assert(met.contains(sock_ptr));
}

} // verus!
