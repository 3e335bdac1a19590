//! Finding the kernel's banner in a guest, and with it the table of its TCP sockets.

use vstd::prelude::*;
use crate::banner;
use crate::banner::{
    linux_banner_len, BannerBytes, BannerCache, BannerSnapshot, LINUX_BANNER_MAX_LEN,
};
use crate::guest_mem;
use crate::guest_mem::{
    EventView, GuestEvent, GuestMemory, GuestModel, GuestReply, GuestRequest, ReplyView, Step,
};
use crate::guest_read;
use crate::guest_read::{read_guest_virt_slice, GuestRead, ReadState};

verus! {

/// The first of the addresses that the banner can lie at.
pub const LINUX_BANNER_PATTERN_BASE: u64 = 0xffff_ffff_0005_a0c0;

/// The distance between two such addresses.
pub const LINUX_BANNER_PATTERN_STEP: u64 = 0x10_0000;

/// The index of the last such address.
pub const LINUX_BANNER_PATTERN_MAX: u16 = 0x0fff;

/// How far the TCP hash table lies behind the banner, in Linux version
/// 6.12.0-233.el10.x86_64.
pub const TCP_HASHINFO_OFFSET: u64 = 0x204_c940;

/// How far the search for the banner has come. `Idle` is no search at all; the other
/// phases are the question that is open about the candidate `idx`.
#[derive(Clone, Copy, Debug, PartialEq, Eq, Structural)]
pub enum BannerPhase {
    Idle,
    Cr3,
    Translate { idx: u16 },
    Read { idx: u16, gpa: u64 },
    Hashinfo { idx: u16, gpa: u64, len: usize },
}

/// What is known of the guest's symbols, and the search that is under way, if one is.
/// An address that is not known is zero.
pub struct GuestSymbols {
    banner_gva: u64,
    banner_gpa: u64,
    tcp_hashinfo_gva: u64,
    tcp_hashinfo_gpa: u64,
    banner: BannerCache,
    phase: BannerPhase,
    read: GuestRead,
}

/// The mathematical content of `GuestSymbols`.
pub struct SymbolsState {
    pub banner_gva: u64,
    pub banner_gpa: u64,
    pub tcp_hashinfo_gva: u64,
    pub tcp_hashinfo_gpa: u64,
    pub banner: BannerBytes,
    pub phase: BannerPhase,
    pub read: ReadState,
}

impl View for GuestSymbols {
    type V = SymbolsState;

    closed spec fn view(&self) -> SymbolsState {
        SymbolsState {
            banner_gva: self.banner_gva,
            banner_gpa: self.banner_gpa,
            tcp_hashinfo_gva: self.tcp_hashinfo_gva,
            tcp_hashinfo_gpa: self.tcp_hashinfo_gpa,
            banner: self.banner@,
            phase: self.phase,
            read: self.read@,
        }
    }
}

/// The address of the candidate `idx`.
pub open spec fn candidate_gva(idx: u16) -> u64 {
    (LINUX_BANNER_PATTERN_BASE + idx * LINUX_BANNER_PATTERN_STEP) as u64
}

/// The address of the TCP hash table that belongs to a banner, if the address space
/// reaches that far.
pub open spec fn hashinfo_gva(banner_gva: u64) -> Option<u64> {
    if banner_gva + TCP_HASHINFO_OFFSET <= u64::MAX {
        Some((banner_gva + TCP_HASHINFO_OFFSET) as u64)
    } else {
        None
    }
}

impl SymbolsState {
    /// Nothing known.
    pub open spec fn unknown(self) -> bool {
        &&& self.banner_gva == 0
        &&& self.banner_gpa == 0
        &&& self.tcp_hashinfo_gva == 0
        &&& self.tcp_hashinfo_gpa == 0
        &&& self.banner == BannerBytes::empty()
    }

    /// The search at candidate `idx`; over when there is no such candidate.
    pub open spec fn at_candidate(self, idx: int) -> SymbolsState {
        SymbolsState {
            phase: if idx <= LINUX_BANNER_PATTERN_MAX {
                BannerPhase::Translate { idx: idx as u16 }
            } else {
                BannerPhase::Idle
            },
            ..self
        }
    }

    /// The banner of `len` bytes in the read's buffer taken for the guest's own: it is
    /// that of candidate `idx`.
    pub open spec fn resolved(self, idx: u16, gpa: u64, len: nat, hashinfo_gpa: u64) -> SymbolsState {
        SymbolsState {
            banner_gva: candidate_gva(idx),
            banner_gpa: gpa,
            tcp_hashinfo_gva: hashinfo_gva(candidate_gva(idx)).unwrap_or(0),
            tcp_hashinfo_gpa: hashinfo_gpa,
            banner: self.banner.with(self.read.buf.take(len as int)),
            phase: BannerPhase::Idle,
            read: self.read,
        }
    }

    /// The search with candidate `idx` read to the end.
    pub open spec fn examined(self, idx: u16, gpa: u64) -> SymbolsState {
        match banner::banner_len(self.read.buf) {
            Some(len) => if hashinfo_gva(candidate_gva(idx)) is Some {
                SymbolsState {
                    phase: BannerPhase::Hashinfo { idx, gpa, len: len as usize },
                    ..self
                }
            } else {
                self.resolved(idx, gpa, len, 0)
            },
            None => self.at_candidate(idx + 1),
        }
    }

    /// The open question.
    pub open spec fn question(self) -> Option<GuestRequest> {
        match self.phase {
            BannerPhase::Idle => None,
            BannerPhase::Cr3 => Some(GuestRequest::ReadCr3),
            BannerPhase::Translate { idx } => Some(
                GuestRequest::Translate { gva: candidate_gva(idx) },
            ),
            BannerPhase::Read { idx, gpa } => match self.read.pending() {
                Step::Ask(request) => Some(request),
                Step::Done(_) => None,
            },
            BannerPhase::Hashinfo { idx, gpa, len } => Some(
                GuestRequest::Translate {
                    gva: hashinfo_gva(candidate_gva(idx)).unwrap_or(0),
                },
            ),
        }
    }

    /// The search after `reply`.
    pub open spec fn after(self, reply: ReplyView) -> SymbolsState {
        match self.phase {
            BannerPhase::Idle => self,
            BannerPhase::Cr3 => match reply {
                ReplyView::Cr3(cr3) if cr3 != 0 => self.at_candidate(0),
                _ => SymbolsState { phase: BannerPhase::Idle, ..self },
            },
            BannerPhase::Translate { idx } => match reply {
                ReplyView::Translated(gpa) => SymbolsState {
                    phase: BannerPhase::Read { idx, gpa },
                    read: ReadState::zeroed(candidate_gva(idx), LINUX_BANNER_MAX_LEN as nat),
                    ..self
                },
                _ => self.at_candidate(idx + 1),
            },
            BannerPhase::Read { idx, gpa } => {
                let next = SymbolsState { read: self.read.after(reply), ..self };
                match next.read.pending() {
                    Step::Ask(_) => next,
                    Step::Done(None) => next.at_candidate(idx + 1),
                    Step::Done(Some(_)) => next.examined(idx, gpa),
                }
            },
            BannerPhase::Hashinfo { idx, gpa, len } => match reply {
                ReplyView::Translated(hashinfo_gpa) => self.resolved(
                    idx,
                    gpa,
                    len as nat,
                    hashinfo_gpa,
                ),
                _ => self.resolved(idx, gpa, len as nat, 0),
            },
        }
    }

    /// Whether a call starts a search: none is under way, and no banner was found yet.
    pub open spec fn can_start(self) -> bool {
        self.banner_gva == 0 && self.phase is Idle
    }

    /// What is known after `event`.
    pub open spec fn step(self, event: EventView) -> SymbolsState {
        match event {
            EventView::Call => if self.can_start() {
                SymbolsState { phase: BannerPhase::Cr3, ..self }
            } else {
                self
            },
            EventView::Reply(reply) => self.after(reply),
        }
    }

    /// What `event` leads to: a question; or the end, and whether the banner was found.
    pub open spec fn outcome(self, event: EventView) -> Step<bool> {
        match event {
            EventView::Call => if self.can_start() {
                Step::Ask(GuestRequest::ReadCr3)
            } else {
                Step::Done(false)
            },
            EventView::Reply(reply) => match self.after(reply).question() {
                Some(request) => Step::Ask(request),
                None => Step::Done(self.after(reply).banner_gva != self.banner_gva),
            },
        }
    }

    /// What holds of the symbols at every moment: a search goes on only while nothing is
    /// known, and what is known belongs to one candidate and the banner found there.
    pub open spec fn wf(self) -> bool {
        &&& match self.phase {
            BannerPhase::Idle => true,
            BannerPhase::Cr3 => self.unknown(),
            BannerPhase::Translate { idx } => self.unknown() && idx <= LINUX_BANNER_PATTERN_MAX,
            BannerPhase::Read { idx, gpa } => {
                &&& self.unknown()
                &&& idx <= LINUX_BANNER_PATTERN_MAX
                &&& self.read.buf.len() == LINUX_BANNER_MAX_LEN
                &&& self.read.pending() is Ask
            },
            BannerPhase::Hashinfo { idx, gpa, len } => {
                &&& self.unknown()
                &&& idx <= LINUX_BANNER_PATTERN_MAX
                &&& hashinfo_gva(candidate_gva(idx)) is Some
                &&& self.read.buf.len() == LINUX_BANNER_MAX_LEN
                &&& banner::banner_len(self.read.buf) == Some(len as nat)
            },
        }
        &&& self.banner.wf()
        &&& self.banner_gva == 0 ==> self.unknown()
        &&& self.banner_gva != 0 ==> {
            &&& exists|idx: u16|
                idx <= LINUX_BANNER_PATTERN_MAX && self.banner_gva == #[trigger] candidate_gva(idx)
            &&& self.tcp_hashinfo_gva == hashinfo_gva(self.banner_gva).unwrap_or(0)
            &&& banner::is_banner(self.banner.text())
        }
    }
}

/// The candidates lie within the address space.
proof fn lemma_candidates(idx: u16)
    requires
        idx <= LINUX_BANNER_PATTERN_MAX,
    ensures
        LINUX_BANNER_PATTERN_BASE + idx * LINUX_BANNER_PATTERN_STEP <= u64::MAX,
        candidate_gva(idx) == LINUX_BANNER_PATTERN_BASE + idx * LINUX_BANNER_PATTERN_STEP,
        candidate_gva(idx) != 0,
{
}

fn candidate(idx: u16) -> (res: u64)
    requires
        idx <= LINUX_BANNER_PATTERN_MAX,
    ensures
        res == candidate_gva(idx),
        res != 0,
{
    proof {
        lemma_candidates(idx);
    }
    LINUX_BANNER_PATTERN_BASE + idx as u64 * LINUX_BANNER_PATTERN_STEP
}

impl GuestSymbols {
    /// Nothing known yet, and no search under way.
    pub fn new() -> (res: GuestSymbols)
        ensures
            res@.wf(),
            res@.unknown(),
            res@.phase is Idle,
    {
        GuestSymbols {
            banner_gva: 0,
            banner_gpa: 0,
            tcp_hashinfo_gva: 0,
            tcp_hashinfo_gpa: 0,
            banner: BannerCache::new(),
            phase: BannerPhase::Idle,
            read: GuestRead::zeroed(0, 0),
        }
    }

    /// Goes on with the candidate behind `idx`.
    fn next_candidate(&mut self, idx: u16) -> (res: Step<bool>)
        requires
            idx <= LINUX_BANNER_PATTERN_MAX,
        ensures
            final(self)@ == old(self)@.at_candidate(idx + 1),
            res == match final(self)@.question() {
                Some(request) => Step::Ask(request),
                None => Step::Done(false),
            },
    {
        if idx < LINUX_BANNER_PATTERN_MAX {
            self.phase = BannerPhase::Translate { idx: idx + 1 };
            Step::Ask(GuestRequest::Translate { gva: candidate(idx + 1) })
        } else {
            self.phase = BannerPhase::Idle;
            Step::Done(false)
        }
    }

    /// Keeps what was found out about candidate `idx`, and ends the search.
    fn resolve(&mut self, idx: u16, gpa: u64, len: usize, hashinfo_gpa: u64)
        requires
            idx <= LINUX_BANNER_PATTERN_MAX,
            len <= old(self)@.read.buf.len(),
        ensures
            final(self)@ == old(self)@.resolved(idx, gpa, len as nat, hashinfo_gpa),
    {
        let gva: u64 = candidate(idx);
        self.banner.set(vstd::slice::slice_subrange(self.read.buf(), 0, len));
        self.tcp_hashinfo_gva = match gva.checked_add(TCP_HASHINFO_OFFSET) {
            Some(hashinfo) => hashinfo,
            None => 0,
        };
        self.tcp_hashinfo_gpa = hashinfo_gpa;
        self.banner_gpa = gpa;
        self.banner_gva = gva;
        self.phase = BannerPhase::Idle;
    }

    /// Looks for a banner in what was read of candidate `idx`.
    fn examine(&mut self, idx: u16, gpa: u64) -> (res: Step<bool>)
        requires
            idx <= LINUX_BANNER_PATTERN_MAX,
            old(self)@.read.buf.len() == LINUX_BANNER_MAX_LEN,
            old(self)@.banner_gva == 0,
        ensures
            final(self)@ == old(self)@.examined(idx, gpa),
            res == match final(self)@.question() {
                Some(request) => Step::Ask(request),
                None => Step::Done(final(self)@.banner_gva != 0),
            },
    {
        proof {
            banner::law_banner_len(self.read@.buf);
        }
        match linux_banner_len(self.read.buf()) {
            Some(len) => match candidate(idx).checked_add(TCP_HASHINFO_OFFSET) {
                Some(hashinfo) => {
                    self.phase = BannerPhase::Hashinfo { idx, gpa, len };
                    Step::Ask(GuestRequest::Translate { gva: hashinfo })
                },
                None => {
                    proof {
                        lemma_candidates(idx);
                    }
                    self.resolve(idx, gpa, len, 0);
                    Step::Done(true)
                },
            },
            None => self.next_candidate(idx),
        }
    }
}

/// Searches the guest for its kernel's banner. A call starts a search, unless the banner
/// was found before, another search is under way, or the guest has no page tables yet.
/// The search tries the candidates in order and stops at the first that holds a banner.
/// The result is whether the banner was found.
pub fn maybe_resolve_linux_banner(symbols: &mut GuestSymbols, event: GuestEvent) -> (res: Step<bool>)
    requires
        old(symbols)@.wf(),
    ensures
        final(symbols)@ == old(symbols)@.step(event@),
        res == old(symbols)@.outcome(event@),
        final(symbols)@.wf(),
{
    proof {
        old(symbols)@.lemma_step_wf(event@);
    }
    let reply = match event {
        GuestEvent::Call => {
            if symbols.banner_gva != 0 {
                return Step::Done(false);
            }
            return match symbols.phase {
                BannerPhase::Idle => {
                    symbols.phase = BannerPhase::Cr3;
                    Step::Ask(GuestRequest::ReadCr3)
                },
                _ => Step::Done(false),
            };
        },
        GuestEvent::Reply(reply) => reply,
    };
    match symbols.phase {
        BannerPhase::Idle => Step::Done(false),
        BannerPhase::Cr3 => {
            let running: bool = match reply {
                GuestReply::Cr3(cr3) => cr3 != 0,
                _ => false,
            };
            if running {
                symbols.phase = BannerPhase::Translate { idx: 0 };
                Step::Ask(GuestRequest::Translate { gva: candidate(0) })
            } else {
                symbols.phase = BannerPhase::Idle;
                Step::Done(false)
            }
        },
        BannerPhase::Translate { idx } => match reply {
            GuestReply::Translated(gpa) => {
                let gva: u64 = candidate(idx);
                symbols.read = GuestRead::zeroed(gva, LINUX_BANNER_MAX_LEN);
                symbols.phase = BannerPhase::Read { idx, gpa };
                Step::Ask(GuestRequest::Translate { gva })
            },
            _ => symbols.next_candidate(idx),
        },
        BannerPhase::Read { idx, gpa } => {
            let mut read = GuestRead::zeroed(0, 0);
            core::mem::swap(&mut read, &mut symbols.read);
            let (read, step) = read_guest_virt_slice(read, GuestEvent::Reply(reply));
            symbols.read = read;
            match step {
                Step::Ask(request) => Step::Ask(request),
                Step::Done(None) => symbols.next_candidate(idx),
                Step::Done(Some(())) => symbols.examine(idx, gpa),
            }
        },
        BannerPhase::Hashinfo { idx, gpa, len } => {
            let hashinfo_gpa: u64 = match reply {
                GuestReply::Translated(hashinfo_gpa) => hashinfo_gpa,
                _ => 0,
            };
            proof {
                banner::law_banner_len(symbols.read@.buf);
                lemma_candidates(idx);
            }
            symbols.resolve(idx, gpa, len, hashinfo_gpa);
            Step::Done(true)
        },
    }
}

impl SymbolsState {
    /// A banner taken for the guest's own leaves symbols of which all holds that must.
    proof fn lemma_resolved_wf(self, idx: u16, gpa: u64, len: nat, hashinfo_gpa: u64)
        requires
            self.banner.wf(),
            idx <= LINUX_BANNER_PATTERN_MAX,
            self.read.buf.len() == LINUX_BANNER_MAX_LEN,
            banner::banner_len(self.read.buf) == Some(len),
        ensures
            self.resolved(idx, gpa, len, hashinfo_gpa).wf(),
    {
        let text = self.read.buf.take(len as int);
        lemma_candidates(idx);
        banner::law_banner_len(self.read.buf);
        assert(banner::is_banner(text));
        self.banner.law_with(text);
    }

    /// A candidate read to the end leaves symbols of which all holds that must.
    proof fn lemma_examined_wf(self, idx: u16, gpa: u64)
        requires
            self.unknown(),
            idx <= LINUX_BANNER_PATTERN_MAX,
            self.read.buf.len() == LINUX_BANNER_MAX_LEN,
        ensures
            self.examined(idx, gpa).wf(),
    {
        banner::law_banner_len(self.read.buf);
        if let Some(len) = banner::banner_len(self.read.buf) {
            self.lemma_resolved_wf(idx, gpa, len, 0);
        }
    }

    /// Every event keeps what holds of the symbols.
    pub proof fn lemma_step_wf(self, event: EventView)
        requires
            self.wf(),
        ensures
            self.step(event).wf(),
    {
        if let EventView::Reply(reply) = event {
            match self.phase {
                BannerPhase::Read { idx, gpa } => {
                    self.read.lemma_after(reply);
                    let next = SymbolsState { read: self.read.after(reply), ..self };
                    if next.read.pending() == Step::Done(Some(())) {
                        next.lemma_examined_wf(idx, gpa);
                    }
                },
                BannerPhase::Hashinfo { idx, gpa, len } => {
                    let hashinfo_gpa = match reply {
                        ReplyView::Translated(hashinfo_gpa) => hashinfo_gpa,
                        _ => 0,
                    };
                    self.lemma_resolved_wf(idx, gpa, len as nat, hashinfo_gpa);
                },
                _ => {},
            }
        }
    }
}

/// What is known of the guest's symbols now.
pub fn banner_snapshot(symbols: &GuestSymbols) -> (res: BannerSnapshot)
    ensures
        res.banner_gva == symbols@.banner_gva,
        res.banner_gpa == symbols@.banner_gpa,
        res.tcp_hashinfo_gva == symbols@.tcp_hashinfo_gva,
        res.tcp_hashinfo_gpa == symbols@.tcp_hashinfo_gpa,
        res.banner@ == symbols@.banner,
{
    BannerSnapshot {
        banner_gva: symbols.banner_gva,
        banner_gpa: symbols.banner_gpa,
        tcp_hashinfo_gva: symbols.tcp_hashinfo_gva,
        tcp_hashinfo_gpa: symbols.tcp_hashinfo_gpa,
        banner: symbols.banner,
    }
}

/// The address of the TCP hash table, if it is known.
pub fn tcp_hashinfo_gva(symbols: &GuestSymbols) -> (res: Option<u64>)
    ensures
        res == symbols@.tcp_hashinfo(),
{
    if symbols.tcp_hashinfo_gva == 0 {
        None
    } else {
        Some(symbols.tcp_hashinfo_gva)
    }
}

impl SymbolsState {
    /// The address of the TCP hash table, if it is known.
    pub open spec fn tcp_hashinfo(self) -> Option<u64> {
        if self.tcp_hashinfo_gva == 0 {
            None
        } else {
            Some(self.tcp_hashinfo_gva)
        }
    }

    /// An upper bound on the questions that the search will still ask.
    pub open spec fn measure(self) -> nat {
        match self.phase {
            BannerPhase::Idle => 0,
            BannerPhase::Cr3 => 0x1_0001 * 1000,
            BannerPhase::Translate { idx } => ((0x1_0000 - idx) * 1000 + 999) as nat,
            BannerPhase::Read { idx, gpa } => ((0x1_0000 - idx) * 1000 + 1
                + self.read.measure()) as nat,
            BannerPhase::Hashinfo { idx, gpa, len } => ((0x1_0000 - idx) * 1000 + 1) as nat,
        }
    }

    /// Where the search ends up, and when, if `guest` answers from moment `t` on.
    pub open spec fn run(self, guest: GuestModel, t: nat) -> (SymbolsState, nat)
        decreases self.measure(),
    {
        match self.question() {
            Some(request) => {
                proof {
                    self.lemma_after(guest.at(t, request));
                }
                self.after(guest.at(t, request)).run(guest, t + 1)
            },
            None => (self, t),
        }
    }

    /// Each answer brings the search nearer its end.
    pub proof fn lemma_after(self, reply: ReplyView)
        requires
            self.question() is Some,
        ensures
            self.after(reply).measure() < self.measure(),
    {
        if let BannerPhase::Read { idx, gpa } = self.phase {
            self.read.lemma_after(reply);
        }
    }

    /// The same symbols, whatever the search was doing.
    pub open spec fn same_symbols(self, other: SymbolsState) -> bool {
        &&& self.banner_gva == other.banner_gva
        &&& self.banner_gpa == other.banner_gpa
        &&& self.tcp_hashinfo_gva == other.tcp_hashinfo_gva
        &&& self.tcp_hashinfo_gpa == other.tcp_hashinfo_gpa
        &&& self.banner == other.banner
    }
}

/// A banner in the guest: at which candidate, at which physical address, and its bytes.
pub struct FoundBanner {
    pub idx: u16,
    pub gpa: u64,
    pub text: Seq<u8>,
}

/// The banner at candidate `idx`, if there is one: its address must be mapped, the bytes
/// from there on readable, and these begin with a banner. And the moment after.
pub open spec fn banner_at(guest: GuestModel, t: nat, idx: u16) -> (Option<FoundBanner>, nat) {
    match guest.at(t, GuestRequest::Translate { gva: candidate_gva(idx) }) {
        ReplyView::Translated(gpa) => {
            match guest_read::guest_slice(
                guest,
                t + 1,
                candidate_gva(idx),
                LINUX_BANNER_MAX_LEN as nat,
            ) {
                (Some(buf), t1) => match banner::banner_len(buf) {
                    Some(len) => (
                        Some(FoundBanner { idx, gpa, text: buf.take(len as int) }),
                        t1,
                    ),
                    None => (None, t1),
                },
                (None, t1) => (None, t1),
            }
        },
        _ => (None, t + 1),
    }
}

/// The first banner among the candidates from `idx` on. And the moment after.
pub open spec fn first_banner(guest: GuestModel, t: nat, idx: int) -> (Option<FoundBanner>, nat)
    decreases LINUX_BANNER_PATTERN_MAX + 1 - idx,
{
    if 0 <= idx <= LINUX_BANNER_PATTERN_MAX {
        match banner_at(guest, t, idx as u16) {
            (Some(found), t1) => (Some(found), t1),
            (None, t1) => first_banner(guest, t1, idx + 1),
        }
    } else {
        (None, t)
    }
}

/// Whether `end`, at moment `t1`, is what the search must leave behind when it has found
/// `found` by moment `t`: the one question left is where the TCP hash table lies.
pub open spec fn symbols_of(
    guest: GuestModel,
    t: nat,
    found: FoundBanner,
    end: SymbolsState,
    t1: nat,
) -> bool {
    let gva = candidate_gva(found.idx);
    &&& end.banner_gva == gva
    &&& end.banner_gpa == found.gpa
    &&& end.banner == BannerBytes::empty().with(found.text)
    &&& end.banner.text() == found.text
    &&& match hashinfo_gva(gva) {
        Some(hashinfo) => {
            &&& end.tcp_hashinfo_gva == hashinfo
            &&& end.tcp_hashinfo_gpa == match guest.at(
                t,
                GuestRequest::Translate { gva: hashinfo },
            ) {
                ReplyView::Translated(gpa) => gpa,
                _ => 0,
            }
            &&& t1 == t + 1
        },
        None => end.tcp_hashinfo_gva == 0 && end.tcp_hashinfo_gpa == 0 && t1 == t,
    }
}

/// The search in the middle of a candidate goes on where the read of the candidate ends.
proof fn lemma_run_read(symbols: SymbolsState, idx: u16, gpa: u64, guest: GuestModel, t: nat)
    requires
        symbols.phase == (BannerPhase::Read { idx, gpa }),
        symbols.read.pending() is Ask,
    ensures
        ({
            let (read, t1) = symbols.read.run(guest, t);
            let next = SymbolsState { read, ..symbols };
            symbols.run(guest, t) == if read.pending() == Step::Done(Some(())) {
                next.examined(idx, gpa).run(guest, t1)
            } else {
                next.at_candidate(idx + 1).run(guest, t1)
            }
        }),
    decreases symbols.read.measure(),
{
    let request = symbols.read.pending()->Ask_0;
    let reply = guest.at(t, request);
    symbols.read.lemma_after(reply);
    let next = symbols.after(reply);
    assert(symbols.run(guest, t) == next.run(guest, t + 1));
    assert(symbols.read.run(guest, t) == symbols.read.after(reply).run(guest, t + 1));
    if symbols.read.after(reply).pending() is Ask {
        lemma_run_read(next, idx, gpa, guest, t + 1);
    }
}

/// The search that has read a banner at candidate `idx` ends with that banner.
proof fn lemma_run_found(symbols: SymbolsState, idx: u16, gpa: u64, guest: GuestModel, t: nat)
    requires
        symbols.unknown(),
        symbols.read.buf.len() == LINUX_BANNER_MAX_LEN,
        banner::banner_len(symbols.read.buf) is Some,
    ensures
        ({
            let buf = symbols.read.buf;
            let text = buf.take(banner::banner_len(buf).unwrap() as int);
            let (end, t1) = symbols.examined(idx, gpa).run(guest, t);
            &&& end.phase is Idle
            &&& symbols_of(guest, t, FoundBanner { idx, gpa, text }, end, t1)
        }),
{
    let buf = symbols.read.buf;
    let text = buf.take(banner::banner_len(buf).unwrap() as int);
    banner::law_banner_len(buf);
    BannerBytes::empty().law_with(text);
    if let Some(hashinfo) = hashinfo_gva(candidate_gva(idx)) {
        let asked = symbols.examined(idx, gpa);
        let reply = guest.at(t, GuestRequest::Translate { gva: hashinfo });
        assert(asked.run(guest, t) == asked.after(reply).run(guest, t + 1));
    }
}

/// The search at candidate `idx` ends as the candidates from there on say.
proof fn lemma_run_candidates(symbols: SymbolsState, idx: int, guest: GuestModel, t: nat)
    requires
        0 <= idx,
        symbols.wf(),
        symbols.unknown(),
    ensures
        ({
            let (end, t1) = symbols.at_candidate(idx).run(guest, t);
            let (found, t2) = first_banner(guest, t, idx);
            &&& end.phase is Idle
            &&& match found {
                Some(found) => symbols_of(guest, t2, found, end, t1),
                None => end.same_symbols(symbols) && t1 == t2,
            }
        }),
    decreases LINUX_BANNER_PATTERN_MAX + 1 - idx,
{
    if idx <= LINUX_BANNER_PATTERN_MAX {
        let i = idx as u16;
        let gva = candidate_gva(i);
        let start = symbols.at_candidate(idx);
        let reply = guest.at(t, GuestRequest::Translate { gva });
        assert(start.run(guest, t) == start.after(reply).run(guest, t + 1));
        if let ReplyView::Translated(gpa) = reply {
            let reading = start.after(reply);
            lemma_run_read(reading, i, gpa, guest, t + 1);
            let zeros = Seq::new(LINUX_BANNER_MAX_LEN as nat, |i: int| 0u8);
            guest_read::law_read_guest_virt_slice(gva, zeros, guest, t + 1);
            let (read, t1) = reading.read.run(guest, t + 1);
            let next = SymbolsState { read, ..reading };
            if read.pending() == Step::Done(Some(())) {
                if banner::banner_len(read.buf) is Some {
                    lemma_run_found(next, i, gpa, guest, t1);
                } else {
                    let rest = SymbolsState { phase: BannerPhase::Idle, ..next };
                    assert(rest.at_candidate(idx + 1) == next.at_candidate(idx + 1));
                    lemma_run_candidates(rest, idx + 1, guest, t1);
                }
            } else {
                let rest = SymbolsState { phase: BannerPhase::Idle, ..next };
                assert(rest.at_candidate(idx + 1) == next.at_candidate(idx + 1));
                lemma_run_candidates(rest, idx + 1, guest, t1);
            }
        } else {
            lemma_run_candidates(symbols, idx + 1, guest, t + 1);
        }
    }
}

/// A search that runs to its end finds the first candidate that holds a banner, keeps
/// its addresses and its text, and changes nothing when there is none or the guest has
/// no page tables.
pub proof fn law_maybe_resolve_linux_banner(symbols: SymbolsState, guest: GuestModel, t: nat)
    requires
        symbols.wf(),
        symbols.can_start(),
    ensures
        ({
            let (end, t1) = symbols.step(EventView::Call).run(guest, t);
            let running = guest.at(t, GuestRequest::ReadCr3) matches ReplyView::Cr3(cr3) && cr3 != 0;
            let (found, t2) = first_banner(guest, t + 1, 0);
            &&& end.phase is Idle
            &&& if !running {
                end.same_symbols(symbols) && t1 == t + 1
            } else {
                match found {
                    Some(found) => symbols_of(guest, t2, found, end, t1),
                    None => end.same_symbols(symbols) && t1 == t2,
                }
            }
        }),
{
    let start = symbols.step(EventView::Call);
    let reply = guest.at(t, GuestRequest::ReadCr3);
    assert(start.run(guest, t) == start.after(reply).run(guest, t + 1));
    assert(start.at_candidate(0) == symbols.at_candidate(0));
    lemma_run_candidates(symbols, 0, guest, t + 1);
}

/// The banner that `memory` holds at candidate `idx`, if it holds one there.
pub open spec fn banner_in(memory: GuestMemory, idx: u16) -> Option<FoundBanner> {
    let gva = candidate_gva(idx);
    let bytes = memory.bytes(gva, LINUX_BANNER_MAX_LEN as nat);
    if memory.readable(gva, LINUX_BANNER_MAX_LEN as nat) && banner::banner_len(bytes) is Some {
        Some(
            FoundBanner {
                idx,
                gpa: memory.translate(gva).unwrap(),
                text: bytes.take(banner::banner_len(bytes).unwrap() as int),
            },
        )
    } else {
        None
    }
}

/// The banner found at a candidate is the one that the guest's memory holds there.
proof fn lemma_banner_at(memory: GuestMemory, t: nat, idx: u16)
    requires
        idx <= LINUX_BANNER_PATTERN_MAX,
    ensures
        banner_at(memory.model(), t, idx).0 == banner_in(memory, idx),
{
    let gva = candidate_gva(idx);
    guest_read::law_read_gives_memory(memory, t + 1, gva, LINUX_BANNER_MAX_LEN as nat);
    assert(memory.byte_at(gva, 0) == memory.virtual_byte(gva)) by {
        reveal(GuestMemory::byte_at);
        reveal(guest_mem::address_behind);
    }
}

/// Of a guest that stands still, the banner that is found is the one in its memory with
/// the lowest address among the candidates from `idx` on; none is found only when there
/// is none.
pub proof fn law_lowest_banner(memory: GuestMemory, t: nat, idx: int)
    requires
        0 <= idx,
    ensures
        match first_banner(memory.model(), t, idx).0 {
            Some(found) => {
                &&& idx <= found.idx <= LINUX_BANNER_PATTERN_MAX
                &&& banner_in(memory, found.idx) == Some(found)
                &&& forall|j: u16| idx <= j < found.idx ==> banner_in(memory, j) is None
            },
            None => forall|j: u16|
                idx <= j <= LINUX_BANNER_PATTERN_MAX ==> banner_in(memory, j) is None,
        },
    decreases LINUX_BANNER_PATTERN_MAX + 1 - idx,
{
    if idx <= LINUX_BANNER_PATTERN_MAX {
        let (found, t1) = banner_at(memory.model(), t, idx as u16);
        lemma_banner_at(memory, t, idx as u16);
        if found is None {
            law_lowest_banner(memory, t1, idx + 1);
        }
    }
}

/// Once the banner was found, no event changes what is known, and no question is asked.
pub proof fn law_resolved_stays(symbols: SymbolsState, event: EventView)
    requires
        symbols.wf(),
        symbols.banner_gva != 0,
    ensures
        symbols.step(event) == symbols,
        symbols.outcome(event) == Step::<bool>::Done(false),
{
}

/// A banner that was found is printable, begins as every banner does, and is shown as it
/// stands in the guest.
pub proof fn law_resolved_is_shown(symbols: SymbolsState)
    requires
        symbols.wf(),
        symbols.banner_gva != 0,
    ensures
        banner::is_banner(symbols.banner.text()),
        banner::banner_text(symbols.banner.text()) == Seq::new(
            symbols.banner.len,
            |i: int| symbols.banner.bytes[i] as char,
        ),
{
    banner::law_banner_is_text(symbols.banner.text());
}

/// While a search is under way, a call neither starts another nor disturbs it.
pub proof fn law_one_search_at_a_time(symbols: SymbolsState)
    requires
        symbols.wf(),
        !(symbols.phase is Idle),
    ensures
        symbols.step(EventView::Call) == symbols,
        symbols.outcome(EventView::Call) == Step::<bool>::Done(false),
{
}

/// The TCP hash table is known only together with a banner, and lies at a fixed distance
/// behind it.
pub proof fn law_hashinfo_follows_banner(symbols: SymbolsState)
    requires
        symbols.wf(),
    ensures
        symbols.tcp_hashinfo() matches Some(gva) ==> symbols.banner_gva != 0 && gva
            == symbols.banner_gva + TCP_HASHINFO_OFFSET,
        symbols.tcp_hashinfo() is None && symbols.banner_gva != 0 ==> symbols.banner_gva
            + TCP_HASHINFO_OFFSET > u64::MAX,
{
}

/// A search comes to an end, whatever the guest answers.
pub proof fn law_search_ends(symbols: SymbolsState, guest: GuestModel, t: nat)
    ensures
        symbols.run(guest, t).0.question() is None,
        t <= symbols.run(guest, t).1 <= t + symbols.measure(),
    decreases symbols.measure(),
{
    if let Some(request) = symbols.question() {
        let reply = guest.at(t, request);
        symbols.lemma_after(reply);
        law_search_ends(symbols.after(reply), guest, t + 1);
    }
}

/// The candidates lie a megabyte apart, from `0xffffffff0005a0c0` up to
/// `0xfffffffffff5a0c0`. The TCP hash table lies `0x204c940` behind the banner, or nowhere
/// when the address space ends before.
pub proof fn law_addresses(idx: u16, banner_gva: u64)
    ensures
        idx <= 0xfff ==> candidate_gva(idx) == 0xffff_ffff_0005_a0c0 + 0x10_0000 * idx,
        candidate_gva(0xfff) == 0xffff_ffff_fff5_a0c0,
        banner_gva + 0x204_c940 <= u64::MAX ==> (hashinfo_gva(banner_gva) matches Some(gva) && gva
            == banner_gva + 0x204_c940),
        banner_gva + 0x204_c940 > u64::MAX ==> hashinfo_gva(banner_gva) is None,
{
}

/// A call starts a search whenever no banner is known and no search is under way, whatever
/// became of the searches before; it asks for the page tables first, and touches nothing
/// that is known. Any other call asks nothing and changes nothing.
pub proof fn law_call_searches(symbols: SymbolsState)
    ensures
        symbols.banner_gva == 0 && symbols.phase is Idle ==> {
            &&& symbols.step(EventView::Call) == (SymbolsState {
                phase: BannerPhase::Cr3,
                ..symbols
            })
            &&& symbols.outcome(EventView::Call) == Step::<bool>::Ask(GuestRequest::ReadCr3)
        },
        symbols.banner_gva != 0 || !(symbols.phase is Idle) ==> {
            &&& symbols.step(EventView::Call) == symbols
            &&& symbols.outcome(EventView::Call) == Step::<bool>::Done(false)
        },
{
}

/// An answer leads to the next question, or to the end: the search has then found the
/// banner exactly if its address is known now and was not before. An answer that nobody
/// waits for changes nothing.
pub proof fn law_answer_outcome(symbols: SymbolsState, reply: ReplyView)
    requires
        symbols.wf(),
    ensures
        symbols.step(EventView::Reply(reply)) == symbols.after(reply),
        symbols.phase is Idle ==> {
            &&& symbols.after(reply) == symbols
            &&& symbols.outcome(EventView::Reply(reply)) == Step::<bool>::Done(false)
        },
        match symbols.after(reply).question() {
            Some(request) => symbols.outcome(EventView::Reply(reply)) == Step::<bool>::Ask(request),
            None => symbols.outcome(EventView::Reply(reply)) == Step::Done(
                symbols.banner_gva == 0 && symbols.after(reply).banner_gva != 0,
            ),
        },
{
    symbols.lemma_step_wf(EventView::Reply(reply));
}

/// A search is driven by putting its question to the guest and handing it the answer, one
/// question at each moment, until it asks none; that is when it is idle.
pub proof fn law_search_driven(symbols: SymbolsState, guest: GuestModel, t: nat)
    requires
        symbols.wf(),
    ensures
        symbols.question() is None <==> symbols.phase is Idle,
        match symbols.question() {
            Some(request) => symbols.run(guest, t) == symbols.step(
                EventView::Reply((guest.answers)(t, request)),
            ).run(guest, t + 1),
            None => symbols.run(guest, t) == (symbols, t),
        },
{
}

/// How the candidates are tried, from `idx` on. The address of a candidate is translated,
/// then 256 bytes are read there. If they begin with a banner, it is the one. If they do
/// not, or one of the two fails, the next candidate is tried; behind the last of 4096 there
/// is none.
pub proof fn law_candidate_tried(guest: GuestModel, t: nat, idx: int)
    requires
        0 <= idx,
    ensures
        ({
            let (found, t_end) = first_banner(guest, t, idx);
            if idx <= 0xfff {
                let gva = (0xffff_ffff_0005_a0c0 + 0x10_0000 * idx) as u64;
                match (guest.answers)(t, GuestRequest::Translate { gva }) {
                    ReplyView::Translated(gpa) => {
                        let (bytes, t1) = guest_read::guest_slice(guest, t + 1, gva, 256);
                        if bytes matches Some(buf) && banner::banner_len(buf) is Some {
                            let len = banner::banner_len(bytes.unwrap()).unwrap();
                            &&& found matches Some(found)
                            &&& found.idx == idx
                            &&& found.gpa == gpa
                            &&& found.text == bytes.unwrap().take(len as int)
                            &&& t_end == t1
                        } else {
                            (found, t_end) == first_banner(guest, t1, idx + 1)
                        }
                    },
                    _ => (found, t_end) == first_banner(guest, t + 1, idx + 1),
                }
            } else {
                found is None && t_end == t
            }
        }),
{
    if idx <= 0xfff {
        law_addresses(idx as u16, 0);
    }
}

/// What a search leaves behind. If the guest has page tables and one of its candidates
/// holds a banner, the addresses and the text of the first such are known then, and those
/// of the TCP hash table behind it; the physical one is zero when there is no mapping, and
/// both are when the address space ends before the table. Otherwise nothing is known, and
/// the next call searches again.
pub proof fn law_search_result(symbols: SymbolsState, guest: GuestModel, t: nat)
    requires
        symbols.wf(),
        symbols.banner_gva == 0,
        symbols.phase is Idle,
    ensures
        ({
            let (end, t_end) = symbols.step(EventView::Call).run(guest, t);
            let cr3 = (guest.answers)(t, GuestRequest::ReadCr3);
            let (found, t1) = first_banner(guest, t + 1, 0);
            &&& end.phase is Idle
            &&& if cr3 matches ReplyView::Cr3(root) && root != 0 && found is Some {
                let found = found.unwrap();
                let gva = 0xffff_ffff_0005_a0c0 + 0x10_0000 * found.idx;
                &&& end.banner_gva == gva
                &&& end.banner_gpa == found.gpa
                &&& end.banner.len == found.text.len()
                &&& end.banner.bytes.len() == 256
                &&& forall|i: int|
                    0 <= i < 256 ==> #[trigger] end.banner.bytes[i] == if i < found.text.len() {
                        found.text[i]
                    } else {
                        0
                    }
                &&& if gva + 0x204_c940 <= u64::MAX {
                    let hashinfo = (gva + 0x204_c940) as u64;
                    let reply = (guest.answers)(t1, GuestRequest::Translate { gva: hashinfo });
                    &&& end.tcp_hashinfo_gva == hashinfo
                    &&& end.tcp_hashinfo_gpa == match reply {
                        ReplyView::Translated(gpa) => gpa,
                        _ => 0,
                    }
                    &&& t_end == t1 + 1
                } else {
                    end.tcp_hashinfo_gva == 0 && end.tcp_hashinfo_gpa == 0 && t_end == t1
                }
            } else {
                &&& end.banner_gva == 0 && end.banner_gpa == 0
                &&& end.tcp_hashinfo_gva == 0 && end.tcp_hashinfo_gpa == 0
                &&& end.banner == symbols.banner
                &&& end.outcome(EventView::Call) == Step::<bool>::Ask(GuestRequest::ReadCr3)
                &&& end.step(EventView::Call).phase is Cr3
            }
        }),
{
    law_maybe_resolve_linux_banner(symbols, guest, t);
    let (found, _) = first_banner(guest, t + 1, 0);
    lemma_found_candidate(guest, t + 1, 0);
    if let Some(found) = found {
        law_addresses(found.idx, candidate_gva(found.idx));
        BannerBytes::empty().law_kept_bytes(found.text);
    }
}

/// A banner that is found is at a candidate, and no longer than what is read there.
proof fn lemma_found_candidate(guest: GuestModel, t: nat, idx: int)
    requires
        0 <= idx,
    ensures
        first_banner(guest, t, idx).0 matches Some(found) ==> found.idx <= 0xfff
            && found.text.len() <= 256,
    decreases 0x1000 - idx,
{
    if idx <= 0xfff {
        let gva = candidate_gva(idx as u16);
        guest_read::law_refused_page(guest, t + 1, gva, 256);
        if let Some(buf) = guest_read::guest_slice(guest, t + 1, gva, 256).0 {
            banner::law_banner_len(buf);
        }
        let (found, t1) = banner_at(guest, t, idx as u16);
        if found is None {
            lemma_found_candidate(guest, t1, idx + 1);
        }
    }
}

/// What is known before any search, and when the TCP hash table counts as known: when its
/// address is not zero.
pub proof fn law_known_symbols(symbols: SymbolsState, gva: u64)
    ensures
        symbols.unknown() ==> {
            &&& symbols.banner_gva == 0 && symbols.banner_gpa == 0
            &&& symbols.tcp_hashinfo_gva == 0 && symbols.tcp_hashinfo_gpa == 0
            &&& symbols.banner.len == 0
            &&& symbols.banner.bytes.len() == 256
            &&& forall|i: int| 0 <= i < 256 ==> #[trigger] symbols.banner.bytes[i] == 0
        },
        symbols.tcp_hashinfo() == Some(gva) <==> gva != 0 && symbols.tcp_hashinfo_gva == gva,
{
}

/// A banner anywhere among the candidates is found: if the 256 bytes at one of them can be
/// read and begin with a banner, a search leaves a banner known, at that address or a lower
/// one, and what is known is the text that stands there.
pub proof fn law_banner_is_found(memory: GuestMemory, t: nat, symbols: SymbolsState, idx: u16)
    requires
        symbols.wf(),
        symbols.banner_gva == 0,
        symbols.phase is Idle,
        memory.cr3 != 0,
        idx <= 0xfff,
        memory.readable((0xffff_ffff_0005_a0c0 + 0x10_0000 * idx) as u64, 256),
        banner::banner_len(
            memory.bytes((0xffff_ffff_0005_a0c0 + 0x10_0000 * idx) as u64, 256),
        ) is Some,
    ensures
        ({
            let (end, _) = symbols.step(EventView::Call).run(memory.model(), t);
            let bytes = memory.bytes(end.banner_gva, 256);
            &&& 0xffff_ffff_0005_a0c0 <= end.banner_gva <= 0xffff_ffff_0005_a0c0 + 0x10_0000 * idx
            &&& memory.readable(end.banner_gva, 256)
            &&& banner::banner_len(bytes) == Some(end.banner.len)
            &&& forall|i: int|
                0 <= i < end.banner.len ==> #[trigger] end.banner.bytes[i] == bytes[i]
        }),
{
    law_search_result(symbols, memory.model(), t);
    law_lowest_banner(memory, t + 1, 0);
    law_addresses(idx, 0);
    assert(banner_in(memory, idx) is Some);
    let found = first_banner(memory.model(), t + 1, 0).0.unwrap();
    law_addresses(found.idx, 0);
    let bytes = memory.bytes(candidate_gva(found.idx), 256);
    banner::law_banner_len(bytes);
    assert forall|i: int| 0 <= i < found.text.len() implies found.text[i] == bytes[i] by {}
}

} // verus!
