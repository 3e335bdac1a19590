//! What can be asked of a guest, what it can answer, and its address arithmetic.

use vstd::prelude::*;

verus! {

/// The size of a guest page in bytes.
pub const PAGE_SIZE: usize = 4096;

/// One question to the hypervisor about the guest.
#[derive(Clone, Copy, Debug, PartialEq, Eq, Structural)]
pub enum GuestRequest {
    /// The page table root that the virtual CPU runs on.
    ReadCr3,
    /// The guest physical address behind a guest virtual address, for a plain read.
    Translate { gva: u64 },
    /// Take the guest physical pages from `start` up to `end` into use.
    Accept { start: u64, end: u64 },
    /// The `len` bytes of guest physical memory from `gpa` on.
    Fetch { gpa: u64, len: usize },
}

/// The answer to one `GuestRequest`. An answer of the wrong sort, or with another number
/// of bytes than was asked for, counts as `Refused`.
#[derive(Debug)]
pub enum GuestReply {
    /// There is no such mapping, or the hypervisor could not do it.
    Refused,
    /// The page table root; zero when the guest has none yet.
    Cr3(u64),
    /// The guest physical address.
    Translated(u64),
    /// The pages may be used.
    Accepted,
    /// The bytes.
    Fetched(Vec<u8>),
}

/// The mathematical content of a `GuestReply`.
pub enum ReplyView {
    Refused,
    Cr3(u64),
    Translated(u64),
    Accepted,
    Fetched(Seq<u8>),
}

impl View for GuestReply {
    type V = ReplyView;

    open spec fn view(&self) -> ReplyView {
        match *self {
            GuestReply::Refused => ReplyView::Refused,
            GuestReply::Cr3(cr3) => ReplyView::Cr3(cr3),
            GuestReply::Translated(gpa) => ReplyView::Translated(gpa),
            GuestReply::Accepted => ReplyView::Accepted,
            GuestReply::Fetched(bytes) => ReplyView::Fetched(bytes@),
        }
    }
}

/// What wakes a task: a call from outside, or the answer to its last question.
#[derive(Debug)]
pub enum GuestEvent {
    Call,
    Reply(GuestReply),
}

/// The mathematical content of a `GuestEvent`.
pub enum EventView {
    Call,
    Reply(ReplyView),
}

impl View for GuestEvent {
    type V = EventView;

    open spec fn view(&self) -> EventView {
        match *self {
            GuestEvent::Call => EventView::Call,
            GuestEvent::Reply(reply) => EventView::Reply(reply@),
        }
    }
}

/// What a task wants next: an answer, or to hand back its result.
#[derive(Debug, PartialEq, Eq)]
pub enum Step<T> {
    Ask(GuestRequest),
    Done(T),
}

/// A guest as seen by one task: what it answers to the question asked at each moment.
/// Moments count the questions, so a guest may change between any two of them.
pub struct GuestModel {
    pub answers: spec_fn(nat, GuestRequest) -> ReplyView,
}

impl GuestModel {
    /// What the guest answers to `request` at moment `t`.
    pub open spec fn at(self, t: nat, request: GuestRequest) -> ReplyView {
        (self.answers)(t, request)
    }

    /// Whether the guest answers the same question alike at all moments.
    pub open spec fn still(self) -> bool {
        forall|t1: nat, t2: nat, request: GuestRequest|
            #[trigger] self.at(t1, request) == #[trigger] self.at(t2, request)
    }
}

/// A guest that stands still: its page tables, from virtual to physical page numbers; which
/// physical pages can be accepted, and which can be mapped to be read; and its physical
/// memory.
pub struct GuestMemory {
    pub cr3: u64,
    pub frame: spec_fn(int) -> Option<int>,
    pub accepted: spec_fn(int) -> bool,
    pub mappable: spec_fn(int) -> bool,
    pub byte: spec_fn(int) -> u8,
}

/// The address `i` behind `addr`; zero follows the last address.
#[verifier::opaque]
pub open spec fn address_behind(addr: u64, i: int) -> u64 {
    ((addr + i) % (u64::MAX + 1)) as u64
}

/// How many pages lie before the page boundary `end`; zero stands for the boundary behind
/// the last page.
pub open spec fn pages_before(end: u64) -> int {
    if end == 0 {
        0x10_0000_0000_0000
    } else {
        end as int / PAGE_SIZE as int
    }
}

impl GuestMemory {
    /// The physical address behind `gva`.
    pub open spec fn translate(self, gva: u64) -> Option<u64> {
        match (self.frame)(gva as int / PAGE_SIZE as int) {
            Some(frame) if 0 <= frame < 0x10_0000_0000_0000 => Some(
                (frame * PAGE_SIZE + page_offset(gva)) as u64,
            ),
            _ => None,
        }
    }

    /// Whether the physical pages from `start` up to `end` can all be accepted.
    pub open spec fn accepts(self, start: u64, end: u64) -> bool {
        forall|page: int|
            start as int / PAGE_SIZE as int <= page < pages_before(end) ==> #[trigger] (
            self.accepted)(page)
    }

    /// Whether all the physical pages that hold the `len` bytes from `gpa` on can be mapped.
    pub open spec fn maps(self, gpa: u64, len: nat) -> bool {
        forall|page: int|
            gpa as int / PAGE_SIZE as int <= page && page * PAGE_SIZE < gpa + len ==> #[trigger] (
            self.mappable)(page)
    }

    /// Whether a physical page can be read: it can be accepted and mapped.
    pub open spec fn usable(self, page: int) -> bool {
        (self.accepted)(page) && (self.mappable)(page)
    }

    /// The byte at virtual address `gva`, if the address is mapped and its physical page
    /// can be read.
    pub open spec fn virtual_byte(self, gva: u64) -> Option<u8> {
        match self.translate(gva) {
            Some(gpa) if self.usable(gpa as int / PAGE_SIZE as int) => Some(
                (self.byte)(gpa as int),
            ),
            _ => None,
        }
    }

    /// The byte `i` addresses behind virtual address `gva`; zero follows the last address.
    #[verifier::opaque]
    pub open spec fn byte_at(self, gva: u64, i: int) -> Option<u8> {
        self.virtual_byte(address_behind(gva, i))
    }

    /// Whether the byte at each of the `len` addresses from `gva` on can be read.
    pub open spec fn readable(self, gva: u64, len: nat) -> bool {
        forall|i: int| 0 <= i < len ==> (#[trigger] self.byte_at(gva, i)) is Some
    }

    /// The bytes at the `len` addresses from `gva` on.
    pub open spec fn bytes(self, gva: u64, len: nat) -> Seq<u8> {
        Seq::new(len, |i: int| self.byte_at(gva, i).unwrap())
    }

    /// What such a guest answers, at any moment.
    pub open spec fn model(self) -> GuestModel {
        GuestModel {
            answers: |t: nat, request: GuestRequest|
                match request {
                    GuestRequest::ReadCr3 => ReplyView::Cr3(self.cr3),
                    GuestRequest::Translate { gva } => match self.translate(gva) {
                        Some(gpa) => ReplyView::Translated(gpa),
                        None => ReplyView::Refused,
                    },
                    GuestRequest::Accept { start, end } => if self.accepts(start, end) {
                        ReplyView::Accepted
                    } else {
                        ReplyView::Refused
                    },
                    GuestRequest::Fetch { gpa, len } => if self.maps(gpa, len as nat) {
                        ReplyView::Fetched(Seq::new(len as nat, |i: int| (self.byte)(gpa + i)))
                    } else {
                        ReplyView::Refused
                    },
                },
        }
    }
}

/// The offset of an address within its page.
pub open spec fn page_offset(addr: u64) -> int {
    addr as int % PAGE_SIZE as int
}

/// The start of the page that holds `addr`.
pub open spec fn page_align(addr: u64) -> u64 {
    (addr - page_offset(addr)) as u64
}

/// The first page boundary at or after `addr`; past the last page it is zero.
pub open spec fn page_align_up(addr: u64) -> u64 {
    page_align(addr.wrapping_add((PAGE_SIZE - 1) as u64))
}

/// The start of the page that holds `addr`.
pub fn align_down(addr: u64) -> (res: u64)
    ensures
        res == page_align(addr),
{
    addr - addr % PAGE_SIZE as u64
}

/// The first page boundary at or after `addr`; past the last page it is zero.
pub fn align_up(addr: u64) -> (res: u64)
    ensures
        res == page_align_up(addr),
{
    align_down(addr.wrapping_add((PAGE_SIZE - 1) as u64))
}

/// An address lies less than a page behind the boundary below it and less than a page
/// before the one above it. On a boundary both are the address itself. Behind the last
/// boundary the one above is zero.
pub proof fn law_page_boundaries(addr: u64)
    ensures
        page_align(addr) % 4096 == 0,
        page_align(addr) <= addr < page_align(addr) + 4096,
        page_align_up(addr) % 4096 == 0,
        addr <= u64::MAX - 4095 ==> addr <= page_align_up(addr) < addr + 4096,
        addr > u64::MAX - 4095 ==> page_align_up(addr) == 0,
        addr % 4096 == 0 ==> page_align(addr) == addr && page_align_up(addr) == addr,
{
}

/// A guest is asked what it answers at the moment of the question.
pub proof fn law_guest_answers(guest: GuestModel, t: nat, request: GuestRequest)
    ensures
        guest.at(t, request) == (guest.answers)(t, request),
{
}

/// An event counts for what it is: a call, or the answer that it carries, whatever the
/// address or the bytes in it.
pub proof fn law_event_content(event: GuestEvent, reply: GuestReply)
    ensures
        event is Call <==> event@ is Call,
        event matches GuestEvent::Reply(inner) ==> event@ == EventView::Reply(inner@),
        reply is Refused <==> reply@ is Refused,
        reply is Accepted <==> reply@ is Accepted,
        reply matches GuestReply::Cr3(cr3) ==> reply@ == ReplyView::Cr3(cr3),
        reply matches GuestReply::Translated(gpa) ==> reply@ == ReplyView::Translated(gpa),
        reply matches GuestReply::Fetched(bytes) ==> reply@ == ReplyView::Fetched(bytes@),
{
}

} // verus!
