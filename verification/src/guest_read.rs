//! Reading guest virtual memory, one page at a time.

use vstd::prelude::*;
use crate::guest_mem;
use crate::guest_mem::{
    align_down, align_up, EventView, GuestEvent, GuestMemory, GuestModel, GuestReply, GuestRequest,
    ReplyView, Step, PAGE_SIZE,
};

verus! {

/// How far the read of the current page has come.
#[derive(Clone, Copy, Debug, PartialEq, Eq, Structural)]
pub enum ReadPhase {
    Translate,
    Accept { gpa: u64 },
    Fetch { gpa: u64 },
    Failed,
}

/// A read of guest virtual memory into a buffer: the task behind
/// `read_guest_virt_slice`. The first `offset` bytes of the buffer have been read, and
/// the byte after them lies at `gva`. Guest virtual addresses are machine words: the
/// one after the last is zero.
pub struct GuestRead {
    gva: u64,
    buf: Vec<u8>,
    offset: usize,
    phase: ReadPhase,
}

/// The mathematical content of a `GuestRead`.
pub struct ReadState {
    pub gva: u64,
    pub buf: Seq<u8>,
    pub offset: nat,
    pub phase: ReadPhase,
}

impl View for GuestRead {
    type V = ReadState;

    closed spec fn view(&self) -> ReadState {
        ReadState { gva: self.gva, buf: self.buf@, offset: self.offset as nat, phase: self.phase }
    }
}

impl ReadState {
    /// The read of `buf.len()` bytes from `gva` on, before its first question.
    pub open spec fn new(gva: u64, buf: Seq<u8>) -> ReadState {
        ReadState { gva, buf, offset: 0, phase: ReadPhase::Translate }
    }

    /// The read of `len` bytes from `gva` on into a buffer of zeros.
    pub open spec fn zeroed(gva: u64, len: nat) -> ReadState {
        ReadState::new(gva, Seq::new(len, |i: int| 0u8))
    }

    /// How many bytes the current page gives: as many as are wanted and the page has.
    pub open spec fn chunk(self) -> int {
        chunk_len(self.gva, self.buf.len() - self.offset)
    }

    /// The next question, or whether the whole buffer was read.
    pub open spec fn pending(self) -> Step<Option<()>> {
        if self.phase is Failed {
            Step::Done(None)
        } else if self.offset >= self.buf.len() {
            Step::Done(Some(()))
        } else {
            Step::Ask(
                match self.phase {
                    ReadPhase::Accept { gpa } => accept_request(gpa, self.chunk()),
                    ReadPhase::Fetch { gpa } => GuestRequest::Fetch {
                        gpa,
                        len: self.chunk() as usize,
                    },
                    _ => GuestRequest::Translate { gva: self.gva },
                },
            )
        }
    }

    /// The read after `reply`.
    pub open spec fn after(self, reply: ReplyView) -> ReadState {
        if self.pending() is Done {
            self
        } else {
            match (self.phase, reply) {
                (ReadPhase::Translate, ReplyView::Translated(gpa)) => ReadState {
                    phase: ReadPhase::Accept { gpa },
                    ..self
                },
                (ReadPhase::Accept { gpa }, ReplyView::Accepted) => ReadState {
                    phase: ReadPhase::Fetch { gpa },
                    ..self
                },
                (ReadPhase::Fetch { gpa }, ReplyView::Fetched(bytes)) if bytes.len()
                    == self.chunk() => self.with_page(bytes),
                _ => ReadState { phase: ReadPhase::Failed, ..self },
            }
        }
    }

    /// The read behind the `bytes` of the current page.
    pub open spec fn with_page(self, bytes: Seq<u8>) -> ReadState {
        ReadState {
            gva: self.gva.wrapping_add(bytes.len() as u64),
            buf: overwrite(self.buf, self.offset as int, bytes),
            offset: self.offset + bytes.len(),
            phase: ReadPhase::Translate,
        }
    }

    /// The read after `event`; a call changes nothing and asks the same question again.
    pub open spec fn step(self, event: EventView) -> ReadState {
        match event {
            EventView::Call => self,
            EventView::Reply(reply) => self.after(reply),
        }
    }

    /// The result of a task that reads these bytes for the sake of `value`.
    pub open spec fn word<T>(self, value: T) -> Step<Option<T>> {
        match self.pending() {
            Step::Ask(request) => Step::Ask(request),
            Step::Done(None) => Step::Done(None),
            Step::Done(Some(_)) => Step::Done(Some(value)),
        }
    }
}

/// How many of `remaining` bytes from `gva` on lie on its page.
pub open spec fn chunk_len(gva: u64, remaining: int) -> int {
    let on_page = PAGE_SIZE - guest_mem::page_offset(gva);
    if remaining < on_page {
        remaining
    } else {
        on_page
    }
}

/// The request for the physical pages that hold the `chunk` bytes from `gpa` on.
pub open spec fn accept_request(gpa: u64, chunk: int) -> GuestRequest {
    GuestRequest::Accept {
        start: guest_mem::page_align(gpa),
        end: guest_mem::page_align_up(gpa.wrapping_add(chunk as u64)),
    }
}

/// `buf` with `bytes` written over it from `offset` on.
pub open spec fn overwrite(buf: Seq<u8>, offset: int, bytes: Seq<u8>) -> Seq<u8> {
    buf.take(offset) + bytes + buf.skip(offset + bytes.len())
}

impl GuestRead {
    #[verifier::type_invariant]
    spec fn inv(self) -> bool {
        self.offset <= self.buf@.len()
    }

    /// A read of as many bytes from `gva` on as `buf` holds.
    pub fn new(gva: u64, buf: Vec<u8>) -> (res: GuestRead)
        ensures
            res@ == ReadState::new(gva, buf@),
    {
        GuestRead { gva, buf, offset: 0, phase: ReadPhase::Translate }
    }

    /// A read of `len` bytes from `gva` on.
    pub fn zeroed(gva: u64, len: usize) -> (res: GuestRead)
        ensures
            res@ == ReadState::zeroed(gva, len as nat),
    {
        let buf: Vec<u8> = vec![0u8; len];
        assert(buf@ =~= Seq::new(len as nat, |i: int| 0u8));
        GuestRead::new(gva, buf)
    }

    /// The buffer: what was read, and behind it what the buffer held before.
    pub fn buf(&self) -> (res: &[u8])
        ensures
            res@ == self@.buf,
    {
        self.buf.as_slice()
    }

    fn chunk(&self) -> (res: usize)
        requires
            self@.offset < self@.buf.len(),
        ensures
            res == self@.chunk(),
            0 < res <= self@.buf.len() - self@.offset,
            res <= PAGE_SIZE,
    {
        let remaining: usize = self.buf.len() - self.offset;
        let on_page: usize = PAGE_SIZE - (self.gva % PAGE_SIZE as u64) as usize;
        if remaining < on_page {
            remaining
        } else {
            on_page
        }
    }

    fn pending(&self) -> (res: Step<Option<()>>)
        ensures
            res == self@.pending(),
    {
        if let ReadPhase::Failed = self.phase {
            return Step::Done(None);
        }
        if self.offset >= self.buf.len() {
            return Step::Done(Some(()));
        }
        let chunk: usize = self.chunk();
        match self.phase {
            ReadPhase::Accept { gpa } => Step::Ask(
                GuestRequest::Accept {
                    start: align_down(gpa),
                    end: align_up(gpa.wrapping_add(chunk as u64)),
                },
            ),
            ReadPhase::Fetch { gpa } => Step::Ask(GuestRequest::Fetch { gpa, len: chunk }),
            _ => Step::Ask(GuestRequest::Translate { gva: self.gva }),
        }
    }

    fn after(self, reply: GuestReply) -> (res: GuestRead)
        ensures
            res@ == self@.after(reply@),
    {
        proof {
            use_type_invariant(&self);
        }
        if let Step::Done(_) = self.pending() {
            return self;
        }
        let chunk: usize = self.chunk();
        let GuestRead { gva, buf, offset, phase } = self;
        match (phase, reply) {
            (ReadPhase::Translate, GuestReply::Translated(gpa)) => GuestRead {
                gva,
                buf,
                offset,
                phase: ReadPhase::Accept { gpa },
            },
            (ReadPhase::Accept { gpa }, GuestReply::Accepted) => GuestRead {
                gva,
                buf,
                offset,
                phase: ReadPhase::Fetch { gpa },
            },
            (ReadPhase::Fetch { gpa: _ }, GuestReply::Fetched(bytes)) if bytes.len() == chunk => {
                let buf = write_over(buf, offset, &bytes);
                let len: usize = buf.len();
                assert(offset + chunk <= len);
                GuestRead {
                    gva: gva.wrapping_add(chunk as u64),
                    buf,
                    offset: offset + chunk,
                    phase: ReadPhase::Translate,
                }
            },
            _ => GuestRead { gva, buf, offset, phase: ReadPhase::Failed },
        }
    }
}

/// `buf` with `bytes` written over it from `offset` on.
fn write_over(buf: Vec<u8>, offset: usize, bytes: &Vec<u8>) -> (res: Vec<u8>)
    requires
        offset + bytes@.len() <= buf@.len(),
    ensures
        res@ == overwrite(buf@, offset as int, bytes@),
{
    let len: usize = buf.len();
    let mut res: Vec<u8> = buf;
    let mut i: usize = 0;
    while i < bytes.len()
        invariant
            i <= bytes@.len(),
            len == buf@.len(),
            offset + bytes@.len() <= buf@.len(),
            res@.len() == buf@.len(),
            forall|j: int| 0 <= j < i ==> res@[offset + j] == bytes@[j],
            forall|j: int|
                0 <= j < buf@.len() && !(offset <= j < offset + i) ==> res@[j] == buf@[j],
        decreases bytes@.len() - i,
    {
        res[offset + i] = bytes[i];
        i = i + 1;
    }
    assert(res@ =~= overwrite(buf@, offset as int, bytes@)) by {
        assert forall|k: int| 0 <= k < buf@.len() implies res@[k] == overwrite(
            buf@,
            offset as int,
            bytes@,
        )[k] by {
            if offset <= k < offset + bytes@.len() {
                assert(res@[offset + (k - offset)] == bytes@[k - offset]);
            }
        }
    }
    res
}

/// Reads guest virtual memory from the read's address on until its buffer is full. Each
/// page that the range touches is translated, accepted and fetched in turn; the read
/// fails as soon as one of these is refused.
pub fn read_guest_virt_slice(read: GuestRead, event: GuestEvent) -> (res: (
    GuestRead,
    Step<Option<()>>,
))
    ensures
        res.0@ == read@.step(event@),
        res.1 == res.0@.pending(),
{
    let next = match event {
        GuestEvent::Call => read,
        GuestEvent::Reply(reply) => read.after(reply),
    };
    let step = next.pending();
    (next, step)
}

impl ReadState {
    /// An upper bound on the questions that the read will still ask.
    pub open spec fn measure(self) -> nat {
        if self.pending() is Done {
            0
        } else {
            (3 * (self.buf.len() - self.offset) - match self.phase {
                ReadPhase::Accept { gpa } => 1int,
                ReadPhase::Fetch { gpa } => 2int,
                _ => 0int,
            }) as nat
        }
    }

    /// Where the read ends up, and when, if `guest` answers from moment `t` on.
    pub open spec fn run(self, guest: GuestModel, t: nat) -> (ReadState, nat)
        decreases self.measure(),
    {
        match self.pending() {
            Step::Ask(request) => {
                proof {
                    self.lemma_after(guest.at(t, request));
                }
                self.after(guest.at(t, request)).run(guest, t + 1)
            },
            Step::Done(_) => (self, t),
        }
    }

    /// Each answer keeps the length of the buffer and brings the read nearer its end.
    pub proof fn lemma_after(self, reply: ReplyView)
        requires
            self.pending() is Ask,
        ensures
            self.after(reply).buf.len() == self.buf.len(),
            self.after(reply).measure() < self.measure(),
    {
    }
}

/// The `len` bytes of guest virtual memory from `gva` on, all on one page, if `guest`
/// gives them from moment `t` on; and the moment after.
pub open spec fn page_slice(guest: GuestModel, t: nat, gva: u64, len: int) -> (
    Option<Seq<u8>>,
    nat,
) {
    match guest.at(t, GuestRequest::Translate { gva }) {
        ReplyView::Translated(gpa) => match guest.at(t + 1, accept_request(gpa, len)) {
            ReplyView::Accepted => match guest.at(
                t + 2,
                GuestRequest::Fetch { gpa, len: len as usize },
            ) {
                ReplyView::Fetched(bytes) if bytes.len() == len => (Some(bytes), t + 3),
                _ => (None, t + 3),
            },
            _ => (None, t + 2),
        },
        _ => (None, t + 1),
    }
}

/// The `len` bytes of guest virtual memory from `gva` on, if `guest` gives them page by
/// page from moment `t` on; and the moment after.
pub open spec fn guest_slice(guest: GuestModel, t: nat, gva: u64, len: nat) -> (
    Option<Seq<u8>>,
    nat,
)
    decreases len,
{
    if len == 0 {
        (Some(Seq::empty()), t)
    } else {
        let chunk = chunk_len(gva, len as int);
        match page_slice(guest, t, gva, chunk) {
            (Some(bytes), t1) => {
                match guest_slice(
                    guest,
                    t1,
                    gva.wrapping_add(chunk as u64),
                    (len - chunk) as nat,
                ) {
                    (Some(rest), t2) => (Some(bytes + rest), t2),
                    (None, t2) => (None, t2),
                }
            },
            (None, t1) => (None, t1),
        }
    }
}

/// How many of the `len` bytes from `gva` on `guest` gives before it refuses a page; all of
/// them when it refuses none.
pub open spec fn given_len(guest: GuestModel, t: nat, gva: u64, len: nat) -> nat
    decreases len,
{
    if len == 0 {
        0
    } else {
        let chunk = chunk_len(gva, len as int);
        match page_slice(guest, t, gva, chunk) {
            (Some(bytes), t1) => chunk as nat + given_len(
                guest,
                t1,
                gva.wrapping_add(chunk as u64),
                (len - chunk) as nat,
            ),
            (None, t1) => 0,
        }
    }
}

/// The bytes that `guest` gives before it refuses a page.
pub open spec fn given_bytes(guest: GuestModel, t: nat, gva: u64, len: nat) -> Seq<u8> {
    guest_slice(guest, t, gva, given_len(guest, t, gva, len)).0.unwrap()
}

/// Addresses can be counted on from any address between.
proof fn lemma_address_behind(addr: u64, skip: int, i: int)
    requires
        0 <= skip <= PAGE_SIZE,
        0 <= i,
    ensures
        guest_mem::address_behind(addr.wrapping_add(skip as u64), i) == guest_mem::address_behind(
            addr,
            skip + i,
        ),
{
    reveal(guest_mem::address_behind);
    let next = addr.wrapping_add(skip as u64);
    if next != addr + skip {
        assert(next + i + (u64::MAX + 1) == addr + (skip + i));
        vstd::arithmetic::div_mod::lemma_mod_add_multiples_vanish(next + i, u64::MAX + 1);
    }
}

/// No address behind an address is the address itself.
proof fn lemma_address_here(addr: u64)
    ensures
        guest_mem::address_behind(addr, 0) == addr,
{
    reveal(guest_mem::address_behind);
}

/// What the page of an address has from there on ends on a page boundary.
proof fn lemma_next_page(gva: u64)
    ensures
        guest_mem::page_offset(
            gva.wrapping_add((PAGE_SIZE - guest_mem::page_offset(gva)) as u64),
        ) == 0,
{
}

/// The bytes given of a range whose first page is given are those of that page, and those
/// given of the rest.
proof fn lemma_given_page(guest: GuestModel, t: nat, gva: u64, len: nat)
    requires
        len > 0,
        page_slice(guest, t, gva, chunk_len(gva, len as int)).0 is Some,
    ensures
        ({
            let chunk = chunk_len(gva, len as int);
            let (bytes, t1) = page_slice(guest, t, gva, chunk);
            let next = gva.wrapping_add(chunk as u64);
            let left = (len - chunk) as nat;
            let k = given_len(guest, t1, next, left);
            let (later, t2) = guest_slice(guest, t1, next, k);
            &&& given_len(guest, t, gva, len) == chunk + k
            &&& bytes.unwrap().len() == chunk
            &&& guest_slice(guest, t, gva, (chunk + k) as nat) == match later {
                Some(later) => (Some(bytes.unwrap() + later), t2),
                None => (None, t2),
            }
        }),
{
    let chunk = chunk_len(gva, len as int);
    let (bytes, t1) = page_slice(guest, t, gva, chunk);
    let next = gva.wrapping_add(chunk as u64);
    let k = given_len(guest, t1, next, (len - chunk) as nat);
    if len == chunk {
        assert(k == 0);
    }
    assert(chunk_len(gva, chunk + k) == chunk);
    assert(((chunk + k) as nat - chunk) as nat == k);
}

/// Before a page is refused, the bytes of all pages before it are given, and it begins
/// where they end: at the first address, or on a page boundary.
pub proof fn law_refused_page(guest: GuestModel, t: nat, gva: u64, len: nat)
    ensures
        ({
            let k = given_len(guest, t, gva, len);
            let (given, t1) = guest_slice(guest, t, gva, k);
            let (bytes, t2) = guest_slice(guest, t, gva, len);
            let refused = guest_mem::address_behind(gva, k as int);
            &&& k <= len
            &&& given matches Some(given) && given.len() == k
            &&& bytes is Some <==> k == len
            &&& bytes is None ==> {
                &&& k == 0 || guest_mem::page_offset(refused) == 0
                &&& page_slice(guest, t1, refused, chunk_len(refused, len - k)) == (
                    None::<Seq<u8>>,
                    t2,
                )
            }
        }),
    decreases len,
{
    if len != 0 {
        let chunk = chunk_len(gva, len as int);
        let (bytes, t1) = page_slice(guest, t, gva, chunk);
        if let Some(bytes) = bytes {
            let next = gva.wrapping_add(chunk as u64);
            let left = (len - chunk) as nat;
            law_refused_page(guest, t1, next, left);
            let k = given_len(guest, t1, next, left);
            lemma_given_page(guest, t, gva, len);
            lemma_address_behind(gva, chunk, k as int);
            if k == 0 && left > 0 {
                lemma_next_page(gva);
                lemma_address_here(next);
            }
        } else {
            lemma_address_here(gva);
        }
    }
}

/// The three questions of one page: either the read goes on behind the page's bytes, or
/// it has failed.
proof fn lemma_run_page(read: ReadState, guest: GuestModel, t: nat)
    requires
        read.phase is Translate,
        read.offset < read.buf.len(),
    ensures
        ({
            let (bytes, t1) = page_slice(guest, t, read.gva, read.chunk());
            match bytes {
                Some(bytes) => {
                    &&& bytes.len() == read.chunk()
                    &&& read.run(guest, t) == read.with_page(bytes).run(guest, t1)
                },
                None => read.run(guest, t) == (
                    ReadState { phase: read.run(guest, t).0.phase, ..read },
                    t1,
                ) && read.run(guest, t).0.phase is Failed,
            }
        }),
{
    let translate = GuestRequest::Translate { gva: read.gva };
    let reply = guest.at(t, translate);
    let asked = read.after(reply);
    assert(read.run(guest, t) == asked.run(guest, t + 1));
    if let ReplyView::Translated(gpa) = reply {
        let accept = accept_request(gpa, read.chunk());
        assert(asked.pending() == Step::<Option<()>>::Ask(accept));
        let reply = guest.at(t + 1, accept);
        let accepted = asked.after(reply);
        assert(asked.run(guest, t + 1) == accepted.run(guest, t + 2));
        if reply is Accepted {
            let fetch = GuestRequest::Fetch { gpa, len: read.chunk() as usize };
            assert(accepted.pending() == Step::<Option<()>>::Ask(fetch));
            let reply = guest.at(t + 2, fetch);
            assert(accepted.run(guest, t + 2) == accepted.after(reply).run(guest, t + 3));
        }
    }
}

/// A read that runs to its end gives the bytes that `guest_slice` describes, behind those
/// it already had; it fails exactly when there are none.
proof fn lemma_run(read: ReadState, guest: GuestModel, t: nat)
    requires
        read.phase is Translate,
        read.offset <= read.buf.len(),
    ensures
        ({
            let (end, t1) = read.run(guest, t);
            let (bytes, t2) = guest_slice(
                guest,
                t,
                read.gva,
                (read.buf.len() - read.offset) as nat,
            );
            &&& t1 == t2
            &&& end.buf.len() == read.buf.len()
            &&& match bytes {
                Some(bytes) => {
                    &&& end.pending() == Step::Done(Some(()))
                    &&& bytes.len() == read.buf.len() - read.offset
                    &&& end.buf == read.buf.take(read.offset as int) + bytes
                },
                None => end.pending() == Step::<Option<()>>::Done(None),
            }
        }),
    decreases read.buf.len() - read.offset,
{
    if read.offset == read.buf.len() {
        assert(read.buf.take(read.offset as int) + Seq::empty() =~= read.buf);
    } else {
        lemma_run_page(read, guest, t);
        let (bytes, t1) = page_slice(guest, t, read.gva, read.chunk());
        if let Some(bytes) = bytes {
            let next = read.with_page(bytes);
            lemma_run(next, guest, t1);
            let (rest, _) = guest_slice(
                guest,
                t1,
                next.gva,
                (next.buf.len() - next.offset) as nat,
            );
            if let Some(rest) = rest {
                assert(next.buf.take(next.offset as int) + rest =~= read.buf.take(
                    read.offset as int,
                ) + (bytes + rest));
            }
        }
    }
}

/// Bytes written one behind the other are as if they had been written at once.
proof fn lemma_overwrite(buf: Seq<u8>, offset: int, bytes: Seq<u8>, more: Seq<u8>)
    requires
        0 <= offset,
        offset + bytes.len() + more.len() <= buf.len(),
    ensures
        overwrite(overwrite(buf, offset, bytes), offset + bytes.len(), more) == overwrite(
            buf,
            offset,
            bytes + more,
        ),
{
    assert(overwrite(overwrite(buf, offset, bytes), offset + bytes.len(), more) =~= overwrite(
        buf,
        offset,
        bytes + more,
    ));
}

/// A read that fails leaves the bytes given before the refusal behind those it already
/// had, and the rest of its buffer as it was.
proof fn lemma_run_refused(read: ReadState, guest: GuestModel, t: nat)
    requires
        read.phase is Translate,
        read.offset <= read.buf.len(),
        guest_slice(guest, t, read.gva, (read.buf.len() - read.offset) as nat).0 is None,
    ensures
        read.run(guest, t).0.buf == overwrite(
            read.buf,
            read.offset as int,
            given_bytes(guest, t, read.gva, (read.buf.len() - read.offset) as nat),
        ),
    decreases read.buf.len() - read.offset,
{
    let left = (read.buf.len() - read.offset) as nat;
    let chunk = read.chunk();
    lemma_run_page(read, guest, t);
    let (bytes, t1) = page_slice(guest, t, read.gva, chunk);
    if let Some(bytes) = bytes {
        let next = read.with_page(bytes);
        let rest = (left - chunk) as nat;
        assert((next.buf.len() - next.offset) as nat == rest);
        lemma_run_refused(next, guest, t1);
        lemma_given_page(guest, t, read.gva, left);
        law_refused_page(guest, t1, next.gva, rest);
        let later = given_bytes(guest, t1, next.gva, rest);
        lemma_overwrite(read.buf, read.offset as int, bytes, later);
    } else {
        assert(overwrite(read.buf, read.offset as int, Seq::empty()) =~= read.buf);
    }
}

/// A read driven to its end fills its buffer with the guest's bytes, or fails exactly
/// when the guest refuses one of its pages. A read that fails leaves in its buffer the
/// bytes of the pages before the one refused, and behind them what the buffer held.
pub proof fn law_read_guest_virt_slice(gva: u64, buf: Seq<u8>, guest: GuestModel, t: nat)
    ensures
        ({
            let (end, t1) = ReadState::new(gva, buf).run(guest, t);
            let (bytes, t2) = guest_slice(guest, t, gva, buf.len());
            &&& t1 == t2
            &&& end.buf.len() == buf.len()
            &&& match bytes {
                Some(bytes) => end.pending() == Step::Done(Some(())) && end.buf == bytes,
                None => {
                    let k = given_len(guest, t, gva, buf.len());
                    let (given, t3) = guest_slice(guest, t, gva, k);
                    let refused = guest_mem::address_behind(gva, k as int);
                    &&& end.pending() == Step::<Option<()>>::Done(None)
                    &&& k < buf.len()
                    &&& k == 0 || guest_mem::page_offset(refused) == 0
                    &&& given matches Some(given) && end.buf == given + buf.skip(k as int)
                    &&& page_slice(guest, t3, refused, chunk_len(refused, buf.len() - k)) == (
                        None::<Seq<u8>>,
                        t2,
                    )
                },
            }
        }),
{
    law_refused_page(guest, t, gva, buf.len());
    lemma_run(ReadState::new(gva, buf), guest, t);
    let bytes = guest_slice(guest, t, gva, buf.len()).0;
    if let Some(bytes) = bytes {
        assert(buf.take(0) + bytes =~= bytes);
    } else {
        lemma_run_refused(ReadState::new(gva, buf), guest, t);
        let given = given_bytes(guest, t, gva, buf.len());
        assert(overwrite(buf, 0, given) =~= given + buf.skip(given.len() as int));
    }
}

/// A read asks no more than three questions for each byte of its buffer.
pub proof fn law_read_ends(read: ReadState, guest: GuestModel, t: nat)
    ensures
        read.run(guest, t).0.pending() is Done,
        t <= read.run(guest, t).1 <= t + read.measure(),
        read.run(guest, t).0.buf.len() == read.buf.len(),
        read.measure() <= 3 * read.buf.len(),
    decreases read.measure(),
{
    if let Step::Ask(request) = read.pending() {
        read.lemma_after(guest.at(t, request));
        law_read_ends(read.after(guest.at(t, request)), guest, t + 1);
    }
}

/// The addresses from `gva` on that lie on its page lie on one physical page.
proof fn lemma_same_page(memory: GuestMemory, gva: u64, i: int)
    requires
        0 <= i < PAGE_SIZE - guest_mem::page_offset(gva),
    ensures
        memory.byte_at(gva, i) == match memory.translate(gva) {
            Some(gpa) if memory.usable(gpa as int / PAGE_SIZE as int) => Some(
                (memory.byte)(gpa + i),
            ),
            _ => None,
        },
{
    reveal(GuestMemory::byte_at);
    reveal(guest_mem::address_behind);
    let addr = (gva + i) as u64;
    assert(gva + i <= u64::MAX);
    assert(addr as int / PAGE_SIZE as int == gva as int / PAGE_SIZE as int);
    assert(guest_mem::page_offset(addr) == guest_mem::page_offset(gva) + i);
}

/// The byte behind an address can be counted on from any address between.
proof fn lemma_later_byte(memory: GuestMemory, gva: u64, skip: int, i: int)
    requires
        0 <= skip <= PAGE_SIZE,
        0 <= i,
    ensures
        memory.byte_at(gva.wrapping_add(skip as u64), i) == memory.byte_at(gva, skip + i),
{
    reveal(GuestMemory::byte_at);
    lemma_address_behind(gva, skip, i);
}

/// Bytes on one physical page can be had exactly when that page can be accepted and mapped.
proof fn lemma_usable_page(memory: GuestMemory, gpa: u64, chunk: int)
    requires
        0 < chunk <= PAGE_SIZE - guest_mem::page_offset(gpa),
    ensures
        ({
            let page = gpa as int / PAGE_SIZE as int;
            &&& accept_request(gpa, chunk) matches GuestRequest::Accept { start, end }
            &&& memory.accepts(start, end) == (memory.accepted)(page)
            &&& memory.maps(gpa, chunk as nat) == (memory.mappable)(page)
        }),
{
    let page = gpa as int / PAGE_SIZE as int;
    let start = guest_mem::page_align(gpa);
    let end = guest_mem::page_align_up(gpa.wrapping_add(chunk as u64));
    assert(start == page * PAGE_SIZE);
    assert(guest_mem::pages_before(end) == page + 1);
    assert(memory.accepts(start, end) == (memory.accepted)(page)) by {
        if (memory.accepted)(page) {
            assert forall|other: int|
                start as int / PAGE_SIZE as int <= other < guest_mem::pages_before(
                    end,
                ) implies #[trigger] (memory.accepted)(other) by {
                assert(other == page);
            }
        }
    }
    assert(memory.maps(gpa, chunk as nat) == (memory.mappable)(page)) by {
        if (memory.mappable)(page) {
            assert forall|other: int|
                page <= other && other * PAGE_SIZE < gpa + chunk implies #[trigger] (
            memory.mappable)(other) by {
                assert(other == page);
            }
        }
    }
}

/// What a guest that stands still gives of one page.
proof fn lemma_page_of_memory(memory: GuestMemory, t: nat, gva: u64, chunk: int)
    requires
        0 < chunk <= PAGE_SIZE - guest_mem::page_offset(gva),
    ensures
        page_slice(memory.model(), t, gva, chunk).0 == match memory.translate(gva) {
            Some(gpa) if memory.usable(gpa as int / PAGE_SIZE as int) => Some(
                Seq::new(chunk as nat, |i: int| (memory.byte)(gpa + i)),
            ),
            _ => None,
        },
{
    if let Some(gpa) = memory.translate(gva) {
        assert(guest_mem::page_offset(gpa) == guest_mem::page_offset(gva));
        lemma_usable_page(memory, gpa, chunk);
    }
}

/// Of a guest that stands still, a read gives back exactly the bytes that its memory
/// holds, and fails exactly when one of their addresses is not mapped or lies on a page that
/// cannot be accepted or mapped.
pub proof fn law_read_gives_memory(memory: GuestMemory, t: nat, gva: u64, len: nat)
    ensures
        guest_slice(memory.model(), t, gva, len).0 == if memory.readable(gva, len) {
            Some(memory.bytes(gva, len))
        } else {
            None
        },
    decreases len,
{
    if len == 0 {
        assert(memory.bytes(gva, len) =~= Seq::empty());
    } else {
        let chunk = chunk_len(gva, len as int);
        let (bytes, t1) = page_slice(memory.model(), t, gva, chunk);
        let next = gva.wrapping_add(chunk as u64);
        let left = (len - chunk) as nat;
        law_read_gives_memory(memory, t1, next, left);
        lemma_page_of_memory(memory, t, gva, chunk);
        assert forall|i: int| 0 <= i < chunk implies (#[trigger] memory.byte_at(gva, i))
            == match bytes {
            Some(bytes) => Some(bytes[i]),
            None => None,
        } by {
            lemma_same_page(memory, gva, i);
        }
        if bytes is None {
            assert(memory.byte_at(gva, 0) is None);
        } else {
            assert forall|i: int| 0 <= i < left implies (#[trigger] memory.byte_at(next, i))
                == memory.byte_at(gva, chunk + i) by {
                lemma_later_byte(memory, gva, chunk, i);
            }
            if memory.readable(gva, len) {
                assert(bytes.unwrap() + memory.bytes(next, left) =~= memory.bytes(gva, len));
            } else {
                let i = choose|i: int| 0 <= i < len && (#[trigger] memory.byte_at(gva, i)) is None;
                assert(memory.byte_at(next, i - chunk) is None);
            }
        }
    }
}

/// A guest that does not change gives the same bytes at every moment.
pub proof fn lemma_slice_still(guest: GuestModel, t1: nat, t2: nat, gva: u64, len: nat)
    requires
        guest.still(),
    ensures
        guest_slice(guest, t1, gva, len).0 == guest_slice(guest, t2, gva, len).0,
    decreases len,
{
    if len != 0 {
        let chunk = chunk_len(gva, len as int);
        let (bytes, a) = page_slice(guest, t1, gva, chunk);
        let (same, b) = page_slice(guest, t2, gva, chunk);
        assert(bytes == same);
        lemma_slice_still(guest, a, b, gva.wrapping_add(chunk as u64), (len - chunk) as nat);
    }
}

/// A new read has its whole buffer before it. One that brings no buffer reads into zeros.
pub proof fn law_new_read(gva: u64, buf: Seq<u8>, len: nat)
    ensures
        ({
            let read = ReadState::new(gva, buf);
            &&& read.gva == gva
            &&& read.buf == buf
            &&& read.offset == 0
            &&& read.phase is Translate
        }),
        ({
            let read = ReadState::zeroed(gva, len);
            &&& read.gva == gva
            &&& read.buf.len() == len
            &&& forall|i: int| 0 <= i < len ==> read.buf[i] == 0
            &&& read.offset == 0
            &&& read.phase is Translate
        }),
{
}

/// What a read asks for its current page, and what it makes of the answers. The `n` bytes
/// that are wanted of the page are those up to its end or the end of the buffer. The
/// address of the first is translated; the physical page behind it is accepted, from the
/// boundary below to the boundary above; then the bytes are fetched and put behind those
/// that were read before, and nothing else in the buffer changes. Any answer that does not
/// fit the question ends the read.
pub proof fn law_read_protocol(read: ReadState, reply: ReplyView, n: int)
    requires
        read.offset < read.buf.len(),
        !(read.phase is Failed),
        0 < n <= read.buf.len() - read.offset,
        n <= 4096 - read.gva % 4096,
        n == read.buf.len() - read.offset || n == 4096 - read.gva % 4096,
    ensures
        ({
            let next = read.after(reply);
            let failed = ReadState { phase: ReadPhase::Failed, ..read };
            match read.phase {
                ReadPhase::Translate => {
                    &&& read.pending() == Step::<Option<()>>::Ask(
                        GuestRequest::Translate { gva: read.gva },
                    )
                    &&& next == match reply {
                        ReplyView::Translated(gpa) => ReadState {
                            phase: ReadPhase::Accept { gpa },
                            ..read
                        },
                        _ => failed,
                    }
                },
                ReadPhase::Accept { gpa } => {
                    &&& read.pending() matches Step::Ask(GuestRequest::Accept { start, end })
                    &&& start % 4096 == 0 && start <= gpa < start + 4096
                    &&& end % 4096 == 0
                    &&& gpa + n <= u64::MAX - 4095 ==> gpa + n <= end < gpa + n + 4096
                    &&& u64::MAX - 4095 < gpa + n <= u64::MAX + 1 ==> end == 0
                    &&& gpa + n > u64::MAX + 1 ==> gpa + n <= end + (u64::MAX + 1) < gpa + n + 4096
                    &&& next == match reply {
                        ReplyView::Accepted => ReadState {
                            phase: ReadPhase::Fetch { gpa },
                            ..read
                        },
                        _ => failed,
                    }
                },
                ReadPhase::Fetch { gpa } => {
                    &&& read.pending() matches Step::Ask(GuestRequest::Fetch { gpa: from, len })
                    &&& from == gpa && len == n
                    &&& match reply {
                        ReplyView::Fetched(bytes) if bytes.len() == n => {
                            &&& next.phase is Translate
                            &&& next.offset == read.offset + n
                            &&& next.gva == read.gva + n || next.gva == read.gva + n - u64::MAX - 1
                            &&& next.buf.len() == read.buf.len()
                            &&& forall|i: int|
                                #![trigger next.buf[i]]
                                0 <= i < read.buf.len() ==> next.buf[i] == if read.offset <= i
                                    < read.offset + n {
                                    bytes[i - read.offset]
                                } else {
                                    read.buf[i]
                                }
                        },
                        _ => next == failed,
                    }
                },
                ReadPhase::Failed => false,
            }
        }),
{
    guest_mem::law_page_boundaries(read.gva);
    if let ReadPhase::Accept { gpa } = read.phase {
        guest_mem::law_page_boundaries(gpa);
        guest_mem::law_page_boundaries(gpa.wrapping_add(n as u64));
    }
}

/// A read that is over stays so: it has failed, or its buffer is full, and it asks nothing.
pub proof fn law_read_over(read: ReadState, reply: ReplyView)
    ensures
        read.phase is Failed ==> read.pending() == Step::<Option<()>>::Done(None),
        !(read.phase is Failed) && read.offset >= read.buf.len() ==> read.pending()
            == Step::Done(Some(())),
        read.phase is Failed || read.offset >= read.buf.len() ==> read.after(reply) == read,
{
}

/// A call leaves a read as it is; an answer takes it on. A word is there once its bytes
/// are, and is missing when they cannot be had.
pub proof fn law_read_events<T>(read: ReadState, reply: ReplyView, value: T)
    ensures
        read.step(EventView::Call) == read,
        read.step(EventView::Reply(reply)) == read.after(reply),
        read.pending() is Ask ==> read.word(value) is Ask && read.word(value)->Ask_0
            == read.pending()->Ask_0,
        read.pending() == Step::<Option<()>>::Done(None) ==> read.word(value)
            == Step::<Option<T>>::Done(None),
        read.pending() == Step::Done(Some(())) ==> read.word(value) == Step::Done(Some(value)),
{
}

/// A read is driven by putting its question to the guest and handing it the answer, one
/// question at each moment, until it asks none.
pub proof fn law_read_driven(read: ReadState, guest: GuestModel, t: nat)
    ensures
        match read.pending() {
            Step::Ask(request) => read.run(guest, t) == read.step(
                EventView::Reply((guest.answers)(t, request)),
            ).run(guest, t + 1),
            Step::Done(_) => read.run(guest, t) == (read, t),
        },
{
}

} // verus!
