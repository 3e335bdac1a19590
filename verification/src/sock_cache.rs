//! The sockets that were logged last.

use vstd::prelude::*;

verus! {

/// How many sockets are remembered.
pub const MAX_LOGGED_SOCKS: usize = 1024;

/// A bounded memory of sockets. When it is full, a new socket takes the place of the one
/// that came first.
pub struct LoggedSockCache {
    entries: [u64; MAX_LOGGED_SOCKS],
    len: usize,
    next: usize,
}

/// The mathematical content of a `LoggedSockCache`: its slots, how many of them are in
/// use, and the slot that is overwritten next once all are.
#[verifier::ext_equal]
pub struct SockRing {
    pub slots: Seq<u64>,
    pub len: nat,
    pub next: nat,
}

impl View for LoggedSockCache {
    type V = SockRing;

    closed spec fn view(&self) -> SockRing {
        SockRing { slots: self.entries@, len: self.len as nat, next: self.next as nat }
    }
}

/// The memory `socks` after `sock_ptr` was met.
pub open spec fn with_sock(socks: Seq<u64>, sock_ptr: u64) -> Seq<u64> {
    if socks.contains(sock_ptr) {
        socks
    } else if socks.len() < MAX_LOGGED_SOCKS {
        socks.push(sock_ptr)
    } else {
        socks.drop_first().push(sock_ptr)
    }
}

/// What holds of the memory at every moment: it is bounded, and nothing occurs twice.
pub open spec fn socks_wf(socks: Seq<u64>) -> bool {
    &&& socks.len() <= MAX_LOGGED_SOCKS
    &&& socks.no_duplicates()
}

/// Whether all of `some` are among `socks`.
pub open spec fn all_in(some: Seq<u64>, socks: Seq<u64>) -> bool {
    forall|sock_ptr: u64| some.contains(sock_ptr) ==> #[trigger] socks.contains(sock_ptr)
}

impl SockRing {
    /// Nothing remembered, and all slots zero.
    pub open spec fn empty() -> SockRing {
        SockRing { slots: Seq::new(MAX_LOGGED_SOCKS as nat, |i: int| 0u64), len: 0, next: 0 }
    }

    /// The sockets in the order in which they came.
    pub open spec fn socks(self) -> Seq<u64> {
        self.slots.subrange(self.next as int, self.len as int) + self.slots.take(self.next as int)
    }

    /// Whether `sock_ptr` is remembered.
    pub open spec fn contains(self, sock_ptr: u64) -> bool {
        self.socks().contains(sock_ptr)
    }

    /// What holds of the memory at every moment: its slots are filled from the front, and
    /// once all are in use, `next` is the oldest; nothing occurs twice.
    pub open spec fn wf(self) -> bool {
        &&& self.slots.len() == MAX_LOGGED_SOCKS
        &&& self.len <= MAX_LOGGED_SOCKS
        &&& self.next < MAX_LOGGED_SOCKS
        &&& self.len < MAX_LOGGED_SOCKS ==> self.next == 0
        &&& socks_wf(self.socks())
    }

    /// The memory after `sock_ptr` was met. A socket that is known changes nothing. A new
    /// one takes the first slot that is free; when none is, it takes the place of the
    /// oldest, and the slot behind it is the next to go, the first behind the last.
    pub open spec fn after(self, sock_ptr: u64) -> SockRing {
        if self.contains(sock_ptr) {
            self
        } else if self.len < MAX_LOGGED_SOCKS {
            SockRing {
                slots: self.slots.update(self.len as int, sock_ptr),
                len: self.len + 1,
                next: self.next,
            }
        } else {
            SockRing {
                slots: self.slots.update(self.next as int, sock_ptr),
                len: self.len,
                next: (self.next + 1) % MAX_LOGGED_SOCKS as nat,
            }
        }
    }

    /// The memory after all of `met` were met, one after the other.
    pub open spec fn after_all(self, met: Seq<u64>) -> SockRing
        decreases met.len(),
    {
        if met.len() == 0 {
            self
        } else {
            self.after(met.first()).after_all(met.drop_first())
        }
    }

    /// Meeting a socket keeps what holds of the memory, and changes the order of arrival
    /// as `with_sock` says.
    pub proof fn law_after(self, sock_ptr: u64)
        requires
            self.wf(),
        ensures
            self.after(sock_ptr).wf(),
            self.after(sock_ptr).socks() == with_sock(self.socks(), sock_ptr),
    {
        law_sock_memory(self.socks(), sock_ptr);
        assert(self.after(sock_ptr).socks() =~= with_sock(self.socks(), sock_ptr));
    }

    /// However many sockets are met, the memory keeps what holds of it, and the order of
    /// arrival changes as `with_socks` says.
    pub proof fn law_after_all(self, met: Seq<u64>)
        requires
            self.wf(),
        ensures
            self.after_all(met).wf(),
            self.after_all(met).socks() == with_socks(self.socks(), met),
        decreases met.len(),
    {
        if met.len() != 0 {
            self.law_after(met.first());
            self.after(met.first()).law_after_all(met.drop_first());
        }
    }

    /// Sockets met in two goes are remembered as if they had been met in one.
    pub proof fn lemma_after_add(self, met: Seq<u64>, more: Seq<u64>)
        ensures
            self.after_all(met + more) == self.after_all(met).after_all(more),
        decreases met.len(),
    {
        if met.len() == 0 {
            assert(met + more =~= more);
        } else {
            assert((met + more).drop_first() =~= met.drop_first() + more);
            self.after(met.first()).lemma_after_add(met.drop_first(), more);
        }
    }

    /// Meeting sockets that are all remembered changes nothing, down to the slots and
    /// their order.
    pub proof fn law_known(self, met: Seq<u64>)
        requires
            all_in(met, self.socks()),
        ensures
            self.after_all(met) == self,
        decreases met.len(),
    {
        if met.len() != 0 {
            assert(met.contains(met[0]));
            lemma_rest_in(met, self.socks());
            self.law_known(met.drop_first());
        }
    }
}

impl LoggedSockCache {
    /// What holds of the memory at every moment.
    pub open spec fn wf(self) -> bool {
        self@.wf()
    }

    /// The memory is bounded, and nothing occurs in it twice.
    pub proof fn law_bounded(self)
        requires
            self.wf(),
        ensures
            socks_wf(self@.socks()),
    {
    }

    /// The empty memory.
    pub fn new() -> (res: LoggedSockCache)
        ensures
            res.wf(),
            res@ == SockRing::empty(),
            res@.socks() == Seq::<u64>::empty(),
    {
        let res = LoggedSockCache { entries: [0u64; 1024], len: 0, next: 0 };
        assert(res@ =~= SockRing::empty());
        assert(res@.socks() =~= Seq::empty());
        res
    }

    /// Whether `sock_ptr` is remembered.
    pub fn contains(&self, sock_ptr: u64) -> (res: bool)
        requires
            self.wf(),
        ensures
            res == self@.contains(sock_ptr),
    {
        let mut i: usize = 0;
        while i < self.len
            invariant
                self.wf(),
                i <= self.len,
                forall|j: int| 0 <= j < i ==> self.entries@[j] != sock_ptr,
            decreases self.len - i,
        {
            if self.entries[i] == sock_ptr {
                proof {
                    let at = if i >= self.next {
                        i - self.next
                    } else {
                        self.len - self.next + i
                    };
                    assert(self@.socks()[at] == sock_ptr);
                }
                return true;
            }
            i = i + 1;
        }
        let ghost socks = self@.socks();
        assert forall|k: int| 0 <= k < socks.len() implies socks[k] != sock_ptr by {
            let at = if k < self.len - self.next {
                self.next + k
            } else {
                k - (self.len - self.next)
            };
            assert(socks[k] == self.entries@[at]);
        }
        false
    }

    /// Remembers `sock_ptr`, and says whether it was new.
    pub fn insert_if_new(&mut self, sock_ptr: u64) -> (res: bool)
        requires
            old(self).wf(),
        ensures
            final(self).wf(),
            res == !old(self)@.contains(sock_ptr),
            final(self)@ == old(self)@.after(sock_ptr),
            final(self)@.socks() == with_sock(old(self)@.socks(), sock_ptr),
    {
        proof {
            self@.law_after(sock_ptr);
        }
        if self.contains(sock_ptr) {
            return false;
        }
        if self.len < MAX_LOGGED_SOCKS {
            self.entries[self.len] = sock_ptr;
            self.len = self.len + 1;
            assert(self@ =~= old(self)@.after(sock_ptr));
            return true;
        }
        self.entries[self.next] = sock_ptr;
        self.next = (self.next + 1) % MAX_LOGGED_SOCKS;
        assert(self@ =~= old(self)@.after(sock_ptr));
        true
    }
}

/// The memory stays bounded and without repetition, holds the socket just met, and loses
/// none but the oldest, and that only when it was full and the socket new.
pub proof fn law_sock_memory(socks: Seq<u64>, sock_ptr: u64)
    requires
        socks_wf(socks),
    ensures
        socks_wf(with_sock(socks, sock_ptr)),
        with_sock(socks, sock_ptr).contains(sock_ptr),
        forall|other: u64|
            socks.contains(other) && other != socks.first() ==> #[trigger] with_sock(
                socks,
                sock_ptr,
            ).contains(other),
        socks.len() < MAX_LOGGED_SOCKS ==> forall|other: u64|
            socks.contains(other) ==> #[trigger] with_sock(socks, sock_ptr).contains(other),
        forall|other: u64|
            #[trigger] with_sock(socks, sock_ptr).contains(other) ==> socks.contains(other)
                || other == sock_ptr,
{
    let next = with_sock(socks, sock_ptr);
    if !socks.contains(sock_ptr) {
        assert(next.last() == sock_ptr);
        let shift: int = if socks.len() < MAX_LOGGED_SOCKS {
            0
        } else {
            1
        };
        assert forall|other: u64|
            socks.contains(other) && (shift == 0 || other != socks.first()) implies next.contains(
            other,
        ) by {
            let i = choose|i: int| 0 <= i < socks.len() && socks[i] == other;
            assert(next[i - shift] == other);
        }
        assert forall|other: u64| #[trigger] next.contains(other) implies socks.contains(other)
            || other == sock_ptr by {
            let i = choose|i: int| 0 <= i < next.len() && next[i] == other;
            if i < next.len() - 1 {
                assert(socks[i + shift] == other);
            }
        }
    }
}

/// A socket that is met twice in a row is new at most once.
pub proof fn law_sock_new_once(socks: Seq<u64>, sock_ptr: u64)
    requires
        socks_wf(socks),
    ensures
        with_sock(with_sock(socks, sock_ptr), sock_ptr) == with_sock(socks, sock_ptr),
{
    law_sock_memory(socks, sock_ptr);
}

/// The memory `socks` after all of `met` were met, one after the other.
pub open spec fn with_socks(socks: Seq<u64>, met: Seq<u64>) -> Seq<u64>
    decreases met.len(),
{
    if met.len() == 0 {
        socks
    } else {
        with_socks(with_sock(socks, met.first()), met.drop_first())
    }
}

/// How many of the sockets met are new to the memory at the moment they are met.
pub open spec fn newcomers(socks: Seq<u64>, met: Seq<u64>) -> nat
    decreases met.len(),
{
    if met.len() == 0 {
        0
    } else {
        let rest = newcomers(with_sock(socks, met.first()), met.drop_first());
        if socks.contains(met.first()) {
            rest
        } else {
            rest + 1
        }
    }
}

/// What is among `met` is its first element or among the rest.
proof fn lemma_first_or_rest(met: Seq<u64>)
    requires
        met.len() > 0,
    ensures
        met.contains(met.first()),
        forall|sock_ptr: u64|
            #[trigger] met.contains(sock_ptr) <==> sock_ptr == met.first()
                || met.drop_first().contains(sock_ptr),
{
    let rest = met.drop_first();
    assert(met.contains(met[0]));
    assert forall|sock_ptr: u64| #[trigger] met.contains(sock_ptr) implies sock_ptr == met.first()
        || rest.contains(sock_ptr) by {
        let i = choose|i: int| 0 <= i < met.len() && met[i] == sock_ptr;
        if i > 0 {
            assert(rest[i - 1] == sock_ptr);
        }
    }
    assert forall|sock_ptr: u64| rest.contains(sock_ptr) implies #[trigger] met.contains(
        sock_ptr,
    ) by {
        let i = choose|i: int| 0 <= i < rest.len() && rest[i] == sock_ptr;
        assert(met[i + 1] == sock_ptr);
    }
}

/// If all of `met` are remembered, so are all but the first.
proof fn lemma_rest_in(met: Seq<u64>, socks: Seq<u64>)
    requires
        met.len() > 0,
        all_in(met, socks),
    ensures
        all_in(met.drop_first(), socks),
{
    lemma_first_or_rest(met);
}

/// A memory that has room for all the sockets it holds and meets, each counted once,
/// loses none to the first.
proof fn lemma_room(socks: Seq<u64>, met: Seq<u64>)
    requires
        socks_wf(socks),
        met.len() > 0,
        (socks.to_set() + met.to_set()).len() <= MAX_LOGGED_SOCKS,
    ensures
        with_sock(socks, met.first()).to_set() == socks.to_set().insert(met.first()),
        with_sock(socks, met.first()).to_set() + met.drop_first().to_set() == socks.to_set()
            + met.to_set(),
{
    broadcast use vstd::seq_lib::seq_to_set_is_finite;

    let first = met.first();
    let next = with_sock(socks, first);
    lemma_first_or_rest(met);
    law_sock_memory(socks, first);
    let all = socks.to_set() + met.to_set();
    let now = socks.to_set().insert(first);
    assert(now.subset_of(all));
    vstd::set_lib::lemma_len_subset(now, all);
    socks.unique_seq_to_set();
    assert(next.to_set() =~= now);
    assert(next.to_set() + met.drop_first().to_set() =~= all);
}

/// However many sockets are met, the memory stays bounded and without repetition, and
/// grows by at most their number. While there is room for those remembered and those met,
/// each counted once, none is lost.
pub proof fn law_socks_memory(socks: Seq<u64>, met: Seq<u64>)
    requires
        socks_wf(socks),
    ensures
        socks_wf(with_socks(socks, met)),
        socks.len() <= with_socks(socks, met).len() <= socks.len() + met.len(),
        (socks.to_set() + met.to_set()).len() <= MAX_LOGGED_SOCKS ==> with_socks(
            socks,
            met,
        ).to_set() == socks.to_set() + met.to_set(),
        (socks.to_set() + met.to_set()).len() <= MAX_LOGGED_SOCKS ==> all_in(
            socks,
            with_socks(socks, met),
        ) && all_in(met, with_socks(socks, met)),
    decreases met.len(),
{
    if met.len() != 0 {
        law_sock_memory(socks, met.first());
        law_socks_memory(with_sock(socks, met.first()), met.drop_first());
    }
    if (socks.to_set() + met.to_set()).len() <= MAX_LOGGED_SOCKS {
        let after = with_socks(socks, met);
        if met.len() != 0 {
            lemma_room(socks, met);
        }
        assert(after.to_set() =~= socks.to_set() + met.to_set());
        assert forall|sock_ptr: u64|
            socks.contains(sock_ptr) || met.contains(sock_ptr) implies #[trigger] after.contains(
            sock_ptr,
        ) by {
            assert((socks.to_set() + met.to_set()).contains(sock_ptr));
            assert(after.to_set().contains(sock_ptr));
        }
    }
}

/// Meeting sockets that are all remembered changes nothing.
pub proof fn law_socks_known(socks: Seq<u64>, met: Seq<u64>)
    requires
        all_in(met, socks),
    ensures
        with_socks(socks, met) == socks,
    decreases met.len(),
{
    if met.len() != 0 {
        assert(met.contains(met[0]));
        lemma_rest_in(met, socks);
        law_socks_known(socks, met.drop_first());
    }
}

/// A socket that is neither remembered nor met does not come to be remembered.
proof fn lemma_absent(socks: Seq<u64>, sock_ptr: u64, met: Seq<u64>)
    requires
        socks_wf(socks),
        !socks.contains(sock_ptr),
        !met.contains(sock_ptr),
    ensures
        !with_socks(socks, met).contains(sock_ptr),
    decreases met.len(),
{
    if met.len() != 0 {
        lemma_first_or_rest(met);
        law_sock_memory(socks, met.first());
        lemma_absent(with_sock(socks, met.first()), sock_ptr, met.drop_first());
    }
}

/// The socket that came as number `at` is forgotten exactly when more new ones have come
/// than there is room for and came before it.
pub proof fn law_sock_forgotten(socks: Seq<u64>, at: int, met: Seq<u64>)
    requires
        socks_wf(socks),
        0 <= at < socks.len(),
    ensures
        newcomers(socks, met) <= at + (MAX_LOGGED_SOCKS - socks.len()) ==> with_socks(
            socks,
            met,
        ).contains(socks[at]),
        newcomers(socks, met) > at + (MAX_LOGGED_SOCKS - socks.len()) && !met.contains(socks[at])
            ==> !with_socks(socks, met).contains(socks[at]),
    decreases met.len(),
{
    if met.len() == 0 {
        assert(socks.contains(socks[at]));
    } else {
        let first = met.first();
        let rest = met.drop_first();
        let next = with_sock(socks, first);
        lemma_first_or_rest(met);
        law_sock_memory(socks, first);
        if socks.contains(first) {
            law_sock_forgotten(socks, at, rest);
        } else if socks.len() < MAX_LOGGED_SOCKS {
            assert(next[at] == socks[at]);
            law_sock_forgotten(next, at, rest);
        } else if at > 0 {
            assert(next[at - 1] == socks[at]);
            law_sock_forgotten(next, at - 1, rest);
        } else if !met.contains(socks[0]) {
            assert(!next.contains(socks[0]));
            lemma_absent(next, socks[0], rest);
        }
    }
}

/// The newcomers are at most all those met, and at least those that were not remembered
/// at first, each counted once.
pub proof fn law_newcomers(socks: Seq<u64>, met: Seq<u64>)
    requires
        socks_wf(socks),
    ensures
        (met.to_set() - socks.to_set()).len() <= newcomers(socks, met) <= met.len(),
    decreases met.len(),
{
    broadcast use vstd::seq_lib::seq_to_set_is_finite;

    let new = met.to_set() - socks.to_set();
    if met.len() == 0 {
        assert(new =~= Set::empty());
    } else {
        let first = met.first();
        let rest = met.drop_first();
        let next = with_sock(socks, first);
        lemma_first_or_rest(met);
        law_sock_memory(socks, first);
        law_newcomers(next, rest);
        let later = rest.to_set() - next.to_set();
        if socks.contains(first) {
            assert(new =~= later);
        } else {
            assert(new.remove(first).subset_of(later));
            vstd::set_lib::lemma_len_subset(new.remove(first), later);
        }
    }
}

/// A socket that was new is remembered until as many others have come new as the memory
/// holds, and then forgotten, unless it was met again.
pub proof fn law_sock_kept(socks: Seq<u64>, sock_ptr: u64, met: Seq<u64>)
    requires
        socks_wf(socks),
        !socks.contains(sock_ptr),
    ensures
        ({
            let next = with_sock(socks, sock_ptr);
            let after = with_socks(next, met);
            &&& newcomers(next, met) < MAX_LOGGED_SOCKS ==> after.contains(sock_ptr)
            &&& newcomers(next, met) >= MAX_LOGGED_SOCKS && !met.contains(sock_ptr)
                ==> !after.contains(sock_ptr)
        }),
{
    let next = with_sock(socks, sock_ptr);
    law_sock_memory(socks, sock_ptr);
    assert(next.last() == sock_ptr);
    law_sock_forgotten(next, next.len() - 1, met);
}

/// A socket that was remembered is forgotten once as many others have come that were not
/// as the memory holds.
pub proof fn law_full_turn(socks: Seq<u64>, sock_ptr: u64, met: Seq<u64>)
    requires
        socks_wf(socks),
        !met.contains(sock_ptr),
        (met.to_set() - socks.to_set()).len() >= MAX_LOGGED_SOCKS,
    ensures
        !with_socks(socks, met).contains(sock_ptr),
{
    law_newcomers(socks, met);
    if socks.contains(sock_ptr) {
        let at = choose|i: int| 0 <= i < socks.len() && socks[i] == sock_ptr;
        law_sock_forgotten(socks, at, met);
    } else {
        lemma_absent(socks, sock_ptr, met);
    }
}

impl SockRing {
    /// A memory of 1024 slots, of which those in use hold different sockets, is as it must
    /// be when they are filled from the front. It remembers exactly the sockets in them.
    /// The order of arrival is that of the slots, from the oldest on and round.
    pub proof fn law_slots(self, sock_ptr: u64)
        requires
            self.slots.len() == 1024,
            self.len <= 1024,
            self.next < 1024,
            self.len < 1024 ==> self.next == 0,
        ensures
            self.contains(sock_ptr) <==> exists|i: int|
                0 <= i < self.len && #[trigger] self.slots[i] == sock_ptr,
            self.socks().len() == self.len,
            forall|k: int|
                0 <= k < self.len ==> #[trigger] self.socks()[k] == self.slots[if self.next + k
                    < self.len {
                    self.next + k
                } else {
                    self.next + k - self.len
                }],
            self.wf() <==> forall|i: int, j: int|
                0 <= i < j < self.len ==> self.slots[i] != self.slots[j],
            SockRing::empty().len == 0,
            SockRing::empty().next == 0,
            SockRing::empty().slots.len() == 1024,
            forall|i: int| 0 <= i < 1024 ==> #[trigger] SockRing::empty().slots[i] == 0,
    {
        let socks = self.socks();
        let split = self.len - self.next;
        assert forall|i: int| 0 <= i < self.len implies #[trigger] self.slots[i] == socks[if i
            >= self.next {
            i - self.next
        } else {
            split + i
        }] by {}
        if self.contains(sock_ptr) {
            let k = choose|k: int| 0 <= k < socks.len() && socks[k] == sock_ptr;
            let i = if k < split {
                self.next + k
            } else {
                k - split
            };
            assert(self.slots[i] == sock_ptr);
        }
        if exists|i: int| 0 <= i < self.len && #[trigger] self.slots[i] == sock_ptr {
            let i = choose|i: int| 0 <= i < self.len && #[trigger] self.slots[i] == sock_ptr;
            let k = if i >= self.next {
                i - self.next
            } else {
                split + i
            };
            assert(socks[k] == sock_ptr);
        }
        if self.wf() {
            assert forall|i: int, j: int| 0 <= i < j < self.len implies self.slots[i]
                != self.slots[j] by {
                let a = if i >= self.next {
                    i - self.next
                } else {
                    split + i
                };
                let b = if j >= self.next {
                    j - self.next
                } else {
                    split + j
                };
                assert(a != b);
                assert(socks[a] == self.slots[i] && socks[b] == self.slots[j]);
            }
        }
        if forall|i: int, j: int| 0 <= i < j < self.len ==> self.slots[i] != self.slots[j] {
            assert forall|a: int, b: int| 0 <= a < socks.len() && 0 <= b < socks.len() && a
                != b implies socks[a] != socks[b] by {
                let i = if a < split {
                    self.next + a
                } else {
                    a - split
                };
                let j = if b < split {
                    self.next + b
                } else {
                    b - split
                };
                assert(i != j);
                assert(socks[a] == self.slots[i] && socks[b] == self.slots[j]);
                if i < j {
                    assert(self.slots[i] != self.slots[j]);
                } else {
                    assert(self.slots[j] != self.slots[i]);
                }
            }
            assert(socks.no_duplicates());
        }
    }

    /// What meeting a socket does to the slots. A socket that stands in one changes
    /// nothing. Another is put in the first slot that is free and is counted; when none is
    /// free, it is put in the slot that goes next, and the one behind that, or the first
    /// behind the last, goes next then. No other slot changes.
    pub proof fn law_slot_taken(self, sock_ptr: u64)
        requires
            self.wf(),
        ensures
            ({
                let after = self.after(sock_ptr);
                let known = exists|i: int|
                    0 <= i < self.len && #[trigger] self.slots[i] == sock_ptr;
                let taken = if self.len < 1024 {
                    self.len as int
                } else {
                    self.next as int
                };
                if known {
                    after == self
                } else {
                    &&& after.slots.len() == 1024
                    &&& after.slots[taken] == sock_ptr
                    &&& forall|i: int|
                        0 <= i < 1024 && i != taken ==> #[trigger] after.slots[i] == self.slots[i]
                    &&& after.len == if self.len < 1024 {
                        self.len + 1
                    } else {
                        1024
                    }
                    &&& after.next == if self.len < 1024 {
                        self.next
                    } else if self.next == 1023 {
                        0
                    } else {
                        self.next + 1
                    }
                }
            }),
    {
        self.law_slots(sock_ptr);
    }

    /// Sockets are met one after the other, the last one last.
    pub proof fn law_met_in_turn(self, met: Seq<u64>, sock_ptr: u64)
        ensures
            self.after_all(Seq::empty()) == self,
            self.after_all(met.push(sock_ptr)) == self.after_all(met).after(sock_ptr),
    {
        assert(met.push(sock_ptr) =~= met + seq![sock_ptr]);
        self.lemma_after_add(met, seq![sock_ptr]);
        reveal_with_fuel(SockRing::after_all, 2);
    }
}

/// In the order of arrival a new socket comes last, and the first leaves when 1024 were
/// there. A known one changes nothing.
pub proof fn law_order_of_arrival(socks: Seq<u64>, sock_ptr: u64)
    requires
        socks.len() <= 1024,
    ensures
        socks.contains(sock_ptr) ==> with_sock(socks, sock_ptr) == socks,
        !socks.contains(sock_ptr) && socks.len() < 1024 ==> with_sock(socks, sock_ptr) == socks
            + seq![sock_ptr],
        !socks.contains(sock_ptr) && socks.len() == 1024 ==> with_sock(socks, sock_ptr)
            == socks.skip(1) + seq![sock_ptr],
{
    if socks.len() == 1024 {
        assert(socks.drop_first().push(sock_ptr) =~= socks.skip(1) + seq![sock_ptr]);
    }
    assert(socks.push(sock_ptr) =~= socks + seq![sock_ptr]);
}

} // verus!
