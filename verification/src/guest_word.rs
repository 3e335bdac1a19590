//! Reading single words of guest virtual memory.

use vstd::prelude::*;
use crate::guest_mem::{GuestEvent, Step};
use crate::guest_read::{read_guest_virt_slice, GuestRead};

verus! {

/// The number that `bytes` stand for, least significant byte first.
pub open spec fn le_value(bytes: Seq<u8>) -> nat
    decreases bytes.len(),
{
    if bytes.len() == 0 {
        0
    } else {
        bytes.first() as nat + 256 * le_value(bytes.drop_first())
    }
}

/// The number that `bytes` stand for, most significant byte first.
pub open spec fn be_value(bytes: Seq<u8>) -> nat
    decreases bytes.len(),
{
    if bytes.len() == 0 {
        0
    } else {
        256 * be_value(bytes.drop_last()) + bytes.last() as nat
    }
}

/// How many numbers `n` bytes can stand for.
pub open spec fn word_count(n: nat) -> nat
    decreases n,
{
    if n == 0 {
        1
    } else {
        256 * word_count((n - 1) as nat)
    }
}

proof fn lemma_word_counts()
    ensures
        word_count(1) == 0x100,
        word_count(2) == 0x1_0000,
        word_count(4) == 0x1_0000_0000,
        word_count(8) == 0x1_0000_0000_0000_0000,
{
    reveal_with_fuel(word_count, 9);
}

proof fn lemma_word_count_monotone(a: nat, b: nat)
    requires
        a <= b,
    ensures
        word_count(a) <= word_count(b),
    decreases b - a,
{
    if a < b {
        lemma_word_count_monotone(a, (b - 1) as nat);
    }
}

/// Reading the same bytes from either end gives the same number when their order is
/// turned round.
pub proof fn law_byte_orders_mirror(bytes: Seq<u8>)
    ensures
        be_value(bytes) == le_value(bytes.reverse()),
    decreases bytes.len(),
{
    if bytes.len() != 0 {
        law_byte_orders_mirror(bytes.drop_last());
        assert(bytes.reverse().drop_first() =~= bytes.drop_last().reverse());
    }
}

fn from_le(bytes: &[u8]) -> (res: u64)
    requires
        bytes@.len() <= 8,
    ensures
        res == le_value(bytes@),
        res < word_count(bytes@.len()),
{
    let len: usize = bytes.len();
    let mut value: u64 = 0;
    let mut i: usize = len;
    assert(bytes@.skip(len as int) =~= Seq::<u8>::empty());
    while i > 0
        invariant
            i <= len,
            len == bytes@.len(),
            len <= 8,
            value == le_value(bytes@.skip(i as int)),
            value < word_count((len - i) as nat),
        decreases i,
    {
        i = i - 1;
        proof {
            assert(bytes@.skip(i as int).drop_first() =~= bytes@.skip(i + 1));
            lemma_word_count_monotone((len - i) as nat, 8);
            lemma_word_counts();
        }
        value = value * 256 + bytes[i] as u64;
    }
    assert(bytes@.skip(0) =~= bytes@);
    value
}

fn from_be(bytes: &[u8]) -> (res: u64)
    requires
        bytes@.len() <= 8,
    ensures
        res == be_value(bytes@),
        res < word_count(bytes@.len()),
{
    let len: usize = bytes.len();
    let mut value: u64 = 0;
    let mut i: usize = 0;
    while i < len
        invariant
            i <= len,
            len == bytes@.len(),
            len <= 8,
            value == be_value(bytes@.take(i as int)),
            value < word_count(i as nat),
        decreases len - i,
    {
        proof {
            assert(bytes@.take(i + 1).drop_last() =~= bytes@.take(i as int));
            lemma_word_count_monotone((i + 1) as nat, 8);
            lemma_word_counts();
        }
        value = value * 256 + bytes[i] as u64;
        i = i + 1;
    }
    assert(bytes@.take(len as int) =~= bytes@);
    value
}

/// Reads the eight-byte little-endian word at the read's address.
pub fn read_guest_u64(read: GuestRead, event: GuestEvent) -> (res: (GuestRead, Step<Option<u64>>))
    requires
        read@.buf.len() == 8,
    ensures
        res.0@ == read@.step(event@),
        res.1 == res.0@.word(le_value(res.0@.buf) as u64),
{
    let (next, step) = read_guest_virt_slice(read, event);
    let step = match step {
        Step::Ask(request) => Step::Ask(request),
        Step::Done(None) => Step::Done(None),
        Step::Done(Some(())) => Step::Done(Some(from_le(next.buf()))),
    };
    (next, step)
}

/// Reads the four-byte little-endian word at the read's address.
pub fn read_guest_u32(read: GuestRead, event: GuestEvent) -> (res: (GuestRead, Step<Option<u32>>))
    requires
        read@.buf.len() == 4,
    ensures
        res.0@ == read@.step(event@),
        res.1 == res.0@.word(le_value(res.0@.buf) as u32),
{
    let (next, step) = read_guest_virt_slice(read, event);
    let step = match step {
        Step::Ask(request) => Step::Ask(request),
        Step::Done(None) => Step::Done(None),
        Step::Done(Some(())) => {
            proof {
                lemma_word_counts();
            }
            Step::Done(Some(from_le(next.buf()) as u32))
        },
    };
    (next, step)
}

/// Reads the two-byte little-endian word at the read's address.
pub fn read_guest_u16(read: GuestRead, event: GuestEvent) -> (res: (GuestRead, Step<Option<u16>>))
    requires
        read@.buf.len() == 2,
    ensures
        res.0@ == read@.step(event@),
        res.1 == res.0@.word(le_value(res.0@.buf) as u16),
{
    let (next, step) = read_guest_virt_slice(read, event);
    let step = match step {
        Step::Ask(request) => Step::Ask(request),
        Step::Done(None) => Step::Done(None),
        Step::Done(Some(())) => {
            proof {
                lemma_word_counts();
            }
            Step::Done(Some(from_le(next.buf()) as u16))
        },
    };
    (next, step)
}

/// Reads the byte at the read's address.
pub fn read_guest_u8(read: GuestRead, event: GuestEvent) -> (res: (GuestRead, Step<Option<u8>>))
    requires
        read@.buf.len() == 1,
    ensures
        res.0@ == read@.step(event@),
        res.1 == res.0@.word(res.0@.buf[0]),
{
    let (next, step) = read_guest_virt_slice(read, event);
    let step = match step {
        Step::Ask(request) => Step::Ask(request),
        Step::Done(None) => Step::Done(None),
        Step::Done(Some(())) => Step::Done(Some(next.buf()[0])),
    };
    (next, step)
}

/// Reads the two-byte big-endian word at the read's address.
pub fn read_guest_be16(read: GuestRead, event: GuestEvent) -> (res: (GuestRead, Step<Option<u16>>))
    requires
        read@.buf.len() == 2,
    ensures
        res.0@ == read@.step(event@),
        res.1 == res.0@.word(be_value(res.0@.buf) as u16),
{
    let (next, step) = read_guest_virt_slice(read, event);
    let step = match step {
        Step::Ask(request) => Step::Ask(request),
        Step::Done(None) => Step::Done(None),
        Step::Done(Some(())) => {
            proof {
                lemma_word_counts();
            }
            Step::Done(Some(from_be(next.buf()) as u16))
        },
    };
    (next, step)
}

/// Reads the four-byte big-endian word at the read's address.
pub fn read_guest_be32(read: GuestRead, event: GuestEvent) -> (res: (GuestRead, Step<Option<u32>>))
    requires
        read@.buf.len() == 4,
    ensures
        res.0@ == read@.step(event@),
        res.1 == res.0@.word(be_value(res.0@.buf) as u32),
{
    let (next, step) = read_guest_virt_slice(read, event);
    let step = match step {
        Step::Ask(request) => Step::Ask(request),
        Step::Done(None) => Step::Done(None),
        Step::Done(Some(())) => {
            proof {
                lemma_word_counts();
            }
            Step::Done(Some(from_be(next.buf()) as u32))
        },
    };
    (next, step)
}

/// What words of one, two, four and eight bytes stand for, in either order: each byte
/// counts 256 times the one before it, or behind it.
pub proof fn law_word_values(bytes: Seq<u8>)
    ensures
        bytes.len() == 1 ==> le_value(bytes) == bytes[0] && be_value(bytes) == bytes[0],
        bytes.len() == 2 ==> {
            &&& le_value(bytes) == bytes[0] + 0x100 * bytes[1]
            &&& be_value(bytes) == 0x100 * bytes[0] + bytes[1]
        },
        bytes.len() == 4 ==> {
            &&& le_value(bytes) == bytes[0] + 0x100 * bytes[1] + 0x1_0000 * bytes[2] + 0x100_0000
                * bytes[3]
            &&& be_value(bytes) == 0x100_0000 * bytes[0] + 0x1_0000 * bytes[1] + 0x100 * bytes[2]
                + bytes[3]
        },
        bytes.len() == 8 ==> le_value(bytes) == bytes[0] + 0x100 * bytes[1] + 0x1_0000 * bytes[2]
            + 0x100_0000 * bytes[3] + 0x1_0000_0000 * bytes[4] + 0x100_0000_0000 * bytes[5]
            + 0x1_0000_0000_0000 * bytes[6] + 0x100_0000_0000_0000 * bytes[7],
{
    reveal_with_fuel(le_value, 9);
    reveal_with_fuel(be_value, 9);
}

} // verus!
