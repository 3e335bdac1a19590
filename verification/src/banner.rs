//! The banner by which a Linux kernel names its version.

use vstd::prelude::*;

verus! {

/// The longest banner that is kept.
pub const LINUX_BANNER_MAX_LEN: usize = 256;

/// The length of the words that every banner begins with.
pub const LINUX_BANNER_PREFIX_LEN: usize = 13;

/// The words that every banner begins with: "Linux version".
pub open spec fn linux_banner_prefix() -> Seq<u8> {
    seq![76u8, 105, 110, 117, 120, 32, 118, 101, 114, 115, 105, 111, 110]
}

/// A visible ASCII character, a space, a tab or a line ending.
pub open spec fn printable(byte: u8) -> bool {
    0x20 <= byte <= 0x7e || byte == 0x09 || newline(byte)
}

/// A line feed or a carriage return.
pub open spec fn newline(byte: u8) -> bool {
    byte == 0x0a || byte == 0x0d
}

/// Where the text from `from` on ends: at the first zero byte, or with `buf`.
pub open spec fn text_end(buf: Seq<u8>, from: nat) -> nat
    decreases buf.len() - from,
{
    if from >= buf.len() {
        buf.len()
    } else if buf[from as int] == 0 {
        from
    } else {
        text_end(buf, from + 1)
    }
}

/// What is left of the first `len` bytes without the line endings that they end in.
pub open spec fn trimmed(buf: Seq<u8>, len: nat) -> nat
    decreases len,
{
    if len > 0 && newline(buf[len - 1]) {
        trimmed(buf, (len - 1) as nat)
    } else {
        len
    }
}

/// The length of the banner that `buf` begins with: printable text that begins with the
/// prefix and ends before the first zero byte, without the line endings behind it.
pub open spec fn banner_len(buf: Seq<u8>) -> Option<nat> {
    let end = text_end(buf, 0);
    if linux_banner_prefix().is_prefix_of(buf) && (forall|i: int|
        0 <= i < end ==> printable(#[trigger] buf[i])) {
        Some(trimmed(buf, end))
    } else {
        None
    }
}

/// Whether `byte` is a visible ASCII character, a space, a tab or a line ending.
pub fn is_printable_ascii(byte: u8) -> (res: bool)
    ensures
        res == printable(byte),
{
    matches!(byte, 0x20..=0x7e | 0x0a | 0x0d | 0x09)
}

fn starts_with_prefix(buf: &[u8]) -> (res: bool)
    ensures
        res == linux_banner_prefix().is_prefix_of(buf@),
{
    let prefix: [u8; 13] = [76, 105, 110, 117, 120, 32, 118, 101, 114, 115, 105, 111, 110];
    assert(prefix@ =~= linux_banner_prefix());
    if buf.len() < LINUX_BANNER_PREFIX_LEN {
        return false;
    }
    let mut i: usize = 0;
    while i < LINUX_BANNER_PREFIX_LEN
        invariant
            i <= LINUX_BANNER_PREFIX_LEN <= buf@.len(),
            prefix@ == linux_banner_prefix(),
            forall|j: int| 0 <= j < i ==> buf@[j] == prefix@[j],
        decreases LINUX_BANNER_PREFIX_LEN - i,
    {
        if buf[i] != prefix[i] {
            assert(buf@.take(13)[i as int] != prefix@[i as int]);
            return false;
        }
        i = i + 1;
    }
    assert(buf@.take(13) =~= prefix@);
    true
}

/// The length of the banner that `buf` begins with, if it begins with one.
pub fn linux_banner_len(buf: &[u8]) -> (res: Option<usize>)
    ensures
        match res {
            Some(len) => banner_len(buf@) == Some(len as nat),
            None => banner_len(buf@) is None,
        },
{
    if !starts_with_prefix(buf) {
        return None;
    }
    let mut len: usize = 0;
    while len < buf.len() && buf[len] != 0
        invariant
            len <= buf@.len(),
            text_end(buf@, len as nat) == text_end(buf@, 0),
            forall|i: int| 0 <= i < len ==> printable(#[trigger] buf@[i]),
        decreases buf@.len() - len,
    {
        if !is_printable_ascii(buf[len]) {
            proof {
                lemma_text_end(buf@, (len + 1) as nat);
                assert(len < text_end(buf@, 0));
            }
            return None;
        }
        len = len + 1;
    }
    let ghost end = len as nat;
    while len > 0 && matches!(buf[len - 1], 0x0a | 0x0d)
        invariant
            len <= end <= buf@.len(),
            trimmed(buf@, len as nat) == trimmed(buf@, end),
        decreases len,
    {
        len = len - 1;
    }
    Some(len)
}

/// There is no zero byte before the end of the text, and one at it unless `buf` ends there.
proof fn lemma_text_end(buf: Seq<u8>, from: nat)
    requires
        from <= buf.len(),
    ensures
        from <= text_end(buf, from) <= buf.len(),
        forall|i: int| from <= i < text_end(buf, from) ==> buf[i] != 0,
        text_end(buf, from) < buf.len() ==> buf[text_end(buf, from) as int] == 0,
    decreases buf.len() - from,
{
    if from < buf.len() && buf[from as int] != 0 {
        lemma_text_end(buf, from + 1);
    }
}

/// Line endings, and nothing else, are cut off.
proof fn lemma_trimmed(buf: Seq<u8>, len: nat)
    requires
        len <= buf.len(),
    ensures
        trimmed(buf, len) <= len,
        trimmed(buf, len) > 0 ==> !newline(buf[trimmed(buf, len) - 1]),
        forall|i: int| trimmed(buf, len) <= i < len ==> newline(#[trigger] buf[i]),
    decreases len,
{
    if len > 0 && newline(buf[len - 1]) {
        lemma_trimmed(buf, (len - 1) as nat);
    }
}

/// Printable text that begins with the prefix and does not end in a line ending.
pub open spec fn is_banner(text: Seq<u8>) -> bool {
    &&& linux_banner_prefix().is_prefix_of(text)
    &&& text.len() <= LINUX_BANNER_MAX_LEN
    &&& forall|i: int| 0 <= i < text.len() ==> printable(#[trigger] text[i])
    &&& !newline(text.last())
}

/// A banner is printable, begins with the prefix, does not end in a line ending, and
/// nothing but line endings lies between it and the zero byte or the end of the buffer.
pub proof fn law_banner_len(buf: Seq<u8>)
    ensures
        banner_len(buf) matches Some(len) ==> {
            &&& linux_banner_prefix().len() <= len <= buf.len()
            &&& linux_banner_prefix().is_prefix_of(buf.take(len as int))
            &&& forall|i: int| 0 <= i < len ==> printable(#[trigger] buf[i])
            &&& !newline(buf[len - 1])
            &&& len <= text_end(buf, 0) <= buf.len()
            &&& text_end(buf, 0) < buf.len() ==> buf[text_end(buf, 0) as int] == 0
            &&& forall|i: int| len <= i < text_end(buf, 0) ==> newline(#[trigger] buf[i])
        },
{
    let end = text_end(buf, 0);
    lemma_text_end(buf, 0);
    lemma_trimmed(buf, end);
    if let Some(len) = banner_len(buf) {
        let prefix = linux_banner_prefix();
        assert forall|i: int| 0 <= i < prefix.len() implies buf[i] == prefix[i] by {
            assert(buf.take(prefix.len() as int)[i] == prefix[i]);
        }
        assert(forall|i: int| 0 <= i < prefix.len() ==> prefix[i] != 0);
        assert(end >= prefix.len());
        assert(!newline(buf[prefix.len() - 1]));
        assert(len >= prefix.len());
        assert(buf.take(len as int).take(prefix.len() as int) =~= prefix);
    }
}

/// The banner that was found last, cut off at `LINUX_BANNER_MAX_LEN` bytes.
#[derive(Clone, Copy)]
pub struct BannerCache {
    bytes: [u8; LINUX_BANNER_MAX_LEN],
    len: usize,
}

/// The mathematical content of a `BannerCache`: its bytes, of which the first `len` are
/// the banner, and the others what earlier banners left there.
#[verifier::ext_equal]
pub struct BannerBytes {
    pub bytes: Seq<u8>,
    pub len: nat,
}

impl View for BannerCache {
    type V = BannerBytes;

    closed spec fn view(&self) -> BannerBytes {
        BannerBytes { bytes: self.bytes@, len: self.len as nat }
    }
}

impl BannerBytes {
    /// No banner, and all bytes zero.
    pub open spec fn empty() -> BannerBytes {
        BannerBytes { bytes: Seq::new(LINUX_BANNER_MAX_LEN as nat, |i: int| 0u8), len: 0 }
    }

    /// The banner.
    pub open spec fn text(self) -> Seq<u8> {
        self.bytes.take(self.len as int)
    }

    /// What holds of the bytes at every moment.
    pub open spec fn wf(self) -> bool {
        &&& self.bytes.len() == LINUX_BANNER_MAX_LEN
        &&& self.len <= LINUX_BANNER_MAX_LEN
    }

    /// The bytes with `src` kept in place of the banner from before: `src` is written over
    /// their front, cut off where they end, and the bytes behind it stay as they were.
    pub open spec fn with(self, src: Seq<u8>) -> BannerBytes {
        BannerBytes { bytes: cut(src) + self.bytes.skip(cut(src).len() as int), len: cut(src).len() }
    }

    /// What is kept is what was to be kept, cut off at the bound.
    pub proof fn law_with(self, src: Seq<u8>)
        requires
            self.wf(),
        ensures
            self.with(src).wf(),
            self.with(src).text() == cut(src),
    {
        assert(self.with(src).text() =~= cut(src));
    }
}

/// The first `LINUX_BANNER_MAX_LEN` bytes of `src`.
pub open spec fn cut(src: Seq<u8>) -> Seq<u8> {
    if src.len() <= LINUX_BANNER_MAX_LEN {
        src
    } else {
        src.take(LINUX_BANNER_MAX_LEN as int)
    }
}

impl BannerCache {
    #[verifier::type_invariant]
    spec fn inv(self) -> bool {
        self.len <= LINUX_BANNER_MAX_LEN
    }

    /// The cache before any banner was found.
    pub fn new() -> (res: BannerCache)
        ensures
            res@ == BannerBytes::empty(),
    {
        let res = BannerCache { bytes: [0u8; 256], len: 0 };
        assert(res@ =~= BannerBytes::empty());
        res
    }

    /// Keeps `src` in place of what was kept before.
    pub fn set(&mut self, src: &[u8])
        ensures
            old(self)@.wf(),
            final(self)@ == old(self)@.with(src@),
            final(self)@.wf(),
            final(self)@.text() == cut(src@),
    {
        proof {
            use_type_invariant(&*self);
            self@.law_with(src@);
        }
        let len: usize = if src.len() < LINUX_BANNER_MAX_LEN {
            src.len()
        } else {
            LINUX_BANNER_MAX_LEN
        };
        let mut bytes: [u8; 256] = self.bytes;
        let mut i: usize = 0;
        while i < len
            invariant
                i <= len <= src@.len(),
                len <= 256,
                forall|j: int| 0 <= j < i ==> bytes@[j] == src@[j],
                forall|j: int| i <= j < 256 ==> bytes@[j] == old(self)@.bytes[j],
            decreases len - i,
        {
            bytes[i] = src[i];
            i = i + 1;
        }
        *self = BannerCache { bytes, len };
        assert(self@ =~= old(self)@.with(src@));
    }
}

/// What was known of the guest's symbols at one moment.
#[derive(Clone, Copy)]
pub struct BannerSnapshot {
    pub banner_gva: u64,
    pub banner_gpa: u64,
    pub tcp_hashinfo_gva: u64,
    pub tcp_hashinfo_gpa: u64,
    pub banner: BannerCache,
}

impl BannerSnapshot {
    /// The banner as text.
    pub fn banner_str(&self) -> (res: &str)
        ensures
            res@ == banner_text(self.banner@.text()),
            self.banner@.wf(),
    {
        proof {
            use_type_invariant(&self.banner);
        }
        if self.banner.len == 0 {
            return "<unknown>";
        }
        assert(self.banner@.text().len() != 0);
        let bytes = vstd::slice::slice_subrange(self.banner.bytes.as_slice(), 0, self.banner.len);
        assert(bytes@ =~= self.banner@.text());
        match from_utf8(bytes) {
            Some(text) => text,
            None => "<non-utf8>",
        }
    }
}

/// How the `banner` is shown: as the text that it encodes, if it is one.
pub open spec fn banner_text(banner: Seq<u8>) -> Seq<char> {
    if banner.len() == 0 {
        "<unknown>"@
    } else if vstd::utf8::valid_utf8(banner) {
        vstd::utf8::decode_utf8(banner)
    } else {
        "<non-utf8>"@
    }
}

/// `core::str::from_utf8`: the text that `bytes` encode in UTF-8, or nothing when they
/// are not valid UTF-8. What an error says of the place of the fault is dropped.
#[verifier::external_body]
fn from_utf8(bytes: &[u8]) -> (res: Option<&str>)
    ensures
        match res {
            Some(text) => vstd::utf8::valid_utf8(bytes@) && text@ == vstd::utf8::decode_utf8(bytes@),
            None => !vstd::utf8::valid_utf8(bytes@),
        },
{
    core::str::from_utf8(bytes).ok()
}

/// A banner is shown character by character as it was found.
pub proof fn law_banner_is_text(text: Seq<u8>)
    requires
        is_banner(text),
    ensures
        banner_text(text) == Seq::new(text.len(), |i: int| text[i] as char),
{
    let chars = Seq::new(text.len(), |i: int| text[i] as char);
    vstd::utf8::is_ascii_chars_encode_utf8(chars);
    assert(vstd::utf8::encode_utf8(chars) =~= text) by {
        assert forall|i: int| 0 <= i < text.len() implies vstd::utf8::encode_utf8(chars)[i]
            == text[i] by {
            assert(chars[i] as u8 == text[i]);
        }
    }
    vstd::utf8::encode_utf8_valid_utf8(chars);
    vstd::utf8::encode_utf8_decode_utf8(chars);
}

/// The bytes that may stand in a banner: those of visible ASCII characters and the space,
/// the tab, the line feed and the carriage return.
pub proof fn law_printable(byte: u8)
    ensures
        printable(byte) <==> 32 <= byte <= 126 || byte == 9 || byte == 10 || byte == 13,
        newline(byte) <==> byte == 10 || byte == 13,
{
}

/// A buffer that begins with "Linux version", and whose bytes before `end` are all
/// printable, holds a banner, however long: `end` is where the first zero byte is, or
/// where the buffer ends. The banner is all the text before `end` but the line endings
/// that it ends in.
pub proof fn law_banner_found(buf: Seq<u8>, end: int)
    requires
        13 <= buf.len(),
        buf.take(13) == seq![76u8, 105, 110, 117, 120, 32, 118, 101, 114, 115, 105, 111, 110],
        0 <= end <= buf.len(),
        end < buf.len() ==> buf[end] == 0,
        forall|i: int|
            0 <= i < end ==> 32 <= (#[trigger] buf[i]) <= 126 || buf[i] == 9 || buf[i] == 10
                || buf[i] == 13,
    ensures
        banner_len(buf) matches Some(len) && {
            &&& 13 <= len <= end
            &&& buf[len - 1] != 10 && buf[len - 1] != 13
            &&& forall|i: int| len <= i < end ==> #[trigger] buf[i] == 10 || buf[i] == 13
        },
{
    lemma_text_end(buf, 0);
    let at = text_end(buf, 0) as int;
    assert(at == end) by {
        if at < end {
            assert(buf[at] == 0);
        }
        if end < at {
            assert(buf[end] != 0);
        }
    }
    assert(linux_banner_prefix().is_prefix_of(buf)) by {
        assert(buf.take(13) =~= linux_banner_prefix());
    }
    assert(forall|i: int| 0 <= i < end ==> printable(#[trigger] buf[i]));
    law_banner_len(buf);
}

/// A buffer that does not begin with "Linux version" holds no banner, and neither does one
/// with a byte before its first zero byte that is not printable.
pub proof fn law_no_banner(buf: Seq<u8>, at: int)
    ensures
        buf.len() < 13 ==> banner_len(buf) is None,
        buf.len() >= 13 && buf.take(13) != seq![
            76u8,
            105,
            110,
            117,
            120,
            32,
            118,
            101,
            114,
            115,
            105,
            111,
            110,
        ] ==> banner_len(buf) is None,
        ({
            &&& 0 <= at < buf.len()
            &&& forall|i: int| 0 <= i <= at ==> buf[i] != 0
            &&& !(32 <= buf[at] <= 126 || buf[at] == 9 || buf[at] == 10 || buf[at] == 13)
        }) ==> banner_len(buf) is None,
{
    let prefix = linux_banner_prefix();
    if buf.len() >= 13 && prefix.is_prefix_of(buf) {
        assert(buf.take(13) =~= prefix);
    }
    lemma_text_end(buf, 0);
    if 0 <= at < buf.len() && (forall|i: int| 0 <= i <= at ==> buf[i] != 0) {
        let end = text_end(buf, 0) as int;
        assert(at < end) by {
            if end <= at {
                assert(buf[end] != 0);
            }
        }
    }
}

impl BannerBytes {
    /// What is kept is the source, or its first 256 bytes, at the front; the bytes behind
    /// it stay as they were. At first all bytes are zero, and none belongs to a banner.
    pub proof fn law_kept_bytes(self, src: Seq<u8>)
        requires
            self.bytes.len() == 256,
        ensures
            self.with(src).len == if src.len() <= 256 {
                src.len()
            } else {
                256
            },
            self.with(src).bytes.len() == 256,
            forall|i: int|
                0 <= i < 256 ==> #[trigger] self.with(src).bytes[i] == if i < src.len() {
                    src[i]
                } else {
                    self.bytes[i]
                },
            self.len <= 256 ==> self.text().len() == self.len && forall|i: int|
                0 <= i < self.len ==> #[trigger] self.text()[i] == self.bytes[i],
            BannerBytes::empty().len == 0,
            BannerBytes::empty().bytes.len() == 256,
            forall|i: int| 0 <= i < 256 ==> #[trigger] BannerBytes::empty().bytes[i] == 0,
    {
    }
}

/// A banner that is UTF-8 is shown so that its text encodes to the banner again, whatever
/// its length. What is no banner, and what is no UTF-8, is shown by fixed words.
pub proof fn law_banner_text(banner: Seq<u8>)
    ensures
        banner.len() == 0 ==> banner_text(banner) == "<unknown>"@,
        banner.len() > 0 && vstd::utf8::valid_utf8(banner) ==> vstd::utf8::encode_utf8(
            banner_text(banner),
        ) == banner,
        banner.len() > 0 && !vstd::utf8::valid_utf8(banner) ==> banner_text(banner)
            == "<non-utf8>"@,
{
    if banner.len() > 0 && vstd::utf8::valid_utf8(banner) {
        vstd::utf8::decode_utf8_encode_utf8(banner);
    }
}

} // verus!
