use std::collections::BTreeMap;

use tdx_guest::banner::{
    is_printable_ascii, linux_banner_len, BannerCache, BannerSnapshot, LINUX_BANNER_MAX_LEN,
};
use tdx_guest::guest_mem::{align_down, align_up, GuestEvent, GuestReply, GuestRequest, Step};
use tdx_guest::guest_read::{read_guest_virt_slice, GuestRead};
use tdx_guest::guest_symbols::{
    banner_snapshot, maybe_resolve_linux_banner, tcp_hashinfo_gva, GuestSymbols,
    LINUX_BANNER_PATTERN_BASE, LINUX_BANNER_PATTERN_STEP, TCP_HASHINFO_OFFSET,
};
use tdx_guest::guest_word::{
    read_guest_be16, read_guest_be32, read_guest_u16, read_guest_u32, read_guest_u64, read_guest_u8,
};
use tdx_guest::sock_cache::LoggedSockCache;
use tdx_guest::tcp_bucket::{scan_bucket, BucketScan};
use tdx_guest::tcp_log::{maybe_log_tcp_connections, TcpLog, TcpScan};
use tdx_guest::tcp_sock::{remember_sock, try_log_sock, SockProbe, TcpConnection};

const PAGE: u64 = 4096;
const BANNER: &str = "Linux version 6.12.0-233.el10.x86_64 (builder@host) #1 SMP";

/// A guest whose memory is a list of pages; the frame of page `n` is `n` modulo 2^20, plus 7.
struct Guest {
    cr3: u64,
    pages: BTreeMap<u64, Vec<u8>>,
    refused: Vec<u64>,
    asked: Vec<GuestRequest>,
}

fn frame(page: u64) -> u64 {
    page % (1 << 20) + 7
}

impl Guest {
    fn new() -> Guest {
        Guest { cr3: 0x1000, pages: BTreeMap::new(), refused: Vec::new(), asked: Vec::new() }
    }

    fn put(&mut self, gva: u64, bytes: &[u8]) {
        for (i, byte) in bytes.iter().enumerate() {
            let addr = gva.wrapping_add(i as u64);
            let page = self.pages.entry(addr / PAGE).or_insert_with(|| vec![0; 4096]);
            page[(addr % PAGE) as usize] = *byte;
        }
    }

    fn put_u64(&mut self, gva: u64, value: u64) {
        self.put(gva, &value.to_le_bytes());
    }

    fn answer(&mut self, request: GuestRequest) -> GuestReply {
        self.asked.push(request);
        match request {
            GuestRequest::ReadCr3 => GuestReply::Cr3(self.cr3),
            GuestRequest::Translate { gva } => {
                if self.pages.contains_key(&(gva / PAGE)) {
                    GuestReply::Translated(frame(gva / PAGE) * PAGE + gva % PAGE)
                } else {
                    GuestReply::Refused
                }
            }
            GuestRequest::Accept { start, end } => {
                assert_eq!(start % PAGE, 0);
                assert_eq!(end, start + PAGE);
                if self.refused.contains(&start) {
                    GuestReply::Refused
                } else {
                    GuestReply::Accepted
                }
            }
            GuestRequest::Fetch { gpa, len } => {
                for (page, bytes) in &self.pages {
                    if frame(*page) == gpa / PAGE {
                        let at = (gpa % PAGE) as usize;
                        return GuestReply::Fetched(bytes[at..at + len].to_vec());
                    }
                }
                GuestReply::Refused
            }
        }
    }

    fn read(&mut self, gva: u64, len: usize) -> (Option<()>, Vec<u8>) {
        let mut event = GuestEvent::Call;
        let mut read = GuestRead::new(gva, vec![0xee; len]);
        loop {
            let (next, step) = read_guest_virt_slice(read, event);
            read = next;
            match step {
                Step::Ask(request) => event = GuestEvent::Reply(self.answer(request)),
                Step::Done(result) => return (result, read.buf().to_vec()),
            }
        }
    }

    fn word<T>(
        &mut self,
        gva: u64,
        len: usize,
        f: fn(GuestRead, GuestEvent) -> (GuestRead, Step<Option<T>>),
    ) -> Option<T> {
        let mut event = GuestEvent::Call;
        let mut read = GuestRead::zeroed(gva, len);
        loop {
            let (next, step) = f(read, event);
            read = next;
            match step {
                Step::Ask(request) => event = GuestEvent::Reply(self.answer(request)),
                Step::Done(result) => return result,
            }
        }
    }

    fn resolve(&mut self, symbols: &mut GuestSymbols) -> bool {
        let mut event = GuestEvent::Call;
        loop {
            match maybe_resolve_linux_banner(symbols, event) {
                Step::Ask(request) => event = GuestEvent::Reply(self.answer(request)),
                Step::Done(found) => return found,
            }
        }
    }

    fn sock(&mut self, socks: &mut LoggedSockCache, sock_ptr: u64) -> Option<TcpConnection> {
        let mut event = GuestEvent::Call;
        let mut probe = SockProbe::new(5, sock_ptr);
        loop {
            let (next, step) = try_log_sock(probe, socks, event);
            probe = next;
            match step {
                Step::Ask(request) => event = GuestEvent::Reply(self.answer(request)),
                Step::Done(result) => return result,
            }
        }
    }

    fn bucket(&mut self, socks: &mut LoggedSockCache, ehash_ptr: u64, index: u32) {
        let mut event = GuestEvent::Call;
        let mut scan = BucketScan::new(ehash_ptr, index);
        loop {
            let (next, step) = scan_bucket(scan, socks, event);
            scan = next;
            match step {
                Step::Ask(request) => event = GuestEvent::Reply(self.answer(request)),
                Step::Done(()) => return,
            }
        }
    }

    fn table(&mut self, log: &mut TcpLog, tcp_hashinfo: Option<u64>) {
        let mut event = GuestEvent::Call;
        let mut scan = TcpScan::new(tcp_hashinfo);
        loop {
            let (next, step) = maybe_log_tcp_connections(scan, log, event);
            scan = next;
            match step {
                Step::Ask(request) => event = GuestEvent::Reply(self.answer(request)),
                Step::Done(()) => return,
            }
        }
    }

    /// A socket of 10.1.2.3:40000 to 192.168.0.9:443, linked to the node `next`.
    fn put_sock(&mut self, sock_ptr: u64, family: u16, state: u8, next: u64) {
        self.put(sock_ptr, &[192, 168, 0, 9]);
        self.put(sock_ptr + 4, &[10, 1, 2, 3]);
        self.put(sock_ptr + 12, &[0x01, 0xbb]);
        self.put(sock_ptr + 14, &40000u16.to_le_bytes());
        self.put(sock_ptr + 16, &family.to_le_bytes());
        self.put(sock_ptr + 18, &[state]);
        self.put_u64(sock_ptr + 104, next);
    }
}

fn candidate(idx: u64) -> u64 {
    LINUX_BANNER_PATTERN_BASE + idx * LINUX_BANNER_PATTERN_STEP
}

#[test]
fn addresses_align_to_pages() {
    assert_eq!(align_down(0x1fff), 0x1000);
    assert_eq!(align_down(0x2000), 0x2000);
    assert_eq!(align_up(0x2000), 0x2000);
    assert_eq!(align_up(0x2001), 0x3000);
    assert_eq!(align_up(u64::MAX), 0);
}

#[test]
fn read_asks_page_by_page() {
    let mut guest = Guest::new();
    let bytes: Vec<u8> = (0..20).collect();
    guest.put(0x3ff8, &bytes);
    let (result, buf) = guest.read(0x3ff8, 20);
    assert_eq!(result, Some(()));
    assert_eq!(buf, bytes);
    assert_eq!(
        guest.asked,
        vec![
            GuestRequest::Translate { gva: 0x3ff8 },
            GuestRequest::Accept { start: 0xa000, end: 0xb000 },
            GuestRequest::Fetch { gpa: 0xaff8, len: 8 },
            GuestRequest::Translate { gva: 0x4000 },
            GuestRequest::Accept { start: 0xb000, end: 0xc000 },
            GuestRequest::Fetch { gpa: 0xb000, len: 12 },
        ]
    );
}

#[test]
fn read_of_nothing_asks_nothing() {
    let mut guest = Guest::new();
    assert_eq!(guest.read(0x1000, 0), (Some(()), vec![]));
    assert!(guest.asked.is_empty());
}

#[test]
fn read_fails_where_a_page_is_missing() {
    let mut guest = Guest::new();
    guest.put(0x3ff8, &[1, 2, 3, 4, 5, 6, 7, 8]);
    let (result, buf) = guest.read(0x3ff8, 10);
    assert_eq!(result, None);
    // The first page was read before the second was refused.
    assert_eq!(buf, vec![1, 2, 3, 4, 5, 6, 7, 8, 0xee, 0xee]);
}

#[test]
fn read_fails_where_a_page_is_not_accepted() {
    let mut guest = Guest::new();
    guest.put(0x3000, &[1]);
    guest.refused.push(0xa000);
    assert_eq!(guest.read(0x3000, 1).0, None);
    assert_eq!(guest.asked.len(), 2);
}

#[test]
fn failed_read_keeps_the_rest_of_its_buffer() {
    let mut guest = Guest::new();
    guest.put(0x3ffe, &[1, 2]);
    guest.put(0x4000, &[3; 4096]);
    guest.put(0x5000, &[4, 4]);
    // The frame of the third page cannot be accepted.
    guest.refused.push(0xc000);
    let (result, buf) = guest.read(0x3ffe, 4100);
    assert_eq!(result, None);
    assert_eq!(buf[..2], [1, 2]);
    assert!(buf[2..4098].iter().all(|b| *b == 3));
    assert_eq!(buf[4098..], [0xee, 0xee]);
    assert_eq!(guest.asked.last(), Some(&GuestRequest::Accept { start: 0xc000, end: 0xd000 }));
}

#[test]
fn read_fails_on_answers_that_do_not_fit() {
    let read = GuestRead::new(0x3000, vec![0; 4]);
    let (read, step) = read_guest_virt_slice(read, GuestEvent::Reply(GuestReply::Accepted));
    assert_eq!(step, Step::Done(None));
    let (_, step) = read_guest_virt_slice(read, GuestEvent::Reply(GuestReply::Translated(1)));
    assert_eq!(step, Step::Done(None));

    let read = GuestRead::new(0x3000, vec![0; 4]);
    let (read, _) = read_guest_virt_slice(read, GuestEvent::Reply(GuestReply::Translated(0x5000)));
    let (read, _) = read_guest_virt_slice(read, GuestEvent::Reply(GuestReply::Accepted));
    let (_, step) =
        read_guest_virt_slice(read, GuestEvent::Reply(GuestReply::Fetched(vec![1, 2, 3])));
    assert_eq!(step, Step::Done(None));
}

#[test]
fn read_reaches_the_last_address() {
    let mut guest = Guest::new();
    guest.put(u64::MAX - 7, &[1, 2, 3, 4, 5, 6, 7, 8]);
    let (result, buf) = guest.read(u64::MAX - 7, 8);
    assert_eq!(result, Some(()));
    assert_eq!(buf, vec![1, 2, 3, 4, 5, 6, 7, 8]);
    guest.put(0, &[9]);
    assert_eq!(guest.read(u64::MAX, 2), (Some(()), vec![8, 9]));
}

#[test]
fn words_have_their_byte_order() {
    let mut guest = Guest::new();
    guest.put(0x1ffc, &[0x11, 0x22, 0x33, 0x44, 0x55, 0x66, 0x77, 0x88]);
    assert_eq!(guest.word(0x1ffc, 8, read_guest_u64), Some(0x8877_6655_4433_2211));
    assert_eq!(guest.word(0x1ffc, 4, read_guest_u32), Some(0x4433_2211));
    assert_eq!(guest.word(0x1ffc, 2, read_guest_u16), Some(0x2211));
    assert_eq!(guest.word(0x1ffc, 1, read_guest_u8), Some(0x11));
    assert_eq!(guest.word(0x1ffc, 2, read_guest_be16), Some(0x1122));
    assert_eq!(guest.word(0x1ffc, 4, read_guest_be32), Some(0x1122_3344));
    assert_eq!(guest.word(0x9000, 8, read_guest_u64), None);
    assert_eq!(guest.word(0x9000, 4, read_guest_u32), None);
    assert_eq!(guest.word(0x9000, 2, read_guest_u16), None);
    assert_eq!(guest.word(0x9000, 1, read_guest_u8), None);
    assert_eq!(guest.word(0x9000, 2, read_guest_be16), None);
    assert_eq!(guest.word(0x9000, 4, read_guest_be32), None);
}

#[test]
fn byte_orders_mirror() {
    let mut guest = Guest::new();
    guest.put(0x1000, &[1, 2, 3, 4]);
    guest.put(0x2000, &[4, 3, 2, 1]);
    assert_eq!(guest.word(0x1000, 4, read_guest_be32), guest.word(0x2000, 4, read_guest_u32));
}

#[test]
fn printable_characters() {
    for byte in 0..=255u8 {
        let expected = (0x20..=0x7e).contains(&byte) || byte == 9 || byte == 10 || byte == 13;
        assert_eq!(is_printable_ascii(byte), expected);
    }
}

#[test]
fn banner_lengths() {
    assert_eq!(linux_banner_len(b"Linux version"), Some(13));
    assert_eq!(linux_banner_len(b"Linux version 6\n\r\n\0junk\x01"), Some(15));
    assert_eq!(linux_banner_len(b"Linux version 6\nb\n"), Some(17));
    assert_eq!(linux_banner_len(b"Linux version\t6\0"), Some(15));
    assert_eq!(linux_banner_len(b"Linux versio"), None);
    assert_eq!(linux_banner_len(b"linux version 6"), None);
    assert_eq!(linux_banner_len(b"Linux version \x7f"), None);
    assert_eq!(linux_banner_len(b"Linux version \xff\0"), None);
    assert_eq!(linux_banner_len(b""), None);
    assert_eq!(linux_banner_len(b"\0Linux version"), None);
}

#[test]
fn banner_text_forms() {
    let mut snapshot = BannerSnapshot {
        banner_gva: 0,
        banner_gpa: 0,
        tcp_hashinfo_gva: 0,
        tcp_hashinfo_gpa: 0,
        banner: BannerCache::new(),
    };
    assert_eq!(snapshot.banner_str(), "<unknown>");
    snapshot.banner.set(BANNER.as_bytes());
    assert_eq!(snapshot.banner_str(), BANNER);
    snapshot.banner.set("gr\u{fc}n".as_bytes());
    assert_eq!(snapshot.banner_str(), "gr\u{fc}n");
    snapshot.banner.set(&[0x41, 0xff]);
    assert_eq!(snapshot.banner_str(), "<non-utf8>");
    snapshot.banner.set(&[0x41; 300]);
    assert_eq!(snapshot.banner_str().len(), LINUX_BANNER_MAX_LEN);
    snapshot.banner.set(&[]);
    assert_eq!(snapshot.banner_str(), "<unknown>");
}

#[test]
fn search_finds_the_first_banner() {
    let mut guest = Guest::new();
    guest.put(candidate(3), b"not a banner");
    guest.put(candidate(0x120), BANNER.as_bytes());
    guest.put(candidate(0x121), b"Linux version of another kernel");
    guest.put(candidate(0x120) + TCP_HASHINFO_OFFSET, &[0]);
    let mut symbols = GuestSymbols::new();
    assert_eq!(tcp_hashinfo_gva(&symbols), None);
    assert!(guest.resolve(&mut symbols));
    let gva = candidate(0x120);
    let hashinfo = gva + TCP_HASHINFO_OFFSET;
    let snapshot = banner_snapshot(&symbols);
    assert_eq!(snapshot.banner_gva, 0xffff_ffff_1205_a0c0);
    assert_eq!(snapshot.banner_gpa, frame(gva / PAGE) * PAGE + gva % PAGE);
    assert_eq!(snapshot.tcp_hashinfo_gva, 0xffff_ffff_140a_6a00);
    assert_eq!(snapshot.tcp_hashinfo_gpa, frame(hashinfo / PAGE) * PAGE + hashinfo % PAGE);
    assert_eq!(snapshot.banner_str(), BANNER);
    assert_eq!(tcp_hashinfo_gva(&symbols), Some(hashinfo));
    // Once found, nothing is asked any more.
    let asked = guest.asked.len();
    assert!(!guest.resolve(&mut symbols));
    assert_eq!(guest.asked.len(), asked);
    assert_eq!(banner_snapshot(&symbols).banner_gva, gva);
}

#[test]
fn search_without_the_table_mapped() {
    let mut guest = Guest::new();
    guest.put(candidate(0), BANNER.as_bytes());
    let mut symbols = GuestSymbols::new();
    assert!(guest.resolve(&mut symbols));
    let snapshot = banner_snapshot(&symbols);
    assert_eq!(snapshot.tcp_hashinfo_gva, candidate(0) + TCP_HASHINFO_OFFSET);
    assert_eq!(snapshot.tcp_hashinfo_gpa, 0);
}

#[test]
fn search_with_the_table_out_of_reach() {
    let mut guest = Guest::new();
    guest.put(candidate(0xfff), BANNER.as_bytes());
    let mut symbols = GuestSymbols::new();
    assert!(guest.resolve(&mut symbols));
    let snapshot = banner_snapshot(&symbols);
    assert_eq!(snapshot.banner_gva, 0xffff_ffff_fff5_a0c0);
    assert_eq!(snapshot.tcp_hashinfo_gva, 0);
    assert_eq!(snapshot.tcp_hashinfo_gpa, 0);
    assert_eq!(tcp_hashinfo_gva(&symbols), None);
}

#[test]
fn search_finds_nothing() {
    let mut guest = Guest::new();
    let mut symbols = GuestSymbols::new();
    assert!(!guest.resolve(&mut symbols));
    assert_eq!(guest.asked.len(), 1 + 0x1000);
    assert_eq!(banner_snapshot(&symbols).banner_str(), "<unknown>");
    assert_eq!(banner_snapshot(&symbols).banner_gva, 0);
    // The next call searches again.
    guest.put(candidate(1), BANNER.as_bytes());
    assert!(guest.resolve(&mut symbols));
}

#[test]
fn search_needs_page_tables() {
    let mut guest = Guest::new();
    guest.cr3 = 0;
    guest.put(candidate(0), BANNER.as_bytes());
    let mut symbols = GuestSymbols::new();
    assert!(!guest.resolve(&mut symbols));
    assert_eq!(guest.asked, vec![GuestRequest::ReadCr3]);
    guest.cr3 = 0x1000;
    assert!(guest.resolve(&mut symbols));
}

#[test]
fn search_skips_unreadable_candidates() {
    let mut guest = Guest::new();
    guest.put(candidate(0), BANNER.as_bytes());
    guest.refused.push(frame(candidate(0) / PAGE) * PAGE);
    guest.put(candidate(1), BANNER.as_bytes());
    let mut symbols = GuestSymbols::new();
    assert!(guest.resolve(&mut symbols));
    assert_eq!(banner_snapshot(&symbols).banner_gva, candidate(1));
}

#[test]
fn one_search_at_a_time() {
    let mut symbols = GuestSymbols::new();
    let step = maybe_resolve_linux_banner(&mut symbols, GuestEvent::Call);
    assert_eq!(step, Step::Ask(GuestRequest::ReadCr3));
    let step = maybe_resolve_linux_banner(&mut symbols, GuestEvent::Call);
    assert_eq!(step, Step::Done(false));
    let reply = GuestEvent::Reply(GuestReply::Cr3(0x1000));
    let step = maybe_resolve_linux_banner(&mut symbols, reply);
    assert_eq!(step, Step::Ask(GuestRequest::Translate { gva: candidate(0) }));
    let step = maybe_resolve_linux_banner(&mut symbols, GuestEvent::Call);
    assert_eq!(step, Step::Done(false));
}

#[test]
fn answer_without_a_search_is_ignored() {
    let mut symbols = GuestSymbols::new();
    let reply = GuestEvent::Reply(GuestReply::Translated(0x1000));
    assert_eq!(maybe_resolve_linux_banner(&mut symbols, reply), Step::Done(false));
    assert_eq!(
        maybe_resolve_linux_banner(&mut symbols, GuestEvent::Call),
        Step::Ask(GuestRequest::ReadCr3)
    );
}

#[test]
fn socks_are_new_once() {
    let mut socks = LoggedSockCache::new();
    assert!(!socks.contains(0));
    assert!(socks.insert_if_new(0));
    assert!(!socks.insert_if_new(0));
    assert!(remember_sock(&mut socks, 17));
    assert!(!remember_sock(&mut socks, 17));
    assert!(socks.contains(17));
    assert!(!socks.contains(18));
}

#[test]
fn oldest_sock_gives_way() {
    let mut socks = LoggedSockCache::new();
    for sock in 0..1024 {
        assert!(socks.insert_if_new(sock));
    }
    // Meeting the oldest again does not make it younger.
    assert!(!socks.insert_if_new(0));
    assert!(socks.insert_if_new(5000));
    assert!(!socks.contains(0));
    assert!(socks.contains(1));
    assert!(socks.insert_if_new(5001));
    assert!(!socks.contains(1));
    for sock in 6000..7022 {
        assert!(socks.insert_if_new(sock));
    }
    assert!(socks.contains(5000));
    assert!(socks.insert_if_new(8000));
    assert!(!socks.contains(5000));
    assert!(socks.contains(5001));
}

#[test]
fn known_socks_take_no_room() {
    let mut socks = LoggedSockCache::new();
    for sock in 0..600 {
        assert!(socks.insert_if_new(sock));
    }
    for sock in 0..600 {
        assert!(!socks.insert_if_new(sock));
    }
    for sock in 600..1024 {
        assert!(socks.insert_if_new(sock));
    }
    for sock in 0..1024 {
        assert!(socks.contains(sock));
    }
}

#[test]
fn full_turn_forgets_all() {
    let mut socks = LoggedSockCache::new();
    for sock in 1..=1024 {
        socks.insert_if_new(sock);
    }
    socks.insert_if_new(1);
    assert!(socks.insert_if_new(1025));
    assert!(!socks.contains(1));
    assert!(socks.contains(2));
    assert!(socks.contains(1024));
    for sock in 1026..=2048 {
        assert!(socks.insert_if_new(sock));
    }
    for sock in 1..=1024 {
        assert!(!socks.contains(sock));
    }
    for sock in 1025..=2048 {
        assert!(socks.contains(sock));
    }
}

#[test]
fn sock_describes_its_connection() {
    let mut guest = Guest::new();
    let mut socks = LoggedSockCache::new();
    guest.put_sock(0x8000, 2, 1, 1);
    let conn = guest.sock(&mut socks, 0x8000);
    assert_eq!(
        conn,
        Some(TcpConnection {
            bucket_index: 5,
            sock_ptr: 0x8000,
            state: 1,
            saddr: 0x0a01_0203,
            sport: 40000,
            daddr: 0xc0a8_0009,
            dport: 443,
        })
    );
    assert!(socks.contains(0x8000));
    assert_eq!(guest.sock(&mut socks, 0x8000), None);
}

#[test]
fn sock_fields_are_read_in_order() {
    let mut guest = Guest::new();
    guest.put_sock(0x8000, 2, 6, 1);
    guest.sock(&mut LoggedSockCache::new(), 0x8000);
    let mut fetched = Vec::new();
    for request in &guest.asked {
        if let GuestRequest::Fetch { gpa, len } = request {
            fetched.push((gpa % PAGE, *len));
        }
    }
    assert_eq!(fetched, vec![(16, 2), (18, 1), (0, 4), (4, 4), (12, 2), (14, 2)]);
}

#[test]
fn other_socks_are_passed_over() {
    let mut guest = Guest::new();
    let mut socks = LoggedSockCache::new();
    guest.put_sock(0x8000, 10, 1, 1);
    assert_eq!(guest.sock(&mut socks, 0x8000), None);
    for state in [0u8, 2, 3, 4, 5, 7, 10] {
        guest.put_sock(0x8000, 2, state, 1);
        assert_eq!(guest.sock(&mut socks, 0x8000), None);
    }
    assert_eq!(guest.sock(&mut socks, 0x20_0000), None);
    assert!(!socks.contains(0x8000));
    guest.put_sock(0x8000, 2, 6, 1);
    assert!(guest.sock(&mut socks, 0x8000).is_some());
}

#[test]
fn sock_with_a_missing_field_is_passed_over() {
    let mut guest = Guest::new();
    let mut socks = LoggedSockCache::new();
    // The family lies on the second page, the addresses on the first, which is missing.
    guest.put(0x9000, &[2, 0, 1]);
    assert_eq!(guest.sock(&mut socks, 0x8ff0), None);
    assert!(!socks.contains(0x8ff0));
    guest.put(0x8ff0, &[0; 16]);
    assert!(guest.sock(&mut socks, 0x8ff0).is_some());
}

#[test]
fn bucket_is_walked_to_its_end() {
    let mut guest = Guest::new();
    let mut socks = LoggedSockCache::new();
    guest.put_u64(0x4000 + 8 * 3, 0x8000 + 104);
    guest.put_sock(0x8000, 2, 1, 0xa000 + 104);
    guest.put_sock(0xa000, 10, 1, 0xc000 + 104);
    guest.put_sock(0xc000, 2, 6, 7);
    guest.bucket(&mut socks, 0x4000, 3);
    assert!(socks.contains(0x8000));
    assert!(!socks.contains(0xa000));
    assert!(socks.contains(0xc000));
}

#[test]
fn bucket_ends_at_odd_null_or_small_pointers() {
    for head in [0u64, 1, 0x8000 + 105, 102, 103] {
        let mut guest = Guest::new();
        guest.put_u64(0x4000, head);
        let mut socks = LoggedSockCache::new();
        guest.bucket(&mut socks, 0x4000, 0);
        assert_eq!(guest.asked.len(), 3);
    }
    // The smallest pointer that can belong to a socket.
    let mut guest = Guest::new();
    guest.put_u64(0x4000, 104);
    guest.put_sock(0, 2, 1, 1);
    let mut socks = LoggedSockCache::new();
    guest.bucket(&mut socks, 0x4000, 0);
    assert!(socks.contains(0));
}

#[test]
fn bucket_ends_at_an_unreadable_link() {
    let mut guest = Guest::new();
    let mut socks = LoggedSockCache::new();
    guest.put_u64(0x4000, 0x9000);
    // The socket is readable, the page of its link is not.
    guest.put(0x9000 - 104, &[0; 16]);
    guest.put(0x9000 - 104 + 16, &[2, 0, 1]);
    guest.bucket(&mut socks, 0x4000, 0);
    assert!(socks.contains(0x9000 - 104));
    assert_eq!(guest.asked.last(), Some(&GuestRequest::Translate { gva: 0x9000 }));
}

#[test]
fn bucket_ends_at_a_page_that_is_not_accepted() {
    let mut guest = Guest::new();
    guest.put_u64(0x4000, 0x7ff0 + 104);
    guest.put_sock(0x7ff0, 2, 1, 0x9000 + 104);
    guest.put_sock(0x9000, 2, 1, 1);
    let mut socks = LoggedSockCache::new();
    // The link of the first socket, and its last fields, lie on the page behind it.
    guest.refused.push(frame(0x8) * PAGE);
    guest.bucket(&mut socks, 0x4000, 0);
    assert!(!socks.contains(0x7ff0));
    assert!(!socks.contains(0x9000));
    guest.refused.clear();
    guest.bucket(&mut socks, 0x4000, 0);
    assert!(socks.contains(0x7ff0));
    assert!(socks.contains(0x9000));
}

#[test]
fn long_bucket_is_cut_off() {
    let mut guest = Guest::new();
    let mut socks = LoggedSockCache::new();
    guest.put_u64(0x4000, 0x10_0000 + 104);
    for i in 0..70u64 {
        let sock = 0x10_0000 + i * 0x100;
        guest.put_sock(sock, 2, 1, sock + 0x100 + 104);
    }
    guest.bucket(&mut socks, 0x4000, 0);
    assert!(socks.contains(0x10_0000 + 63 * 0x100));
    assert!(!socks.contains(0x10_0000 + 64 * 0x100));
}

#[test]
fn circular_bucket_is_left() {
    let mut guest = Guest::new();
    let mut socks = LoggedSockCache::new();
    guest.put_u64(0x4000, 0x8000 + 104);
    guest.put_sock(0x8000, 2, 1, 0x8000 + 104);
    guest.bucket(&mut socks, 0x4000, 0);
    assert!(socks.contains(0x8000));
    // One head, and 64 times six fields and a link, each of three questions.
    assert_eq!(guest.asked.len(), 3 + 64 * 7 * 3);
}

#[test]
fn bucket_beyond_the_address_space_is_skipped() {
    let mut guest = Guest::new();
    let mut socks = LoggedSockCache::new();
    guest.bucket(&mut socks, u64::MAX - 7, 1);
    assert!(guest.asked.is_empty());
}

fn table_guest() -> Guest {
    let mut guest = Guest::new();
    guest.put_u64(0x2000, 0x4000);
    guest.put(0x2010, &3u32.to_le_bytes());
    for i in 0..4u64 {
        guest.put_u64(0x4000 + 8 * i, 1);
    }
    guest.put_u64(0x4000, 0x8000 + 104);
    guest.put_u64(0x4000 + 8 * 3, 0xa000 + 104);
    guest.put_sock(0x8000, 2, 1, 1);
    guest.put_sock(0xa000, 2, 6, 1);
    guest
}

#[test]
fn table_is_walked_bucket_by_bucket() {
    let mut guest = table_guest();
    // A socket behind the last bucket is not met.
    guest.put_u64(0x4000 + 8 * 4, 0xc000 + 104);
    guest.put_sock(0xc000, 2, 1, 1);
    let mut log = TcpLog::new();
    guest.table(&mut log, Some(0x2000));
    assert!(log.contains(0x8000));
    assert!(log.contains(0xa000));
    assert!(!log.contains(0xc000));
    assert!(log.hashinfo_logged());
}

#[test]
fn second_walk_finds_nothing_new() {
    let mut guest = table_guest();
    let mut log = TcpLog::new();
    guest.table(&mut log, Some(0x2000));
    let asked = guest.asked.len();
    guest.table(&mut log, Some(0x2000));
    assert_eq!(guest.asked.len(), 2 * asked);
    assert!(log.contains(0x8000));
    assert!(log.contains(0xa000));
}

#[test]
fn table_must_be_known_and_running() {
    let mut guest = table_guest();
    let mut log = TcpLog::new();
    guest.table(&mut log, None);
    assert!(guest.asked.is_empty());
    guest.cr3 = 0;
    guest.table(&mut log, Some(0x2000));
    assert_eq!(guest.asked, vec![GuestRequest::ReadCr3]);
    assert!(!log.contains(0x8000));
    assert!(!log.hashinfo_logged());
}

#[test]
fn table_must_be_readable() {
    let mut log = TcpLog::new();
    let mut guest = table_guest();
    guest.table(&mut log, Some(0x7_0000));
    assert!(!log.hashinfo_logged());

    guest.put_u64(0x2000, 0);
    guest.table(&mut log, Some(0x2000));
    assert!(!log.hashinfo_logged());

    guest.put_u64(0x2000, 0x4000);
    guest.put(0x2010, &u32::MAX.to_le_bytes());
    guest.table(&mut log, Some(0x2000));
    assert!(!log.hashinfo_logged());

    guest.put_u64(0x5ff8, 0x4000);
    guest.table(&mut log, Some(0x5ff8));
    assert!(!log.hashinfo_logged());
    assert!(!log.contains(0x8000));
}

#[test]
fn table_found_is_the_table_walked() {
    let mut guest = Guest::new();
    let mut symbols = GuestSymbols::new();
    let mut log = TcpLog::new();
    // Nothing is asked while the search has found nothing.
    let (_, step) =
        maybe_log_tcp_connections(TcpScan::of_symbols(&symbols), &mut log, GuestEvent::Call);
    assert_eq!(step, Step::Done(()));

    guest.put(candidate(0x120), BANNER.as_bytes());
    assert!(guest.resolve(&mut symbols));
    let scan = TcpScan::of_symbols(&symbols);
    let (scan, step) = maybe_log_tcp_connections(scan, &mut log, GuestEvent::Call);
    assert_eq!(step, Step::Ask(GuestRequest::ReadCr3));
    let reply = GuestEvent::Reply(GuestReply::Cr3(0x1000));
    let (_, step) = maybe_log_tcp_connections(scan, &mut log, reply);
    assert_eq!(step, Step::Ask(GuestRequest::Translate { gva: 0xffff_ffff_140a_6a00 }));
}

#[test]
fn table_ends_with_the_address_space() {
    let mut guest = Guest::new();
    guest.put_u64(0x2000, u64::MAX - 7);
    guest.put(0x2010, &0x7fff_ffffu32.to_le_bytes());
    guest.put_u64(u64::MAX - 7, 0x8000 + 104);
    guest.put_sock(0x8000, 2, 1, 1);
    let mut log = TcpLog::new();
    guest.table(&mut log, Some(0x2000));
    assert!(log.contains(0x8000));
    assert!(log.hashinfo_logged());
}

#[test]
fn table_walk_repeats_its_question() {
    let mut log = TcpLog::new();
    let scan = TcpScan::new(Some(0x2000));
    let (scan, step) = maybe_log_tcp_connections(scan, &mut log, GuestEvent::Call);
    assert_eq!(step, Step::Ask(GuestRequest::ReadCr3));
    let reply = GuestEvent::Reply(GuestReply::Cr3(0x1000));
    let (scan, step) = maybe_log_tcp_connections(scan, &mut log, reply);
    assert_eq!(step, Step::Ask(GuestRequest::Translate { gva: 0x2000 }));
    let (_, step) = maybe_log_tcp_connections(scan, &mut log, GuestEvent::Call);
    assert_eq!(step, Step::Ask(GuestRequest::Translate { gva: 0x2000 }));
}
