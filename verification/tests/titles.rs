use std::collections::HashMap;

use ovit_tools::index_entries::{index_entries, parse_number, IndexMatch};
use ovit_tools::partitions::{byte_range, select, targets, Partition, PartitionRule};
use ovit_tools::titles::{
    distinct_letters, read_listing, title_line, RangeScan, TitleRow, Titles, CHUNK_BYTES,
    OVERLAP_BYTES,
};

/// Reads an entry by hand at `start`.
fn entry_at(data: &[u8], start: usize) -> Option<IndexMatch> {
    let digits = |from: usize| from + data[from..].iter().take_while(|b| b.is_ascii_digit()).count();
    let number = |from: usize| {
        let end = digits(from);
        if end > from && data.get(end) == Some(&b':') {
            Some(end + 1)
        } else {
            None
        }
    };
    let title = number(start)?;
    let title_end = title + data[title..].iter().take_while(|b| **b != b':' && **b != 0).count();
    if title_end == title || title_end - title > 90 || data.get(title_end) != Some(&b':') {
        return None;
    }
    let fsid = number(number(title_end + 1)?)?;
    let end = digits(fsid);
    if end == fsid {
        return None;
    }
    Some(IndexMatch { start, title, title_end, fsid, end })
}

fn entries_by_hand(data: &[u8]) -> Vec<IndexMatch> {
    let mut found = Vec::new();
    let mut at = 0;
    while at < data.len() {
        match entry_at(data, at) {
            Some(m) => {
                at = m.end;
                found.push(m);
            }
            None => at += 1,
        }
    }
    found
}

fn listed(data: &[u8]) -> Vec<(u64, String)> {
    index_entries(data).iter().filter_map(|m| read_listing(data, m)).collect()
}

#[test]
fn an_entry_is_found_where_it_stands() {
    let data = b"\0\0junk 12:STAR TREK:3:4:5678\0";
    assert_eq!(
        index_entries(data),
        [IndexMatch { start: 7, title: 10, title_end: 19, fsid: 24, end: 28 }]
    );
    assert_eq!(listed(data), [(5678, "STAR TREK".to_string())]);
}

#[test]
fn entries_follow_the_grammar() {
    for (data, count) in [
        (&b"1:a:2:3:4"[..], 1),
        (b"1:a:2:3:", 0),
        (b"1::2:3:4", 0),
        (b":a:2:3:4", 0),
        (b"x:a:2:3:4", 0),
        (b"1:a\0b:2:3:4", 0),
        (b"1:a:2:x:4", 0),
        (b"1:a\nb:2:3:4", 1),
        (b"1:a\xff:2:3:4", 1),
        (b"1:a:2:3:4 5:b:6:7:8", 2),
        (b"1:2:3:4:5:6:7:8:9", 1),
        (b"9 1:ab:2:3", 0),
        (b"", 0),
    ] {
        assert_eq!(index_entries(data).len(), count, "{:?}", data);
        assert_eq!(index_entries(data), entries_by_hand(data), "{:?}", data);
    }
}

#[test]
fn a_title_has_at_most_ninety_bytes() {
    let fits = format!("1:{}:2:3:4", "t".repeat(90));
    let too_long = format!("1:{}:2:3:4", "t".repeat(91));
    assert_eq!(index_entries(fits.as_bytes()).len(), 1);
    assert!(index_entries(too_long.as_bytes()).is_empty());
}

#[test]
fn entries_do_not_overlap() {
    // The second entry would start within the first.
    let data = b"1:abc:2:3:4:def:5:6:7";
    let found = index_entries(data);
    assert_eq!(found, [IndexMatch { start: 0, title: 2, title_end: 5, fsid: 10, end: 11 }]);
    assert_eq!(found, entries_by_hand(data));
}

#[test]
fn entries_agree_with_a_reading_by_hand() {
    // Short runs over the bytes that matter, all of them and then many longer ones.
    let alphabet = [b'1', b':', b'a', 0];
    for n in 0..8u32 {
        for code in 0..4usize.pow(n) {
            let mut rest = code;
            let mut data = b"7:a".to_vec();
            for _ in 0..n {
                data.push(alphabet[rest % 4]);
                rest /= 4;
            }
            assert_eq!(index_entries(&data), entries_by_hand(&data), "{:?}", data);
            if n == 7 && code > 2000 {
                break;
            }
        }
    }
    let mut state: u64 = 42;
    for _ in 0..200 {
        let mut data = Vec::new();
        for _ in 0..300 {
            state = state.wrapping_mul(6364136223846793005).wrapping_add(1442695040888963407);
            data.push(b"0123::::::ab\0\xff"[(state >> 33) as usize % 14]);
        }
        assert_eq!(index_entries(&data), entries_by_hand(&data), "{:?}", data);
    }
}

#[test]
fn numbers_may_be_too_large() {
    assert_eq!(parse_number(b"0"), Some(0));
    assert_eq!(parse_number(b"1234567890"), Some(1234567890));
    assert_eq!(parse_number(b"000000000000000000000000000007"), Some(7));
    assert_eq!(parse_number(b"18446744073709551615"), Some(u64::MAX));
    assert_eq!(parse_number(b"18446744073709551616"), None);
    assert_eq!(parse_number(b"99999999999999999999999"), None);
    for n in [0u64, 7, 10, 999, u64::MAX] {
        assert_eq!(parse_number(format!("{}", n).as_bytes()), Some(n));
    }
}

#[test]
fn letters_are_counted_once() {
    assert_eq!(distinct_letters(b""), 0);
    assert_eq!(distinct_letters(b"ffffffff"), 1);
    assert_eq!(distinct_letters(b"fFfF"), 1);
    assert_eq!(distinct_letters(b"24"), 0);
    assert_eq!(distinct_letters(b"M*A*S*H"), 4);
    assert_eq!(distinct_letters(b"@[`{\xe9\xff"), 0);
    assert_eq!(distinct_letters(b"The quick brown fox jumps over the lazy dog"), 26);
}

#[test]
fn junk_titles_are_dropped() {
    assert!(listed(b"1:ffff:2:3:4").is_empty());
    assert!(listed(b"1:ab ab:2:3:4").is_empty());
    assert!(listed(b"1:Lost:2:3:99999999999999999999").is_empty());
    assert_eq!(listed(b"1:  Lost \t:2:3:4"), [(4, "Lost".to_string())]);
    assert_eq!(listed(b"1:\xc2\xa0Am\xc3\xa9lie\xe3\x80\x80:2:3:4"), [(4, "Am\u{e9}lie".to_string())]);
    assert_eq!(listed(b"1:bad\xffbyte:2:3:4"), [(4, "bad\u{fffd}byte".to_string())]);
}

#[test]
fn the_longest_title_is_kept() {
    let mut titles = Titles::new();
    titles.note(1, "Trek".to_string());
    titles.note(1, "Star Trek".to_string());
    titles.note(1, "tar Trek".to_string());
    titles.note(1, "Star Wars".to_string());
    titles.note(2, "Nova".to_string());
    assert_eq!(titles.found[&1], "Star Trek");
    assert_eq!(titles.found[&2], "Nova");
    // Length is counted in bytes of UTF-8.
    titles.note(2, "\u{e9}\u{e9}\u{e9}".to_string());
    assert_eq!(titles.found[&2], "\u{e9}\u{e9}\u{e9}");
}

#[test]
fn a_window_is_noted_as_a_whole() {
    let mut titles = Titles::new();
    titles.note_window(b"1:NOVA:2:3:10 x 1:STAR TREK:2:3:11 1:ffff:2:3:12 7:SUPERNOVA:2:3:10");
    let expected: HashMap<u64, String> =
        [(10, "SUPERNOVA".to_string()), (11, "STAR TREK".to_string())].into_iter().collect();
    assert_eq!(titles.found, expected);
    titles.note_window(b"1:TREK:2:3:11");
    assert_eq!(titles.found, expected);
}

#[test]
fn a_scan_carries_the_tail_over() {
    let mut titles = Titles::new();
    let entry = b"1:STAR TREK:2:3:11 ";
    let mut stream = vec![b'x'; 1000];
    stream.extend_from_slice(entry);
    stream.extend(vec![b'y'; 700]);
    for cut in 995..1025 {
        let mut scan = RangeScan::new(stream.len() as u64);
        let mut found = Titles::new();
        scan.take_chunk(&stream[..cut], &mut found);
        assert_eq!(scan.carry, &stream[cut - OVERLAP_BYTES..cut]);
        assert_eq!(scan.remaining, (stream.len() - cut) as u64);
        scan.take_chunk(&stream[cut..], &mut found);
        assert_eq!(scan.remaining, 0);
        assert_eq!(scan.wanted(), 0);
        assert_eq!(found.found[&11], "STAR TREK", "cut at {}", cut);
    }
    let mut scan = RangeScan::new(100);
    scan.take_chunk(b"short", &mut titles);
    assert_eq!(scan.carry, b"short");
    scan.take_chunk(b"er", &mut titles);
    assert_eq!(scan.carry, b"shorter");
    assert!(titles.found.is_empty());
}

#[test]
fn chunks_are_bounded() {
    assert_eq!(CHUNK_BYTES, 8 * 1024 * 1024);
    assert_eq!(RangeScan::new(0).wanted(), 0);
    assert_eq!(RangeScan::new(1).wanted(), 1);
    assert_eq!(RangeScan::new(CHUNK_BYTES as u64 - 1).wanted(), CHUNK_BYTES - 1);
    assert_eq!(RangeScan::new(CHUNK_BYTES as u64).wanted(), CHUNK_BYTES);
    assert_eq!(RangeScan::new(u64::MAX).wanted(), CHUNK_BYTES);
}

fn partition(name: &str, kind: &str, sector_size: u32) -> Partition {
    Partition { name: name.to_string(), kind: kind.to_string(), starting_sector: 64, sector_size }
}

fn names<'a>(partitions: &[&'a Partition]) -> Vec<&'a str> {
    partitions.iter().map(|p| p.name.as_str()).collect()
}

#[test]
fn application_partitions_are_preferred() {
    let all = [
        partition("Apple", "Apple_partition_map", 63),
        partition("MFS application region", "MFS", 9_000_000),
        partition("MFS media region", "MFS", 1_000),
        partition("Second APPLICATION Region", "MFS", 5),
    ];
    let refs: Vec<&Partition> = all.iter().collect();
    let mfs = select(&refs, PartitionRule::Mfs);
    assert_eq!(mfs.len(), 3);
    assert_eq!(
        names(&targets(&mfs, false)),
        ["MFS application region", "Second APPLICATION Region"]
    );
    assert_eq!(names(&targets(&mfs, true)), names(&mfs));
}

#[test]
fn small_partitions_stand_in() {
    let all = [
        partition("media 1", "MFS", 8_000_001),
        partition("media 2", "MFS", 8_000_000),
        partition("\u{c9}tat", "MFS", 3),
        partition("application", "mfs", 1),
    ];
    let refs: Vec<&Partition> = all.iter().collect();
    let mfs = select(&refs, PartitionRule::Mfs);
    assert_eq!(names(&targets(&mfs, false)), ["media 2", "\u{c9}tat"]);
    let large = [partition("media", "MFS", u32::MAX)];
    let refs: Vec<&Partition> = large.iter().collect();
    assert!(targets(&refs, false).is_empty());
    assert_eq!(targets(&refs, true).len(), 1);
}

#[test]
fn lower_case_goes_beyond_ascii() {
    // The Kelvin sign has an ASCII letter as its lower case.
    let odd = partition("\u{212a} APPLICATION", "MFS", 9_000_000);
    assert_eq!(select(&vec![&odd], PartitionRule::Application).len(), 1);
}

#[test]
fn sectors_are_turned_into_bytes() {
    let mut p = partition("x", "MFS", u32::MAX);
    p.starting_sector = 3;
    assert_eq!(byte_range(&p), (1536, u32::MAX as u64 * 512));
}

#[test]
fn titles_are_listed_without_regard_to_case() {
    let mut titles = Titles::new();
    for (fsid, title) in [
        (1, "nova"),
        (9, "Nova"),
        (3, "Star Trek"),
        (2, "NOVA"),
        (4, "Stra\u{df}e"),
        (5, "STRASSE"),
        (6, "\u{e9}tude"),
        (7, "Nov"),
        (8, "Zoo"),
    ] {
        titles.note(fsid, title.to_string());
    }
    let rows = titles.rows();
    let mut expected: Vec<(u64, String)> = titles.found.clone().into_iter().collect();
    expected.sort_by(|a, b| a.1.to_uppercase().cmp(&b.1.to_uppercase()).then(a.0.cmp(&b.0)));
    let listed: Vec<(u64, String)> = rows.into_iter().map(|r| (r.fsid, r.title)).collect();
    assert_eq!(listed, expected);
    let fsids: Vec<u64> = listed.iter().map(|r| r.0).collect();
    assert_eq!(fsids, [7, 1, 2, 9, 3, 4, 5, 8, 6]);
    assert!(Titles::new().rows().is_empty());
}

#[test]
fn a_title_line_is_aligned() {
    let row = TitleRow { fsid: 5678, title: "Am\u{e9}lie".to_string() };
    assert_eq!(title_line(&row), format!("{:50}  fsid {}", "Am\u{e9}lie", 5678));
    assert_eq!(title_line(&row), format!("Am\u{e9}lie{}  fsid 5678", " ".repeat(44)));
    let long = TitleRow { fsid: 1, title: "x".repeat(60) };
    assert_eq!(title_line(&long), format!("{}  fsid 1", "x".repeat(60)));
}

#[test]
fn no_title_is_lost_however_the_stream_is_cut() {
    let mut stream = vec![b'x'; 700];
    for (fsid, title) in [(21, "NOVA"), (22, "STAR TREK"), (23, "FRONTLINE")] {
        stream.extend_from_slice(format!(" 1:{}:2:3:{} ", title, fsid).as_bytes());
        stream.extend(vec![b'y'; 130]);
    }
    for size in (1..60).chain([511, 512, 513, 5000]) {
        let mut titles = Titles::new();
        let mut scan = RangeScan::new(stream.len() as u64);
        for chunk in stream.chunks(size) {
            scan.take_chunk(chunk, &mut titles);
        }
        assert_eq!(scan.remaining, 0);
        assert_eq!(scan.carry, &stream[stream.len() - OVERLAP_BYTES..]);
        assert_eq!(titles.found[&21], "NOVA");
        assert_eq!(titles.found[&22], "STAR TREK");
        assert_eq!(titles.found[&23], "FRONTLINE");
    }
}
