use ovit_tools::dumpobj::{
    describe_object, dump_object, hex_dump, inode_line, summarize_value, InodeSummary,
    NeedleSearch, DUMP_BYTES, MATCH_DUMP_BYTES,
};
use ovit_tools::object::MFSAttrValue;

fn reference_dump(data: &[u8], max_bytes: usize) -> Vec<String> {
    let limit = data.len().min(max_bytes);
    let mut lines = Vec::new();
    for (offset, chunk) in data[..limit].chunks(16).enumerate() {
        let hex: Vec<String> = chunk.iter().map(|b| format!("{:02x}", b)).collect();
        let ascii: String = chunk
            .iter()
            .map(|b| if b.is_ascii_graphic() || *b == b' ' { *b as char } else { '.' })
            .collect();
        lines.push(format!("  {:08x}  {:<47}  {}", offset * 16, hex.join(" "), ascii));
    }
    if data.len() > limit {
        lines.push(format!("  ... ({} more bytes)", data.len() - limit));
    }
    lines
}

#[test]
fn a_dump_shows_hexadecimal_and_ascii() {
    assert_eq!(
        hex_dump(b"Star Trek\0\xff~\x7f 12", 512),
        ["  00000000  53 74 61 72 20 54 72 65 6b 00 ff 7e 7f 20 31 32  Star Trek..~. 12"]
    );
    assert_eq!(
        hex_dump(b"ab", 512),
        [format!("  00000000  61 62{}  ab", " ".repeat(42))]
    );
    assert!(hex_dump(b"", 512).is_empty());
}

#[test]
fn a_dump_is_limited() {
    let data: Vec<u8> = (0..=255).cycle().take(600).map(|b: u8| b).collect();
    for max in [0, 1, 15, 16, 17, 512, 599, 600, 601] {
        assert_eq!(hex_dump(&data, max), reference_dump(&data, max));
    }
    assert_eq!(hex_dump(&data, 512).last().unwrap(), "  ... (88 more bytes)");
    assert_eq!(hex_dump(&data, 512).len(), 33);
}

#[test]
fn bytes_stand_in_their_columns() {
    let data: Vec<u8> = (0..100).map(|i| (i * 37 % 256) as u8).collect();
    let lines = hex_dump(&data, 1000);
    for (i, byte) in data.iter().enumerate() {
        let line = lines[i / 16].as_bytes();
        let at = 12 + 3 * (i % 16);
        assert_eq!(&line[at..at + 2], format!("{:02x}", byte).as_bytes());
        let shown = if (32..127).contains(byte) { *byte } else { b'.' };
        assert_eq!(line[61 + i % 16], shown);
    }
}

#[test]
fn values_are_summarized_by_type() {
    assert_eq!(summarize_value(&MFSAttrValue::Int(vec![1, 2])), "int [1, 2]");
    assert_eq!(summarize_value(&MFSAttrValue::Int(vec![])), "int []");
    assert_eq!(summarize_value(&MFSAttrValue::File(vec![4_294_967_295])), "file [4294967295]");
    assert_eq!(
        summarize_value(&MFSAttrValue::Object(vec![(9999, 0), (1, 2)])),
        "object [(9999, 0), (1, 2)]"
    );
    let strings = vec!["Star Trek".to_string(), "a\"b\\c\n\u{e9}\u{200b}'".to_string()];
    assert_eq!(
        summarize_value(&MFSAttrValue::Str(strings.clone())),
        format!("string {:?}", strings)
    );
    assert_eq!(
        summarize_value(&MFSAttrValue::Str(vec!["Star Trek".to_string(), "x".to_string()])),
        "string [\"Star Trek\", \"x\"]"
    );
}

fn program() -> Vec<u8> {
    vec![
        0, 0, 0, 1, 0, 0, 0, 48, // header
        0, 40, 0, 0, 0, 3, 1, 2, 0, 0, 0, 0, 0, 0, 0, 42, // subobject
        64, 17, 0, 9, b'N', b'o', b'v', b'a', 0, 0, 0, 0, // title
        0, 149, 0, 12, 0, 0, 0, 7, 0, 0, 0, 8,
    ]
}

#[test]
fn an_object_is_described_line_by_line() {
    assert_eq!(
        describe_object(&program()),
        [
            "  object header: fill1=1 size=48 (buffer is 48 bytes)",
            "  subobject obj_type=3 flags=0x0102 id=42 (2 attributes)",
            "    attr id=17  eltype=0x40 -> string [\"Nova\"]",
            "    attr id=149 eltype=0x00 -> int [7, 8]",
        ]
    );
}

#[test]
fn what_cannot_be_parsed_is_said() {
    assert_eq!(describe_object(&[1, 2, 3]), ["  (no subobjects parsed)"]);
    assert_eq!(
        describe_object(&[0, 0, 0, 0, 0, 0, 0, 8]),
        [
            "  object header: fill1=0 size=8 (buffer is 8 bytes)",
            "  (no subobjects parsed)",
        ]
    );
}

#[test]
fn an_object_is_dumped_and_described() {
    let lines = dump_object(&program(), 16);
    let mut expected = hex_dump(&program(), 16);
    expected.extend(describe_object(&program()));
    assert_eq!(lines, expected);
    assert_eq!(lines.len(), 2 + 4);
    assert_eq!((DUMP_BYTES, MATCH_DUMP_BYTES), (512, 1024));
}

#[test]
fn an_inode_is_summed_up_in_a_line() {
    let inode = InodeSummary {
        fsid: 1234,
        inode: 5,
        kind: "Db".to_string(),
        size: 100,
        flags: 0x40,
        numblocks: 0,
    };
    assert_eq!(inode_line(&inode), "fsid=1234 inode=5 type=Db size=100 flags=0x40 numblocks=0");
}

#[test]
fn a_search_reports_matches_and_stops() {
    let mut search = NeedleSearch::new("Nova");
    assert_eq!(search.offer(b"nothing here"), None);
    assert_eq!(search.offer(b"Nov"), None);
    assert_eq!(search.matches, 0);
    for n in 1..=5 {
        assert!(!search.is_done());
        assert_eq!(search.offer(&program()), Some(dump_object(&program(), 1024)));
        assert_eq!(search.matches, n);
    }
    assert!(search.is_done());
}

#[test]
fn a_search_counts_inodes() {
    let mut search = NeedleSearch::new("\u{e9}");
    assert_eq!(search.needle, [0xc3, 0xa9]);
    search.scanned = 99_998;
    assert!(!search.count_inode());
    assert!(search.count_inode());
    assert_eq!(search.scanned, 100_000);
    assert!(search.offer(b"caf\xc3\xa9").is_some());
}

#[test]
fn a_search_reports_the_first_five_in_order() {
    let objects: Vec<Vec<u8>> = (0..12u8)
        .map(|n| if n % 3 == 1 { vec![n; 20] } else { [&[n][..], b"Nova"].concat() })
        .collect();
    let mut search = NeedleSearch::new("Nova");
    let mut reports = Vec::new();
    let mut offered = 0;
    for data in &objects {
        offered += 1;
        if let Some(report) = search.offer(data) {
            reports.push(report);
        }
        if search.is_done() {
            break;
        }
    }
    // The fifth match is the object at index six.
    assert_eq!(offered, 7);
    let expected: Vec<Vec<String>> =
        [0, 2, 3, 5, 6].iter().map(|i| dump_object(&objects[*i], 1024)).collect();
    assert_eq!(reports, expected);
}
