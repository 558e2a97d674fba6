use keystats::parse::parse_value;
use keystats::process::process_chunk;
use keystats::splitter::Splitter;
use keystats::table::merge_maps;
use keystats::table::AggregationTable;

fn split_all(input: &[u8], block_size: usize) -> Vec<Vec<u8>> {
    let mut sp = Splitter::new();
    let mut chunks = Vec::new();
    let mut pos = 0;
    while pos < input.len() {
        let end = (pos + block_size).min(input.len());
        if let Some(c) = sp.push_block(&input[pos..end]) {
            chunks.push(c);
        }
        pos = end;
    }
    if let Some(c) = sp.finish() {
        chunks.push(c);
    }
    chunks
}

#[test]
fn chunks_concatenate_to_input() {
    let input = b"ab;1\ncd;2\nef;3\nlong line without end";
    for block_size in 1..12 {
        let chunks = split_all(input, block_size);
        let mut joined = Vec::new();
        for c in &chunks {
            joined.extend_from_slice(c);
        }
        assert_eq!(joined, input.to_vec());
    }
}

#[test]
fn chunks_end_with_newline_except_last() {
    let input = b"ab;1\ncd;2\nef;3\ntail";
    for block_size in 1..10 {
        let chunks = split_all(input, block_size);
        for (i, c) in chunks.iter().enumerate() {
            assert!(!c.is_empty());
            if i + 1 < chunks.len() {
                assert_eq!(*c.last().unwrap(), b'\n');
            }
        }
        assert_eq!(chunks.last().unwrap().last(), Some(&b'l'));
    }
}

#[test]
fn empty_input_emits_no_chunks() {
    let chunks = split_all(b"", 4);
    assert!(chunks.is_empty());
}

#[test]
fn input_ending_on_newline_has_no_trailing_chunk() {
    let mut sp = Splitter::new();
    let got = sp.push_block(b"x;1\n");
    assert_eq!(got, Some(b"x;1\n".to_vec()));
    assert_eq!(sp.finish(), None);
}

#[test]
fn long_line_in_tiny_blocks_parses() {
    // one 50-byte line pushed through 4-byte blocks
    let mut line = vec![b'k'; 45];
    line.extend_from_slice(b";7.5\n");
    assert_eq!(line.len(), 50);
    let chunks = split_all(&line, 4);
    assert_eq!(chunks.len(), 1);
    let mut acc = AggregationTable::new();
    for c in chunks {
        acc = merge_maps(acc, process_chunk(c));
    }
    assert_eq!(acc.len(), 1);
    let key = vec![b'k'; 45];
    let e = acc.get(&key).expect("long key parsed");
    assert_eq!((e.min, e.max, e.count), (750, 750, 1));
}

#[test]
fn long_unterminated_line_arrives_at_finish() {
    let mut line = vec![b'k'; 45];
    line.extend_from_slice(b";7.5");
    let mut sp = Splitter::new();
    let mut pos = 0;
    while pos < line.len() {
        let end = (pos + 4).min(line.len());
        assert_eq!(sp.push_block(&line[pos..end]), None);
        pos = end;
    }
    let tail = sp.finish().expect("leftover becomes the final chunk");
    assert_eq!(tail, line);
}

#[test]
fn parse_value_accepts_plain_decimals() {
    assert_eq!(parse_value(b"10.0"), Some(1000));
    assert_eq!(parse_value(b"0"), Some(0));
    assert_eq!(parse_value(b"7"), Some(700));
    assert_eq!(parse_value(b"5."), Some(500));
    assert_eq!(parse_value(b"12.345"), Some(1234));
    assert_eq!(parse_value(b"+3"), Some(300));
    assert_eq!(parse_value(b"-2.5"), Some(-250));
    assert_eq!(parse_value(b"-12.345"), Some(-1234));
    assert_eq!(parse_value(b"-0.0"), Some(0));
    assert_eq!(parse_value(b"00042.10"), Some(4210));
}

#[test]
fn parse_value_rejects_malformed_text() {
    assert_eq!(parse_value(b""), None);
    assert_eq!(parse_value(b"-"), None);
    assert_eq!(parse_value(b"+"), None);
    assert_eq!(parse_value(b"."), None);
    assert_eq!(parse_value(b".5"), None);
    assert_eq!(parse_value(b"abc"), None);
    assert_eq!(parse_value(b"1.2.3"), None);
    assert_eq!(parse_value(b"1e5"), None);
    assert_eq!(parse_value(b" 1"), None);
    assert_eq!(parse_value(b"1 "), None);
    assert_eq!(parse_value(b"--1"), None);
}

#[test]
fn parse_value_rejects_oversized_whole_part() {
    assert_eq!(parse_value(b"9999999999999"), Some(999_999_999_999_900));
    assert_eq!(parse_value(b"10000000000000"), None);
    assert_eq!(parse_value(b"99999999999999999999"), None);
}
