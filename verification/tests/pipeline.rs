use keystats::entry::AggregateEntry;
use keystats::process::add_entry_to_hash;
use keystats::process::process_chunk;
use keystats::table::checked_merge;
use keystats::table::merge_maps;
use keystats::table::AggregationTable;
use keystats::splitter::Splitter;

fn entry(t: &AggregationTable, key: &[u8]) -> AggregateEntry {
    *t.get(key).expect("key should be present")
}

fn tables_equal(a: &AggregationTable, b: &AggregationTable) -> bool {
    if a.len() != b.len() {
        return false;
    }
    let mut i = 0;
    while i < a.len() {
        let slot = a.slot(i);
        match b.get(slot.0.as_slice()) {
            Some(e) => {
                if *e != slot.1 {
                    return false;
                }
            }
            None => return false,
        }
        i += 1;
    }
    true
}

#[test]
fn two_cities_aggregate() {
    let t = process_chunk(b"Paris;10.0\nParis;20.0\nLondon;5.5\n".to_vec());
    assert_eq!(t.len(), 2);
    let paris = entry(&t, b"Paris");
    assert_eq!(paris.min, 1000);
    assert_eq!(paris.max, 2000);
    assert_eq!(paris.sum, 3000);
    assert_eq!(paris.count, 2);
    assert_eq!(paris.mean_scaled(), 1500);
    let london = entry(&t, b"London");
    assert_eq!(london.min, 550);
    assert_eq!(london.max, 550);
    assert_eq!(london.count, 1);
    assert_eq!(london.mean_scaled(), 550);
}

#[test]
fn malformed_lines_are_dropped() {
    let t = process_chunk(b"BadLine\nCity;notanumber\nParis;1.0\n".to_vec());
    assert_eq!(t.len(), 1);
    assert!(t.get(b"BadLine").is_none());
    assert!(t.get(b"City").is_none());
    let paris = entry(&t, b"Paris");
    assert_eq!(paris.count, 1);
    assert_eq!(paris.min, 100);
    assert_eq!(paris.max, 100);
}

#[test]
fn empty_chunk_empty_table() {
    let t = process_chunk(Vec::new());
    assert_eq!(t.len(), 0);
}

#[test]
fn invalid_utf8_line_is_dropped() {
    let t = process_chunk(vec![0xFF, 0xFE, b';', b'1', b'\n']);
    assert_eq!(t.len(), 0);
    let ok = process_chunk(b"k;1\n".to_vec());
    assert_eq!(ok.len(), 1);
    assert_eq!(entry(&ok, b"k").min, 100);
}

#[test]
fn last_line_without_newline_counts() {
    let t = process_chunk(b"A;1.0\nB;2.0".to_vec());
    assert_eq!(t.len(), 2);
    assert_eq!(entry(&t, b"B").min, 200);
}

#[test]
fn empty_key_is_a_key() {
    let t = process_chunk(b";5.5\n".to_vec());
    assert_eq!(t.len(), 1);
    assert_eq!(entry(&t, b"").min, 550);
}

#[test]
fn add_entry_builds_table() {
    let mut t = AggregationTable::new();
    add_entry_to_hash(b"X;2", &mut t);
    add_entry_to_hash(b"X;4", &mut t);
    add_entry_to_hash(b"Y;-1", &mut t);
    add_entry_to_hash(b"no delimiter here", &mut t);
    assert_eq!(t.len(), 2);
    let x = entry(&t, b"X");
    assert_eq!((x.min, x.max, x.sum, x.count), (200, 400, 600, 2));
    let y = entry(&t, b"Y");
    assert_eq!((y.min, y.max, y.sum, y.count), (-100, -100, -100, 1));
}

#[test]
fn mean_truncates_toward_zero() {
    let t = process_chunk(b"K;1.0\nK;2.0\nK;1.0\n".to_vec());
    let k = entry(&t, b"K");
    assert_eq!(k.sum, 400);
    assert_eq!(k.count, 3);
    assert_eq!(k.mean_scaled(), 133);
    let n = process_chunk(b"K;-1.0\nK;-0.01\n".to_vec());
    let k2 = entry(&n, b"K");
    assert_eq!(k2.sum, -101);
    assert_eq!(k2.mean_scaled(), -50);
}

#[test]
fn merge_combines_shared_and_disjoint_keys() {
    let a = process_chunk(b"P;1.0\nQ;2.0\n".to_vec());
    let b = process_chunk(b"P;3.0\nR;4.0\n".to_vec());
    let m = merge_maps(a, b);
    assert_eq!(m.len(), 3);
    let p = entry(&m, b"P");
    assert_eq!((p.min, p.max, p.sum, p.count), (100, 300, 400, 2));
    assert_eq!(entry(&m, b"Q").sum, 200);
    assert_eq!(entry(&m, b"R").sum, 400);
    let whole = process_chunk(b"P;1.0\nQ;2.0\nP;3.0\nR;4.0\n".to_vec());
    assert!(tables_equal(&m, &whole));
}

#[test]
fn merge_is_commutative_on_values() {
    let mk_ab = || process_chunk(b"P;1.5\nQ;-2.0\n".to_vec());
    let mk_cd = || process_chunk(b"P;7.25\nS;0.5\n".to_vec());
    let m1 = merge_maps(mk_ab(), mk_cd());
    let m2 = merge_maps(mk_cd(), mk_ab());
    assert!(tables_equal(&m1, &m2));
}

#[test]
fn merge_is_associative_on_values() {
    let a = || process_chunk(b"P;1.0\nQ;2.0\n".to_vec());
    let b = || process_chunk(b"P;-1.0\nR;3.5\n".to_vec());
    let c = || process_chunk(b"Q;10.0\nR;0.25\n".to_vec());
    let left = merge_maps(merge_maps(a(), b()), c());
    let right = merge_maps(a(), merge_maps(b(), c()));
    assert!(tables_equal(&left, &right));
}

#[test]
fn merge_overflowing_count_is_refused() {
    let big = AggregationTable {
        items: vec![(b"k".to_vec(), AggregateEntry { min: 0, max: 0, sum: 0, count: u64::MAX })],
    };
    let one = process_chunk(b"k;0.0\n".to_vec());
    assert!(checked_merge(big, one).is_none());
}

#[test]
fn worker_count_does_not_change_result() {
    let mut input = Vec::new();
    for i in 0..200 {
        let line = format!("city{};{}.{}\n", i % 7, i % 13, i % 10);
        input.extend_from_slice(line.as_bytes());
    }
    let one = run_with_workers(&input, 16, 1);
    let eight = run_with_workers(&input, 16, 8);
    assert!(tables_equal(&one, &eight));
    let whole = process_chunk(input);
    assert!(tables_equal(&one, &whole));
}

fn run_with_workers(input: &[u8], block_size: usize, workers: usize) -> AggregationTable {
    let mut sp = Splitter::new();
    let mut chunks = Vec::new();
    let mut pos = 0;
    while pos < input.len() {
        let end = (pos + block_size).min(input.len());
        if let Some(c) = sp.push_block(&input[pos..end]) {
            chunks.push(c);
        }
        pos = end;
    }
    if let Some(c) = sp.finish() {
        chunks.push(c);
    }
    let mut tables = Vec::new();
    for _ in 0..workers {
        tables.push(AggregationTable::new());
    }
    for (i, c) in chunks.into_iter().enumerate() {
        let w = i % workers;
        let t = process_chunk(c);
        let prev = std::mem::replace(&mut tables[w], AggregationTable::new());
        tables[w] = merge_maps(prev, t);
    }
    let mut acc = AggregationTable::new();
    for t in tables {
        acc = merge_maps(acc, t);
    }
    acc
}
