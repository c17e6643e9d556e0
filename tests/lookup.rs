use pwned_search::bisect::find_hash;
use pwned_search::line::{SearchError, read_line_at};
use pwned_search::pipeline::{Pipeline, lookup};
use pwned_search::search::{Action, LookupResult, Searcher};

fn reference(lines: &[&str]) -> Vec<u8> {
    let mut d = Vec::new();
    for l in lines {
        d.extend_from_slice(l.as_bytes());
        d.push(b'\n');
    }
    d
}

fn queries(qs: &[&str]) -> Vec<Vec<u8>> {
    qs.iter().map(|q| q.as_bytes().to_vec()).collect()
}

fn naive(data: &[u8], q: &[u8]) -> LookupResult {
    for line in data.split(|b| *b == b'\n') {
        if let Some(c) = line.iter().position(|b| *b == b':') {
            if &line[..c] == q {
                let v = std::str::from_utf8(&line[c + 1..]).unwrap().trim();
                return LookupResult::Found(v.parse().unwrap());
            }
        }
    }
    LookupResult::NotFound
}

fn generated(n: u64) -> Vec<u8> {
    let mut d = Vec::new();
    for i in 0..n {
        d.extend_from_slice(format!("{:08X}:{}\n", i * 7 + 3, i + 1).as_bytes());
    }
    d
}

#[test]
fn three_entries_with_a_repeat() {
    let data = reference(&["AAAA:5", "BBBB:2", "CCCC:9"]);
    let mut p = Pipeline::new();
    let mut got = Vec::new();
    let mut counts = Vec::new();
    for q in ["AAAA", "BBBB", "BBBB", "DDDD"] {
        got.push(p.lookup_in(&data, q.as_bytes()).unwrap());
        counts.push(p.searches());
    }
    assert_eq!(
        got,
        vec![
            LookupResult::Found(5),
            LookupResult::Found(2),
            LookupResult::Found(2),
            LookupResult::NotFound
        ]
    );
    // the repeated hash is answered from the kept result
    assert_eq!(counts, vec![1, 2, 2, 3]);
    let batch = lookup(&data, &queries(&["AAAA", "BBBB", "BBBB", "DDDD"])).unwrap();
    assert_eq!(batch, got);
}

#[test]
fn empty_reference_finds_nothing() {
    let data: Vec<u8> = Vec::new();
    let r = lookup(&data, &queries(&["", "0000", "AAAA", "FFFF"])).unwrap();
    assert_eq!(r, vec![LookupResult::NotFound; 4]);
}

#[test]
fn single_entry_is_found() {
    assert_eq!(
        lookup(b"ZZZZ:1\n", &queries(&["ZZZZ"])).unwrap(),
        vec![LookupResult::Found(1)]
    );
    assert_eq!(
        lookup(b"ZZZZ:1", &queries(&["ZZZZ"])).unwrap(),
        vec![LookupResult::Found(1)]
    );
    assert_eq!(
        lookup(b"ZZZZ:1\r\n", &queries(&["ZZZZ"])).unwrap(),
        vec![LookupResult::Found(1)]
    );
}

#[test]
fn above_every_entry_is_not_found() {
    let data = reference(&["AAAA:5", "BBBB:2", "CCCC:9"]);
    assert_eq!(lookup(&data, &queries(&["FFFF"])).unwrap(), vec![LookupResult::NotFound]);
    let big = generated(3000);
    assert_eq!(lookup(&big, &queries(&["FFFFFFFF"])).unwrap(), vec![LookupResult::NotFound]);
}

#[test]
fn below_every_entry_is_not_found() {
    let data = reference(&["BBBB:2", "CCCC:9"]);
    assert_eq!(lookup(&data, &queries(&["AAAA"])).unwrap(), vec![LookupResult::NotFound]);
    // the jump length here is far longer than the first line
    let big = generated(3000);
    assert_eq!(lookup(&big, &queries(&["00000000"])).unwrap(), vec![LookupResult::NotFound]);
}

#[test]
fn below_the_cursor_reads_one_line() {
    let data = reference(&["AAAA:5", "CCCC:9", "DDDD:1"]);
    let mut s = Searcher::new();
    assert_eq!(s.search_in(&data, b"AAAB"), Ok(LookupResult::NotFound));
    assert_eq!(s.cursor(), 7);
    let mut reads = Vec::new();
    let mut a = s.start(b"BBBB", data.len() as u64);
    while let Action::Read(off) = a {
        reads.push(off);
        let (line, end) = read_line_at(&data, off);
        a = s.feed(line, end);
    }
    assert_eq!(a, Action::Done(LookupResult::NotFound));
    assert_eq!(reads, vec![7, 7]);
    assert_eq!(s.cursor(), 7);
}

#[test]
fn batch_matches_a_scan_of_every_line() {
    let data = generated(2500);
    let mut qs = Vec::new();
    for k in 0..(2500u64 * 7 + 20) {
        if k % 5 == 0 || k % 7 == 3 {
            qs.push(format!("{:08X}", k).into_bytes());
        }
    }
    let got = lookup(&data, &qs).unwrap();
    assert_eq!(got.len(), qs.len());
    let mut found = 0;
    for (q, r) in qs.iter().zip(got.iter()) {
        assert_eq!(*r, naive(&data, q));
        if let LookupResult::Found(_) = r {
            found += 1;
        }
    }
    assert_eq!(found, 2500);
}

#[test]
fn uneven_lines_match_a_scan_of_every_line() {
    let mut lines = Vec::new();
    for i in 0..400u64 {
        let key = format!("{:04X}{}", i * 3, "F".repeat((i % 13) as usize));
        lines.push(format!("{}:{}", key, i * 1000 + 7));
    }
    let refs: Vec<&str> = lines.iter().map(|s| s.as_str()).collect();
    let data = reference(&refs);
    let mut qs: Vec<Vec<u8>> = Vec::new();
    for i in 0..400u64 {
        qs.push(format!("{:04X}", i * 3).into_bytes());
        qs.push(format!("{:04X}{}", i * 3, "F".repeat((i % 13) as usize)).into_bytes());
    }
    qs.sort();
    let got = lookup(&data, &qs).unwrap();
    for (q, r) in qs.iter().zip(got.iter()) {
        assert_eq!(*r, naive(&data, q));
    }
}

#[test]
fn repeated_hash_reads_nothing() {
    let data = reference(&["AAAA:5", "BBBB:2", "CCCC:9"]);
    let mut p = Pipeline::new();
    let mut a = p.query(b"BBBB", data.len() as u64);
    let mut reads = 0;
    while let Action::Read(off) = a {
        reads += 1;
        let (line, end) = read_line_at(&data, off);
        a = p.feed(line, end);
    }
    assert_eq!(a, Action::Done(LookupResult::Found(2)));
    assert!(reads > 0);
    assert_eq!(p.query(b"BBBB", data.len() as u64), Action::Done(LookupResult::Found(2)));
    assert_eq!(p.searches(), 1);
    assert!(!p.is_searching());
}

#[test]
fn decreasing_batch_is_refused() {
    let data = reference(&["AAAA:5", "BBBB:2"]);
    assert_eq!(
        lookup(&data, &queries(&["BBBB", "AAAA"])),
        Err(SearchError::OrderingViolation)
    );
    let mut s = Searcher::new();
    assert_eq!(s.search_in(&data, b"BBBB"), Ok(LookupResult::Found(2)));
    assert_eq!(s.search_in(&data, b"AAAA"), Err(SearchError::OrderingViolation));
    assert_eq!(s.search_in(&data, b"BBBB"), Ok(LookupResult::Found(2)));
}

#[test]
fn malformed_lines_fail() {
    assert_eq!(
        lookup(b"AAAA5\n", &queries(&["AAAA"])),
        Err(SearchError::MalformedLine)
    );
    assert_eq!(
        lookup(b"AAAA:x\n", &queries(&["AAAA"])),
        Err(SearchError::MalformedLine)
    );
    assert_eq!(
        lookup(b"AAAA:\n", &queries(&["AAAA"])),
        Err(SearchError::MalformedLine)
    );
    assert_eq!(
        lookup(b"AAAA:18446744073709551616\n", &queries(&["AAAA"])),
        Err(SearchError::MalformedLine)
    );
}

#[test]
fn largest_count_is_read() {
    assert_eq!(
        lookup(b"AAAA:18446744073709551615\n", &queries(&["AAAA"])).unwrap(),
        vec![LookupResult::Found(u64::MAX)]
    );
}

#[test]
fn one_search_reads_at_most_twice_the_rest() {
    let data = generated(4000);
    let n = data.len() as u64;
    for k in [3u64, 7 * 1999 + 3, 7 * 3999 + 3, 7 * 2500 + 4] {
        let mut s = Searcher::new();
        let q = format!("{:08X}", k).into_bytes();
        let r = s.search_in(&data, &q).unwrap();
        assert_eq!(r, naive(&data, &q));
        assert!(s.bytes_read() > 0);
        assert!(s.bytes_read() <= 2 * n);
    }
    let mut s = Searcher::new();
    let mut before = 0;
    for i in (0..4000u64).step_by(97) {
        let cursor = s.cursor();
        let q = format!("{:08X}", i * 7 + 3).into_bytes();
        assert_eq!(s.search_in(&data, &q), Ok(LookupResult::Found(i + 1)));
        assert!(s.bytes_read() - before <= 2 * (n - cursor));
        before = s.bytes_read();
    }
    // a sorted batch moves forward: far less than a full pass per hash
    assert!(s.bytes_read() < 3 * n);
}

#[test]
fn bisection_matches_the_batch() {
    let data = generated(1500);
    let mut qs = Vec::new();
    for k in 0..(1500u64 * 7 + 10) {
        if k % 3 == 0 {
            qs.push(format!("{:08X}", k).into_bytes());
        }
    }
    let batch = lookup(&data, &qs).unwrap();
    for (q, r) in qs.iter().zip(batch.iter()) {
        assert_eq!(find_hash(&data, q), Ok(*r));
        assert_eq!(*r, naive(&data, q));
    }
    // in any order, and the first line too
    assert_eq!(find_hash(&data, b"00000003"), Ok(LookupResult::Found(1)));
    assert_eq!(find_hash(&data, b"00000A"), Ok(LookupResult::NotFound));
}

#[test]
fn bisection_edges() {
    assert_eq!(find_hash(b"", b"AAAA"), Ok(LookupResult::NotFound));
    assert_eq!(find_hash(b"ZZZZ:1", b"ZZZZ"), Ok(LookupResult::Found(1)));
    assert_eq!(find_hash(b"ZZZZ:1\n", b"ZZZA"), Ok(LookupResult::NotFound));
    let data = reference(&["AAAA:5", "BBBB:2", "CCCC:9"]);
    assert_eq!(find_hash(&data, b"CCCC"), Ok(LookupResult::Found(9)));
    assert_eq!(find_hash(&data, b"AAAA"), Ok(LookupResult::Found(5)));
    assert_eq!(find_hash(&data, b"DDDD"), Ok(LookupResult::NotFound));
    assert_eq!(find_hash(b"AAAA:5\nBBBB\n", b"BBBB"), Err(SearchError::MalformedLine));
}
