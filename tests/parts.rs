use pwned_search::account::{User, parse_user, to_upper};
use pwned_search::line::{Probe, SearchError, parse_count, probe, read_line_at};
use pwned_search::order::{KeyOrder, compare_keys};
use pwned_search::search::{Action, LookupResult, Searcher, copy_bytes, floor_sqrt};

#[test]
fn square_roots() {
    assert_eq!(floor_sqrt(0), 0);
    assert_eq!(floor_sqrt(1), 1);
    assert_eq!(floor_sqrt(15), 3);
    assert_eq!(floor_sqrt(16), 4);
    assert_eq!(floor_sqrt(21), 4);
    assert_eq!(floor_sqrt(u64::MAX), 4294967295);
}

#[test]
fn counts() {
    assert_eq!(parse_count(b"123"), Some(123));
    assert_eq!(parse_count(b"0"), Some(0));
    assert_eq!(parse_count(b""), None);
    assert_eq!(parse_count(b"1a"), None);
    assert_eq!(parse_count(b"+1"), None);
}

#[test]
fn key_order() {
    assert_eq!(compare_keys(b"AB", b"AB"), KeyOrder::Equal);
    assert_eq!(compare_keys(b"AB", b"ABC"), KeyOrder::Less);
    assert_eq!(compare_keys(b"AC", b"ABC"), KeyOrder::Greater);
    assert_eq!(compare_keys(b"", b"A"), KeyOrder::Less);
}

#[test]
fn probes() {
    assert_eq!(probe(b"AAAA:5\r\n", b"AAAA"), Ok(Probe::Equal(5)));
    assert_eq!(probe(b"AAAA:5 \t\n", b"AAAA"), Ok(Probe::Equal(5)));
    assert_eq!(probe(b"AB:1\n", b"ABC"), Ok(Probe::Less));
    assert_eq!(probe(b"B:1\n", b"ABC"), Ok(Probe::Greater));
    assert_eq!(probe(b"AB1\n", b"AB1"), Err(SearchError::MalformedLine));
    assert_eq!(probe(b"AB:1:2\n", b"AB"), Err(SearchError::MalformedLine));
}

#[test]
fn line_reads() {
    let d = b"ab\ncd";
    assert_eq!(read_line_at(d, 0), (&b"ab\n"[..], 3));
    assert_eq!(read_line_at(d, 1), (&b"b\n"[..], 3));
    assert_eq!(read_line_at(d, 3), (&b"cd"[..], 5));
    assert_eq!(read_line_at(d, 5), (&b""[..], 5));
    assert_eq!(read_line_at(d, 9), (&b""[..], 9));
}

#[test]
fn copies() {
    assert_eq!(copy_bytes(b"xyz"), b"xyz".to_vec());
}

#[test]
fn jump_then_scan_steps() {
    // 10 lines of 7 bytes: 70 bytes, jump length 8
    let mut d = Vec::new();
    for k in ["A0", "A1", "A2", "A3", "A4", "A5", "A6", "A7", "A8", "A9"] {
        d.extend_from_slice(format!("{}AA:{}\n", k, 1).as_bytes());
    }
    let mut s = Searcher::new();
    assert_eq!(s.start(b"A5AA", d.len() as u64), Action::Read(0));
    let mut reads = vec![0];
    let mut a = s.feed(&d[0..7], 7);
    while let Action::Read(off) = a {
        reads.push(off);
        let (line, end) = read_line_at(&d, off);
        a = s.feed(line, end);
    }
    assert_eq!(a, Action::Done(LookupResult::Found(1)));
    // probe at 0, jump to 15, probe at 21, jump to 36, probe at 42 (A6 > A5),
    // then scan from the end of A3's line: A4, then A5
    assert_eq!(reads, vec![0, 15, 21, 36, 42, 28, 35]);
    assert_eq!(s.cursor(), 35);
}

#[test]
fn active_accounts() {
    let mut u = User { rid: 500, username: b"admin".to_vec(), password: b"AB".to_vec(), uac: 512 };
    assert!(u.is_active());
    u.uac = 514;
    assert!(!u.is_active());
    u.uac = 2;
    assert!(!u.is_active());
    u.uac = 66048;
    assert!(u.is_active());
}

#[test]
fn account_lines() {
    let u = parse_user(b"500  Administrator\t8846f7eaee8fb117ad06bdd830b7586c 66048 extra").unwrap();
    assert_eq!(u.rid, 500);
    assert_eq!(u.username, b"Administrator".to_vec());
    assert_eq!(u.password, b"8846F7EAEE8FB117AD06BDD830B7586C".to_vec());
    assert_eq!(u.uac, 66048);
    assert!(u.is_active());
    let d = parse_user(b"  1001 guest abc 514\n").unwrap();
    assert_eq!(d.rid, 1001);
    assert_eq!(d.password, b"ABC".to_vec());
    assert!(!d.is_active());
    assert!(parse_user(b"500 admin hash").is_none());
    assert!(parse_user(b"x admin hash 512").is_none());
    assert!(parse_user(b"500 admin hash 4294967296").is_none());
    assert!(parse_user(b"500 admin hash 4294967295").is_some());
    assert!(parse_user(b"").is_none());
}

#[test]
fn upper_case() {
    assert_eq!(to_upper(b"a1fZ-z"), b"A1FZ-Z".to_vec());
}
