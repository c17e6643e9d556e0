//! The sorted-file searcher: a jump search over line reads, written as a
//! state machine. Whoever owns the stream performs each requested read and
//! hands the line back, so the same decisions drive a file on disk or bytes
//! in memory. The cursor persists across searches and only moves forward.
//!
//! A search probes the line at the cursor, then jumps forward by the square
//! root of the stream's length, reads through the partial line it lands in,
//! and probes the next whole line, until a probe sorts above the target or
//! the stream ends. The block since the last line seen below the target is
//! then scanned line by line. That scan starts at the end of that line, a
//! known line boundary, so no line of the block is skipped, also when the
//! jumps ran off the end of the stream. After the search the cursor stands
//! at the first line that does not sort below the target.
use vstd::prelude::*;
use crate::line::{
    Probe, SearchError, is_line_start, line_count, line_end, line_from, line_key,
    lemma_line_end, lemma_next_line_start, probe, probe_spec, read_line_at, well_formed_line,
};
use crate::order::{lemma_lex_trans, lemma_lex_trichotomy, lex_lt};
use crate::reference::{
    all_above, all_below, at_line, key_at, lemma_absent_between, lemma_found_at, lookup_spec,
    sorted, well_formed,
};

verus! {

/// Outcome of one lookup.
#[derive(Clone, Copy, Debug, PartialEq, Eq, Structural)]
pub enum LookupResult {
    Found(u64),
    NotFound,
}

/// What the searcher asks of the stream's owner next.
#[derive(Clone, Copy, Debug, PartialEq, Eq, Structural)]
pub enum Action {
    /// Read one line at this byte offset and hand it to `feed`.
    Read(u64),
    /// The search is over.
    Done(LookupResult),
    /// The search failed.
    Fail(SearchError),
}

/// Where a search stands.
#[derive(Clone, Copy, Debug, PartialEq, Eq, Structural)]
pub enum Phase {
    /// No search in progress.
    Idle,
    /// Probing the whole line that begins at the requested offset.
    Jump,
    /// Reading through the partial line after a forward jump.
    Skip,
    /// Scanning the last block line by line.
    Scan,
}

/// The state of a `Searcher`, field by field.
pub struct SearcherView {
    pub cursor: u64,
    pub last: Option<Seq<u8>>,
    pub phase: Phase,
    pub target: Seq<u8>,
    pub step: u64,
    pub block: u64,
    pub stop_at: u64,
    pub at: u64,
    pub bytes_read: u64,
}

/// Jump search with a persistent cursor.
pub struct Searcher {
    /// Where the next search starts: a line start, before which every key
    /// sorts below `last`.
    cursor: u64,
    /// The last target searched successfully.
    last: Option<Vec<u8>>,
    phase: Phase,
    target: Vec<u8>,
    step: u64,
    /// End of the last line seen to sort below the target.
    block: u64,
    /// Where the final line-by-line scan stops.
    stop_at: u64,
    /// Offset of the pending read.
    at: u64,
    /// Bytes handed to `feed` so far, saturating.
    bytes_read: u64,
}

pub open spec fn opt_view(o: Option<Vec<u8>>) -> Option<Seq<u8>> {
    match o {
        Some(v) => Some(v@),
        None => None,
    }
}

impl View for Searcher {
    type V = SearcherView;

    closed spec fn view(&self) -> SearcherView {
        SearcherView {
            cursor: self.cursor,
            last: opt_view(self.last),
            phase: self.phase,
            target: self.target@,
            step: self.step,
            block: self.block,
            stop_at: self.stop_at,
            at: self.at,
            bytes_read: self.bytes_read,
        }
    }
}

/// `r` is the integer square root of `n`.
pub open spec fn is_floor_sqrt(r: u64, n: u64) -> bool {
    r * r <= n && n < (r + 1) * (r + 1)
}

/// The jump length for a stream of `n` bytes: its integer square root, at
/// least one.
pub open spec fn is_jump_step(step: u64, n: u64) -> bool {
    if n == 0 {
        step == 1
    } else {
        is_floor_sqrt(step, n)
    }
}

/// How starting a search for `t` in a stream of `n` bytes moves a searcher
/// from `s` to `s2`, asking for `a`.
pub open spec fn start_ok(s: SearcherView, s2: SearcherView, t: Seq<u8>, n: u64, a: Action) -> bool {
    let violation = match s.last {
        Some(l) => lex_lt(t, l),
        None => false,
    };
    if violation {
        a == Action::Fail(SearchError::OrderingViolation) && s2 == SearcherView {
            phase: Phase::Idle,
            ..s
        }
    } else {
        a == Action::Read(s.cursor) && is_jump_step(s2.step, n) && s2 == SearcherView {
            phase: Phase::Jump,
            target: t,
            step: s2.step,
            block: s.cursor,
            at: s.cursor,
            ..s
        }
    }
}

pub open spec fn finish_spec(s: SearcherView, pos: u64, r: LookupResult) -> (SearcherView, Action) {
    (SearcherView { phase: Phase::Idle, cursor: pos, last: Some(s.target), ..s }, Action::Done(r))
}

pub open spec fn fail_spec(s: SearcherView, e: SearchError) -> (SearcherView, Action) {
    (SearcherView { phase: Phase::Idle, ..s }, Action::Fail(e))
}

/// Scan the block from its start, unless it is already used up.
pub open spec fn scan_spec(s: SearcherView) -> (SearcherView, Action) {
    if s.block < s.stop_at {
        (SearcherView { phase: Phase::Scan, at: s.block, ..s }, Action::Read(s.block))
    } else {
        finish_spec(s, s.block, LookupResult::NotFound)
    }
}

pub open spec fn saturating_add(a: u64, b: int) -> u64 {
    if a + b <= u64::MAX {
        (a + b) as u64
    } else {
        u64::MAX
    }
}

/// One step of the search: `line` is what a read at the pending offset gave,
/// `end` the stream position after it. The line's bytes are counted.
pub open spec fn feed_spec(s: SearcherView, line: Seq<u8>, end: u64) -> (SearcherView, Action) {
    feed_decide(
        SearcherView { bytes_read: saturating_add(s.bytes_read, line.len() as int), ..s },
        line,
        end,
    )
}

/// What the searcher does with the line that a read gave.
pub open spec fn feed_decide(s: SearcherView, line: Seq<u8>, end: u64) -> (SearcherView, Action) {
    match s.phase {
        // no read is pending: there is nothing to decide
        Phase::Idle => (s, Action::Fail(SearchError::OrderingViolation)),
        Phase::Jump => {
            if line.len() == 0 {
                scan_spec(SearcherView { stop_at: s.at, ..s })
            } else {
                match probe_spec(line, s.target) {
                    Err(e) => fail_spec(s, e),
                    Ok(Probe::Equal(c)) => finish_spec(s, s.at, LookupResult::Found(c)),
                    Ok(Probe::Greater) => scan_spec(SearcherView { stop_at: end, ..s }),
                    Ok(Probe::Less) => {
                        if end + s.step <= u64::MAX {
                            (
                                SearcherView {
                                    phase: Phase::Skip,
                                    block: end,
                                    at: (end + s.step) as u64,
                                    ..s
                                },
                                Action::Read((end + s.step) as u64),
                            )
                        } else {
                            scan_spec(SearcherView { block: end, stop_at: u64::MAX, ..s })
                        }
                    },
                }
            }
        },
        Phase::Skip => {
            if line.len() == 0 {
                scan_spec(SearcherView { stop_at: s.at, ..s })
            } else {
                (SearcherView { phase: Phase::Jump, at: end, ..s }, Action::Read(end))
            }
        },
        Phase::Scan => {
            if line.len() == 0 {
                finish_spec(s, s.block, LookupResult::NotFound)
            } else {
                match probe_spec(line, s.target) {
                    Err(e) => fail_spec(s, e),
                    Ok(Probe::Equal(c)) => finish_spec(s, s.at, LookupResult::Found(c)),
                    Ok(Probe::Greater) => finish_spec(s, s.block, LookupResult::NotFound),
                    Ok(Probe::Less) => scan_spec(SearcherView { block: end, ..s }),
                }
            }
        },
    }
}

/// Integer square root, by bisection.
pub fn floor_sqrt(n: u64) -> (r: u64)
    ensures
        is_floor_sqrt(r, n),
{
    let mut lo: u64 = 0;
    let mut hi: u64 = 0x1_0000_0000;
    assert(hi * hi > n) by (nonlinear_arith)
        requires
            hi == 0x1_0000_0000,
            n <= u64::MAX,
    ;
    while hi - lo > 1
        invariant
            lo < hi <= 0x1_0000_0000,
            lo * lo <= n,
            n < hi * hi,
        decreases hi - lo,
    {
        let mid: u64 = lo + (hi - lo) / 2;
        assert(mid * mid <= 0xffff_fffe_0000_0001) by (nonlinear_arith)
            requires
                mid < 0x1_0000_0000,
        ;
        if mid * mid <= n {
            lo = mid;
        } else {
            hi = mid;
        }
    }
    assert(hi == lo + 1);
    lo
}

/// A fresh vector holding the bytes of `s`.
pub fn copy_bytes(s: &[u8]) -> (r: Vec<u8>)
    ensures
        r@ == s@,
{
    let mut r: Vec<u8> = Vec::with_capacity(s.len());
    let mut i: usize = 0;
    while i < s.len()
        invariant
            0 <= i <= s.len(),
            r@ == s@.take(i as int),
        decreases s.len() - i,
    {
        r.push(s[i]);
        i = i + 1;
        assert(r@ =~= s@.take(i as int));
    }
    assert(s@.take(s.len() as int) =~= s@);
    r
}

impl Searcher {
    /// A searcher at the start of the stream, with nothing searched yet.
    pub fn new() -> (r: Searcher)
        ensures
            r@.cursor == 0,
            r@.last == None::<Seq<u8>>,
            r@.phase == Phase::Idle,
            r@.bytes_read == 0,
    {
        Searcher {
            cursor: 0,
            last: None,
            phase: Phase::Idle,
            target: Vec::new(),
            step: 1,
            block: 0,
            stop_at: 0,
            at: 0,
            bytes_read: 0,
        }
    }

    /// A search is in progress: a read was requested and not yet fed.
    pub fn is_searching(&self) -> (r: bool)
        ensures
            r == (self@.phase != Phase::Idle),
    {
        self.phase != Phase::Idle
    }

    /// The hash of the search in progress, or of the last one started.
    pub fn target(&self) -> (r: &[u8])
        ensures
            r@ == self@.target,
    {
        self.target.as_slice()
    }

    /// How many bytes of lines were handed to `feed`, saturating.
    pub fn bytes_read(&self) -> (r: u64)
        ensures
            r == self@.bytes_read,
    {
        self.bytes_read
    }

    /// The offset where the next search starts.
    pub fn cursor(&self) -> (r: u64)
        ensures
            r == self@.cursor,
    {
        self.cursor
    }

    /// Begins a search for `target` in a stream of `stream_len` bytes. A
    /// target that sorts before the last one searched is refused; otherwise
    /// the first read is at the cursor, and the jump length is the square root
    /// of the stream's length.
    pub fn start(&mut self, target: &[u8], stream_len: u64) -> (r: Action)
        ensures
            start_ok(old(self)@, final(self)@, target@, stream_len, r),
    {
        if let Some(l) = &self.last {
            proof {
                lemma_lex_trichotomy(target@, l@);
            }
            if let crate::order::KeyOrder::Less = crate::order::compare_keys(target, l.as_slice()) {
                self.phase = Phase::Idle;
                return Action::Fail(SearchError::OrderingViolation);
            }
        }
        self.step = if stream_len == 0 {
            1
        } else {
            let r = floor_sqrt(stream_len);
            assert(r >= 1) by (nonlinear_arith)
                requires
                    is_floor_sqrt(r, stream_len),
                    stream_len >= 1,
            ;
            r
        };
        self.target = copy_bytes(target);
        self.block = self.cursor;
        self.at = self.cursor;
        self.phase = Phase::Jump;
        Action::Read(self.cursor)
    }

    fn finish(&mut self, pos: u64, r: LookupResult) -> (a: Action)
        ensures
            (final(self)@, a) == finish_spec(old(self)@, pos, r),
    {
        self.phase = Phase::Idle;
        self.cursor = pos;
        self.last = Some(self.target.clone());
        Action::Done(r)
    }

    fn scan(&mut self) -> (a: Action)
        ensures
            (final(self)@, a) == scan_spec(old(self)@),
    {
        if self.block < self.stop_at {
            self.phase = Phase::Scan;
            self.at = self.block;
            Action::Read(self.block)
        } else {
            let b = self.block;
            self.finish(b, LookupResult::NotFound)
        }
    }

    /// Hands the searcher the line that the requested read gave (empty at the
    /// end of the stream) and the stream position after it.
    pub fn feed(&mut self, line: &[u8], end: u64) -> (a: Action)
        requires
            old(self)@.phase != Phase::Idle,
        ensures
            (final(self)@, a) == feed_spec(old(self)@, line@, end),
    {
        let len = line.len() as u64;
        self.bytes_read = if len <= u64::MAX - self.bytes_read {
            self.bytes_read + len
        } else {
            u64::MAX
        };
        match self.phase {
            // excluded by the precondition
            Phase::Idle => Action::Fail(SearchError::OrderingViolation),
            Phase::Jump => {
                if line.len() == 0 {
                    self.stop_at = self.at;
                    return self.scan();
                }
                match probe(line, self.target.as_slice()) {
                    Err(e) => {
                        self.phase = Phase::Idle;
                        Action::Fail(e)
                    },
                    Ok(Probe::Equal(c)) => {
                        let at = self.at;
                        self.finish(at, LookupResult::Found(c))
                    },
                    Ok(Probe::Greater) => {
                        self.stop_at = end;
                        self.scan()
                    },
                    Ok(Probe::Less) => {
                        self.block = end;
                        if end <= u64::MAX - self.step {
                            self.phase = Phase::Skip;
                            self.at = end + self.step;
                            Action::Read(self.at)
                        } else {
                            self.stop_at = u64::MAX;
                            self.scan()
                        }
                    },
                }
            },
            Phase::Skip => {
                if line.len() == 0 {
                    self.stop_at = self.at;
                    self.scan()
                } else {
                    self.phase = Phase::Jump;
                    self.at = end;
                    Action::Read(end)
                }
            },
            Phase::Scan => {
                if line.len() == 0 {
                    let b = self.block;
                    return self.finish(b, LookupResult::NotFound);
                }
                match probe(line, self.target.as_slice()) {
                    Err(e) => {
                        self.phase = Phase::Idle;
                        Action::Fail(e)
                    },
                    Ok(Probe::Equal(c)) => {
                        let at = self.at;
                        self.finish(at, LookupResult::Found(c))
                    },
                    Ok(Probe::Greater) => {
                        let b = self.block;
                        self.finish(b, LookupResult::NotFound)
                    },
                    Ok(Probe::Less) => {
                        self.block = end;
                        self.scan()
                    },
                }
            },
        }
    }
}

/// Between searches: the cursor is at a line (or the end) of `d`, and in
/// sorted data every line before it sorts below the last target.
pub open spec fn tracks(s: SearcherView, d: Seq<u8>) -> bool {
    &&& s.phase == Phase::Idle
    &&& s.cursor <= d.len()
    &&& at_line(d, s.cursor as int)
    &&& (s.last is None ==> s.cursor == 0)
    &&& (sorted(d) && s.last is Some ==> all_below(d, s.cursor as int, s.last->0))
}

/// During a search of `d`: every line before `block` sorts below the target,
/// and in the final scan every line from `stop_at` on sorts above it.
pub open spec fn searching(s: SearcherView, d: Seq<u8>) -> bool {
    &&& s.step >= 1
    &&& s.block <= d.len()
    &&& at_line(d, s.block as int)
    &&& (sorted(d) ==> all_below(d, s.block as int, s.target))
    &&& match s.phase {
        Phase::Jump => s.block <= s.at <= d.len() && at_line(d, s.at as int),
        Phase::Skip => s.block < s.at,
        Phase::Scan => s.at == s.block && s.block < s.stop_at && (sorted(d) ==> all_above(
            d,
            s.stop_at as int,
            s.target,
        )),
        Phase::Idle => false,
    }
}

/// What a read of `d` at `at` hands back: the line, and the position after it.
pub open spec fn read_end(d: Seq<u8>, at: int) -> int {
    if at < d.len() {
        line_end(d, at)
    } else {
        at
    }
}

/// How the outcome of one step of a search of `d` stands.
pub open spec fn step_ok(s: SearcherView, s2: SearcherView, a: Action, d: Seq<u8>) -> bool {
    match a {
        Action::Read(o) => {
            &&& searching(s2, d)
            &&& o == s2.at
            &&& s2.target == s.target
            &&& s2.cursor == s.cursor
            &&& s2.last == s.last
            &&& ((s.phase != Phase::Scan && s2.phase == Phase::Scan) || ((s.phase == Phase::Scan)
                == (s2.phase == Phase::Scan) && s2.at > s.at))
        },
        Action::Done(r) => {
            &&& tracks(s2, d)
            &&& s2.last == Some(s.target)
            &&& (sorted(d) && well_formed(d) ==> r == lookup_spec(d, s.target))
        },
        Action::Fail(e) => {
            &&& e == SearchError::MalformedLine
            &&& !well_formed(d)
            &&& s2.phase == Phase::Idle
            &&& s2.cursor == s.cursor
            &&& s2.last == s.last
        },
    }
}

/// Lines before the end of the line at `at` sort below `t`, once that line
/// does and the lines before `block` do.
pub proof fn lemma_below_after(d: Seq<u8>, block: int, at: int, t: Seq<u8>)
    requires
        sorted(d),
        block <= at,
        is_line_start(d, at),
        all_below(d, block, t),
        lex_lt(key_at(d, at), t),
    ensures
        all_below(d, line_end(d, at), t),
{
    lemma_next_line_start(d, at);
    assert forall|q: int| is_line_start(d, q) && q < line_end(d, at) implies lex_lt(
        #[trigger] key_at(d, q),
        t,
    ) by {
        if block <= q < at {
            lemma_lex_trans(key_at(d, q), key_at(d, at), t);
        }
    }
}

/// Lines from the line at `at` on sort above `t`, once that line does.
pub proof fn lemma_above_from(d: Seq<u8>, at: int, t: Seq<u8>)
    requires
        sorted(d),
        is_line_start(d, at),
        lex_lt(t, key_at(d, at)),
    ensures
        all_above(d, at, t),
{
    assert forall|q: int| is_line_start(d, q) && q >= at implies lex_lt(
        t,
        #[trigger] key_at(d, q),
    ) by {
        if q > at {
            lemma_lex_trans(t, key_at(d, at), key_at(d, q));
        }
    }
}

proof fn lemma_scan_ok(s: SearcherView, d: Seq<u8>, s0: SearcherView)
    requires
        s.step >= 1,
        s.block <= d.len(),
        at_line(d, s.block as int),
        sorted(d) ==> all_below(d, s.block as int, s.target),
        sorted(d) ==> all_above(d, s.stop_at as int, s.target),
        s.target == s0.target,
        s.cursor == s0.cursor,
        s.last == s0.last,
        s0.phase != Phase::Scan || s.block > s0.at,
    ensures
        step_ok(s0, scan_spec(s).0, scan_spec(s).1, d),
{
    if s.block >= s.stop_at && sorted(d) {
        lemma_absent_between(d, s.block as int, s.stop_at as int, s.target);
    }
}

/// One step of a search of `d`, fed what `d` holds at the requested offset,
/// keeps the search on track and, when it ends, ends with the right answer.
proof fn lemma_feed_step(s: SearcherView, d: Seq<u8>)
    requires
        searching(s, d),
        d.len() <= u64::MAX,
    ensures
        step_ok(
            s,
            feed_spec(s, line_from(d, s.at as int), read_end(d, s.at as int) as u64).0,
            feed_spec(s, line_from(d, s.at as int), read_end(d, s.at as int) as u64).1,
            d,
        ),
{
    let at = s.at as int;
    let line = line_from(d, at);
    let end = read_end(d, at);
    if at < d.len() {
        lemma_line_end(d, at);
        lemma_next_line_start(d, at);
        assert(line.len() > 0);
    } else {
        assert(line.len() == 0);
    }
    let t = s.target;
    match s.phase {
        Phase::Jump => {
            if line.len() == 0 {
                lemma_scan_ok(SearcherView { stop_at: s.at, ..s }, d, s);
            } else {
                assert(is_line_start(d, at));
                lemma_lex_trichotomy(key_at(d, at), t);
                match probe_spec(line, t) {
                    Err(e) => {},
                    Ok(Probe::Equal(c)) => {
                        if sorted(d) {
                            lemma_found_at(d, at, t);
                            assert forall|q: int| is_line_start(d, q) && q < at implies lex_lt(
                                #[trigger] key_at(d, q),
                                t,
                            ) by {}
                        }
                    },
                    Ok(Probe::Greater) => {
                        if sorted(d) {
                            lemma_above_from(d, at, t);
                            lemma_next_line_start(d, at);
                            assert forall|q: int| is_line_start(d, q) && q >= end implies lex_lt(
                                t,
                                #[trigger] key_at(d, q),
                            ) by {}
                        }
                        lemma_scan_ok(SearcherView { stop_at: end as u64, ..s }, d, s);
                    },
                    Ok(Probe::Less) => {
                        if sorted(d) {
                            lemma_below_after(d, s.block as int, at, t);
                        }
                        if end + s.step > u64::MAX {
                            lemma_scan_ok(
                                SearcherView { block: end as u64, stop_at: u64::MAX, ..s },
                                d,
                                s,
                            );
                        }
                    },
                }
            }
        },
        Phase::Skip => {
            if line.len() == 0 {
                lemma_scan_ok(SearcherView { stop_at: s.at, ..s }, d, s);
            }
        },
        Phase::Scan => {
            if line.len() == 0 {
                if sorted(d) {
                    lemma_absent_between(d, s.block as int, d.len() as int, t);
                }
            } else {
                assert(is_line_start(d, at));
                lemma_lex_trichotomy(key_at(d, at), t);
                match probe_spec(line, t) {
                    Err(e) => {},
                    Ok(Probe::Equal(c)) => {
                        if sorted(d) {
                            lemma_found_at(d, at, t);
                        }
                    },
                    Ok(Probe::Greater) => {
                        if sorted(d) {
                            lemma_above_from(d, at, t);
                            lemma_absent_between(d, at, at, t);
                        }
                    },
                    Ok(Probe::Less) => {
                        if sorted(d) {
                            lemma_below_after(d, s.block as int, at, t);
                        }
                        lemma_scan_ok(SearcherView { block: end as u64, ..s }, d, s);
                    },
                }
            }
        },
        Phase::Idle => {},
    }
}

/// Bytes read by a search of `d` that began at cursor `c` with `b0` bytes
/// counted: the jumps read each byte from `c` on at most once, and the final
/// scan reads again only bytes of the block it started at.
pub open spec fn reads_bounded(s: SearcherView, d: Seq<u8>, c: int, b0: int) -> bool {
    &&& s.block >= c
    &&& match s.phase {
        Phase::Jump => s.bytes_read <= b0 + (s.at - c),
        Phase::Skip => s.bytes_read <= b0 + (s.block - c),
        Phase::Scan => s.bytes_read <= b0 + (d.len() - c) + (s.at - c),
        Phase::Idle => false,
    }
}

proof fn lemma_feed_reads(s: SearcherView, d: Seq<u8>, c: int, b0: int)
    requires
        searching(s, d),
        reads_bounded(s, d, c, b0),
        0 <= c <= d.len(),
        d.len() <= u64::MAX,
    ensures
        ({
            let (s2, a) = feed_spec(
                s,
                line_from(d, s.at as int),
                read_end(d, s.at as int) as u64,
            );
            &&& a is Read ==> reads_bounded(s2, d, c, b0)
            &&& !(a is Read) ==> s2.bytes_read <= b0 + 2 * (d.len() - c)
        }),
{
    if s.at < d.len() {
        lemma_line_end(d, s.at as int);
    }
}

/// A search whose target sorts below the line at the cursor reads that one
/// line, once to probe and once to scan, and ends with `NotFound` at the same
/// cursor: nothing past it is read.
pub proof fn lemma_below_remaining(s: SearcherView, d: Seq<u8>)
    requires
        searching(s, d),
        s.phase == Phase::Jump,
        s.at == s.block,
        s.at < d.len(),
        d.len() <= u64::MAX,
        well_formed(d),
        lex_lt(s.target, key_at(d, s.at as int)),
    ensures
        ({
            let line = line_from(d, s.at as int);
            let end = line_end(d, s.at as int) as u64;
            let (s2, a2) = feed_spec(s, line, end);
            let (s3, a3) = feed_spec(s2, line, end);
            &&& a2 == Action::Read(s.at)
            &&& s2.phase == Phase::Scan
            &&& a3 == Action::Done(LookupResult::NotFound)
            &&& s3.cursor == s.at
        }),
{
    let at = s.at as int;
    lemma_line_end(d, at);
    lemma_lex_trichotomy(key_at(d, at), s.target);
    assert(is_line_start(d, at));
    assert(well_formed_line(line_from(d, at)));
}

impl Searcher {
    /// Searches in-memory reference data `data` for `target`, performing the
    /// reads that the search asks for. A target that sorts before the last
    /// one searched fails with `OrderingViolation`. On sorted, well-formed
    /// data any other target gets the answer of a lookup that looks at every
    /// line, and `MalformedLine` comes only from data with a malformed line.
    pub fn search_in(&mut self, data: &[u8], target: &[u8]) -> (r: Result<
        LookupResult,
        SearchError,
    >)
        requires
            tracks(old(self)@, data@),
        ensures
            tracks(final(self)@, data@),
            final(self)@.bytes_read <= old(self)@.bytes_read + 2 * (data.len() - old(self)@.cursor),
            ({
                let violation = match old(self)@.last {
                    Some(l) => lex_lt(target@, l),
                    None => false,
                };
                &&& violation <==> r == Err::<LookupResult, SearchError>(
                    SearchError::OrderingViolation,
                )
                &&& r == Err::<LookupResult, SearchError>(SearchError::MalformedLine)
                    ==> !well_formed(data@)
                &&& !violation && well_formed(data@) ==> r is Ok
                &&& r is Ok ==> final(self)@.last == Some(target@)
                &&& r is Err ==> final(self)@.cursor == old(self)@.cursor && final(self)@.last
                    == old(self)@.last
                &&& !violation && sorted(data@) && well_formed(data@) ==> r == Ok::<
                    LookupResult,
                    SearchError,
                >(lookup_spec(data@, target@))
            }),
    {
        let ghost d = data@;
        let ghost s0 = self@;
        let mut act = self.start(target, data.len() as u64);
        proof {
            let t = target@;
            if act is Read {
                let st = self@.step;
                let n = data.len() as u64;
                assert(st >= 1) by (nonlinear_arith)
                    requires
                        is_jump_step(st, n),
                ;
                if sorted(d) && s0.last is Some {
                    let l = s0.last->0;
                    lemma_lex_trichotomy(t, l);
                    assert forall|q: int| is_line_start(d, q) && q < s0.cursor implies lex_lt(
                        #[trigger] key_at(d, q),
                        t,
                    ) by {
                        if l != t {
                            lemma_lex_trans(key_at(d, q), l, t);
                        }
                    }
                }
            }
        }
        loop
            invariant
                d == data@,
                d.len() <= u64::MAX,
                act is Read ==> searching(self@, d) && act->Read_0 == self@.at && self@.target
                    == target@ && self@.cursor == s0.cursor && self@.last == s0.last,
                act is Read ==> reads_bounded(self@, d, s0.cursor as int, s0.bytes_read as int),
                !(act is Read) ==> self@.bytes_read <= s0.bytes_read + 2 * (d.len() - s0.cursor),
                act is Done ==> tracks(self@, d) && self@.last == Some(target@) && (sorted(d)
                    && well_formed(d) ==> act->Done_0 == lookup_spec(d, target@)),
                act is Fail ==> self@.phase == Phase::Idle && self@.cursor == s0.cursor
                    && self@.last == s0.last,
                act is Fail && act->Fail_0 == SearchError::OrderingViolation <==> (match s0.last {
                    Some(l) => lex_lt(target@, l),
                    None => false,
                }),
                act is Fail && act->Fail_0 == SearchError::MalformedLine ==> !well_formed(d),
            ensures
                !(act is Read),
                self@.bytes_read <= s0.bytes_read + 2 * (d.len() - s0.cursor),
                act is Done ==> tracks(self@, d) && self@.last == Some(target@) && (sorted(d)
                    && well_formed(d) ==> act->Done_0 == lookup_spec(d, target@)),
                act is Fail ==> self@.phase == Phase::Idle && self@.cursor == s0.cursor
                    && self@.last == s0.last,
                act is Fail && act->Fail_0 == SearchError::OrderingViolation <==> (match s0.last {
                    Some(l) => lex_lt(target@, l),
                    None => false,
                }),
                act is Fail && act->Fail_0 == SearchError::MalformedLine ==> !well_formed(d),
            decreases
                (if !(act is Read) {
                    0int
                } else if self@.phase == Phase::Scan {
                    1int
                } else {
                    2int
                }),
                u64::MAX - self@.at,
        {
            match act {
                Action::Read(off) => {
                    proof {
                        lemma_feed_step(self@, d);
                        lemma_feed_reads(self@, d, s0.cursor as int, s0.bytes_read as int);
                    }
                    let (line, end) = read_line_at(data, off);
                    act = self.feed(line, end);
                },
                _ => {
                    break ;
                },
            }
        }
        match act {
            Action::Done(r) => Ok(r),
            Action::Fail(e) => Err(e),
            // the loop ends only on `Done` or `Fail`
            Action::Read(_) => Err(SearchError::MalformedLine),
        }
    }
}

} // verus!
