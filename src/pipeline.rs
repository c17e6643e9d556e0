//! The lookup pipeline: one search per distinct hash of a sorted batch, with
//! the last answer kept for a hash that repeats at once.
use vstd::prelude::*;
use crate::line::SearchError;
use crate::order::{KeyOrder, compare_keys, lex_lt};
use crate::reference::{lookup_spec, sorted, well_formed};
use crate::search::{
    Action, LookupResult, Phase, Searcher, SearcherView, copy_bytes, feed_spec, start_ok, tracks,
};

verus! {

pub struct PipelineView {
    pub searcher: SearcherView,
    pub prev: Option<(Seq<u8>, LookupResult)>,
    pub searches: u64,
}

/// A searcher, the last hash answered with its answer, and how many times
/// the searcher was started.
pub struct Pipeline {
    searcher: Searcher,
    prev: Option<(Vec<u8>, LookupResult)>,
    searches: u64,
}

pub open spec fn prev_view(p: Option<(Vec<u8>, LookupResult)>) -> Option<(Seq<u8>, LookupResult)> {
    match p {
        Some((h, r)) => Some((h@, r)),
        None => None,
    }
}

impl View for Pipeline {
    type V = PipelineView;

    closed spec fn view(&self) -> PipelineView {
        PipelineView { searcher: self.searcher@, prev: prev_view(self.prev), searches: self.searches }
    }
}

/// The hash whose answer is kept.
pub open spec fn kept_hash(v: PipelineView) -> Seq<u8> {
    match v.prev {
        Some((h, _)) => h,
        None => Seq::empty(),
    }
}

/// The answer that is kept.
pub open spec fn kept_result(v: PipelineView) -> LookupResult {
    match v.prev {
        Some((_, r)) => r,
        None => LookupResult::NotFound,
    }
}

/// The last answer is kept for hash `q`.
pub open spec fn is_cached(v: PipelineView, q: Seq<u8>) -> bool {
    v.prev is Some && kept_hash(v) == q
}

/// Between lookups in `d`: the searcher is on track, the kept answer is for
/// the hash it searched last, and in sorted, well-formed data it is right.
pub open spec fn pipeline_tracks(v: PipelineView, d: Seq<u8>) -> bool {
    &&& tracks(v.searcher, d)
    &&& (v.prev is None ==> v.searcher.last is None)
    &&& (v.prev is Some ==> v.searcher.last == Some(kept_hash(v)) && (sorted(d) && well_formed(d)
        ==> kept_result(v) == lookup_spec(d, kept_hash(v))))
}

/// The hashes do not decrease from one to the next.
pub open spec fn non_decreasing(qs: Seq<Seq<u8>>) -> bool {
    forall|i: int| 0 < i < qs.len() ==> !lex_lt(#[trigger] qs[i], qs[i - 1])
}

pub open spec fn saturating_inc(n: u64) -> u64 {
    if n < u64::MAX {
        (n + 1) as u64
    } else {
        n
    }
}

fn same_hash(a: &[u8], b: &[u8]) -> (r: bool)
    ensures
        r == (a@ == b@),
{
    match compare_keys(a, b) {
        KeyOrder::Equal => true,
        _ => false,
    }
}

impl Pipeline {
    pub fn new() -> (r: Pipeline)
        ensures
            r@.searcher.cursor == 0,
            r@.searcher.last == None::<Seq<u8>>,
            r@.searcher.phase == Phase::Idle,
            r@.prev == None::<(Seq<u8>, LookupResult)>,
            r@.searches == 0,
    {
        Pipeline { searcher: Searcher::new(), prev: None, searches: 0 }
    }

    /// How many times a search was started.
    pub fn searches(&self) -> (r: u64)
        ensures
            r == self@.searches,
    {
        self.searches
    }

    /// A search is in progress and waits for a line.
    pub fn is_searching(&self) -> (r: bool)
        ensures
            r == (self@.searcher.phase != Phase::Idle),
    {
        self.searcher.is_searching()
    }

    /// Takes the next hash `q` of the batch, in a stream of `stream_len`
    /// bytes. The same hash as the last one is answered from the kept result
    /// without touching the stream; any other starts a search.
    pub fn query(&mut self, q: &[u8], stream_len: u64) -> (a: Action)
        ensures
            is_cached(old(self)@, q@) ==> a == Action::Done(kept_result(old(self)@)) && final(self)@
                == old(self)@,
            !is_cached(old(self)@, q@) ==> start_ok(
                old(self)@.searcher,
                final(self)@.searcher,
                q@,
                stream_len,
                a,
            ) && final(self)@.prev == old(self)@.prev && final(self)@.searches == saturating_inc(
                old(self)@.searches,
            ),
    {
        if let Some((h, r)) = &self.prev {
            if same_hash(h.as_slice(), q) {
                return Action::Done(*r);
            }
        }
        if self.searches < u64::MAX {
            self.searches = self.searches + 1;
        }
        self.searcher.start(q, stream_len)
    }

    /// Hands the search in progress the line that its read gave and the
    /// stream position after it; a finished search's answer is kept.
    pub fn feed(&mut self, line: &[u8], end: u64) -> (a: Action)
        requires
            old(self)@.searcher.phase != Phase::Idle,
        ensures
            (final(self)@.searcher, a) == feed_spec(old(self)@.searcher, line@, end),
            final(self)@.searches == old(self)@.searches,
            final(self)@.prev == (match a {
                Action::Done(r) => Some((old(self)@.searcher.target, r)),
                _ => old(self)@.prev,
            }),
    {
        let a = self.searcher.feed(line, end);
        if let Action::Done(r) = a {
            let h = copy_bytes(self.searcher.target());
            self.prev = Some((h, r));
        }
        a
    }

    /// Looks `q` up in in-memory reference data `data`, from the kept answer
    /// when `q` repeats the last hash and by a search otherwise.
    pub fn lookup_in(&mut self, data: &[u8], q: &[u8]) -> (r: Result<LookupResult, SearchError>)
        requires
            pipeline_tracks(old(self)@, data@),
        ensures
            pipeline_tracks(final(self)@, data@),
            is_cached(old(self)@, q@) ==> r == Ok::<LookupResult, SearchError>(
                kept_result(old(self)@),
            ) && final(self)@ == old(self)@,
            !is_cached(old(self)@, q@) ==> final(self)@.searches == saturating_inc(
                old(self)@.searches,
            ),
            r is Ok ==> is_cached(final(self)@, q@) && kept_result(final(self)@) == r->Ok_0,
            ({
                let violation = match old(self)@.searcher.last {
                    Some(l) => lex_lt(q@, l),
                    None => false,
                };
                &&& violation <==> r == Err::<LookupResult, SearchError>(
                    SearchError::OrderingViolation,
                )
                &&& r == Err::<LookupResult, SearchError>(SearchError::MalformedLine)
                    ==> !well_formed(data@)
                &&& !violation && well_formed(data@) ==> r is Ok
                &&& r is Ok ==> final(self)@.searcher.last == Some(q@)
                &&& !violation && sorted(data@) && well_formed(data@) ==> r == Ok::<
                    LookupResult,
                    SearchError,
                >(lookup_spec(data@, q@))
            }),
    {
        if let Some((h, r)) = &self.prev {
            if same_hash(h.as_slice(), q) {
                proof {
                    crate::order::lemma_lex_trichotomy(q@, q@);
                }
                return Ok(*r);
            }
        }
        if self.searches < u64::MAX {
            self.searches = self.searches + 1;
        }
        let r = self.searcher.search_in(data, q);
        if let Ok(found) = r {
            self.prev = Some((copy_bytes(q), found));
        }
        r
    }
}

/// Looks up every hash of a batch that does not decrease, in in-memory
/// reference data, in order, one answer per hash. On sorted, well-formed
/// data the answers are those of a lookup that looks at every line, and a
/// batch that decreases somewhere fails with `OrderingViolation`.
pub fn lookup(reference: &[u8], queries: &Vec<Vec<u8>>) -> (r: Result<Vec<LookupResult>, SearchError>)
    ensures
        r is Ok ==> r->Ok_0.len() == queries.len(),
        r == Err::<Vec<LookupResult>, SearchError>(SearchError::MalformedLine) ==> !well_formed(
            reference@,
        ),
        r == Err::<Vec<LookupResult>, SearchError>(SearchError::OrderingViolation)
            ==> !non_decreasing(queries@.map_values(|q: Vec<u8>| q@)),
        well_formed(reference@) ==> (r is Ok <==> non_decreasing(
            queries@.map_values(|q: Vec<u8>| q@),
        )),
        r is Ok && sorted(reference@) && well_formed(reference@) ==> forall|i: int|
            0 <= i < queries.len() ==> #[trigger] r->Ok_0@[i] == lookup_spec(
                reference@,
                queries@[i]@,
            ),
{
    let ghost qs = queries@.map_values(|q: Vec<u8>| q@);
    let mut p = Pipeline::new();
    let mut out: Vec<LookupResult> = Vec::new();
    let mut i: usize = 0;
    while i < queries.len()
        invariant
            qs == queries@.map_values(|q: Vec<u8>| q@),
            0 <= i <= queries.len(),
            out@.len() == i,
            pipeline_tracks(p@, reference@),
            i == 0 ==> p@.searcher.last == None::<Seq<u8>>,
            i > 0 ==> p@.searcher.last == Some(qs[i - 1]),
            non_decreasing(qs.take(i as int)),
            sorted(reference@) && well_formed(reference@) ==> forall|j: int|
                0 <= j < i ==> #[trigger] out@[j] == lookup_spec(reference@, qs[j]),
        decreases queries.len() - i,
    {
        let r = p.lookup_in(reference, queries[i].as_slice());
        match r {
            Ok(found) => {
                out.push(found);
                assert(non_decreasing(qs.take(i + 1))) by {
                    assert forall|k: int| 0 < k < i + 1 implies !lex_lt(
                        #[trigger] qs.take(i + 1)[k],
                        qs.take(i + 1)[k - 1],
                    ) by {
                        if k < i {
                            assert(qs.take(i as int)[k] == qs[k]);
                            assert(qs.take(i as int)[k - 1] == qs[k - 1]);
                        }
                    }
                }
                i = i + 1;
            },
            Err(e) => {
                proof {
                    if e == SearchError::OrderingViolation {
                        assert(!lex_lt(qs[i as int], qs[i - 1]) ==> false);
                    }
                }
                return Err(e);
            },
        }
    }
    assert(qs.take(i as int) =~= qs);
    Ok(out)
}

} // verus!
