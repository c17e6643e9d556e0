//! A search that needs no cursor and no order among queries: bisection over
//! byte offsets, for single lookups.
use vstd::prelude::*;
use crate::line::{
    Probe, SearchError, is_line_start, lemma_line_end, lemma_next_line_start, line_end, probe,
    read_line_at,
};
use crate::order::lemma_lex_trichotomy;
use crate::reference::{
    all_above, all_below, key_at, lemma_absent_between, lemma_found_at, lookup_spec, sorted,
    well_formed,
};
use crate::search::{LookupResult, lemma_above_from, lemma_below_after};

verus! {

/// Looks `hash` up in in-memory reference data by bisection. Each round
/// reads through the line holding the byte before the midpoint, which puts
/// it on the first line that begins at or after the midpoint, and probes
/// that line. On sorted, well-formed data the answer is that of a lookup
/// that looks at every line; `MalformedLine` comes only from data with a
/// malformed line.
pub fn find_hash(data: &[u8], hash: &[u8]) -> (r: Result<LookupResult, SearchError>)
    ensures
        r == Err::<LookupResult, SearchError>(SearchError::MalformedLine) ==> !well_formed(data@),
        r != Err::<LookupResult, SearchError>(SearchError::OrderingViolation),
        well_formed(data@) ==> r is Ok,
        sorted(data@) && well_formed(data@) ==> r == Ok::<LookupResult, SearchError>(
            lookup_spec(data@, hash@),
        ),
{
    let ghost d = data@;
    let ghost t = hash@;
    let n: u64 = data.len() as u64;
    let mut lo: u64 = 0;
    let mut hi: u64 = n;
    while lo < hi
        invariant
            d == data@,
            t == hash@,
            n == d.len(),
            hi <= n,
            lo <= n,
            sorted(d) ==> all_below(d, lo as int, t) && all_above(d, hi as int, t),
        decreases hi - lo,
    {
        let mid: u64 = lo + (hi - lo) / 2;
        let p: u64 = if mid == 0 {
            0
        } else {
            let (_, e) = read_line_at(data, mid - 1);
            proof {
                lemma_line_end(d, mid - 1);
                lemma_next_line_start(d, mid - 1);
            }
            e
        };
        assert(forall|q: int| mid <= q < p ==> !is_line_start(d, q));
        if p >= hi {
            hi = mid;
        } else {
            assert(is_line_start(d, p as int));
            let (line, end) = read_line_at(data, p);
            proof {
                lemma_line_end(d, p as int);
                lemma_lex_trichotomy(key_at(d, p as int), t);
            }
            match probe(line, hash) {
                Err(e) => {
                    return Err(e);
                },
                Ok(Probe::Equal(c)) => {
                    proof {
                        if sorted(d) {
                            lemma_found_at(d, p as int, t);
                        }
                    }
                    return Ok(LookupResult::Found(c));
                },
                Ok(Probe::Less) => {
                    proof {
                        if sorted(d) {
                            lemma_below_after(d, lo as int, p as int, t);
                            assert(all_below(d, end as int, t));
                            if end > hi {
                                assert(all_below(d, hi as int, t));
                            }
                        }
                    }
                    lo = if end < hi {
                        end
                    } else {
                        hi
                    };
                },
                Ok(Probe::Greater) => {
                    proof {
                        if sorted(d) {
                            lemma_above_from(d, p as int, t);
                        }
                    }
                    hi = p;
                },
            }
        }
    }
    proof {
        if sorted(d) {
            lemma_absent_between(d, lo as int, hi as int, t);
        }
    }
    Ok(LookupResult::NotFound)
}

} // verus!
