//! The coordinator's decisions around a query: the body check for a
//! health ping, the effective grouping label columns, and the synthetic
//! partial that stands in for a worker that failed twice.
use vstd::prelude::*;

verus! {

use crate::fieldparse::eq_icase;
use crate::rpc::{GroupMap, PartialAggregate, QueryRequest};
use crate::textscan::{str_chars, trim_bounds, trim_chars};

/// Whether a request body asks for the health ping.
pub fn is_ping(body: &str) -> (r: bool)
    ensures
        r == eq_icase(trim_chars(body@), "PING"@),
{
    let v = str_chars(body);
    let n = v.len();
    proof {
        assert(v@.subrange(0, n as int) =~= body@);
    }
    let (a, b) = trim_bounds(&v, 0, n);
    crate::fieldparse::eq_icase_range(&v, a, b, "PING")
}

/// The ping reply body.
pub fn pong() -> (r: String)
    ensures
        r@ == "PONG"@,
{
    crate::strutil::chars_to_string(str_chars("PONG"))
}

/// The columns whose names label the output groups: the group-by
/// columns, or, for a projection-only query, its projections unless
/// they are the lone star.
pub open spec fn spec_effective_group_by(req: QueryRequest) -> Seq<Seq<char>> {
    if req.aggregates@.len() == 0 && req.group_by@.len() == 0 {
        if req.projections@.len() == 1 && req.projections@[0]@ == "*"@ {
            Seq::empty()
        } else {
            req.projections@.map_values(|s: String| s@)
        }
    } else {
        req.group_by@.map_values(|s: String| s@)
    }
}

pub fn effective_group_by(req: &QueryRequest) -> (r: Vec<String>)
    ensures
        r@.map_values(|s: String| s@) == spec_effective_group_by(*req),
{
    if req.aggregates.len() == 0 && req.group_by.len() == 0 {
        if req.projections.len() == 1 && crate::strutil::eq_str(req.projections[0].as_str(), "*") {
            let r: Vec<String> = Vec::new();
            proof {
                assert(r@.map_values(|s: String| s@) =~= Seq::<Seq<char>>::empty());
            }
            r
        } else {
            dup_strings(&req.projections)
        }
    } else {
        dup_strings(&req.group_by)
    }
}

#[verifier::loop_isolation(false)]
fn dup_strings(v: &Vec<String>) -> (r: Vec<String>)
    ensures
        r@.map_values(|s: String| s@) == v@.map_values(|s: String| s@),
{
    let mut out: Vec<String> = Vec::new();
    let mut i: usize = 0;
    while i < v.len()
        invariant
            i <= v@.len(),
            out@.map_values(|s: String| s@) == v@.map_values(|s: String| s@).take(i as int),
        decreases v@.len() - i,
    {
        let x = v[i].clone();
        proof {
            assert(x@ == v@[i as int]@);
            assert(v@.map_values(|s: String| s@)[i as int] == v@[i as int]@);
        }
        out.push(x);
        i += 1;
        proof {
            assert(out@.map_values(|s: String| s@) =~= v@.map_values(|s: String| s@).take(
                i as int,
            ));
        }
    }
    proof {
        assert(v@.map_values(|s: String| s@).take(v@.len() as int) =~= v@.map_values(
            |s: String| s@,
        ));
    }
    out
}

/// The stand-in for a worker that failed after its retry: nothing
/// scanned, its one segment counted as skipped, no time booked.
pub fn fallback_partial(port: u16, segment: u32) -> (r: PartialAggregate)
    ensures
        r.worker_port == port,
        r.segment == segment,
        r.rows_scanned == 0,
        r.segments_skipped == 1,
        r.exec_ms == 0,
        r.groups.wf(),
        r.groups@ == Map::<Seq<char>, Map<Seq<char>, crate::rpc::AggregateState>>::empty(),
        r.groups.entries@.len() == 0,
{
    PartialAggregate {
        worker_port: port,
        segment,
        rows_scanned: 0,
        segments_skipped: 1,
        exec_ms: 0,
        groups: GroupMap::new(),
    }
}

} // verus!
