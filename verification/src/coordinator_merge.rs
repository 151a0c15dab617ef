//! Folding the workers' partial aggregates into one group map, with
//! summed scan counters.
use vstd::prelude::*;

verus! {

use crate::fbits::{spec_f64_add, spec_f64_min, spec_f64_max, f64_add_bits, f64_min_bits,
    f64_max_bits, f64_is_nan};
use crate::rpc::{AggregateState, GroupAggregate, GroupMap, PartialAggregate, ValueType};

/// A sum that stops at the top of the range.
pub open spec fn sat_add64(a: u64, b: u64) -> u64 {
    if a + b > u64::MAX {
        u64::MAX
    } else {
        (a + b) as u64
    }
}

/// Two accumulators combined: sums add, counts add, min and max combine
/// with an absent side acting as identity, and the display type promotes
/// to float when either side is float.
pub open spec fn spec_merge_state(d: AggregateState, s: AggregateState) -> AggregateState {
    AggregateState {
        sum: spec_f64_add(d.sum, s.sum),
        count: sat_add64(d.count, s.count),
        min: match (d.min, s.min) {
            (Some(a), Some(b)) => Some(spec_f64_min(a, b)),
            (None, b) => b,
            (a, None) => a,
        },
        max: match (d.max, s.max) {
            (Some(a), Some(b)) => Some(spec_f64_max(a, b)),
            (None, b) => b,
            (a, None) => a,
        },
        value_type: if d.value_type == ValueType::Float || s.value_type == ValueType::Float {
            ValueType::Float
        } else {
            ValueType::Int
        },
    }
}

/// Merge one accumulator into another.
pub fn merge_state(dst: &mut AggregateState, src: &AggregateState)
    ensures
        *final(dst) == spec_merge_state(*old(dst), *src),
{
    dst.sum = f64_add_bits(dst.sum, src.sum);
    dst.count = if dst.count <= u64::MAX - src.count {
        dst.count + src.count
    } else {
        u64::MAX
    };
    dst.min = match (dst.min, src.min) {
        (Some(a), Some(b)) => Some(f64_min_bits(a, b)),
        (None, b) => b,
        (a, None) => a,
    };
    dst.max = match (dst.max, src.max) {
        (Some(a), Some(b)) => Some(f64_max_bits(a, b)),
        (None, b) => b,
        (a, None) => a,
    };
    dst.value_type = if matches!(dst.value_type, ValueType::Float) || matches!(
        src.value_type,
        ValueType::Float,
    ) {
        ValueType::Float
    } else {
        ValueType::Int
    };
}

/// One group's accumulators folded into a destination group, entry by
/// entry.
pub open spec fn spec_merge_agg_entries(
    dst: Map<Seq<char>, AggregateState>,
    src: Seq<(Seq<char>, AggregateState)>,
) -> Map<Seq<char>, AggregateState>
    decreases src.len(),
{
    if src.len() == 0 {
        dst
    } else {
        let cur = if dst.contains_key(src[0].0) {
            dst[src[0].0]
        } else {
            AggregateState::init()
        };
        spec_merge_agg_entries(
            dst.insert(src[0].0, spec_merge_state(cur, src[0].1)),
            src.drop_first(),
        )
    }
}

/// One partial's groups folded into the merged map, group by group.
pub open spec fn spec_merge_groups(
    dst: Map<Seq<char>, Map<Seq<char>, AggregateState>>,
    src: Seq<(Seq<char>, Seq<(Seq<char>, AggregateState)>)>,
) -> Map<Seq<char>, Map<Seq<char>, AggregateState>>
    decreases src.len(),
{
    if src.len() == 0 {
        dst
    } else {
        let cur = if dst.contains_key(src[0].0) {
            dst[src[0].0]
        } else {
            Map::empty()
        };
        spec_merge_groups(dst.insert(src[0].0, spec_merge_agg_entries(cur, src[0].1)), src.drop_first())
    }
}

/// The nested entry sequences of a partial's groups.
pub open spec fn group_entry_seqs(gm: GroupMap) -> Seq<
    (Seq<char>, Seq<(Seq<char>, AggregateState)>),
> {
    gm.entries@.map_values(|e: (String, GroupAggregate)| (e.0@, e.1.entry_views()))
}

/// The merged group map of a list of partials, in order.
pub open spec fn spec_merge_partials_map(ps: Seq<PartialAggregate>) -> Map<
    Seq<char>,
    Map<Seq<char>, AggregateState>,
>
    decreases ps.len(),
{
    if ps.len() == 0 {
        Map::empty()
    } else {
        spec_merge_groups(spec_merge_partials_map(ps.drop_last()), group_entry_seqs(ps.last().groups))
    }
}

pub open spec fn spec_sum_rows(ps: Seq<PartialAggregate>) -> u64
    decreases ps.len(),
{
    if ps.len() == 0 {
        0
    } else {
        sat_add64(spec_sum_rows(ps.drop_last()), ps.last().rows_scanned)
    }
}

pub open spec fn spec_sum_skipped(ps: Seq<PartialAggregate>) -> u64
    decreases ps.len(),
{
    if ps.len() == 0 {
        0
    } else {
        sat_add64(spec_sum_skipped(ps.drop_last()), ps.last().segments_skipped)
    }
}

pub open spec fn spec_sum_ms(ps: Seq<PartialAggregate>) -> u64
    decreases ps.len(),
{
    if ps.len() == 0 {
        0
    } else {
        sat_add64(spec_sum_ms(ps.drop_last()), ps.last().exec_ms)
    }
}

fn sat_add(a: u64, b: u64) -> (r: u64)
    ensures
        r == sat_add64(a, b),
{
    if a <= u64::MAX - b {
        a + b
    } else {
        u64::MAX
    }
}

#[verifier::loop_isolation(false)]
fn dup_group(g: &GroupAggregate) -> (r: GroupAggregate)
    requires
        g.wf(),
    ensures
        r.wf(),
        r@ == g@,
        r.entry_views() == g.entry_views(),
{
    let mut entries: Vec<(String, AggregateState)> = Vec::new();
    let mut i: usize = 0;
    while i < g.entries.len()
        invariant
            i <= g.entries@.len(),
            g.wf(),
            entries@.map_values(|e: (String, AggregateState)| (e.0@, e.1)) == g.entry_views().take(
                i as int,
            ),
        decreases g.entries@.len() - i,
    {
        proof {
            assert(g.entry_views()[i as int] == (g.entries@[i as int].0@, g.entries@[i as int].1));
        }
        let nm = g.entries[i].0.clone();
        proof {
            assert(nm@ == g.entries@[i as int].0@);
        }
        entries.push((nm, g.entries[i].1));
        i += 1;
        proof {
            assert(entries@.map_values(|e: (String, AggregateState)| (e.0@, e.1))
                =~= g.entry_views().take(i as int));
        }
    }
    let r = GroupAggregate { entries };
    proof {
        assert(g.entry_views().take(g.entries@.len() as int) =~= g.entry_views());
    }
    r
}

/// Merge a list of partial aggregates into one group map, with the
/// summed row count, skipped-segment count and execution time.
#[verifier::loop_isolation(false)]
#[verifier::rlimit(100)]
pub fn merge_partials(partials: &Vec<PartialAggregate>) -> (r: (GroupMap, u64, u64, u64))
    requires
        forall|i: int|
            0 <= i < partials@.len() ==> (#[trigger] partials@[i]).groups.wf() && (forall|j: int|
                0 <= j < partials@[i].groups.entries@.len() ==> (#[trigger] partials@[
                i].groups.entries@[j]).1.wf()),
    ensures
        r.0.wf(),
        r.0@ == spec_merge_partials_map(partials@),
        r.1 == spec_sum_rows(partials@),
        r.2 == spec_sum_skipped(partials@),
        r.3 == spec_sum_ms(partials@),
{
    let mut cuml = GroupMap::new();
    let mut rows_scanned: u64 = 0;
    let mut segments_skipped: u64 = 0;
    let mut exec_ms: u64 = 0;
    let mut pi: usize = 0;
    proof {
        assert(partials@.take(0) =~= Seq::<PartialAggregate>::empty());
    }
    while pi < partials.len()
        invariant
            pi <= partials@.len(),
            cuml.wf(),
            cuml@ == spec_merge_partials_map(partials@.take(pi as int)),
            rows_scanned == spec_sum_rows(partials@.take(pi as int)),
            segments_skipped == spec_sum_skipped(partials@.take(pi as int)),
            exec_ms == spec_sum_ms(partials@.take(pi as int)),
        decreases partials@.len() - pi,
    {
        let p = &partials[pi];
        rows_scanned = sat_add(rows_scanned, p.rows_scanned);
        segments_skipped = sat_add(segments_skipped, p.segments_skipped);
        exec_ms = sat_add(exec_ms, p.exec_ms);
        let ghost src = group_entry_seqs(p.groups);
        let mut gi: usize = 0;
        proof {
            assert(src.skip(0) =~= src);
        }
        while gi < p.groups.entries.len()
            invariant
                gi <= p.groups.entries@.len(),
                src == group_entry_seqs(partials@[pi as int].groups),
                cuml.wf(),
                spec_merge_groups(
                    spec_merge_partials_map(partials@.take(pi as int)),
                    src,
                ) == spec_merge_groups(cuml@, src.skip(gi as int)),
            decreases p.groups.entries@.len() - gi,
        {
            proof {
                assert(src.skip(gi as int)[0] == src[gi as int]);
                assert(src.skip(gi as int).drop_first() =~= src.skip(gi as int + 1));
                assert(partials@[pi as int].groups.entries@[gi as int].1.wf());
            }
            let gkey: &String = &p.groups.entries[gi].0;
            let g_agg: &GroupAggregate = &p.groups.entries[gi].1;
            let mut entry: GroupAggregate = match cuml.get_index(gkey.as_str()) {
                Some(idx) => dup_group(&cuml.entries[idx].1),
                None => GroupAggregate::new(),
            };
            let ghost entry0 = entry@;
            let ghost sub = g_agg.entry_views();
            let mut ai: usize = 0;
            proof {
                assert(sub.skip(0) =~= sub);
            }
            while ai < g_agg.entries.len()
                invariant
                    ai <= g_agg.entries@.len(),
                    sub == partials@[pi as int].groups.entries@[gi as int].1.entry_views(),
                    g_agg == &partials@[pi as int].groups.entries@[gi as int].1,
                    entry.wf(),
                    spec_merge_agg_entries(entry0, sub) == spec_merge_agg_entries(
                        entry@,
                        sub.skip(ai as int),
                    ),
                decreases g_agg.entries@.len() - ai,
            {
                proof {
                    assert(sub.skip(ai as int)[0] == sub[ai as int]);
                    assert(sub.skip(ai as int).drop_first() =~= sub.skip(ai as int + 1));
                    assert(sub[ai as int] == (g_agg.entries@[ai as int].0@, g_agg.entries@[
                    ai as int].1));
                }
                let name: &String = &g_agg.entries[ai].0;
                let state: &AggregateState = &g_agg.entries[ai].1;
                let mut agg: AggregateState = match entry.get(name.as_str()) {
                    Some(s) => s,
                    None => AggregateState {
                        sum: 0,
                        count: 0,
                        min: None,
                        max: None,
                        value_type: ValueType::Float,
                    },
                };
                merge_state(&mut agg, state);
                entry.set(name.clone(), agg);
                ai += 1;
            }
            proof {
                assert(sub.skip(g_agg.entries@.len() as int) =~= Seq::<
                    (Seq<char>, AggregateState),
                >::empty());
            }
            cuml.set(gkey.clone(), entry);
            gi += 1;
        }
        proof {
            assert(src.skip(p.groups.entries@.len() as int) =~= Seq::<
                (Seq<char>, Seq<(Seq<char>, AggregateState)>),
            >::empty());
            assert(partials@.take(pi as int + 1) =~= partials@.take(pi as int).push(
                partials@[pi as int],
            ));
            assert(partials@.take(pi as int + 1).drop_last() =~= partials@.take(pi as int));
        }
        pi += 1;
    }
    proof {
        assert(partials@.take(partials@.len() as int) =~= partials@);
    }
    (cuml, rows_scanned, segments_skipped, exec_ms)
}


/// Merging accumulators is commutative in count and display type, and in
/// min and max whenever the operands are free of NaN and not two
/// distinct patterns of one rank; the running IEEE sum keeps the
/// accumulation order the specification fixes.
pub proof fn lemma_merge_state_comm(a: AggregateState, b: AggregateState)
    ensures
        spec_merge_state(a, b).count == spec_merge_state(b, a).count,
        spec_merge_state(a, b).value_type == spec_merge_state(b, a).value_type,
        (match (a.min, b.min) {
            (Some(x), Some(y)) => !f64_is_nan(x) && !f64_is_nan(y) && (x == y
                || crate::fbits::f64_rank(x) != crate::fbits::f64_rank(y)),
            _ => true,
        }) ==> spec_merge_state(a, b).min == spec_merge_state(b, a).min,
        (match (a.max, b.max) {
            (Some(x), Some(y)) => !f64_is_nan(x) && !f64_is_nan(y) && (x == y
                || crate::fbits::f64_rank(x) != crate::fbits::f64_rank(y)),
            _ => true,
        }) ==> spec_merge_state(a, b).max == spec_merge_state(b, a).max,
{
}

/// The saturating counter sums are associative, so the merged counters
/// do not depend on how partials are grouped.
pub proof fn lemma_sat_add_assoc(a: u64, b: u64, c: u64)
    ensures
        sat_add64(sat_add64(a, b), c) == sat_add64(a, sat_add64(b, c)),
        sat_add64(a, b) == sat_add64(b, a),
{
}

/// Merging accumulators is associative in every field but the float sum:
/// counters, value types and extrema do not depend on how partials are
/// grouped. The extrema are first-wins selections by rank with NaN as
/// identity, which regrouping cannot change; only the floating-point sum,
/// an uninterpreted IEEE addition, escapes this law.
pub proof fn lemma_merge_state_assoc(a: AggregateState, b: AggregateState, c: AggregateState)
    ensures
        spec_merge_state(spec_merge_state(a, b), c).count == spec_merge_state(
            a,
            spec_merge_state(b, c),
        ).count,
        spec_merge_state(spec_merge_state(a, b), c).value_type == spec_merge_state(
            a,
            spec_merge_state(b, c),
        ).value_type,
        spec_merge_state(spec_merge_state(a, b), c).min == spec_merge_state(
            a,
            spec_merge_state(b, c),
        ).min,
        spec_merge_state(spec_merge_state(a, b), c).max == spec_merge_state(
            a,
            spec_merge_state(b, c),
        ).max,
{
    lemma_sat_add_assoc(a.count, b.count, c.count);
}

} // verus!
