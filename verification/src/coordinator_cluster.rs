//! Sizing the worker pool: one port per segment, given either a full
//! list or a starting port.
use vstd::prelude::*;

verus! {

/// Expand a worker-port specification: a single port is the start of a
/// contiguous range, one port per segment; otherwise exactly one port
/// per segment must be given.
#[verifier::loop_isolation(false)]
pub fn resolve_worker_ports(spec_ports: &Vec<u16>, segments: usize) -> (r: Result<Vec<u16>, String>)
    ensures
        r is Ok <==> (spec_ports@.len() == 1 && spec_ports@[0] + segments <= u16::MAX + 1) || (
        spec_ports@.len() == segments && spec_ports@.len() != 1),
        r matches Ok(ports) ==> ports@.len() == segments && (spec_ports@.len() == 1
            ==> forall|i: int| 0 <= i < segments ==> ports@[i] == spec_ports@[0] + i) && (
        spec_ports@.len() != 1 ==> ports@ == spec_ports@),
{
    if spec_ports.len() == 1 {
        let start = spec_ports[0];
        let mut ports: Vec<u16> = Vec::new();
        let mut offset: usize = 0;
        while offset < segments
            invariant
                offset <= segments,
                ports@.len() == offset,
                start + offset <= u16::MAX + 1,
                forall|i: int| 0 <= i < offset ==> ports@[i] == start + i,
            decreases segments - offset,
        {
            if offset > (u16::MAX - start) as usize {
                proof {
                    assert(start + offset > u16::MAX);
                    assert(start + segments > u16::MAX + 1);
                }
                return Err(crate::strutil::chars_to_string(crate::textscan::str_chars(
                    "Worker port overflow when deriving from start value",
                )));
            }
            ports.push(start + offset as u16);
            offset += 1;
        }
        Ok(ports)
    } else if spec_ports.len() == segments {
        Ok(spec_ports.clone())
    } else {
        Err(crate::strutil::chars_to_string(crate::textscan::str_chars(
            "Expected either one worker port (start) or one port per segment",
        )))
    }
}

/// A directory name that holds a segment.
pub open spec fn is_seg_name(s: Seq<char>) -> bool {
    s.len() >= 4 && s.take(4) == "seg-"@
}

/// How many of the names are segment directories.
pub open spec fn spec_count_segs(names: Seq<Seq<char>>) -> int
    decreases names.len(),
{
    if names.len() == 0 {
        0
    } else {
        spec_count_segs(names.drop_last()) + (if is_seg_name(names.last()) {
            1int
        } else {
            0int
        })
    }
}

/// Count the segment directories among a table directory's entries; a
/// table must hold at least one.
#[verifier::loop_isolation(false)]
pub fn count_segment_dirs(names: &Vec<String>) -> (r: Result<usize, String>)
    ensures
        ({
            let nv = names@.map_values(|s: String| s@);
            match r {
                Ok(n) => n == spec_count_segs(nv) && n > 0,
                Err(e) => spec_count_segs(nv) == 0 && e@
                    == "No segment directories (seg-*) found under table dir"@,
            }
        }),
{
    let ghost nv = names@.map_values(|s: String| s@);
    proof {
        reveal_strlit("seg-");
    }
    let mut count: usize = 0;
    let mut i: usize = 0;
    proof {
        assert(nv.take(0) =~= Seq::<Seq<char>>::empty());
    }
    while i < names.len()
        invariant
            i <= names@.len(),
            count == spec_count_segs(nv.take(i as int)),
            count <= i,
        decreases names@.len() - i,
    {
        let v = crate::textscan::str_chars(names[i].as_str());
        let hit = v.len() >= 4 && v[0] == 's' && v[1] == 'e' && v[2] == 'g' && v[3] == '-';
        proof {
            reveal_strlit("seg-");
            assert(v@ == nv[i as int]);
            if v@.len() >= 4 {
                assert(v@.take(4) =~= seq![v@[0], v@[1], v@[2], v@[3]]);
                assert("seg-"@ =~= seq!['s', 'e', 'g', '-']);
            }
            assert(hit == is_seg_name(nv[i as int]));
            assert(nv.take(i as int + 1).drop_last() =~= nv.take(i as int));
            assert(nv.take(i as int + 1).last() == nv[i as int]);
        }
        if hit {
            count += 1;
        }
        i += 1;
    }
    proof {
        assert(nv.take(names@.len() as int) =~= nv);
    }
    if count == 0 {
        return Err(crate::strutil::chars_to_string(crate::textscan::str_chars(
            "No segment directories (seg-*) found under table dir",
        )));
    }
    Ok(count)
}

} // verus!
