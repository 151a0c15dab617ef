//! The table metadata file: `key=value` lines with four required keys,
//! the numeric values positive and the endianness one of two words.
use vstd::prelude::*;

verus! {

use crate::fieldparse::spec_parse_i64;
use crate::strutil::{dec_digits, dec_int};
use crate::textscan::{find_char, find_char_in, lines_of, str_chars, string_range, trim_bounds,
    trim_chars};

/// The parsed metadata of a table directory.
pub struct TableMetadata {
    pub version: u32,
    pub block_rows: u64,
    pub segment_target_rows: u64,
    pub endianness: String,
}

/// The `key=value` pairs of the metadata text, or the first line error.
pub open spec fn spec_meta_kv(
    ls: Seq<Seq<char>>,
    num: nat,
    acc: Seq<(Seq<char>, Seq<char>)>,
) -> Result<Seq<(Seq<char>, Seq<char>)>, Seq<char>>
    decreases ls.len(),
{
    if ls.len() == 0 {
        Ok(acc)
    } else {
        let line = trim_chars(ls[0]);
        if line.len() == 0 {
            spec_meta_kv(ls.drop_first(), num + 1, acc)
        } else {
            match find_char(line, '=') {
                None => Err("Line "@ + dec_digits(num) + ": expected key=value"@),
                Some(eq) => {
                    let k = line.take(eq);
                    let v = line.skip(eq + 1);
                    if kv_contains(acc, k) {
                        Err("Line "@ + dec_digits(num) + ": duplicate key '"@ + k + "'"@)
                    } else {
                        spec_meta_kv(ls.drop_first(), num + 1, acc.push((k, v)))
                    }
                },
            }
        }
    }
}

pub open spec fn kv_contains(acc: Seq<(Seq<char>, Seq<char>)>, k: Seq<char>) -> bool {
    exists|i: int| 0 <= i < acc.len() && acc[i].0 == k
}

pub open spec fn kv_lookup(acc: Seq<(Seq<char>, Seq<char>)>, k: Seq<char>) -> Option<Seq<char>>
    decreases acc.len(),
{
    if acc.len() == 0 {
        None
    } else if acc[0].0 == k {
        Some(acc[0].1)
    } else {
        kv_lookup(acc.drop_first(), k)
    }
}

/// A numeric metadata value in a range, or the error its key earns.
pub open spec fn spec_meta_num(
    kv: Seq<(Seq<char>, Seq<char>)>,
    key: Seq<char>,
    missing: Seq<char>,
    invalid: Seq<char>,
    hi: int,
) -> Result<int, Seq<char>> {
    match kv_lookup(kv, key) {
        None => Err(missing),
        Some(v) => match spec_parse_i64(v) {
            Some(x) => if 0 <= x <= hi {
                Ok(x)
            } else {
                Err(invalid)
            },
            None => Err(invalid),
        },
    }
}

/// What the metadata text denotes: the four fields, checked.
pub open spec fn spec_parse_table_metadata(s: Seq<char>) -> Result<
    (int, int, int, Seq<char>),
    Seq<char>,
> {
    match spec_meta_kv(lines_of(s), 1, Seq::empty()) {
        Err(e) => Err(e),
        Ok(kv) => match spec_meta_num(
            kv,
            "version"@,
            "Missing 'version'"@,
            "Invalid numeric value for 'version'"@,
            0xffff_ffff,
        ) {
            Err(e) => Err(e),
            Ok(version) => if version == 0 {
                Err("version must be > 0"@)
            } else {
                match spec_meta_num(
                    kv,
                    "block_rows"@,
                    "Missing 'block_rows'"@,
                    "Invalid numeric value for 'block_rows'"@,
                    0x7fff_ffff_ffff_ffff,
                ) {
                    Err(e) => Err(e),
                    Ok(block_rows) => if block_rows == 0 {
                        Err("block_rows must be > 0"@)
                    } else {
                        match spec_meta_num(
                            kv,
                            "segment_target_rows"@,
                            "Missing 'segment_target_rows'"@,
                            "Invalid numeric value for 'segment_target_rows'"@,
                            0x7fff_ffff_ffff_ffff,
                        ) {
                            Err(e) => Err(e),
                            Ok(st) => if st == 0 {
                                Err("segment_target_rows must be > 0"@)
                            } else {
                                match kv_lookup(kv, "endianness"@) {
                                    None => Err("Missing 'endianness'"@),
                                    Some(e) => if e == "little"@ || e == "big"@ {
                                        Ok((version, block_rows, st, e))
                                    } else {
                                        Err("endianness must be 'little' or 'big'"@)
                                    },
                                }
                            },
                        }
                    },
                }
            },
        },
    }
}

fn kv_find<'a>(
    kv: &'a Vec<(String, String)>,
    key: &str,
) -> (r: Option<&'a String>)
    ensures
        match r {
            Some(v) => kv_lookup(kv_views(kv@), key@) == Some(v@),
            None => kv_lookup(kv_views(kv@), key@) == None::<Seq<char>>,
        },
{
    let ghost kvv = kv_views(kv@);
    proof {
        assert(kvv.skip(0) =~= kvv);
    }
    let mut i: usize = 0;
    while i < kv.len()
        invariant
            i <= kv@.len(),
            kvv == kv_views(kv@),
            kv_lookup(kvv, key@) == kv_lookup(kvv.skip(i as int), key@),
        decreases kv@.len() - i,
    {
        proof {
            assert(kvv.skip(i as int)[0] == kvv[i as int]);
            assert(kvv.skip(i as int).drop_first() =~= kvv.skip(i as int + 1));
        }
        if crate::strutil::eq_str(kv[i].0.as_str(), key) {
            return Some(&kv[i].1);
        }
        i += 1;
    }
    proof {
        assert(kvv.skip(kv@.len() as int) =~= Seq::<(Seq<char>, Seq<char>)>::empty());
    }
    None
}

pub open spec fn kv_views(kv: Seq<(String, String)>) -> Seq<(Seq<char>, Seq<char>)> {
    kv.map_values(|e: (String, String)| (e.0@, e.1@))
}

fn meta_num(
    kv: &Vec<(String, String)>,
    key: &str,
    missing: &str,
    invalid: &str,
    hi: u64,
) -> (r: Result<u64, String>)
    ensures
        match r {
            Ok(x) => spec_meta_num(kv_views(kv@), key@, missing@, invalid@, hi as int) == Ok::<
                int,
                Seq<char>,
            >(x as int),
            Err(e) => spec_meta_num(kv_views(kv@), key@, missing@, invalid@, hi as int)
                matches Err(em) && em == e@,
        },
{
    match kv_find(kv, key) {
        None => Err(crate::strutil::chars_to_string(str_chars(missing))),
        Some(v) => {
            let chars = str_chars(v.as_str());
            let n = chars.len();
            proof {
                assert(chars@.subrange(0, n as int) =~= v@);
            }
            match crate::fieldparse::parse_i64_range(&chars, 0, n) {
                Some(x) => {
                    if x >= 0 && x as u64 <= hi {
                        Ok(x as u64)
                    } else {
                        Err(crate::strutil::chars_to_string(str_chars(invalid)))
                    }
                },
                None => Err(crate::strutil::chars_to_string(str_chars(invalid))),
            }
        },
    }
}

/// Parse the metadata text into its four required fields.
#[verifier::loop_isolation(false)]
#[verifier::rlimit(100)]
pub fn parse_table_metadata(contents: &str) -> (r: Result<TableMetadata, String>)
    ensures
        match r {
            Ok(m) => spec_parse_table_metadata(contents@) == Ok::<
                (int, int, int, Seq<char>),
                Seq<char>,
            >((m.version as int, m.block_rows as int, m.segment_target_rows as int, m.endianness@)),
            Err(e) => spec_parse_table_metadata(contents@) matches Err(em) && em == e@,
        },
{
    let v = str_chars(contents);
    let n = v.len();
    let mut kv: Vec<(String, String)> = Vec::new();
    let mut num: u128 = 1;
    let mut pos: usize = 0;
    proof {
        assert(v@.subrange(0, n as int) =~= contents@);
        assert(kv_views(kv@) =~= Seq::empty());
    }
    while pos < n
        invariant
            pos <= n,
            n == v@.len(),
            num <= pos + 1,
            spec_meta_kv(lines_of(v@.subrange(pos as int, n as int)), num as nat, kv_views(kv@))
                == spec_meta_kv(lines_of(contents@), 1, Seq::empty()),
        decreases n - pos,
    {
        let ghost restchars = v@.subrange(pos as int, n as int);
        let ghost rest = lines_of(restchars);
        let (line_lo, line_hi, next_pos): (usize, usize, usize) = match find_char_in(
            &v,
            pos,
            n,
            '\n',
        ) {
            Some(k) => {
                let hi2: usize = if k > pos && v[k - 1] == '\r' {
                    k - 1
                } else {
                    k
                };
                proof {
                    assert(restchars.take(k - pos) =~= v@.subrange(pos as int, k as int));
                    assert(crate::textscan::strip_cr(restchars.take(k - pos)) =~= v@.subrange(
                        pos as int,
                        hi2 as int,
                    ));
                    assert(restchars.skip(k - pos + 1) =~= v@.subrange(k + 1, n as int));
                    assert(rest == seq![v@.subrange(pos as int, hi2 as int)] + lines_of(
                        v@.subrange(k + 1, n as int),
                    ));
                }
                (pos, hi2, k + 1)
            },
            None => {
                proof {
                    assert(rest =~= seq![restchars]);
                    assert(lines_of(v@.subrange(n as int, n as int)) =~= Seq::<Seq<char>>::empty());
                }
                (pos, n, n)
            },
        };
        proof {
            assert(rest.drop_first() =~= lines_of(v@.subrange(next_pos as int, n as int)));
            assert(rest[0] == v@.subrange(line_lo as int, line_hi as int));
        }
        let (ta, tb) = trim_bounds(&v, line_lo, line_hi);
        if ta == tb {
            // blank line: skipped
        } else {
            match find_char_in(&v, ta, tb, '=') {
                None => {
                    proof {
                        assert(trim_chars(rest[0]) == v@.subrange(ta as int, tb as int));
                    }
                    let mut m = str_chars("Line ");
                    crate::strutil::push_dec_u128(num, &mut m);
                    let mut tail = str_chars(": expected key=value");
                    m.append(&mut tail);
                    return Err(crate::strutil::chars_to_string(m));
                },
                Some(eqpos) => {
                    let ghost line = trim_chars(rest[0]);
                    proof {
                        assert(line == v@.subrange(ta as int, tb as int));
                        assert(line.take(eqpos - ta) =~= v@.subrange(ta as int, eqpos as int));
                        assert(line.skip(eqpos - ta + 1) =~= v@.subrange(eqpos + 1, tb as int));
                    }
                    let kstr = string_range(&v, ta, eqpos);
                    let vstr = string_range(&v, eqpos + 1, tb);
                    let mut dup = false;
                    let mut di: usize = 0;
                    while di < kv.len()
                        invariant
                            di <= kv@.len(),
                            dup ==> kv_contains(kv_views(kv@), kstr@),
                            !dup ==> forall|j: int|
                                0 <= j < di ==> kv_views(kv@)[j].0 != kstr@,
                        decreases kv@.len() - di,
                    {
                        if crate::strutil::eq_str(kv[di].0.as_str(), kstr.as_str()) {
                            proof {
                                assert(kv_views(kv@)[di as int].0 == kstr@);
                            }
                            dup = true;
                        }
                        di += 1;
                    }
                    if dup {
                        let mut m = str_chars("Line ");
                        crate::strutil::push_dec_u128(num, &mut m);
                        let mut mid = str_chars(": duplicate key '");
                        m.append(&mut mid);
                        let mut kk = str_chars(kstr.as_str());
                        m.append(&mut kk);
                        let mut tail = str_chars("'");
                        m.append(&mut tail);
                        return Err(crate::strutil::chars_to_string(m));
                    }
                    let ghost prekv = kv_views(kv@);
                    proof {
                        assert(!kv_contains(prekv, kstr@));
                    }
                    kv.push((kstr, vstr));
                    proof {
                        assert(kv_views(kv@) =~= prekv.push(
                            (line.take(eqpos - ta), line.skip(eqpos - ta + 1)),
                        ));
                    }
                },
            }
        }
        num += 1;
        pos = next_pos;
    }
    proof {
        assert(lines_of(v@.subrange(pos as int, n as int)) =~= Seq::<Seq<char>>::empty());
    }
    let version = match meta_num(
        &kv,
        "version",
        "Missing 'version'",
        "Invalid numeric value for 'version'",
        0xffff_ffff,
    ) {
        Ok(x) => x as u32,
        Err(e) => {
            return Err(e);
        },
    };
    if version == 0 {
        return Err(crate::strutil::chars_to_string(str_chars("version must be > 0")));
    }
    let block_rows = match meta_num(
        &kv,
        "block_rows",
        "Missing 'block_rows'",
        "Invalid numeric value for 'block_rows'",
        0x7fff_ffff_ffff_ffff,
    ) {
        Ok(x) => x,
        Err(e) => {
            return Err(e);
        },
    };
    if block_rows == 0 {
        return Err(crate::strutil::chars_to_string(str_chars("block_rows must be > 0")));
    }
    let st = match meta_num(
        &kv,
        "segment_target_rows",
        "Missing 'segment_target_rows'",
        "Invalid numeric value for 'segment_target_rows'",
        0x7fff_ffff_ffff_ffff,
    ) {
        Ok(x) => x,
        Err(e) => {
            return Err(e);
        },
    };
    if st == 0 {
        return Err(crate::strutil::chars_to_string(str_chars(
            "segment_target_rows must be > 0",
        )));
    }
    let endianness: String = match kv_find(&kv, "endianness") {
        None => {
            return Err(crate::strutil::chars_to_string(str_chars("Missing 'endianness'")));
        },
        Some(e) => {
            if crate::strutil::eq_str(e.as_str(), "little") || crate::strutil::eq_str(
                e.as_str(),
                "big",
            ) {
                e.clone()
            } else {
                return Err(crate::strutil::chars_to_string(str_chars(
                    "endianness must be 'little' or 'big'",
                )));
            }
        },
    };
    Ok(TableMetadata { version, block_rows, segment_target_rows: st, endianness })
}

/// Validate a metadata text and render the summary the inspector prints.
pub fn inspect_metadata(contents: &str) -> (r: Result<String, String>)
    ensures
        match r {
            Ok(out) => spec_parse_table_metadata(contents@) matches Ok(m) && out@ == "version: "@
                + dec_int(m.0) + "\nblock_rows: "@ + dec_int(m.1) + "\nsegment_target_rows: "@
                + dec_int(m.2) + "\nendianness: "@ + m.3 + "\n"@,
            Err(e) => spec_parse_table_metadata(contents@) matches Err(em) && em == e@,
        },
{
    let m = match parse_table_metadata(contents) {
        Ok(m) => m,
        Err(e) => {
            return Err(e);
        },
    };
    let mut out = str_chars("version: ");
    crate::strutil::push_dec_u64(m.version as u64, &mut out);
    let mut s1 = str_chars("\nblock_rows: ");
    out.append(&mut s1);
    crate::strutil::push_dec_u64(m.block_rows, &mut out);
    let mut s2 = str_chars("\nsegment_target_rows: ");
    out.append(&mut s2);
    crate::strutil::push_dec_u64(m.segment_target_rows, &mut out);
    let mut s3 = str_chars("\nendianness: ");
    out.append(&mut s3);
    let mut s4 = str_chars(m.endianness.as_str());
    out.append(&mut s4);
    let mut s5 = str_chars("\n");
    out.append(&mut s5);
    Ok(crate::strutil::chars_to_string(out))
}

/// Validate a schema text and hand it back for display.
pub fn inspect_schema(contents: &str) -> (r: Result<String, String>)
    ensures
        match r {
            Ok(out) => crate::storage_schema::spec_parse_schema_file(contents@) is Ok && out@
                == contents@,
            Err(e) => crate::storage_schema::spec_parse_schema_file(contents@) matches Err(em)
                && e@ == "Invalid schema: "@ + em,
        },
{
    match crate::storage_schema::parse_schema_file(contents) {
        Ok(_) => Ok(crate::strutil::chars_to_string(str_chars(contents))),
        Err(e) => {
            let mut m = str_chars("Invalid schema: ");
            let mut tail = str_chars(e.as_str());
            m.append(&mut tail);
            Err(crate::strutil::chars_to_string(m))
        },
    }
}

} // verus!
