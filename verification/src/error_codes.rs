//! The error-code parser: a two-stage line scanner over the full text of a
//! compiler source file, yielding a map from enumerator name to its integer
//! value. Stage one seeks the line that opens the enumerator block (the
//! first line holding both an assignment token and an underscore); stage two
//! extracts one entry per well-formed line until a closing-brace line.

use crate::registry::FormatError;
use crate::sorted_map::{map_put, SortedMap};
use crate::text::{
    contains_byte, i32_parse, lemma_split_nonempty, lines_of, lines_vec, parse_i32,
    split_byte, split_byte_vec, trim, trim_vec, views_match,
};
use vstd::prelude::*;

verus! {

/// The heuristic block marker: an assignment token and an underscore on one
/// line.
pub open spec fn is_marker(l: Seq<u8>) -> bool {
    l.contains(61u8) && l.contains(95u8)
}

/// The suffix of the input from the first marker line on; empty when no line
/// is a marker.
pub open spec fn ec_seek(lines: Seq<Seq<u8>>) -> Seq<Seq<u8>>
    decreases lines.len(),
{
    if lines.len() == 0 {
        lines
    } else if is_marker(lines[0]) {
        lines
    } else {
        ec_seek(lines.drop_first())
    }
}

/// A line the extractor passes over: blank, a line comment, or a
/// preprocessor directive, after trimming.
pub open spec fn ec_skipped(t: Seq<u8>) -> bool {
    t.len() == 0 || (t.len() >= 2 && t[0] == 47 && t[1] == 47) || (t.len() >= 1 && t[0] == 35)
}

/// Extraction over the block's lines, accumulating into a sorted map where a
/// repeated name overwrites. A closing-brace line ends the scan; a line that
/// does not split into exactly two parts at `=` is passed over; an
/// unparsable value is fatal (`None`).
pub open spec fn ec_extract(lines: Seq<Seq<u8>>, acc: Seq<(Seq<u8>, i32)>) -> Option<
    Seq<(Seq<u8>, i32)>,
>
    decreases lines.len(),
{
    if lines.len() == 0 {
        Some(acc)
    } else if lines[0].contains(125u8) {
        Some(acc)
    } else {
        let t = trim(lines[0]);
        if ec_skipped(t) {
            ec_extract(lines.drop_first(), acc)
        } else {
            let parts = split_byte(t, 61);
            if parts.len() != 2 {
                ec_extract(lines.drop_first(), acc)
            } else {
                let name = trim(parts[0]);
                let tok = split_byte(trim(parts[1]), 44)[0];
                match i32_parse(tok) {
                    Option::None => Option::None,
                    Option::Some(v) => ec_extract(lines.drop_first(), map_put(acc, name, v)),
                }
            }
        }
    }
}

/// What the whole parse returns: `None` is the fatal case.
pub open spec fn ec_parse(text: Seq<u8>) -> Option<Seq<(Seq<u8>, i32)>> {
    ec_extract(ec_seek(lines_of(text)), Seq::<(Seq<u8>, i32)>::empty())
}

/// Parse a compiler source listing into enumerator-name/value entries.
/// Returns `Err(BadInteger)` exactly when a candidate line's value token is
/// not a decimal integer in range.
pub fn parse_error_codes(text: &Vec<u8>) -> (r: Result<SortedMap<i32>, FormatError>)
    ensures
        match r {
            Ok(m) => Some(m@) == ec_parse(text@) && m.wf(),
            Err(e) => ec_parse(text@) is None && e == FormatError::BadInteger,
        },
{
    let lines = lines_vec(text);
    let ghost ls = lines_of(text@);
    let n = lines.len();
    let mut i: usize = 0;
    proof {
        assert(ls.skip(0) =~= ls);
    }
    while i < n && !(contains_byte(&lines[i], 61) && contains_byte(&lines[i], 95))
        invariant
            0 <= i <= n == ls.len(),
            ls == lines_of(text@),
            views_match(lines@, ls),
            ec_seek(ls) == ec_seek(ls.skip(i as int)),
        decreases n - i,
    {
        proof {
            assert(ls.skip(i as int).drop_first() =~= ls.skip(i + 1));
        }
        i += 1;
    }
    proof {
        if i < n {
            assert(ec_seek(ls) == ls.skip(i as int));
        } else {
            assert(ls.skip(i as int) =~= Seq::<Seq<u8>>::empty());
            assert(ec_seek(ls) =~= ls.skip(i as int));
        }
    }
    let mut acc: SortedMap<i32> = SortedMap::new();
    let ghost block = ec_seek(ls);
    let mut j: usize = i;
    proof {
        assert(block.skip(0) =~= block);
    }
    while j < n
        invariant
            i <= j <= n == ls.len(),
            ls == lines_of(text@),
            views_match(lines@, ls),
            block == ec_seek(ls),
            ec_parse(text@) == ec_extract(block, Seq::<(Seq<u8>, i32)>::empty()),
            block.len() == n - i,
            forall|k: int| 0 <= k < block.len() ==> #[trigger] block[k] == ls[k + i],
            acc.wf(),
            ec_extract(block, Seq::<(Seq<u8>, i32)>::empty()) == ec_extract(
                block.skip(j - i),
                acc@,
            ),
        decreases n - j,
    {
        let ghost rest = block.skip(j - i);
        proof {
            assert(rest[0] == block[j - i]);
            assert(block[j - i] == ls[j as int]);
            assert(rest.drop_first() =~= block.skip(j - i + 1));
        }
        let line = &lines[j];
        if contains_byte(line, 125) {
            return Ok(acc);
        }
        let t = trim_vec(line);
        let skip_line = t.len() == 0 || (t.len() >= 2 && t[0] == 47 && t[1] == 47) || (t.len()
            >= 1 && t[0] == 35);
        if !skip_line {
            let parts = split_byte_vec(&t, 61);
            proof {
                lemma_split_nonempty(t@, 61);
            }
            if parts.len() == 2 {
                let name = trim_vec(&parts[0]);
                let right = trim_vec(&parts[1]);
                let toks = split_byte_vec(&right, 44);
                proof {
                    lemma_split_nonempty(right@, 44);
                }
                let tok = &toks[0];
                match parse_i32(tok) {
                    Option::None => {
                        return Err(FormatError::BadInteger);
                    },
                    Option::Some(v) => {
                        acc.insert(name, v);
                    },
                }
            }
        }
        j += 1;
    }
    proof {
        assert(block.skip(n - i) =~= Seq::<Seq<u8>>::empty());
    }
    Ok(acc)
}

} // verus!
