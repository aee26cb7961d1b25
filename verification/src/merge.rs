//! The config merge engine. Step one reads every diagnostic directive line
//! of the existing file and layers the user's severity over the registry
//! record it names (unknown codes are skipped). Step two rewrites the file:
//! lines that are no directives pass through with trailing whitespace
//! trimmed, and the first directive line is replaced by the whole
//! consolidated block — every record, in ascending key order, one directive
//! per line with its message reduced to a single line — while the remaining
//! directive lines are dropped.

use crate::registry::{reg_entries_ok, DiagnosticRecord, RecordView, Registry};
use crate::sorted_map::{map_find, map_put, SortedMap};
use crate::text::{
    cleaned, cleaned_vec, lines_of, lines_vec, split_byte, split_byte_vec, starts_with,
    to_lower, to_lower_vec, trim, trim_end, trim_end_vec, trim_vec,
};
use vstd::prelude::*;

verus! {

/// `dotnet_diagnostic.`
pub open spec fn diag_prefix() -> Seq<u8> {
    seq![100u8, 111, 116, 110, 101, 116, 95, 100, 105, 97, 103, 110, 111, 115, 116, 105, 99, 46]
}

/// `.severity = `
pub open spec fn sev_infix() -> Seq<u8> {
    seq![46u8, 115, 101, 118, 101, 114, 105, 116, 121, 32, 61, 32]
}

/// ` # `
pub open spec fn hash_infix() -> Seq<u8> {
    seq![32u8, 35, 32]
}

fn diag_prefix_vec() -> (r: Vec<u8>)
    ensures
        r@ == diag_prefix(),
{
    let mut r: Vec<u8> = Vec::new();
    r.push(100);
    r.push(111);
    r.push(116);
    r.push(110);
    r.push(101);
    r.push(116);
    r.push(95);
    r.push(100);
    r.push(105);
    r.push(97);
    r.push(103);
    r.push(110);
    r.push(111);
    r.push(115);
    r.push(116);
    r.push(105);
    r.push(99);
    r.push(46);
    proof {
        assert(r@ =~= diag_prefix());
    }
    r
}

fn sev_infix_vec() -> (r: Vec<u8>)
    ensures
        r@ == sev_infix(),
{
    let mut r: Vec<u8> = Vec::new();
    r.push(46);
    r.push(115);
    r.push(101);
    r.push(118);
    r.push(101);
    r.push(114);
    r.push(105);
    r.push(116);
    r.push(121);
    r.push(32);
    r.push(61);
    r.push(32);
    proof {
        assert(r@ =~= sev_infix());
    }
    r
}

fn hash_infix_vec() -> (r: Vec<u8>)
    ensures
        r@ == hash_infix(),
{
    let mut r: Vec<u8> = Vec::new();
    r.push(32);
    r.push(35);
    r.push(32);
    proof {
        assert(r@ =~= hash_infix());
    }
    r
}

/// A diagnostic directive line: its trimmed form starts with the prefix.
pub open spec fn is_diag_line(l: Seq<u8>) -> bool {
    diag_prefix().is_prefix_of(trim(l))
}

/// The override a directive line carries: the code (lowercased) at the
/// second dot-separated position before the assignment, and the trimmed
/// free text after it, comments split off first. `None` when the line lacks
/// an assignment or a dotted code position.
pub open spec fn line_override(l: Seq<u8>) -> Option<(Seq<u8>, Seq<u8>)> {
    let before = split_byte(l, 35)[0];
    let parts = split_byte(before, 61);
    if parts.len() < 2 {
        None
    } else {
        let left = split_byte(trim(parts[0]), 46);
        if left.len() < 2 {
            None
        } else {
            Some((to_lower(left[1]), trim(parts[1])))
        }
    }
}

/// One line's effect on the registry: a directive whose code is present
/// replaces that record's severity with the override, keeping code and
/// message; everything else leaves the registry unchanged.
pub open spec fn apply_override(
    reg: Seq<(Seq<u8>, RecordView)>,
    l: Seq<u8>,
) -> Seq<(Seq<u8>, RecordView)> {
    if !is_diag_line(l) {
        reg
    } else {
        match line_override(l) {
            None => reg,
            Some((code, sev)) => match map_find(reg, code) {
                None => reg,
                Some(rec) => map_put(
                    reg,
                    code,
                    RecordView { code: rec.code, message: rec.message, severity: sev },
                ),
            },
        }
    }
}

/// Every line's overrides, in file order.
pub open spec fn apply_overrides(
    reg: Seq<(Seq<u8>, RecordView)>,
    lines: Seq<Seq<u8>>,
) -> Seq<(Seq<u8>, RecordView)>
    decreases lines.len(),
{
    if lines.len() == 0 {
        reg
    } else {
        apply_overrides(apply_override(reg, lines[0]), lines.drop_first())
    }
}

/// The directive written for one record: prefix, lowercase code, the
/// assignment with the severity text, and the message reduced to one line
/// as a trailing comment.
pub open spec fn directive_line(rec: RecordView) -> Seq<u8> {
    diag_prefix() + to_lower(rec.code) + sev_infix() + rec.severity + hash_infix() + cleaned(
        rec.message,
    )
}

/// The consolidated block: one directive per record, in ascending key order.
pub open spec fn block_lines(reg: Seq<(Seq<u8>, RecordView)>) -> Seq<Seq<u8>> {
    reg.map_values(|p: (Seq<u8>, RecordView)| directive_line(p.1))
}

/// The rewritten lines: pass-through lines with trailing whitespace
/// trimmed, the block at the first directive, later directives dropped.
pub open spec fn rewrite_lines(
    reg: Seq<(Seq<u8>, RecordView)>,
    lines: Seq<Seq<u8>>,
    written: bool,
) -> Seq<Seq<u8>>
    decreases lines.len(),
{
    if lines.len() == 0 {
        Seq::<Seq<u8>>::empty()
    } else if !is_diag_line(lines[0]) {
        seq![trim_end(lines[0])] + rewrite_lines(reg, lines.drop_first(), written)
    } else if written {
        rewrite_lines(reg, lines.drop_first(), true)
    } else {
        block_lines(reg) + rewrite_lines(reg, lines.drop_first(), true)
    }
}

/// Lines joined back into file content, one line feed after each line.
pub open spec fn join_lines(ls: Seq<Seq<u8>>) -> Seq<u8>
    decreases ls.len(),
{
    if ls.len() == 0 {
        Seq::<u8>::empty()
    } else {
        ls[0] + seq![10u8] + join_lines(ls.drop_first())
    }
}

/// The whole merge: overrides extracted and applied, then the rewrite.
pub open spec fn merge_spec(reg: Seq<(Seq<u8>, RecordView)>, content: Seq<u8>) -> Seq<u8> {
    let lines = lines_of(content);
    join_lines(rewrite_lines(apply_overrides(reg, lines), lines, false))
}

/// A found entry's key satisfies the registry's key/code tie.
proof fn lemma_find_entry_ok(s: Seq<(Seq<u8>, RecordView)>, k: Seq<u8>)
    requires
        reg_entries_ok(s),
        map_find(s, k) is Some,
    ensures
        k == to_lower(map_find(s, k)->Some_0.code),
    decreases s.len(),
{
    if s.len() > 0 && s[0].0 != k {
        assert(reg_entries_ok(s.drop_first())) by {
            assert(forall|i: int|
                0 <= i < s.drop_first().len() ==> #[trigger] s.drop_first()[i] == s[i + 1]);
        }
        lemma_find_entry_ok(s.drop_first(), k);
    }
}

/// Write one record's directive line.
fn directive_line_vec(rec: &DiagnosticRecord) -> (r: Vec<u8>)
    ensures
        r@ == directive_line(rec@),
{
    let mut r = diag_prefix_vec();
    let mut lc = to_lower_vec(&rec.code);
    r.append(&mut lc);
    let mut infix = sev_infix_vec();
    r.append(&mut infix);
    let mut sev = rec.severity.clone();
    r.append(&mut sev);
    let mut hash = hash_infix_vec();
    r.append(&mut hash);
    let mut msg = cleaned_vec(&rec.message);
    r.append(&mut msg);
    r
}

/// Apply every override the file carries onto the registry.
pub fn extract_overrides(reg: &mut Registry, lines: &Vec<Vec<u8>>)
    requires
        old(reg).wf(),
        reg_entries_ok(old(reg)@),
    ensures
        final(reg).wf(),
        reg_entries_ok(final(reg)@),
        final(reg)@ == apply_overrides(old(reg)@, lines@.map_values(|l: Vec<u8>| l@)),
{
    let prefix = diag_prefix_vec();
    let n = lines.len();
    let ghost ls = lines@.map_values(|l: Vec<u8>| l@);
    let mut i: usize = 0;
    proof {
        assert(ls.skip(0) =~= ls);
    }
    while i < n
        invariant
            0 <= i <= n == ls.len(),
            ls == lines@.map_values(|l: Vec<u8>| l@),
            prefix@ == diag_prefix(),
            reg.wf(),
            reg_entries_ok(reg@),
            apply_overrides(old(reg)@, ls) == apply_overrides(reg@, ls.skip(i as int)),
        decreases n - i,
    {
        let ghost pre = reg@;
        proof {
            assert(ls.skip(i as int)[0] == ls[i as int]);
            assert(ls[i as int] == lines@[i as int]@);
            assert(ls.skip(i as int).drop_first() =~= ls.skip(i + 1));
        }
        let line = &lines[i];
        let t = trim_vec(line);
        if starts_with(&t, &prefix) {
            let before_parts = split_byte_vec(line, 35);
            proof {
                crate::text::lemma_split_nonempty(line@, 35);
            }
            let before = &before_parts[0];
            let parts = split_byte_vec(before, 61);
            proof {
                crate::text::lemma_split_nonempty(before@, 61);
            }
            if parts.len() >= 2 {
                let left0 = trim_vec(&parts[0]);
                let left = split_byte_vec(&left0, 46);
                proof {
                    crate::text::lemma_split_nonempty(left0@, 46);
                }
                if left.len() >= 2 {
                    let code = to_lower_vec(&left[1]);
                    let sev = trim_vec(&parts[1]);
                    let found = match reg.get(&code) {
                        Some(rec) => Some(
                            DiagnosticRecord {
                                code: rec.code.clone(),
                                message: rec.message.clone(),
                                severity: sev,
                            },
                        ),
                        None => None,
                    };
                    match found {
                        Some(rec2) => {
                            proof {
                                lemma_find_entry_ok(pre, code@);
                                crate::builder::lemma_put_entries_ok(pre, code@, rec2@);
                            }
                            reg.insert(code, rec2);
                        },
                        None => {},
                    }
                }
            }
        }
        proof {
            assert(reg@ == apply_override(pre, ls[i as int]));
        }
        i += 1;
    }
    proof {
        assert(ls.skip(n as int) =~= Seq::<Seq<u8>>::empty());
    }
}

proof fn lemma_join_single(l: Seq<u8>)
    ensures
        join_lines(seq![l]) == l + seq![10u8],
{
    assert(seq![l].drop_first() =~= Seq::<Seq<u8>>::empty());
    assert(l + seq![10u8] + join_lines(Seq::<Seq<u8>>::empty()) =~= l + seq![10u8]);
}

proof fn lemma_join_concat(a: Seq<Seq<u8>>, b: Seq<Seq<u8>>)
    ensures
        join_lines(a + b) == join_lines(a) + join_lines(b),
    decreases a.len(),
{
    if a.len() == 0 {
        assert(a + b =~= b);
        assert(join_lines(a) + join_lines(b) =~= join_lines(b));
    } else {
        lemma_join_concat(a.drop_first(), b);
        assert((a + b).drop_first() =~= a.drop_first() + b);
        assert((a + b)[0] == a[0]);
        assert(a[0] + seq![10u8] + (join_lines(a.drop_first()) + join_lines(b)) =~= (a[0]
            + seq![10u8] + join_lines(a.drop_first())) + join_lines(b));
    }
}

/// Write the new file content for the (already overridden) registry.
pub fn rewrite_content(reg: &Registry, lines: &Vec<Vec<u8>>) -> (out: Vec<u8>)
    ensures
        out@ == join_lines(rewrite_lines(reg@, lines@.map_values(|l: Vec<u8>| l@), false)),
{
    let prefix = diag_prefix_vec();
    let n = lines.len();
    let ghost ls = lines@.map_values(|l: Vec<u8>| l@);
    let mut out: Vec<u8> = Vec::new();
    let mut written = false;
    let mut i: usize = 0;
    proof {
        assert(ls.skip(0) =~= ls);
    }
    while i < n
        invariant
            0 <= i <= n == ls.len(),
            ls == lines@.map_values(|l: Vec<u8>| l@),
            prefix@ == diag_prefix(),
            join_lines(rewrite_lines(reg@, ls, false)) == out@ + join_lines(
                rewrite_lines(reg@, ls.skip(i as int), written),
            ),
        decreases n - i,
    {
        proof {
            assert(ls.skip(i as int)[0] == ls[i as int]);
            assert(ls[i as int] == lines@[i as int]@);
            assert(ls.skip(i as int).drop_first() =~= ls.skip(i + 1));
        }
        let line = &lines[i];
        let t = trim_vec(line);
        if !starts_with(&t, &prefix) {
            let mut piece = trim_end_vec(line);
            let ghost rest = rewrite_lines(reg@, ls.skip(i + 1), written);
            proof {
                assert(rewrite_lines(reg@, ls.skip(i as int), written) == seq![trim_end(
                    ls[i as int],
                )] + rest);
                lemma_join_concat(seq![trim_end(ls[i as int])], rest);
                lemma_join_single(trim_end(ls[i as int]));
            }
            out.append(&mut piece);
            out.push(10);
        } else if written {
            // a later directive line: dropped
        } else {
            written = true;
            let ghost rest = rewrite_lines(reg@, ls.skip(i + 1), true);
            proof {
                assert(rewrite_lines(reg@, ls.skip(i as int), false) == block_lines(reg@) + rest);
                lemma_join_concat(block_lines(reg@), rest);
            }
            let m = reg.len();
            let mut j: usize = 0;
            let ghost out_pre = out@;
            proof {
                assert(block_lines(reg@).take(0) =~= Seq::<Seq<u8>>::empty());
            }
            while j < m
                invariant
                    0 <= j <= m == reg@.len(),
                    out@ == out_pre + join_lines(block_lines(reg@).take(j as int)),
                decreases m - j,
            {
                let (_key, rec) = reg.entry_at(j);
                let mut dl = directive_line_vec(rec);
                proof {
                    let bl = block_lines(reg@);
                    assert(bl[j as int] == directive_line(reg@[j as int].1));
                    assert(bl.take(j + 1) =~= bl.take(j as int).push(bl[j as int]));
                    lemma_join_concat(bl.take(j as int), seq![bl[j as int]]);
                    assert(bl.take(j as int) + seq![bl[j as int]] =~= bl.take(j + 1));
                    lemma_join_single(bl[j as int]);
                }
                out.append(&mut dl);
                out.push(10);
                j += 1;
            }
            proof {
                assert(block_lines(reg@).take(m as int) =~= block_lines(reg@));
            }
        }
        i += 1;
    }
    proof {
        assert(ls.skip(n as int) =~= Seq::<Seq<u8>>::empty());
        assert(out@ + join_lines(rewrite_lines(reg@, ls.skip(n as int), written)) =~= out@);
    }
    out
}

/// The whole merge: read the file's overrides onto the registry, then write
/// the new content.
pub fn merge_config(reg: Registry, content: &Vec<u8>) -> (out: Vec<u8>)
    requires
        reg.wf(),
        reg_entries_ok(reg@),
    ensures
        out@ == merge_spec(reg@, content@),
{
    let lines = lines_vec(content);
    let ghost ls0 = lines_of(content@);
    proof {
        assert(lines@.map_values(|l: Vec<u8>| l@) =~= ls0);
    }
    let mut reg = reg;
    extract_overrides(&mut reg, &lines);
    rewrite_content(&reg, &lines)
}

} // verus!
