//! The registry builder: every enumerator-name/value pair from the compiler
//! listing becomes a record — message looked up in the localization mapping
//! (`Unknown` when absent), code formatted as the family marker `CS` plus
//! the value zero-padded to four digits, severity from the name's prefix —
//! and the analyzer rules are then layered on top, overwriting per key.

use crate::analyzer::{AnalyzerRule, RuleView};
use crate::registry::{reg_entries_ok, reg_wf, DiagnosticRecord, FormatError, RecordView, Registry};
use crate::severity::{prefix_severity, severity_from_name, severity_word, severity_word_vec};
use crate::sorted_map::{map_find, map_put, SortedMap};
use crate::text::{dec_int, format_i32, to_lower, to_lower_vec};
use vstd::prelude::*;

verus! {

/// `Unknown`
pub open spec fn unknown_word() -> Seq<u8> {
    seq![85u8, 110, 107, 110, 111, 119, 110]
}

fn unknown_vec() -> (r: Vec<u8>)
    ensures
        r@ == unknown_word(),
{
    let mut r: Vec<u8> = Vec::new();
    r.push(85);
    r.push(110);
    r.push(107);
    r.push(110);
    r.push(111);
    r.push(119);
    r.push(110);
    proof {
        assert(r@ =~= unknown_word());
    }
    r
}

/// A decimal rendering left-padded with zeros to four digits.
pub open spec fn zero_pad4(d: Seq<u8>) -> Seq<u8> {
    if d.len() >= 4 {
        d
    } else {
        Seq::<u8>::new((4 - d.len()) as nat, |i: int| 48u8) + d
    }
}

/// The display code for a compiler value: `CS` plus the zero-padded value.
pub open spec fn cs_code(n: int) -> Seq<u8> {
    seq![67u8, 83] + zero_pad4(dec_int(n))
}

/// Render the display code for a compiler value.
pub fn cs_code_vec(n: i32) -> (r: Vec<u8>)
    ensures
        r@ == cs_code(n as int),
{
    let d = format_i32(n);
    let mut r: Vec<u8> = Vec::new();
    r.push(67);
    r.push(83);
    let mut pad: usize = 0;
    let dl = d.len();
    let ghost target = cs_code(n as int);
    while pad + dl < 4
        invariant
            dl == d@.len(),
            d@ == dec_int(n as int),
            pad <= 4,
            pad + dl <= 4 || pad == 0,
            r@ =~= seq![67u8, 83] + Seq::<u8>::new(pad as nat, |i: int| 48u8),
        decreases 4 - pad - dl,
    {
        r.push(48);
        proof {
            assert(Seq::<u8>::new((pad + 1) as nat, |i: int| 48u8) =~= Seq::<u8>::new(
                pad as nat,
                |i: int| 48u8,
            ).push(48u8));
        }
        pad += 1;
    }
    let mut k: usize = 0;
    while k < dl
        invariant
            k <= dl == d@.len(),
            r@ =~= seq![67u8, 83] + Seq::<u8>::new(pad as nat, |i: int| 48u8) + d@.take(k as int),
        decreases dl - k,
    {
        r.push(d[k]);
        k += 1;
    }
    proof {
        assert(d@.take(dl as int) =~= d@);
        if dl >= 4 {
            assert(pad == 0);
            assert(Seq::<u8>::new(0, |i: int| 48u8) =~= Seq::<u8>::empty());
            assert(r@ =~= cs_code(n as int));
        } else {
            assert(pad + dl == 4);
            assert(r@ =~= cs_code(n as int));
        }
    }
    r
}

/// One layering step: the record an enumerator pair contributes, written
/// under the lowercase display code; `None` on a name outside the severity
/// table.
pub open spec fn build_step(
    acc: Seq<(Seq<u8>, RecordView)>,
    msgs: Seq<(Seq<u8>, Seq<u8>)>,
    name: Seq<u8>,
    id: int,
) -> Option<Seq<(Seq<u8>, RecordView)>> {
    match prefix_severity(name) {
        None => None,
        Some(sev) => {
            let msg = match map_find(msgs, name) {
                Some(m) => m,
                None => unknown_word(),
            };
            let code = cs_code(id);
            Some(
                map_put(
                    acc,
                    to_lower(code),
                    RecordView { code: code, message: msg, severity: severity_word(sev) },
                ),
            )
        },
    }
}

/// Fold of `build_step` over the compiler pairs in key order.
pub open spec fn build_from_codes(
    codes: Seq<(Seq<u8>, i32)>,
    msgs: Seq<(Seq<u8>, Seq<u8>)>,
    acc: Seq<(Seq<u8>, RecordView)>,
) -> Option<Seq<(Seq<u8>, RecordView)>>
    decreases codes.len(),
{
    if codes.len() == 0 {
        Some(acc)
    } else {
        match build_step(acc, msgs, codes[0].0, codes[0].1 as int) {
            None => None,
            Some(acc2) => build_from_codes(codes.drop_first(), msgs, acc2),
        }
    }
}

/// The record an analyzer rule contributes.
pub open spec fn rule_record_view(r: RuleView) -> RecordView {
    RecordView { code: r.id, message: r.message, severity: severity_word(r.severity) }
}

/// Layer the analyzer rules over the registry, in rule order, each under its
/// lowercase id.
pub open spec fn apply_rules(
    reg: Seq<(Seq<u8>, RecordView)>,
    rules: Seq<RuleView>,
) -> Seq<(Seq<u8>, RecordView)>
    decreases rules.len(),
{
    if rules.len() == 0 {
        reg
    } else {
        apply_rules(map_put(reg, to_lower(rules[0].id), rule_record_view(rules[0])), rules.drop_first())
    }
}

/// What the whole build yields.
pub open spec fn build_spec(
    codes: Seq<(Seq<u8>, i32)>,
    msgs: Seq<(Seq<u8>, Seq<u8>)>,
    rules: Seq<RuleView>,
) -> Option<Seq<(Seq<u8>, RecordView)>> {
    match build_from_codes(codes, msgs, Seq::<(Seq<u8>, RecordView)>::empty()) {
        None => None,
        Some(r) => Some(apply_rules(r, rules)),
    }
}

/// `map_put` keeps every key the lowercase of its record's code, when the
/// new entry satisfies that too.
pub proof fn lemma_put_entries_ok(s: Seq<(Seq<u8>, RecordView)>, k: Seq<u8>, v: RecordView)
    requires
        reg_entries_ok(s),
        k == to_lower(v.code),
    ensures
        reg_entries_ok(map_put(s, k, v)),
    decreases s.len(),
{
    let r = map_put(s, k, v);
    if s.len() == 0 {
    } else if crate::text::lex_lt(k, s[0].0) {
        assert forall|i: int| 0 <= i < r.len() implies #[trigger] r[i].0 == to_lower(r[i].1.code) by {
            if i > 0 {
                assert(r[i] == s[i - 1]);
            }
        }
    } else if k == s[0].0 {
        assert forall|i: int| 0 <= i < r.len() implies #[trigger] r[i].0 == to_lower(r[i].1.code) by {
            if i > 0 {
                assert(r[i] == s.drop_first()[i - 1]);
                assert(s.drop_first()[i - 1] == s[i]);
            }
        }
    } else {
        assert(reg_entries_ok(s.drop_first())) by {
            assert(forall|i: int|
                0 <= i < s.drop_first().len() ==> #[trigger] s.drop_first()[i] == s[i + 1]);
        }
        lemma_put_entries_ok(s.drop_first(), k, v);
        let rr = map_put(s.drop_first(), k, v);
        assert forall|i: int| 0 <= i < r.len() implies #[trigger] r[i].0 == to_lower(r[i].1.code) by {
            if i > 0 {
                assert(r[i] == rr[i - 1]);
            }
        }
    }
}

/// Build the registry from the three parsed sources. `Err(BadPrefix)`
/// exactly when some enumerator name's prefix lies outside the severity
/// table; otherwise the layered registry, well-formed.
pub fn build_registry(
    codes: &SortedMap<i32>,
    msgs: &SortedMap<Vec<u8>>,
    rules: &Vec<AnalyzerRule>,
) -> (r: Result<Registry, FormatError>)
    ensures
        match r {
            Ok(reg) => build_spec(codes@, msgs@, crate::analyzer::rules_view(rules@)) == Some(reg@)
                && reg.wf() && reg_wf(reg@),
            Err(e) => build_spec(codes@, msgs@, crate::analyzer::rules_view(rules@)) is None && e
                == FormatError::BadPrefix,
        },
{
    let mut reg: Registry = SortedMap::new();
    let n = codes.len();
    let mut i: usize = 0;
    proof {
        assert(codes@.skip(0) =~= codes@);
        assert(reg_entries_ok(reg@));
    }
    while i < n
        invariant
            0 <= i <= n == codes@.len(),
            reg.wf(),
            reg_entries_ok(reg@),
            build_from_codes(codes@, msgs@, Seq::<(Seq<u8>, RecordView)>::empty())
                == build_from_codes(codes@.skip(i as int), msgs@, reg@),
        decreases n - i,
    {
        proof {
            assert(codes@.skip(i as int)[0] == codes@[i as int]);
            assert(codes@.skip(i as int).drop_first() =~= codes@.skip(i + 1));
        }
        let (name, id) = codes.entry_at(i);
        let sev = match severity_from_name(name) {
            Some(s) => s,
            None => {
                return Err(FormatError::BadPrefix);
            },
        };
        let msg: Vec<u8> = match msgs.get(name) {
            Some(m) => m.clone(),
            None => unknown_vec(),
        };
        let code = cs_code_vec(*id);
        let key = to_lower_vec(&code);
        let rec = DiagnosticRecord { code: code, message: msg, severity: severity_word_vec(sev) };
        proof {
            lemma_put_entries_ok(reg@, key@, rec@);
        }
        reg.insert(key, rec);
        i += 1;
    }
    proof {
        assert(codes@.skip(n as int) =~= Seq::<(Seq<u8>, i32)>::empty());
    }
    let ghost base = reg@;
    let ghost rviews = crate::analyzer::rules_view(rules@);
    let m = rules.len();
    let mut j: usize = 0;
    proof {
        assert(rviews.skip(0) =~= rviews);
    }
    while j < m
        invariant
            0 <= j <= m == rules@.len(),
            rviews == crate::analyzer::rules_view(rules@),
            reg.wf(),
            reg_entries_ok(reg@),
            apply_rules(base, rviews) == apply_rules(reg@, rviews.skip(j as int)),
        decreases m - j,
    {
        proof {
            assert(rviews.skip(j as int)[0] == rviews[j as int]);
            assert(rviews[j as int] == rules@[j as int]@);
            assert(rviews.skip(j as int).drop_first() =~= rviews.skip(j + 1));
        }
        let rule = &rules[j];
        let key = to_lower_vec(&rule.id);
        let rec = DiagnosticRecord {
            code: rule.id.clone(),
            message: rule.message.clone(),
            severity: severity_word_vec(rule.severity),
        };
        proof {
            lemma_put_entries_ok(reg@, key@, rec@);
            assert(rec@ == rule_record_view(rviews[j as int]));
        }
        reg.insert(key, rec);
        j += 1;
    }
    proof {
        assert(rviews.skip(m as int) =~= Seq::<RuleView>::empty());
    }
    Ok(reg)
}

} // verus!
