//! The analyzer-report parser: after stripping a possible byte-order marker,
//! the report is parsed as structured data (the json crate's work, behind a
//! trusted wrapper) and mirrored into a plain tree; the verified traversal
//! then walks every run's rules, requiring of each rule a textual id, short
//! description and default level, and decodes the level vocabulary into the
//! canonical severity.

use crate::registry::FormatError;
use crate::severity::{analyzer_severity, severity_from_level, Severity};
use vstd::prelude::*;

verus! {

/// A structured document mirrored as plain bytes: only the shapes the
/// traversal reads are distinguished; numbers, booleans and null fold into
/// `Other`.
#[derive(Debug)]
pub enum JVal {
    Str(Vec<u8>),
    Arr(Vec<JVal>),
    Obj(Vec<(Vec<u8>, JVal)>),
    Other,
}

/// One rule as the report states it.
#[derive(Debug)]
pub struct AnalyzerRule {
    pub id: Vec<u8>,
    pub message: Vec<u8>,
    pub severity: Severity,
}

pub ghost struct RuleView {
    pub id: Seq<u8>,
    pub message: Seq<u8>,
    pub severity: Severity,
}

impl View for AnalyzerRule {
    type V = RuleView;

    open spec fn view(&self) -> RuleView {
        RuleView { id: self.id@, message: self.message@, severity: self.severity }
    }
}

pub open spec fn rules_view(s: Seq<AnalyzerRule>) -> Seq<RuleView> {
    s.map_values(|r: AnalyzerRule| r@)
}

/// `runs`
pub open spec fn runs_word() -> Seq<u8> {
    seq![114u8, 117, 110, 115]
}

/// `rules`
pub open spec fn rules_word() -> Seq<u8> {
    seq![114u8, 117, 108, 101, 115]
}

/// `id`
pub open spec fn id_word() -> Seq<u8> {
    seq![105u8, 100]
}

/// `shortDescription`
pub open spec fn desc_word() -> Seq<u8> {
    seq![115u8, 104, 111, 114, 116, 68, 101, 115, 99, 114, 105, 112, 116, 105, 111, 110]
}

/// `defaultLevel`
pub open spec fn level_word() -> Seq<u8> {
    seq![100u8, 101, 102, 97, 117, 108, 116, 76, 101, 118, 101, 108]
}

/// First entry under `key`, if any.
pub open spec fn jget(entries: Seq<(Vec<u8>, JVal)>, key: Seq<u8>) -> Option<JVal>
    decreases entries.len(),
{
    if entries.len() == 0 {
        None
    } else if entries[0].0@ == key {
        Some(entries[0].1)
    } else {
        jget(entries.drop_first(), key)
    }
}

/// Indexing as the report reader does it: a member of an object, `Other`
/// when absent or when the value is no object.
pub open spec fn jmember(v: JVal, key: Seq<u8>) -> JVal {
    match v {
        JVal::Obj(es) => match jget(es@, key) {
            Some(x) => x,
            None => JVal::Other,
        },
        _ => JVal::Other,
    }
}

/// An array's items; empty when the value is no array.
pub open spec fn jitems(v: JVal) -> Seq<JVal> {
    match v {
        JVal::Arr(a) => a@,
        _ => Seq::<JVal>::empty(),
    }
}

/// An object's values in entry order; empty when the value is no object.
pub open spec fn jvalues(v: JVal) -> Seq<JVal> {
    match v {
        JVal::Obj(es) => es@.map_values(|p: (Vec<u8>, JVal)| p.1),
        _ => Seq::<JVal>::empty(),
    }
}

pub open spec fn jstr(v: JVal) -> Option<Seq<u8>> {
    match v {
        JVal::Str(s) => Some(s@),
        _ => None,
    }
}

/// One rule read off its object: a textual id, short description and
/// default level are required; the level must lie in the vocabulary.
pub open spec fn rule_of(v: JVal) -> Result<RuleView, FormatError> {
    match (jstr(jmember(v, id_word())), jstr(jmember(v, desc_word())), jstr(
        jmember(v, level_word()),
    )) {
        (Some(id), Some(msg), Some(lvl)) => match analyzer_severity(lvl) {
            Some(sev) => Ok(RuleView { id: id, message: msg, severity: sev }),
            None => Err(FormatError::BadLevel),
        },
        _ => Err(FormatError::RuleField),
    }
}

/// The rules of one run, in entry order; the first bad rule is fatal.
pub open spec fn scan_rules(vals: Seq<JVal>) -> Result<Seq<RuleView>, FormatError>
    decreases vals.len(),
{
    if vals.len() == 0 {
        Ok(Seq::<RuleView>::empty())
    } else {
        match rule_of(vals[0]) {
            Err(e) => Err(e),
            Ok(r) => match scan_rules(vals.drop_first()) {
                Err(e) => Err(e),
                Ok(rest) => Ok(seq![r] + rest),
            },
        }
    }
}

/// Every run's rules, in run order.
pub open spec fn scan_runs(runs: Seq<JVal>) -> Result<Seq<RuleView>, FormatError>
    decreases runs.len(),
{
    if runs.len() == 0 {
        Ok(Seq::<RuleView>::empty())
    } else {
        match scan_rules(jvalues(jmember(runs[0], rules_word()))) {
            Err(e) => Err(e),
            Ok(rs) => match scan_runs(runs.drop_first()) {
                Err(e) => Err(e),
                Ok(rest) => Ok(rs + rest),
            },
        }
    }
}

/// The input with a leading byte-order marker removed.
pub open spec fn strip_bom(data: Seq<u8>) -> Seq<u8> {
    if data.len() >= 3 && data[0] == 0xef && data[1] == 0xbb && data[2] == 0xbf {
        data.skip(3)
    } else {
        data
    }
}

/// What the whole report yields: nothing for an empty payload; otherwise the
/// parsed document's runs, scanned in order.
pub open spec fn analyzer_rules(data: Seq<u8>) -> Result<Seq<RuleView>, FormatError> {
    if data.len() == 0 {
        Ok(Seq::<RuleView>::empty())
    } else {
        match json_doc_of(strip_bom(data)) {
            None => Err(FormatError::MalformedJson),
            Some(doc) => scan_runs(jitems(jmember(doc, runs_word()))),
        }
    }
}

#[verifier::external_type_specification]
#[verifier::external_body]
pub struct ExJsonValue(json::JsonValue);

/// Relies on json's `JsonValue`: each variant is mirrored structurally, with
/// string content as bytes and object entries in the crate's iteration
/// order; null, booleans and numbers become `Other`.
#[verifier::external_body]
fn jval_of(v: &json::JsonValue) -> (r: JVal)
    ensures
        r is Str || r is Arr || r is Obj || r is Other,
{
    match v {
        json::JsonValue::Short(s) => JVal::Str(s.as_str().as_bytes().to_vec()),
        json::JsonValue::String(s) => JVal::Str(s.as_bytes().to_vec()),
        json::JsonValue::Array(a) => JVal::Arr(a.iter().map(|x| jval_of(x)).collect()),
        json::JsonValue::Object(o) => JVal::Obj(
            o.iter().map(|(k, x)| (k.as_bytes().to_vec(), jval_of(x))).collect(),
        ),
        _ => JVal::Other,
    }
}

/// The document a byte payload parses to, `None` on a parse error; a
/// function of the bytes alone.
pub uninterp spec fn json_doc_of(text: Seq<u8>) -> Option<JVal>;

/// Relies on `json::parse` over the payload decoded as text: the parsed
/// document, mirrored as a plain tree; `None` exactly on a parse error.
#[verifier::external_body]
fn parse_json_doc(text: &Vec<u8>) -> (r: Option<JVal>)
    ensures
        r matches Some(v) ==> Some(v) == json_doc_of(text@),
        r is Some <==> json_doc_of(text@) is Some,
{
    match json::parse(&String::from_utf8_lossy(text.as_slice())) {
        Ok(v) => Some(jval_of(&v)),
        Err(_) => None,
    }
}

fn runs_vec() -> (r: Vec<u8>)
    ensures
        r@ == runs_word(),
{
    let mut r: Vec<u8> = Vec::new();
    r.push(114);
    r.push(117);
    r.push(110);
    r.push(115);
    proof {
        assert(r@ =~= runs_word());
    }
    r
}

fn rules_vec() -> (r: Vec<u8>)
    ensures
        r@ == rules_word(),
{
    let mut r: Vec<u8> = Vec::new();
    r.push(114);
    r.push(117);
    r.push(108);
    r.push(101);
    r.push(115);
    proof {
        assert(r@ =~= rules_word());
    }
    r
}

fn id_vec() -> (r: Vec<u8>)
    ensures
        r@ == id_word(),
{
    let mut r: Vec<u8> = Vec::new();
    r.push(105);
    r.push(100);
    proof {
        assert(r@ =~= id_word());
    }
    r
}

fn desc_vec() -> (r: Vec<u8>)
    ensures
        r@ == desc_word(),
{
    let mut r: Vec<u8> = Vec::new();
    r.push(115);
    r.push(104);
    r.push(111);
    r.push(114);
    r.push(116);
    r.push(68);
    r.push(101);
    r.push(115);
    r.push(99);
    r.push(114);
    r.push(105);
    r.push(112);
    r.push(116);
    r.push(105);
    r.push(111);
    r.push(110);
    proof {
        assert(r@ =~= desc_word());
    }
    r
}

fn level_vec() -> (r: Vec<u8>)
    ensures
        r@ == level_word(),
{
    let mut r: Vec<u8> = Vec::new();
    r.push(100);
    r.push(101);
    r.push(102);
    r.push(97);
    r.push(117);
    r.push(108);
    r.push(116);
    r.push(76);
    r.push(101);
    r.push(118);
    r.push(101);
    r.push(108);
    proof {
        assert(r@ =~= level_word());
    }
    r
}

/// Look a key up in an object's entries.
fn jget_ref<'a>(entries: &'a Vec<(Vec<u8>, JVal)>, key: &Vec<u8>) -> (r: Option<&'a JVal>)
    ensures
        match r {
            Some(x) => jget(entries@, key@) == Some(*x),
            None => jget(entries@, key@) is None,
        },
{
    let n = entries.len();
    let mut i: usize = 0;
    proof {
        assert(entries@.skip(0) =~= entries@);
    }
    while i < n
        invariant
            0 <= i <= n == entries@.len(),
            jget(entries@, key@) == jget(entries@.skip(i as int), key@),
        decreases n - i,
    {
        proof {
            assert(entries@.skip(i as int)[0] == entries@[i as int]);
            assert(entries@.skip(i as int).drop_first() =~= entries@.skip(i + 1));
        }
        let e = &entries[i];
        if crate::text::eq_bytes(&e.0, key) {
            return Some(&e.1);
        }
        i += 1;
    }
    proof {
        assert(entries@.skip(n as int) =~= Seq::<(Vec<u8>, JVal)>::empty());
    }
    None
}

/// A member of `v` under `key`, `None` standing for the spec's `Other`.
fn jmember_ref<'a>(v: &'a JVal, key: &Vec<u8>) -> (r: Option<&'a JVal>)
    ensures
        match r {
            Some(x) => jmember(*v, key@) == *x,
            None => jmember(*v, key@) == JVal::Other,
        },
{
    match v {
        JVal::Obj(es) => jget_ref(es, key),
        _ => None,
    }
}

/// Read one rule off its object.
fn rule_record(v: &JVal) -> (r: Result<AnalyzerRule, FormatError>)
    ensures
        match r {
            Ok(rule) => rule_of(*v) == Ok::<RuleView, FormatError>(rule@),
            Err(e) => rule_of(*v) == Err::<RuleView, FormatError>(e),
        },
{
    let id_w = id_vec();
    let desc_w = desc_vec();
    let level_w = level_vec();
    let id: Vec<u8> = match jmember_ref(v, &id_w) {
        Some(JVal::Str(s)) => s.clone(),
        _ => {
            return Err(FormatError::RuleField);
        },
    };
    let msg: Vec<u8> = match jmember_ref(v, &desc_w) {
        Some(JVal::Str(s)) => s.clone(),
        _ => {
            return Err(FormatError::RuleField);
        },
    };
    let lvl: Vec<u8> = match jmember_ref(v, &level_w) {
        Some(JVal::Str(s)) => s.clone(),
        _ => {
            return Err(FormatError::RuleField);
        },
    };
    match severity_from_level(&lvl) {
        Some(sev) => Ok(AnalyzerRule { id: id, message: msg, severity: sev }),
        None => Err(FormatError::BadLevel),
    }
}

/// Copy of the payload with a leading byte-order marker removed.
fn strip_bom_vec(data: &Vec<u8>) -> (r: Vec<u8>)
    ensures
        r@ == strip_bom(data@),
{
    let n = data.len();
    let start: usize = if n >= 3 && data[0] == 0xef && data[1] == 0xbb && data[2] == 0xbf {
        3
    } else {
        0
    };
    let mut out: Vec<u8> = Vec::new();
    let mut i: usize = start;
    while i < n
        invariant
            start <= i <= n == data@.len(),
            out@ =~= data@.subrange(start as int, i as int),
        decreases n - i,
    {
        out.push(data[i]);
        i += 1;
    }
    proof {
        assert(data@.subrange(start as int, n as int) =~= data@.skip(start as int));
        if start == 0 {
            assert(data@.skip(0) =~= data@);
        }
    }
    out
}

/// Parse an analyzer report into its rules. An empty payload yields no
/// rules; a malformed payload, a rule without its three textual fields, or
/// a level outside the vocabulary is fatal, in traversal order.
pub fn analyzer_report_rules(data: &Vec<u8>) -> (r: Result<Vec<AnalyzerRule>, FormatError>)
    ensures
        match r {
            Ok(rules) => analyzer_rules(data@) == Ok::<Seq<RuleView>, FormatError>(
                rules_view(rules@),
            ),
            Err(e) => analyzer_rules(data@) == Err::<Seq<RuleView>, FormatError>(e),
        },
{
    let mut out: Vec<AnalyzerRule> = Vec::new();
    if data.len() == 0 {
        proof {
            assert(rules_view(out@) =~= Seq::<RuleView>::empty());
        }
        return Ok(out);
    }
    let stripped = strip_bom_vec(data);
    let doc: JVal = match parse_json_doc(&stripped) {
        Some(d) => d,
        None => {
            return Err(FormatError::MalformedJson);
        },
    };
    let runs_w = runs_vec();
    let rules_w = rules_vec();
    let ghost runs_spec = jitems(jmember(doc, runs_word()));
    let runs: &Vec<JVal> = match jmember_ref(&doc, &runs_w) {
        Some(JVal::Arr(a)) => a,
        _ => {
            proof {
                assert(runs_spec =~= Seq::<JVal>::empty());
                assert(rules_view(out@) =~= Seq::<RuleView>::empty());
            }
            return Ok(out);
        },
    };
    let nruns = runs.len();
    let mut i: usize = 0;
    proof {
        assert(runs@.skip(0) =~= runs@);
    }
    while i < nruns
        invariant
            0 <= i <= nruns == runs@.len(),
            runs_spec == runs@,
            rules_w@ == rules_word(),
            analyzer_rules(data@) == (match scan_runs(runs@.skip(i as int)) {
                Ok(rest) => Ok::<Seq<RuleView>, FormatError>(rules_view(out@) + rest),
                Err(e) => Err::<Seq<RuleView>, FormatError>(e),
            }),
        decreases nruns - i,
    {
        proof {
            assert(runs@.skip(i as int)[0] == runs@[i as int]);
            assert(runs@.skip(i as int).drop_first() =~= runs@.skip(i + 1));
        }
        let run = &runs[i];
        let ghost vals = jvalues(jmember(*run, rules_word()));
        let ghost out_before = out@;
        match jmember_ref(run, &rules_w) {
            Some(JVal::Obj(es)) => {
                proof {
                    assert(vals == es@.map_values(|p: (Vec<u8>, JVal)| p.1));
                }
                let nes = es.len();
                let mut j: usize = 0;
                proof {
                    assert(vals.skip(0) =~= vals);
                }
                while j < nes
                    invariant
                        0 <= j <= nes == es@.len(),
                        0 <= i < runs@.len(),
                        vals == es@.map_values(|p: (Vec<u8>, JVal)| p.1),
                        vals == jvalues(jmember(runs@[i as int], rules_word())),
                        analyzer_rules(data@) == (match scan_runs(runs@.skip(i as int)) {
                            Ok(rest) => Ok::<Seq<RuleView>, FormatError>(
                                rules_view(out_before) + rest,
                            ),
                            Err(e) => Err::<Seq<RuleView>, FormatError>(e),
                        }),
                        out@.len() >= out_before.len(),
                        out@.take(out_before.len() as int) == out_before,
                        (match scan_rules(vals.skip(j as int)) {
                            Ok(rest) => scan_rules(vals) == Ok::<Seq<RuleView>, FormatError>(
                                rules_view(out@.skip(out_before.len() as int)) + rest,
                            ),
                            Err(e) => scan_rules(vals) == Err::<Seq<RuleView>, FormatError>(e),
                        }),
                    decreases nes - j,
                {
                    proof {
                        assert(vals.skip(j as int)[0] == vals[j as int]);
                        assert(vals[j as int] == es@[j as int].1);
                        assert(vals.skip(j as int).drop_first() =~= vals.skip(j + 1));
                    }
                    let e = &es[j];
                    match rule_record(&e.1) {
                        Ok(rule) => {
                            let ghost pre = out@;
                            out.push(rule);
                            proof {
                                assert(out@.take(out_before.len() as int) =~= pre.take(
                                    out_before.len() as int,
                                ));
                                assert(rules_view(out@.skip(out_before.len() as int)) =~=
                                    rules_view(pre.skip(out_before.len() as int)).push(rule@));
                                if scan_rules(vals.skip(j + 1)) is Ok {
                                    let rest2 = scan_rules(vals.skip(j + 1))->Ok_0;
                                    assert(rules_view(pre.skip(out_before.len() as int)) + (seq![
                                        rule@,
                                    ] + rest2) =~= rules_view(out@.skip(out_before.len() as int))
                                        + rest2);
                                }
                            }
                        },
                        Err(e) => {
                            proof {
                                assert(runs@.skip(i as int)[0] == runs@[i as int]);
                                assert(runs@.skip(i as int).drop_first() =~= runs@.skip(i + 1));
                                assert(scan_rules(vals.skip(j as int)) == Err::<
                                    Seq<RuleView>,
                                    FormatError,
                                >(e));
                                assert(scan_rules(vals) == Err::<Seq<RuleView>, FormatError>(e));
                                assert(scan_runs(runs@.skip(i as int)) == Err::<
                                    Seq<RuleView>,
                                    FormatError,
                                >(e));
                            }
                            return Err(e);
                        },
                    }
                    j += 1;
                }
                proof {
                    assert(vals.skip(nes as int) =~= Seq::<JVal>::empty());
                    assert(scan_rules(vals) == Ok::<Seq<RuleView>, FormatError>(
                        rules_view(out@.skip(out_before.len() as int)),
                    ));
                    assert(rules_view(out_before) + rules_view(out@.skip(out_before.len() as int))
                        =~= rules_view(out@));
                }
            },
            _ => {
                proof {
                    assert(vals =~= Seq::<JVal>::empty());
                    assert(out@.skip(out_before.len() as int) =~= Seq::<AnalyzerRule>::empty());
                    assert(rules_view(out@.skip(out_before.len() as int)) =~= Seq::<
                        RuleView,
                    >::empty());
                    assert(scan_rules(vals) == Ok::<Seq<RuleView>, FormatError>(
                        rules_view(out@.skip(out_before.len() as int)),
                    ));
                }
            },
        }
        proof {
            assert(runs@.skip(i as int)[0] == runs@[i as int]);
            assert(runs@.skip(i as int).drop_first() =~= runs@.skip(i + 1));
            assert(scan_rules(vals) == Ok::<Seq<RuleView>, FormatError>(
                rules_view(out@.skip(out_before.len() as int)),
            ));
            match scan_runs(runs@.skip(i + 1)) {
                Ok(rest) => {
                    assert(rules_view(out_before) + (rules_view(
                        out@.skip(out_before.len() as int),
                    ) + rest) =~= rules_view(out@) + rest);
                },
                Err(e) => {},
            }
        }
        i += 1;
    }
    proof {
        assert(runs@.skip(nruns as int) =~= Seq::<JVal>::empty());
        assert(rules_view(out@) + Seq::<RuleView>::empty() =~= rules_view(out@));
    }
    Ok(out)
}

} // verus!
