//! The canonical four-valued severity and its three decoders: one for the
//! compiler-source enumerator-name prefixes, one for the analyzer report's
//! level vocabulary, and the encoder used when directives are written out.

use crate::text::eq_bytes;
use vstd::prelude::*;

verus! {

/// The canonical severity directive.
#[derive(Clone, Copy, PartialEq, Eq, Structural, Debug)]
pub enum Severity {
    Error,
    Warning,
    Suggestion,
    Hidden,
}

/// The word written for each severity in a generated directive.
pub open spec fn severity_word(s: Severity) -> Seq<u8> {
    match s {
        Severity::Error => seq![101u8, 114, 114, 111, 114],
        Severity::Warning => seq![119u8, 97, 114, 110, 105, 110, 103],
        Severity::Suggestion => seq![115u8, 117, 103, 103, 101, 115, 116, 105, 111, 110],
        Severity::Hidden => seq![110u8, 111, 110, 101],
    }
}

/// Render the severity as its directive word (`none` for `Hidden`).
pub fn severity_word_vec(s: Severity) -> (r: Vec<u8>)
    ensures
        r@ == severity_word(s),
{
    let mut r: Vec<u8> = Vec::new();
    match s {
        Severity::Error => {
            r.push(101);
            r.push(114);
            r.push(114);
            r.push(111);
            r.push(114);
        },
        Severity::Warning => {
            r.push(119);
            r.push(97);
            r.push(114);
            r.push(110);
            r.push(105);
            r.push(110);
            r.push(103);
        },
        Severity::Suggestion => {
            r.push(115);
            r.push(117);
            r.push(103);
            r.push(103);
            r.push(101);
            r.push(115);
            r.push(116);
            r.push(105);
            r.push(111);
            r.push(110);
        },
        Severity::Hidden => {
            r.push(110);
            r.push(111);
            r.push(110);
            r.push(101);
        },
    }
    proof {
        assert(r@ =~= severity_word(s));
    }
    r
}

/// Severity derived from the first three bytes of a compiler enumerator
/// name: `FTL` and `ERR` are errors, `WRN` warnings, `INF` suggestions and
/// `HDN` hidden; anything else (a short name included) is not accepted.
pub open spec fn prefix_severity(name: Seq<u8>) -> Option<Severity> {
    if name.len() < 3 {
        None
    } else {
        let p = name.take(3);
        if p == seq![70u8, 84, 76] {
            Some(Severity::Error)
        } else if p == seq![69u8, 82, 82] {
            Some(Severity::Error)
        } else if p == seq![87u8, 82, 78] {
            Some(Severity::Warning)
        } else if p == seq![73u8, 78, 70] {
            Some(Severity::Suggestion)
        } else if p == seq![72u8, 68, 78] {
            Some(Severity::Hidden)
        } else {
            None
        }
    }
}

/// Decode a compiler enumerator name's three-byte prefix; `None` exactly on
/// the names whose prefix lies outside the fixed table.
pub fn severity_from_name(name: &Vec<u8>) -> (r: Option<Severity>)
    ensures
        r == prefix_severity(name@),
{
    if name.len() < 3 {
        return None;
    }
    let ghost p = name@.take(3);
    let a = name[0];
    let b = name[1];
    let c = name[2];
    proof {
        assert(p.len() == 3 && p[0] == a && p[1] == b && p[2] == c);
        assert(p =~= seq![a, b, c]);
    }
    if a == 70 && b == 84 && c == 76 {
        assert(p =~= seq![70u8, 84, 76]);
        Some(Severity::Error)
    } else if a == 69 && b == 82 && c == 82 {
        assert(p =~= seq![69u8, 82, 82]);
        Some(Severity::Error)
    } else if a == 87 && b == 82 && c == 78 {
        assert(p =~= seq![87u8, 82, 78]);
        Some(Severity::Warning)
    } else if a == 73 && b == 78 && c == 70 {
        assert(p =~= seq![73u8, 78, 70]);
        Some(Severity::Suggestion)
    } else if a == 72 && b == 68 && c == 78 {
        assert(p =~= seq![72u8, 68, 78]);
        Some(Severity::Hidden)
    } else {
        proof {
            assert(p != seq![70u8, 84, 76] && p != seq![69u8, 82, 82] && p != seq![87u8, 82, 78]
                && p != seq![73u8, 78, 70] && p != seq![72u8, 68, 78]) by {
                assert(p =~= seq![a, b, c]);
            }
        }
        None
    }
}

/// The analyzer report's level vocabulary: `fatal` and `error` are errors,
/// `warning` a warning, `information` and `note` suggestions, `hidden`
/// hidden; any other level is not accepted.
pub open spec fn analyzer_severity(level: Seq<u8>) -> Option<Severity> {
    if level == seq![102u8, 97, 116, 97, 108] {
        Some(Severity::Error)
    } else if level == seq![101u8, 114, 114, 111, 114] {
        Some(Severity::Error)
    } else if level == seq![119u8, 97, 114, 110, 105, 110, 103] {
        Some(Severity::Warning)
    } else if level == seq![105u8, 110, 102, 111, 114, 109, 97, 116, 105, 111, 110] {
        Some(Severity::Suggestion)
    } else if level == seq![110u8, 111, 116, 101] {
        Some(Severity::Suggestion)
    } else if level == seq![104u8, 105, 100, 100, 101, 110] {
        Some(Severity::Hidden)
    } else {
        None
    }
}

/// Decode an analyzer level word; `None` exactly on words outside the fixed
/// vocabulary.
pub fn severity_from_level(level: &Vec<u8>) -> (r: Option<Severity>)
    ensures
        r == analyzer_severity(level@),
{
    let mut fatal: Vec<u8> = Vec::new();
    fatal.push(102);
    fatal.push(97);
    fatal.push(116);
    fatal.push(97);
    fatal.push(108);
    proof {
        assert(fatal@ =~= seq![102u8, 97, 116, 97, 108]);
    }
    if eq_bytes(level, &fatal) {
        return Some(Severity::Error);
    }
    let error_w = severity_word_vec(Severity::Error);
    if eq_bytes(level, &error_w) {
        return Some(Severity::Error);
    }
    let warning_w = severity_word_vec(Severity::Warning);
    if eq_bytes(level, &warning_w) {
        return Some(Severity::Warning);
    }
    let mut information: Vec<u8> = Vec::new();
    information.push(105);
    information.push(110);
    information.push(102);
    information.push(111);
    information.push(114);
    information.push(109);
    information.push(97);
    information.push(116);
    information.push(105);
    information.push(111);
    information.push(110);
    proof {
        assert(information@ =~= seq![105u8, 110, 102, 111, 114, 109, 97, 116, 105, 111, 110]);
    }
    if eq_bytes(level, &information) {
        return Some(Severity::Suggestion);
    }
    let mut note: Vec<u8> = Vec::new();
    note.push(110);
    note.push(111);
    note.push(116);
    note.push(101);
    proof {
        assert(note@ =~= seq![110u8, 111, 116, 101]);
    }
    if eq_bytes(level, &note) {
        return Some(Severity::Suggestion);
    }
    let mut hidden: Vec<u8> = Vec::new();
    hidden.push(104);
    hidden.push(105);
    hidden.push(100);
    hidden.push(100);
    hidden.push(101);
    hidden.push(110);
    proof {
        assert(hidden@ =~= seq![104u8, 105, 100, 100, 101, 110]);
    }
    if eq_bytes(level, &hidden) {
        return Some(Severity::Hidden);
    }
    None
}

} // verus!
