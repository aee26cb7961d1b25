//! Laws that relate the library's functions to one another, stated over the
//! same spec functions their contracts use and proved for all inputs their
//! hypotheses admit.

use crate::error_codes::{ec_extract, ec_skipped};
use crate::merge::{
    block_lines, is_diag_line, join_lines, rewrite_lines,
};
use crate::registry::RecordView;
use crate::resx::{last_name_attr, resx_run, RawEvent, ResxState, value_word};
use crate::sorted_map::{keys_sorted, lemma_map_put_sorted, map_find, map_put};
use crate::text::{
    i32_parse, lemma_split_concat, lemma_split_nonempty, lines_of, split_byte, strip_cr, trim,
    trim_end,
};
use vstd::prelude::*;

verus! {

// --- The error-code parser returns one entry per well-formed line ---

/// A line the extractor turns into an entry: no closing brace, not passed
/// over, splitting into exactly two parts at the assignment token, with a
/// parsable first value token.
pub open spec fn wf_entry_line(l: Seq<u8>) -> bool {
    &&& !l.contains(125u8)
    &&& !ec_skipped(trim(l))
    &&& split_byte(trim(l), 61).len() == 2
    &&& i32_parse(split_byte(trim(split_byte(trim(l), 61)[1]), 44)[0]) is Some
}

pub open spec fn entry_name(l: Seq<u8>) -> Seq<u8> {
    trim(split_byte(trim(l), 61)[0])
}

pub open spec fn entry_value(l: Seq<u8>) -> i32 {
    i32_parse(split_byte(trim(split_byte(trim(l), 61)[1]), 44)[0])->Some_0
}

/// A key equal to no entry's key is not found.
pub proof fn lemma_find_none<T>(s: Seq<(Seq<u8>, T)>, k: Seq<u8>)
    requires
        forall|i: int| 0 <= i < s.len() ==> (#[trigger] s[i]).0 != k,
    ensures
        map_find(s, k) is None,
    decreases s.len(),
{
    if s.len() > 0 {
        assert(forall|i: int|
            0 <= i < s.drop_first().len() ==> #[trigger] s.drop_first()[i] == s[i + 1]);
        lemma_find_none(s.drop_first(), k);
    }
}

/// `map_put` grows the map by one entry exactly when the key is new.
pub proof fn lemma_map_put_len<T>(s: Seq<(Seq<u8>, T)>, k: Seq<u8>, v: T)
    requires
        keys_sorted(s),
    ensures
        map_find(s, k) is Some ==> map_put(s, k, v).len() == s.len(),
        map_find(s, k) is None ==> map_put(s, k, v).len() == s.len() + 1,
    decreases s.len(),
{
    if s.len() == 0 {
    } else if crate::text::lex_lt(k, s[0].0) {
        assert forall|i: int| 0 <= i < s.len() implies (#[trigger] s[i]).0 != k by {
            if i > 0 {
                crate::text::lemma_lex_transitive(k, s[0].0, s[i].0);
            }
            crate::text::lemma_lex_connected(k, s[i].0);
        }
        lemma_find_none(s, k);
    } else if k == s[0].0 {
    } else {
        crate::sorted_map::lemma_sorted_drop_first(s);
        lemma_map_put_len(s.drop_first(), k, v);
    }
}

/// Over a block whose lines are all well-formed with pairwise distinct
/// names, extraction succeeds with exactly one entry per line, each carrying
/// the first comma-delimited value token of its line; entries under other
/// names are untouched.
pub proof fn lemma_extract_counts(lines: Seq<Seq<u8>>, acc: Seq<(Seq<u8>, i32)>)
    requires
        forall|i: int| 0 <= i < lines.len() ==> wf_entry_line(#[trigger] lines[i]),
        forall|i: int, j: int|
            0 <= i < j < lines.len() ==> entry_name(lines[i]) != entry_name(lines[j]),
        forall|i: int| 0 <= i < lines.len() ==> map_find(acc, entry_name(#[trigger] lines[i])) is None,
        keys_sorted(acc),
    ensures
        ec_extract(lines, acc) matches Some(m) && m.len() == acc.len() + lines.len() && (forall|
            i: int,
        |
            0 <= i < lines.len() ==> map_find(m, entry_name(#[trigger] lines[i])) == Some(
                entry_value(lines[i]),
            )) && (forall|k: Seq<u8>|
            (forall|i: int| 0 <= i < lines.len() ==> entry_name(#[trigger] lines[i]) != k)
                ==> #[trigger] map_find(m, k) == map_find(acc, k)),
    decreases lines.len(),
{
    if lines.len() > 0 {
        let l = lines[0];
        let nm = entry_name(l);
        let v = entry_value(l);
        let acc2 = map_put(acc, nm, v);
        lemma_map_put_sorted(acc, nm, v);
        lemma_map_put_len(acc, nm, v);
        let rest = lines.drop_first();
        assert(forall|i: int| 0 <= i < rest.len() ==> #[trigger] rest[i] == lines[i + 1]);
        lemma_extract_counts(rest, acc2);
        assert(ec_extract(lines, acc) == ec_extract(rest, acc2));
        let m = ec_extract(rest, acc2)->Some_0;
        assert(map_find(m, nm) == Some(v)) by {
            assert(forall|i: int| 0 <= i < rest.len() ==> entry_name(#[trigger] rest[i]) != nm);
        }
        assert forall|i: int| 0 <= i < lines.len() implies map_find(
            m,
            entry_name(#[trigger] lines[i]),
        ) == Some(entry_value(lines[i])) by {
            if i > 0 {
                assert(lines[i] == rest[i - 1]);
            }
        }
    }
}

// --- The message-table state machine commits pairs and only pairs ---

/// A committed `data`/`value` pair: from any state, a `data` start carrying
/// a name, a nested `value` start, one text node and the matching `value`
/// end put exactly that text into the mapping under that name — in
/// particular the committed value keeps the text's length.
pub proof fn lemma_data_value_commit(
    st: ResxState,
    dv: Vec<u8>,
    attrs: Vec<(Vec<u8>, Vec<u8>)>,
    vv: Vec<u8>,
    a2: Vec<(Vec<u8>, Vec<u8>)>,
    t: Vec<u8>,
    ev: Vec<u8>,
    nm: Seq<u8>,
)
    requires
        dv@ == crate::resx::data_word(),
        vv@ == value_word(),
        ev@ == value_word(),
        last_name_attr(attrs@) == Some(nm),
        keys_sorted(st.map),
    ensures
        ({
            let evs = seq![
                RawEvent::Start(dv, attrs),
                RawEvent::Start(vv, a2),
                RawEvent::Text(t),
                RawEvent::End(ev),
            ];
            &&& resx_run(evs, st).map == map_put(st.map, nm, t@)
            &&& map_find(resx_run(evs, st).map, nm) == Some(t@)
            &&& map_find(resx_run(evs, st).map, nm)->Some_0.len() == t@.len()
        }),
{
    let evs = seq![
        RawEvent::Start(dv, attrs),
        RawEvent::Start(vv, a2),
        RawEvent::Text(t),
        RawEvent::End(ev),
    ];
    let st1 = ResxState { stage: 1, name: nm, txt: st.txt, map: st.map };
    let st2 = ResxState { stage: 2, name: nm, txt: Seq::<u8>::empty(), map: st.map };
    let st3 = ResxState { stage: 2, name: nm, txt: Seq::<u8>::empty() + t@, map: st.map };
    assert(evs.drop_first() =~= seq![RawEvent::Start(vv, a2), RawEvent::Text(t), RawEvent::End(ev)]);
    assert(evs.drop_first().drop_first() =~= seq![RawEvent::Text(t), RawEvent::End(ev)]);
    assert(evs.drop_first().drop_first().drop_first() =~= seq![RawEvent::End(ev)]);
    assert(seq![RawEvent::End(ev)].drop_first() =~= Seq::<RawEvent>::empty());
    assert(crate::resx::resx_step(st, evs[0]) == st1);
    assert(crate::resx::resx_step(st1, RawEvent::Start(vv, a2)) == st2);
    assert(crate::resx::resx_step(st2, RawEvent::Text(t)) == st3);
    assert(st3.txt =~= t@);
    let st4 = crate::resx::resx_step(st3, RawEvent::End(ev));
    assert(st4.map == map_put(st.map, nm, st3.txt));
    assert(resx_run(evs, st) == resx_run(evs.drop_first(), st1));
    assert(resx_run(evs.drop_first(), st1) == resx_run(evs.drop_first().drop_first(), st2));
    assert(resx_run(evs.drop_first().drop_first(), st2) == resx_run(
        evs.drop_first().drop_first().drop_first(),
        st3,
    ));
    assert(resx_run(seq![RawEvent::End(ev)], st3) == resx_run(Seq::<RawEvent>::empty(), st4));
    assert(resx_run(Seq::<RawEvent>::empty(), st4) == st4);
    lemma_map_put_sorted(st.map, nm, t@);
}

/// A dangling open `value`: a stream in which no `value` element ever closes
/// commits nothing, whatever else it holds.
pub proof fn lemma_no_value_end_no_commit(events: Seq<RawEvent>, st: ResxState)
    requires
        forall|i: int|
            0 <= i < events.len() ==> !(#[trigger] events[i] matches RawEvent::End(n) && n@
                == value_word()),
    ensures
        resx_run(events, st).map == st.map,
    decreases events.len(),
{
    if events.len() > 0 {
        let st2 = crate::resx::resx_step(st, events[0]);
        assert(st2.map == st.map);
        assert(forall|i: int|
            0 <= i < events.drop_first().len() ==> #[trigger] events.drop_first()[i] == events[i
                + 1]);
        lemma_no_value_end_no_commit(events.drop_first(), st2);
    }
}

// --- The rewrite's shape: order kept, block inserted exactly once ---

/// The pass-through image of a line sequence: directive lines gone, the
/// rest in order with trailing whitespace trimmed.
pub open spec fn pass_lines(lines: Seq<Seq<u8>>) -> Seq<Seq<u8>>
    decreases lines.len(),
{
    if lines.len() == 0 {
        Seq::<Seq<u8>>::empty()
    } else if is_diag_line(lines[0]) {
        pass_lines(lines.drop_first())
    } else {
        seq![trim_end(lines[0])] + pass_lines(lines.drop_first())
    }
}

pub open spec fn has_diag(lines: Seq<Seq<u8>>) -> bool {
    exists|i: int| 0 <= i < lines.len() && is_diag_line(lines[i])
}

/// The position of the first directive line.
pub open spec fn first_diag(lines: Seq<Seq<u8>>) -> int
    decreases lines.len(),
{
    if lines.len() == 0 {
        0
    } else if is_diag_line(lines[0]) {
        0
    } else {
        1 + first_diag(lines.drop_first())
    }
}

/// Once the block is written, the rewrite is the pass-through image.
pub proof fn lemma_rewrite_written(reg: Seq<(Seq<u8>, RecordView)>, lines: Seq<Seq<u8>>)
    ensures
        rewrite_lines(reg, lines, true) == pass_lines(lines),
    decreases lines.len(),
{
    if lines.len() > 0 {
        lemma_rewrite_written(reg, lines.drop_first());
    }
}

/// Non-directive lines appear in the output in their original order with
/// trailing whitespace trimmed, and the consolidated block stands exactly
/// once, at the position of the first directive line; without directive
/// lines the output is the pass-through image alone.
pub proof fn lemma_rewrite_shape(reg: Seq<(Seq<u8>, RecordView)>, lines: Seq<Seq<u8>>)
    ensures
        !has_diag(lines) ==> rewrite_lines(reg, lines, false) == pass_lines(lines),
        has_diag(lines) ==> {
            let d = first_diag(lines);
            &&& 0 <= d < lines.len()
            &&& is_diag_line(lines[d])
            &&& (forall|i: int| 0 <= i < d ==> !is_diag_line(#[trigger] lines[i]))
            &&& rewrite_lines(reg, lines, false) == pass_lines(lines.take(d)) + block_lines(reg)
                + pass_lines(lines.skip(d + 1))
        },
    decreases lines.len(),
{
    if lines.len() == 0 {
    } else if is_diag_line(lines[0]) {
        lemma_rewrite_written(reg, lines.drop_first());
        assert(first_diag(lines) == 0);
        assert(rewrite_lines(reg, lines, false) == block_lines(reg) + rewrite_lines(
            reg,
            lines.drop_first(),
            true,
        ));
        assert(rewrite_lines(reg, lines.drop_first(), true) == pass_lines(lines.drop_first()));
        assert(lines.take(0) =~= Seq::<Seq<u8>>::empty());
        assert(lines.skip(1) =~= lines.drop_first());
        assert(pass_lines(lines.take(0)) + block_lines(reg) + pass_lines(lines.skip(1))
            =~= block_lines(reg) + pass_lines(lines.drop_first()));
    } else {
        let rest = lines.drop_first();
        assert(forall|i: int| 0 <= i < rest.len() ==> #[trigger] rest[i] == lines[i + 1]);
        lemma_rewrite_shape(reg, rest);
        if has_diag(lines) {
            assert(has_diag(rest)) by {
                let i = choose|i: int| 0 <= i < lines.len() && is_diag_line(lines[i]);
                assert(rest[i - 1] == lines[i]);
            }
            let d = first_diag(lines);
            let dr = first_diag(rest);
            assert(d == 1 + dr);
            assert forall|i: int| 0 <= i < d implies !is_diag_line(#[trigger] lines[i]) by {
                if i > 0 {
                    assert(lines[i] == rest[i - 1]);
                }
            }
            assert(is_diag_line(lines[d as int])) by {
                assert(lines[d as int] == rest[dr as int]);
            }
            assert(rest.take(dr) =~= lines.take(d).drop_first());
            assert(rest.skip(dr + 1) =~= lines.skip(d + 1));
            assert(pass_lines(lines.take(d)) == seq![trim_end(lines[0])] + pass_lines(rest.take(dr)))
                by {
                assert(lines.take(d)[0] == lines[0]);
                assert(lines.take(d).drop_first() =~= rest.take(dr));
            }
            assert(rewrite_lines(reg, lines, false) == seq![trim_end(lines[0])] + rewrite_lines(
                reg,
                rest,
                false,
            ));
            assert(rewrite_lines(reg, rest, false) == pass_lines(rest.take(dr)) + block_lines(reg)
                + pass_lines(rest.skip(dr + 1)));
            assert(rewrite_lines(reg, lines, false) =~= pass_lines(lines.take(d)) + block_lines(
                reg,
            ) + pass_lines(lines.skip(d + 1)));
        } else {
            assert(!has_diag(rest)) by {
                if has_diag(rest) {
                    let i = choose|i: int| 0 <= i < rest.len() && is_diag_line(rest[i]);
                    assert(lines[i + 1] == rest[i]);
                }
            }
            assert(rewrite_lines(reg, lines, false) =~= pass_lines(lines));
        }
    }
}

// --- Lines written with one line feed each read back as themselves ---

/// A line as the rewrite writes it: free of line feeds and not ending in a
/// carriage return.
pub open spec fn line_ok(l: Seq<u8>) -> bool {
    !l.contains(10u8) && (l.len() == 0 || l.last() != 13)
}

/// Joining such lines and splitting again is the identity.
pub proof fn lemma_lines_of_join(ls: Seq<Seq<u8>>)
    requires
        forall|i: int| 0 <= i < ls.len() ==> line_ok(#[trigger] ls[i]),
    ensures
        lines_of(join_lines(ls)) == ls,
    decreases ls.len(),
{
    if ls.len() == 0 {
        assert(join_lines(ls) =~= Seq::<u8>::empty());
        let parts = split_byte(Seq::<u8>::empty(), 10);
        assert(parts == seq![Seq::<u8>::empty()]);
        assert(parts.take(0) =~= Seq::<Seq<u8>>::empty());
        assert(lines_of(join_lines(ls)) =~= ls);
    } else {
        let rest = ls.drop_first();
        assert(forall|i: int| 0 <= i < rest.len() ==> #[trigger] rest[i] == ls[i + 1]);
        lemma_lines_of_join(rest);
        let jr = join_lines(rest);
        assert(join_lines(ls) == ls[0] + seq![10u8] + jr);
        lemma_split_concat(ls[0], 10, jr);
        let parts = split_byte(join_lines(ls), 10);
        let partsj = split_byte(jr, 10);
        lemma_split_nonempty(jr, 10);
        assert(parts == seq![ls[0]] + partsj);
        assert(parts.last() == partsj.last());
        assert(parts.take(parts.len() - 1) =~= seq![ls[0]] + partsj.take(partsj.len() - 1));
        let mainj = partsj.take(partsj.len() - 1).map_values(|l: Seq<u8>| strip_cr(l));
        let main = parts.take(parts.len() - 1).map_values(|l: Seq<u8>| strip_cr(l));
        assert(main =~= seq![strip_cr(ls[0])] + mainj) by {
            assert(forall|i: int|
                1 <= i < parts.len() - 1 ==> #[trigger] parts.take(parts.len() - 1)[i]
                    == partsj.take(partsj.len() - 1)[i - 1]);
        }
        assert(strip_cr(ls[0]) == ls[0]);
        if parts.last().len() == 0 {
            assert(lines_of(join_lines(ls)) =~= ls) by {
                assert(lines_of(jr) == mainj);
                assert(forall|i: int| 1 <= i < main.len() ==> main[i] == mainj[i - 1]);
            }
        } else {
            assert(lines_of(join_lines(ls)) =~= ls) by {
                assert(lines_of(jr) == mainj.push(partsj.last()));
                assert(lines_of(join_lines(ls)) == main.push(parts.last()));
                assert(forall|i: int| 1 <= i < main.len() ==> main[i] == mainj[i - 1]);
            }
        }
    }
}

// --- Merge idempotence ---

pub open spec fn no_byte(s: Seq<u8>, b: u8) -> bool {
    forall|i: int| 0 <= i < s.len() ==> s[i] != b
}

/// A display code that the directive syntax can carry round-trip: no
/// comment, assignment, dot or line-break bytes.
pub open spec fn clean_code(c: Seq<u8>) -> bool {
    no_byte(c, 35) && no_byte(c, 61) && no_byte(c, 46) && no_byte(c, 10) && no_byte(c, 13)
}

/// A severity text the directive syntax can carry round-trip: already
/// trimmed, with no comment, assignment or line-feed bytes.
pub open spec fn clean_sev(s: Seq<u8>) -> bool {
    trim(s) == s && no_byte(s, 35) && no_byte(s, 61) && no_byte(s, 10)
}

/// A registry whose directives read back as themselves.
pub open spec fn clean_reg(reg: Seq<(Seq<u8>, RecordView)>) -> bool {
    &&& keys_sorted(reg)
    &&& crate::registry::reg_entries_ok(reg)
    &&& forall|i: int|
        0 <= i < reg.len() ==> clean_code(#[trigger] reg[i].1.code) && clean_sev(reg[i].1.severity)
}

proof fn lemma_split_pieces_no_byte(s: Seq<u8>, sep: u8, x: u8)
    requires
        no_byte(s, x),
    ensures
        forall|i: int|
            0 <= i < split_byte(s, sep).len() ==> no_byte(#[trigger] split_byte(s, sep)[i], x),
    decreases s.len(),
{
    if s.len() == 0 {
        assert forall|i: int| 0 <= i < split_byte(s, sep).len() implies no_byte(
            #[trigger] split_byte(s, sep)[i],
            x,
        ) by {
            assert(split_byte(s, sep)[i] =~= Seq::<u8>::empty());
        }
    } else {
        assert(no_byte(s.drop_first(), x)) by {
            assert(forall|i: int| 0 <= i < s.len() - 1 ==> s.drop_first()[i] == s[i + 1]);
        }
        lemma_split_pieces_no_byte(s.drop_first(), sep, x);
        let rest = split_byte(s.drop_first(), sep);
        crate::text::lemma_split_nonempty(s.drop_first(), sep);
        if s[0] == sep {
            assert forall|i: int| 0 <= i < split_byte(s, sep).len() implies no_byte(
                #[trigger] split_byte(s, sep)[i],
                x,
            ) by {
                if i > 0 {
                    assert(split_byte(s, sep)[i] == rest[i - 1]);
                }
            }
        } else {
            assert forall|i: int| 0 <= i < split_byte(s, sep).len() implies no_byte(
                #[trigger] split_byte(s, sep)[i],
                x,
            ) by {
                if i == 0 {
                    assert(split_byte(s, sep)[0] == seq![s[0]] + rest[0]);
                    assert(s[0] != x);
                    assert(no_byte(rest[0], x));
                    assert(forall|k: int|
                        1 <= k < (seq![s[0]] + rest[0]).len() ==> (seq![s[0]] + rest[0])[k]
                            == rest[0][k - 1]);
                } else {
                    assert(split_byte(s, sep)[i] == rest.drop_first()[i - 1]);
                    assert(rest.drop_first()[i - 1] == rest[i]);
                }
            }
        }
    }
}

/// Lines never hold a line feed.
proof fn lemma_lines_no_nl(c: Seq<u8>)
    ensures
        forall|i: int| 0 <= i < lines_of(c).len() ==> no_byte(#[trigger] lines_of(c)[i], 10),
{
    let parts = split_byte(c, 10);
    crate::text::lemma_split_pieces(c, 10);
    assert forall|i: int| 0 <= i < lines_of(c).len() implies no_byte(
        #[trigger] lines_of(c)[i],
        10,
    ) by {
        let main = parts.take(parts.len() - 1).map_values(|l: Seq<u8>| strip_cr(l));
        if i < main.len() {
            let p = parts[i];
            assert(!p.contains(10u8));
            assert(no_byte(p, 10)) by {
                if !no_byte(p, 10) {
                    let k = choose|k: int| 0 <= k < p.len() && p[k] == 10;
                    assert(p.contains(10u8));
                }
            }
            assert(lines_of(c)[i] == strip_cr(p));
            assert(forall|k: int| 0 <= k < strip_cr(p).len() ==> strip_cr(p)[k] == p[k]);
        } else {
            let p = parts.last();
            assert(!p.contains(10u8));
            assert(lines_of(c)[i] == p);
            assert(no_byte(p, 10)) by {
                if !no_byte(p, 10) {
                    let k = choose|k: int| 0 <= k < p.len() && p[k] == 10;
                    assert(p.contains(10u8));
                }
            }
        }
    }
}

/// Trimming keeps the absence of a byte.
proof fn lemma_trim_no_byte(s: Seq<u8>, x: u8)
    requires
        no_byte(s, x),
    ensures
        no_byte(trim(s), x),
        no_byte(trim_end(s), x),
{
    crate::text::lemma_ws_prefix(s);
    let m = s.skip(crate::text::ws_prefix_len(s));
    crate::text::lemma_ws_suffix(m);
    assert(forall|k: int| 0 <= k < m.len() ==> m[k] == s[k + crate::text::ws_prefix_len(s)]);
    assert(trim(s) == m.take(m.len() - crate::text::ws_suffix_len(m)));
    crate::text::lemma_ws_suffix(s);
    assert(trim_end(s) == s.take(s.len() - crate::text::ws_suffix_len(s)));
}

/// In a sorted map every entry is found at its own key.
proof fn lemma_sorted_find_at<T>(s: Seq<(Seq<u8>, T)>, i: int)
    requires
        keys_sorted(s),
        0 <= i < s.len(),
    ensures
        map_find(s, s[i].0) == Some(s[i].1),
    decreases i,
{
    if i > 0 {
        assert(crate::text::lex_lt(s[0].0, s[i].0));
        crate::text::lemma_lex_connected(s[0].0, s[i].0);
        crate::sorted_map::lemma_sorted_drop_first(s);
        lemma_sorted_find_at(s.drop_first(), i - 1);
        assert(s.drop_first()[i - 1] == s[i]);
    }
}

/// Writing an existing key changes exactly that entry, in place.
proof fn lemma_put_existing<T>(s: Seq<(Seq<u8>, T)>, k: Seq<u8>, v: T)
    requires
        keys_sorted(s),
        map_find(s, k) is Some,
    ensures
        map_put(s, k, v).len() == s.len(),
        forall|i: int|
            0 <= i < s.len() ==> #[trigger] map_put(s, k, v)[i] == (if s[i].0 == k {
                (k, v)
            } else {
                s[i]
            }),
    decreases s.len(),
{
    if s.len() == 0 {
    } else if crate::text::lex_lt(k, s[0].0) {
        assert forall|i: int| 0 <= i < s.len() implies (#[trigger] s[i]).0 != k by {
            if i > 0 {
                crate::text::lemma_lex_transitive(k, s[0].0, s[i].0);
            }
            crate::text::lemma_lex_connected(k, s[i].0);
        }
        lemma_find_none(s, k);
    } else if k == s[0].0 {
        let r = map_put(s, k, v);
        assert forall|i: int| 0 <= i < s.len() implies #[trigger] r[i] == (if s[i].0 == k {
            (k, v)
        } else {
            s[i]
        }) by {
            if i > 0 {
                assert(r[i] == s.drop_first()[i - 1]);
                assert(s.drop_first()[i - 1] == s[i]);
                assert(crate::text::lex_lt(s[0].0, s[i].0));
                crate::text::lemma_lex_connected(s[0].0, s[i].0);
            }
        }
    } else {
        crate::sorted_map::lemma_sorted_drop_first(s);
        lemma_put_existing(s.drop_first(), k, v);
        let r = map_put(s, k, v);
        let rr = map_put(s.drop_first(), k, v);
        assert forall|i: int| 0 <= i < s.len() implies #[trigger] r[i] == (if s[i].0 == k {
            (k, v)
        } else {
            s[i]
        }) by {
            if i > 0 {
                assert(r[i] == rr[i - 1]);
                assert(s.drop_first()[i - 1] == s[i]);
            }
        }
    }
}

/// One override keeps the registry's length, keys, codes and messages, and
/// keeps it clean (the override's severity is trimmed, split text).
proof fn lemma_override_shape(reg: Seq<(Seq<u8>, RecordView)>, l: Seq<u8>)
    requires
        clean_reg(reg),
        no_byte(l, 10),
    ensures
        ({
            let r = crate::merge::apply_override(reg, l);
            &&& r.len() == reg.len()
            &&& forall|i: int|
                0 <= i < reg.len() ==> (#[trigger] r[i]).0 == reg[i].0 && r[i].1.code
                    == reg[i].1.code && r[i].1.message == reg[i].1.message
            &&& clean_reg(r)
        }),
{
    let r = crate::merge::apply_override(reg, l);
    if crate::merge::is_diag_line(l) {
        match crate::merge::line_override(l) {
            Some((code, sev)) => {
                // the override's severity text is clean
                crate::text::lemma_split_pieces(l, 35);
                lemma_split_pieces_no_byte(l, 35, 10);
                let before = split_byte(l, 35)[0];
                crate::text::lemma_split_nonempty(l, 35);
                let parts = split_byte(before, 61);
                crate::text::lemma_split_nonempty(before, 61);
                if parts.len() >= 2 {
                    crate::text::lemma_split_pieces(before, 61);
                    lemma_split_pieces_no_byte(before, 61, 10);
                    lemma_split_pieces_no_byte(before, 61, 35);
                    assert(no_byte(before, 35)) by {
                        if !no_byte(before, 35) {
                            let k = choose|k: int| 0 <= k < before.len() && before[k] == 35;
                            assert(before.contains(35u8));
                        }
                    }
                    assert(!parts[1].contains(61u8));
                    assert(no_byte(parts[1], 61)) by {
                        if !no_byte(parts[1], 61) {
                            let k = choose|k: int|
                                0 <= k < parts[1].len() && parts[1][k] == 61;
                            assert(parts[1].contains(61u8));
                        }
                    }
                    lemma_trim_no_byte(parts[1], 61);
                    lemma_trim_no_byte(parts[1], 35);
                    lemma_trim_no_byte(parts[1], 10);
                    crate::text::lemma_trim_idempotent(parts[1]);
                    assert(clean_sev(sev));
                    match map_find(reg, code) {
                        Some(rec) => {
                            let v2 = RecordView {
                                code: rec.code,
                                message: rec.message,
                                severity: sev,
                            };
                            lemma_put_existing(reg, code, v2);
                            assert forall|i: int| 0 <= i < r.len() implies (#[trigger] r[i]).0
                                == reg[i].0 && r[i].1.code == reg[i].1.code && r[i].1.message
                                == reg[i].1.message && clean_code(r[i].1.code) && clean_sev(
                                r[i].1.severity,
                            ) && r[i].0 == crate::text::to_lower(r[i].1.code) by {
                                if reg[i].0 == code {
                                    lemma_sorted_find_at(reg, i);
                                }
                            }
                            assert(keys_sorted(r)) by {
                                assert(forall|i: int|
                                    0 <= i < r.len() ==> (#[trigger] r[i]).0 == reg[i].0);
                            }
                        },
                        None => {},
                    }
                }
            },
            None => {},
        }
    }
}

proof fn lemma_no_byte_not_contains(s: Seq<u8>, x: u8)
    ensures
        no_byte(s, x) <==> !s.contains(x),
{
    if s.contains(x) {
        let k = choose|k: int| 0 <= k < s.len() && s[k] == x;
        assert(!no_byte(s, x));
    }
    if !no_byte(s, x) {
        let k = choose|k: int| 0 <= k < s.len() && s[k] == x;
        assert(s.contains(x));
    }
}

proof fn lemma_concat_no_byte(a: Seq<u8>, b: Seq<u8>, x: u8)
    requires
        no_byte(a, x),
        no_byte(b, x),
    ensures
        no_byte(a + b, x),
{
    assert forall|i: int| 0 <= i < (a + b).len() implies (a + b)[i] != x by {
        if i < a.len() {
            assert((a + b)[i] == a[i]);
        } else {
            assert((a + b)[i] == b[i - a.len()]);
        }
    }
}

/// A directive line reads back as exactly its own code and severity: it is a
/// directive, it survives the line discipline, and the override it carries
/// is the record's lowercase code with the record's severity text.
#[verifier::rlimit(100)]
proof fn lemma_directive_roundtrip(rec: RecordView)
    requires
        clean_code(rec.code),
        clean_sev(rec.severity),
    ensures
        line_ok(crate::merge::directive_line(rec)),
        is_diag_line(crate::merge::directive_line(rec)),
        crate::merge::line_override(crate::merge::directive_line(rec)) == Some(
            (crate::text::to_lower(rec.code), rec.severity),
        ),
{
    let p = crate::merge::diag_prefix();
    let lc = crate::text::to_lower(rec.code);
    let ix = crate::merge::sev_infix();
    let s = rec.severity;
    let h = crate::merge::hash_infix();
    let m = crate::text::cleaned(rec.message);
    let dl = crate::merge::directive_line(rec);
    assert(dl == p + lc + ix + s + h + m);
    crate::text::lemma_cleaned_bytes(rec.message);
    assert(no_byte(m, 10) && no_byte(m, 13)) by {
        assert(forall|i: int| 0 <= i < m.len() ==> m[i] == 32 || !crate::text::is_ws(m[i]));
    }
    // lowercasing a clean code stays clean
    assert(no_byte(lc, 35) && no_byte(lc, 61) && no_byte(lc, 46) && no_byte(lc, 10) && no_byte(
        lc,
        13,
    )) by {
        assert(forall|i: int|
            0 <= i < lc.len() ==> lc[i] == crate::text::lower_byte(rec.code[i]));
    }
    assert(no_byte(p, 35) && no_byte(p, 61) && no_byte(p, 10) && no_byte(p, 13));
    assert(no_byte(ix, 35) && no_byte(ix, 10) && no_byte(ix, 13));
    assert(no_byte(h, 10) && no_byte(h, 13));
    // line_ok: no line feed anywhere, no carriage return at the end
    lemma_concat_no_byte(p, lc, 10);
    lemma_concat_no_byte(p + lc, ix, 10);
    lemma_concat_no_byte(p + lc + ix, s, 10);
    lemma_concat_no_byte(p + lc + ix + s, h, 10);
    lemma_concat_no_byte(p + lc + ix + s + h, m, 10);
    assert(no_byte(dl, 10));
    assert(!dl.contains(10u8)) by {
        lemma_no_byte_not_contains(dl, 10);
    }
    assert(dl.len() > 0);
    assert(dl.last() != 13) by {
        if m.len() > 0 {
            assert(dl.last() == m.last());
            assert(!crate::text::is_ws(m.last()));
        } else {
            assert(dl.last() == h.last());
        }
    }
    // a directive line is recognized as one
    crate::text::lemma_ws_prefix(dl);
    assert(dl[0] == 100) by {
        assert(dl[0] == p[0]);
    }
    assert(crate::text::ws_prefix_len(dl) == 0) by {
        if crate::text::ws_prefix_len(dl) > 0 {
            assert(crate::text::is_ws(dl[0]));
        }
    }
    assert(crate::text::trim_start(dl) == dl) by {
        assert(dl.skip(0) =~= dl);
    }
    crate::text::lemma_ws_suffix(dl);
    let j = dl.len() - crate::text::ws_suffix_len(dl);
    assert(j > 18 + lc.len() as int) by {
        assert(dl[18 + lc.len() as int] == ix[0]) by {
            assert(dl[18 + lc.len() as int] == (p + lc + ix)[18 + lc.len() as int]);
        }
        if j <= 18 + lc.len() as int {
            assert(crate::text::is_ws(dl[18 + lc.len() as int]));
        }
    }
    assert(trim(dl) == dl.take(j));
    assert(is_diag_line(dl)) by {
        assert(p =~= dl.take(j).subrange(0, 18)) by {
            assert(forall|k: int| 0 <= k < 18 ==> dl.take(j)[k] == dl[k]);
            assert(forall|k: int| 0 <= k < 18 ==> dl[k] == p[k]);
        }
        assert(p.is_prefix_of(dl.take(j)));
    }
    // the override read back off the line
    let bpre = p + lc + ix + s + seq![32u8];
    let bpost = seq![32u8] + m;
    assert(dl =~= bpre + seq![35u8] + bpost);
    assert(no_byte(bpre, 35)) by {
        lemma_concat_no_byte(p, lc, 35);
        lemma_concat_no_byte(p + lc, ix, 35);
        lemma_concat_no_byte(p + lc + ix, s, 35);
        lemma_concat_no_byte(p + lc + ix + s, seq![32u8], 35);
    }
    lemma_no_byte_not_contains(bpre, 35);
    crate::text::lemma_split_concat(bpre, 35, bpost);
    assert(split_byte(dl, 35)[0] == bpre);
    let cpart = p + lc + seq![46u8, 115, 101, 118, 101, 114, 105, 116, 121, 32];
    let dpart = seq![32u8] + s + seq![32u8];
    assert(bpre =~= cpart + seq![61u8] + dpart);
    assert(no_byte(cpart, 61)) by {
        lemma_concat_no_byte(p, lc, 61);
        lemma_concat_no_byte(p + lc, seq![46u8, 115, 101, 118, 101, 114, 105, 116, 121, 32], 61);
    }
    assert(no_byte(dpart, 61)) by {
        lemma_concat_no_byte(seq![32u8], s, 61);
        lemma_concat_no_byte(seq![32u8] + s, seq![32u8], 61);
    }
    lemma_no_byte_not_contains(cpart, 61);
    lemma_no_byte_not_contains(dpart, 61);
    crate::text::lemma_split_concat(cpart, 61, dpart);
    crate::text::lemma_split_whole(dpart, 61);
    let parts = split_byte(bpre, 61);
    assert(parts =~= seq![cpart, dpart]);
    assert(parts.len() == 2);
    // trim of the left part exposes the dotted positions
    assert(cpart[0] == 100) by {
        assert(cpart[0] == p[0]);
    }
    crate::text::lemma_ws_prefix(cpart);
    assert(crate::text::ws_prefix_len(cpart) == 0) by {
        if crate::text::ws_prefix_len(cpart) > 0 {
            assert(crate::text::is_ws(cpart[0]));
        }
    }
    assert(crate::text::trim_start(cpart) == cpart) by {
        assert(cpart.skip(0) =~= cpart);
    }
    let cshort = p + lc + seq![46u8, 115, 101, 118, 101, 114, 105, 116, 121];
    assert(crate::text::trim_end(cpart) == cshort) by {
        assert(cpart.last() == 32);
        assert(cpart.len() >= 2);
        assert(cpart[cpart.len() - 2] == 121) by {
            assert(cpart[cpart.len() - 2] == seq![46u8, 115, 101, 118, 101, 114, 105, 116, 121,
                32][8]);
        }
        crate::text::lemma_ws_suffix_determined(cpart, 1);
        crate::text::lemma_ws_suffix(cpart);
        assert(cpart.take(cpart.len() - 1) =~= cshort);
    }
    assert(trim(cpart) == cshort);
    let epart = seq![100u8, 111, 116, 110, 101, 116, 95, 100, 105, 97, 103, 110, 111, 115, 116,
        105, 99];
    let gpart = seq![115u8, 101, 118, 101, 114, 105, 116, 121];
    assert(cshort =~= epart + seq![46u8] + (lc + seq![46u8] + gpart));
    assert(no_byte(epart, 46));
    lemma_no_byte_not_contains(epart, 46);
    lemma_no_byte_not_contains(lc, 46);
    assert(no_byte(gpart, 46));
    lemma_no_byte_not_contains(gpart, 46);
    crate::text::lemma_split_concat(epart, 46, lc + seq![46u8] + gpart);
    crate::text::lemma_split_concat(lc, 46, gpart);
    crate::text::lemma_split_whole(gpart, 46);
    let left = split_byte(trim(cpart), 46);
    assert(left =~= seq![epart, lc, gpart]);
    assert(left.len() == 3);
    assert(left[1] == lc);
    crate::text::lemma_lower_idempotent(rec.code);
    // the right part trims back to the severity text
    assert(trim(dpart) == s) by {
        crate::text::lemma_trim_idempotent(s);
        assert(dpart.drop_first() =~= s + seq![32u8]);
        assert(crate::text::trim_start(dpart) == crate::text::trim_start(s + seq![32u8]));
        if s.len() == 0 {
            assert(dpart =~= seq![32u8, 32u8]);
            crate::text::lemma_ws_prefix(dpart);
            assert(crate::text::ws_prefix_len(dpart) == 2) by {
                crate::text::lemma_ws_prefix(dpart);
                if crate::text::ws_prefix_len(dpart) < 2 {
                    assert(!crate::text::is_ws(dpart[crate::text::ws_prefix_len(dpart)]));
                }
            }
            assert(crate::text::trim_start(dpart) =~= Seq::<u8>::empty());
            assert(trim(dpart) =~= s);
        } else {
            assert((s + seq![32u8])[0] == s[0]);
            assert(!crate::text::is_ws(s[0])) by {
                assert(trim(s)[0] == s[0]);
            }
            assert(crate::text::trim_start(s + seq![32u8]) == s + seq![32u8]) by {
                crate::text::lemma_ws_prefix(s + seq![32u8]);
                if crate::text::ws_prefix_len(s + seq![32u8]) > 0 {
                    assert(crate::text::is_ws((s + seq![32u8])[0]));
                }
                assert((s + seq![32u8]).skip(0) =~= s + seq![32u8]);
            }
            assert((s + seq![32u8]).last() == 32);
            assert((s + seq![32u8]).drop_last() =~= s);
            assert(crate::text::trim_end(s + seq![32u8]) == crate::text::trim_end(s));
            assert(crate::text::trim_end(s) == s) by {
                assert(!crate::text::is_ws(s.last())) by {
                    assert(trim(s).last() == s.last());
                }
            }
        }
    }
    assert(crate::merge::line_override(dl) == Some((lc, s)));
}

/// Overrides fold over concatenation.
proof fn lemma_overrides_concat(
    reg: Seq<(Seq<u8>, RecordView)>,
    x: Seq<Seq<u8>>,
    y: Seq<Seq<u8>>,
)
    ensures
        crate::merge::apply_overrides(reg, x + y) == crate::merge::apply_overrides(
            crate::merge::apply_overrides(reg, x),
            y,
        ),
    decreases x.len(),
{
    if x.len() == 0 {
        assert(x + y =~= y);
    } else {
        assert((x + y)[0] == x[0]);
        assert((x + y).drop_first() =~= x.drop_first() + y);
        lemma_overrides_concat(crate::merge::apply_override(reg, x[0]), x.drop_first(), y);
    }
}

/// Lines that are no directives change nothing.
proof fn lemma_overrides_nondiag(reg: Seq<(Seq<u8>, RecordView)>, lines: Seq<Seq<u8>>)
    requires
        forall|i: int| 0 <= i < lines.len() ==> !is_diag_line(#[trigger] lines[i]),
    ensures
        crate::merge::apply_overrides(reg, lines) == reg,
    decreases lines.len(),
{
    if lines.len() > 0 {
        assert(forall|i: int|
            0 <= i < lines.drop_first().len() ==> #[trigger] lines.drop_first()[i] == lines[i
                + 1]);
        lemma_overrides_nondiag(reg, lines.drop_first());
    }
}

/// A whole file's overrides keep the registry's length, keys, codes and
/// messages, and keep it clean.
proof fn lemma_overrides_preserve(reg: Seq<(Seq<u8>, RecordView)>, lines: Seq<Seq<u8>>)
    requires
        clean_reg(reg),
        forall|i: int| 0 <= i < lines.len() ==> no_byte(#[trigger] lines[i], 10),
    ensures
        ({
            let r = crate::merge::apply_overrides(reg, lines);
            &&& r.len() == reg.len()
            &&& forall|i: int|
                0 <= i < reg.len() ==> (#[trigger] r[i]).0 == reg[i].0 && r[i].1.code
                    == reg[i].1.code && r[i].1.message == reg[i].1.message
            &&& clean_reg(r)
        }),
    decreases lines.len(),
{
    if lines.len() > 0 {
        lemma_override_shape(reg, lines[0]);
        assert(forall|i: int|
            0 <= i < lines.drop_first().len() ==> #[trigger] lines.drop_first()[i] == lines[i
                + 1]);
        lemma_overrides_preserve(crate::merge::apply_override(reg, lines[0]), lines.drop_first());
    }
}

/// Applying the block's directives onto a registry that differs from the
/// target only in severities yields the target.
proof fn lemma_apply_block(
    cur: Seq<(Seq<u8>, RecordView)>,
    b: Seq<(Seq<u8>, RecordView)>,
    j: int,
)
    requires
        cur.len() == b.len(),
        keys_sorted(cur),
        clean_reg(b),
        forall|i: int|
            0 <= i < b.len() ==> (#[trigger] cur[i]).0 == b[i].0 && cur[i].1.code == b[i].1.code
                && cur[i].1.message == b[i].1.message,
        forall|i: int| 0 <= i < j ==> (#[trigger] cur[i]).1 == b[i].1,
        0 <= j <= b.len(),
    ensures
        crate::merge::apply_overrides(cur, block_lines(b).skip(j)) == b,
    decreases b.len() - j,
{
    if j == b.len() {
        assert(block_lines(b).skip(j) =~= Seq::<Seq<u8>>::empty());
        assert(cur =~= b) by {
            assert(forall|i: int| 0 <= i < b.len() ==> #[trigger] cur[i] == b[i]) by {
                assert(forall|i: int|
                    0 <= i < b.len() ==> (#[trigger] cur[i]).0 == b[i].0 && cur[i].1 == b[i].1);
            }
        }
    } else {
        let bl = block_lines(b);
        assert(bl.skip(j)[0] == bl[j]);
        assert(bl[j] == crate::merge::directive_line(b[j].1));
        assert(bl.skip(j).drop_first() =~= bl.skip(j + 1));
        lemma_directive_roundtrip(b[j].1);
        let dl = crate::merge::directive_line(b[j].1);
        let key = b[j].0;
        assert(key == crate::text::to_lower(b[j].1.code));
        assert(crate::merge::line_override(dl) == Some((key, b[j].1.severity)));
        lemma_sorted_find_at(cur, j);
        assert(cur[j].0 == key);
        let rec = cur[j].1;
        assert(map_find(cur, key) == Some(rec));
        let v2 = RecordView { code: rec.code, message: rec.message, severity: b[j].1.severity };
        assert(v2 == b[j].1);
        lemma_put_existing(cur, key, v2);
        let cur2 = crate::merge::apply_override(cur, dl);
        assert(cur2 == map_put(cur, key, v2));
        assert forall|i: int| 0 <= i < b.len() && i != j implies (#[trigger] cur[i]).0 != key by {
            if cur[i].0 == key {
                if i < j {
                    assert(crate::text::lex_lt(cur[i].0, cur[j].0));
                } else {
                    assert(crate::text::lex_lt(cur[j].0, cur[i].0));
                }
                crate::text::lemma_lex_connected(key, key);
            }
        }
        assert forall|i: int| 0 <= i < b.len() implies (#[trigger] cur2[i]).0 == b[i].0
            && cur2[i].1.code == b[i].1.code && cur2[i].1.message == b[i].1.message by {
            if i == j {
                assert(cur2[i] == (key, v2));
            } else {
                assert(cur2[i] == cur[i]);
            }
        }
        assert forall|i: int| 0 <= i < j + 1 implies (#[trigger] cur2[i]).1 == b[i].1 by {
            if i == j {
                assert(cur2[j] == (key, v2));
            } else {
                assert(cur2[i] == cur[i]);
            }
        }
        assert(keys_sorted(cur2)) by {
            assert(forall|i: int| 0 <= i < cur.len() ==> (#[trigger] cur2[i]).0 == cur[i].0);
        }
        lemma_apply_block(cur2, b, j + 1);
    }
}

/// Pass-through lines are fixed points of the rewrite.
proof fn lemma_rewrite_fixed(
    reg: Seq<(Seq<u8>, RecordView)>,
    a: Seq<Seq<u8>>,
    rest: Seq<Seq<u8>>,
    w: bool,
)
    requires
        forall|i: int|
            0 <= i < a.len() ==> !is_diag_line(#[trigger] a[i]) && trim_end(a[i]) == a[i],
    ensures
        rewrite_lines(reg, a + rest, w) == a + rewrite_lines(reg, rest, w),
    decreases a.len(),
{
    if a.len() == 0 {
        assert(a + rest =~= rest);
        assert(a + rewrite_lines(reg, rest, w) =~= rewrite_lines(reg, rest, w));
    } else {
        assert((a + rest)[0] == a[0]);
        assert((a + rest).drop_first() =~= a.drop_first() + rest);
        assert(forall|i: int|
            0 <= i < a.drop_first().len() ==> #[trigger] a.drop_first()[i] == a[i + 1]);
        lemma_rewrite_fixed(reg, a.drop_first(), rest, w);
        assert(rewrite_lines(reg, a + rest, w) =~= a + rewrite_lines(reg, rest, w));
    }
}

/// Directive lines after the block are dropped.
proof fn lemma_rewrite_diag_skip(
    reg: Seq<(Seq<u8>, RecordView)>,
    d: Seq<Seq<u8>>,
    rest: Seq<Seq<u8>>,
)
    requires
        forall|i: int| 0 <= i < d.len() ==> is_diag_line(#[trigger] d[i]),
    ensures
        rewrite_lines(reg, d + rest, true) == rewrite_lines(reg, rest, true),
    decreases d.len(),
{
    if d.len() == 0 {
        assert(d + rest =~= rest);
    } else {
        assert((d + rest)[0] == d[0]);
        assert((d + rest).drop_first() =~= d.drop_first() + rest);
        assert(forall|i: int|
            0 <= i < d.drop_first().len() ==> #[trigger] d.drop_first()[i] == d[i + 1]);
        lemma_rewrite_diag_skip(reg, d.drop_first(), rest);
    }
}

/// Pass-through images: no directives, trailing trim fixed, line discipline.
proof fn lemma_pass_props(lines: Seq<Seq<u8>>)
    requires
        forall|i: int| 0 <= i < lines.len() ==> no_byte(#[trigger] lines[i], 10),
    ensures
        forall|j: int|
            0 <= j < pass_lines(lines).len() ==> !is_diag_line(#[trigger] pass_lines(lines)[j])
                && trim_end(pass_lines(lines)[j]) == pass_lines(lines)[j] && line_ok(
                pass_lines(lines)[j],
            ),
    decreases lines.len(),
{
    if lines.len() > 0 {
        assert(forall|i: int|
            0 <= i < lines.drop_first().len() ==> #[trigger] lines.drop_first()[i] == lines[i
                + 1]);
        lemma_pass_props(lines.drop_first());
        if !is_diag_line(lines[0]) {
            let te = trim_end(lines[0]);
            crate::text::lemma_trim_of_trim_end(lines[0]);
            assert(!is_diag_line(te));
            crate::text::lemma_trim_idempotent(lines[0]);
            assert(trim_end(te) == te);
            lemma_trim_no_byte(lines[0], 10);
            assert(line_ok(te)) by {
                lemma_no_byte_not_contains(te, 10);
                crate::text::lemma_ws_suffix(lines[0]);
                if te.len() > 0 {
                    assert(te.last() == lines[0][lines[0].len() - crate::text::ws_suffix_len(
                        lines[0],
                    ) - 1]);
                    assert(!crate::text::is_ws(te.last()));
                }
            }
            assert forall|j: int| 0 <= j < pass_lines(lines).len() implies !is_diag_line(
                #[trigger] pass_lines(lines)[j],
            ) && trim_end(pass_lines(lines)[j]) == pass_lines(lines)[j] && line_ok(
                pass_lines(lines)[j],
            ) by {
                if j > 0 {
                    assert(pass_lines(lines)[j] == pass_lines(lines.drop_first())[j - 1]);
                }
            }
        } else {
            assert forall|j: int| 0 <= j < pass_lines(lines).len() implies !is_diag_line(
                #[trigger] pass_lines(lines)[j],
            ) && trim_end(pass_lines(lines)[j]) == pass_lines(lines)[j] && line_ok(
                pass_lines(lines)[j],
            ) by {
                assert(pass_lines(lines)[j] == pass_lines(lines.drop_first())[j]);
            }
        }
    }
}

/// Running the merge on its own output (with the same registry) writes the
/// same bytes again.
pub proof fn lemma_merge_idempotent(reg: Seq<(Seq<u8>, RecordView)>, content: Seq<u8>)
    requires
        clean_reg(reg),
    ensures
        crate::merge::merge_spec(reg, crate::merge::merge_spec(reg, content))
            == crate::merge::merge_spec(reg, content),
{
    let ls = lines_of(content);
    lemma_lines_no_nl(content);
    let reg1 = crate::merge::apply_overrides(reg, ls);
    lemma_overrides_preserve(reg, ls);
    let out_lines = rewrite_lines(reg1, ls, false);
    let out = join_lines(out_lines);
    lemma_rewrite_shape(reg1, ls);
    let blk = block_lines(reg1);
    assert forall|j: int| 0 <= j < blk.len() implies is_diag_line(#[trigger] blk[j]) && line_ok(
        blk[j],
    ) by {
        assert(blk[j] == crate::merge::directive_line(reg1[j].1));
        lemma_directive_roundtrip(reg1[j].1);
    }
    if !has_diag(ls) {
        assert(out_lines == pass_lines(ls));
        lemma_pass_props(ls);
        lemma_lines_of_join(out_lines);
        assert(lines_of(out) == out_lines);
        lemma_overrides_nondiag(reg, out_lines);
        assert(crate::merge::apply_overrides(reg, out_lines) == reg);
        lemma_rewrite_fixed(reg, out_lines, Seq::<Seq<u8>>::empty(), false);
        assert(out_lines + Seq::<Seq<u8>>::empty() =~= out_lines);
        assert(rewrite_lines(reg, out_lines, false) == out_lines + rewrite_lines(
            reg,
            Seq::<Seq<u8>>::empty(),
            false,
        ));
        assert(out_lines + rewrite_lines(reg, Seq::<Seq<u8>>::empty(), false) =~= out_lines);
        assert(crate::merge::merge_spec(reg, out) == out);
    } else {
        let d = first_diag(ls);
        let a = pass_lines(ls.take(d));
        let b2 = pass_lines(ls.skip(d + 1));
        assert(out_lines == a + blk + b2);
        assert(forall|i: int| 0 <= i < ls.take(d).len() ==> no_byte(#[trigger] ls.take(d)[i], 10))
            by {
            assert(forall|i: int| 0 <= i < ls.take(d).len() ==> #[trigger] ls.take(d)[i] == ls[i]);
        }
        assert(forall|i: int|
            0 <= i < ls.skip(d + 1).len() ==> no_byte(#[trigger] ls.skip(d + 1)[i], 10)) by {
            assert(forall|i: int|
                0 <= i < ls.skip(d + 1).len() ==> #[trigger] ls.skip(d + 1)[i] == ls[i + d + 1]);
        }
        lemma_pass_props(ls.take(d));
        lemma_pass_props(ls.skip(d + 1));
        assert forall|i: int| 0 <= i < out_lines.len() implies line_ok(#[trigger] out_lines[i])
            by {
            if i < a.len() {
                assert(out_lines[i] == a[i]);
            } else if i < a.len() + blk.len() {
                assert(out_lines[i] == blk[i - a.len()]) by {
                    assert(out_lines[i] == (a + blk)[i]);
                }
            } else {
                assert(out_lines[i] == b2[i - a.len() - blk.len()]);
            }
        }
        lemma_lines_of_join(out_lines);
        assert(lines_of(out) == out_lines);
        // the second pass of overrides rebuilds the same registry
        assert(out_lines =~= a + (blk + b2));
        lemma_overrides_concat(reg, a, blk + b2);
        lemma_overrides_nondiag(reg, a);
        lemma_overrides_concat(reg, blk, b2);
        assert(a + (blk + b2) =~= (a + blk) + b2);
        lemma_overrides_concat(reg, a + blk, b2);
        lemma_overrides_concat(reg, a, blk);
        lemma_apply_block(reg, reg1, 0);
        assert(blk.skip(0) =~= blk);
        assert(crate::merge::apply_overrides(reg, blk) == reg1);
        lemma_overrides_nondiag(reg1, b2);
        let reg2 = crate::merge::apply_overrides(reg, out_lines);
        assert(reg2 == reg1) by {
            assert(crate::merge::apply_overrides(reg, a + blk) == reg1);
            assert(crate::merge::apply_overrides(reg, (a + blk) + b2) == reg1);
            assert(out_lines =~= (a + blk) + b2);
        }
        // the second rewrite writes the same lines
        lemma_rewrite_fixed(reg1, a, blk + b2, false);
        assert(out_lines =~= a + (blk + b2));
        assert(blk.len() > 0 ==> rewrite_lines(reg1, blk + b2, false) == blk + b2) by {
            if blk.len() > 0 {
                assert((blk + b2)[0] == blk[0]);
                assert(is_diag_line((blk + b2)[0]));
                assert((blk + b2).drop_first() =~= blk.drop_first() + b2);
                assert(forall|i: int|
                    0 <= i < blk.drop_first().len() ==> #[trigger] blk.drop_first()[i] == blk[i
                        + 1]);
                lemma_rewrite_diag_skip(reg1, blk.drop_first(), b2);
                lemma_rewrite_written(reg1, b2);
                assert(pass_lines(b2) =~= b2) by {
                    lemma_pass_fixed(b2);
                }
                assert(rewrite_lines(reg1, blk + b2, false) =~= blk + b2);
            }
        }
        assert(blk.len() == 0 ==> rewrite_lines(reg1, blk + b2, false) == blk + b2) by {
            if blk.len() == 0 {
                assert(blk + b2 =~= b2);
                lemma_rewrite_fixed(reg1, b2, Seq::<Seq<u8>>::empty(), false);
                assert(b2 + Seq::<Seq<u8>>::empty() =~= b2);
                assert(rewrite_lines(reg1, b2, false) == b2 + rewrite_lines(
                    reg1,
                    Seq::<Seq<u8>>::empty(),
                    false,
                ));
                assert(b2 + rewrite_lines(reg1, Seq::<Seq<u8>>::empty(), false) =~= b2);
            }
        }
        assert(rewrite_lines(reg1, out_lines, false) == a + (blk + b2)) by {
            assert(rewrite_lines(reg1, a + (blk + b2), false) == a + rewrite_lines(
                reg1,
                blk + b2,
                false,
            ));
        }
        assert(rewrite_lines(reg2, out_lines, false) == out_lines) by {
            assert(out_lines =~= a + (blk + b2));
        }
        assert(crate::merge::merge_spec(reg, out) == out);
    }
}

/// A sequence of fixed, non-directive lines is its own pass-through image.
proof fn lemma_pass_fixed(x: Seq<Seq<u8>>)
    requires
        forall|i: int|
            0 <= i < x.len() ==> !is_diag_line(#[trigger] x[i]) && trim_end(x[i]) == x[i],
    ensures
        pass_lines(x) == x,
    decreases x.len(),
{
    if x.len() > 0 {
        assert(forall|i: int|
            0 <= i < x.drop_first().len() ==> #[trigger] x.drop_first()[i] == x[i + 1]);
        lemma_pass_fixed(x.drop_first());
        assert(pass_lines(x) =~= x);
    }
}


} // verus!
