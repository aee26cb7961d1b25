//! The message-table parser: a three-state machine over the event stream of
//! a localization document. A `data` element whose `name` attribute was
//! captured arms the machine; a nested `value` start begins text
//! accumulation; the matching `value` end commits the accumulated text under
//! the captured name. Nesting that never reaches the accumulating state
//! records nothing, and a dangling open `value` at end of input is dropped.
//!
//! The tokenizing itself is quick_xml's work, behind trusted wrappers; the
//! state machine below is verified over the event stream those hand back.

use crate::registry::FormatError;
use crate::sorted_map::{map_put, SortedMap};
use quick_xml::events::Event;
use vstd::prelude::*;

verus! {

/// One markup event, reduced to plain bytes: an element start with its
/// attributes, a text node (unescaped), or an element end.
#[derive(Debug)]
pub enum RawEvent {
    Start(Vec<u8>, Vec<(Vec<u8>, Vec<u8>)>),
    Text(Vec<u8>),
    End(Vec<u8>),
}

/// `data`
pub open spec fn data_word() -> Seq<u8> {
    seq![100u8, 97, 116, 97]
}

/// `value`
pub open spec fn value_word() -> Seq<u8> {
    seq![118u8, 97, 108, 117, 101]
}

/// `name`
pub open spec fn name_word() -> Seq<u8> {
    seq![110u8, 97, 109, 101]
}

/// The value of the last `name` attribute on the element, if any; scanning
/// every attribute and keeping the last matches taking them in order.
pub open spec fn last_name_attr(attrs: Seq<(Vec<u8>, Vec<u8>)>) -> Option<Seq<u8>>
    decreases attrs.len(),
{
    if attrs.len() == 0 {
        None
    } else if attrs.last().0@ == name_word() {
        Some(attrs.last().1@)
    } else {
        last_name_attr(attrs.drop_last())
    }
}

/// The machine's state: 0 idle, 1 have-name, 2 in-value.
pub ghost struct ResxState {
    pub stage: int,
    pub name: Seq<u8>,
    pub txt: Seq<u8>,
    pub map: Seq<(Seq<u8>, Seq<u8>)>,
}

pub open spec fn resx_init() -> ResxState {
    ResxState { stage: 0, name: Seq::<u8>::empty(), txt: Seq::<u8>::empty(), map: Seq::<(
        Seq<u8>,
        Seq<u8>,
    )>::empty() }
}

/// One transition of the state machine.
pub open spec fn resx_step(st: ResxState, e: RawEvent) -> ResxState {
    match e {
        RawEvent::Start(n, attrs) => {
            if n@ == data_word() {
                match last_name_attr(attrs@) {
                    Some(nm) => ResxState { stage: 1, name: nm, ..st },
                    None => st,
                }
            } else if n@ == value_word() {
                if st.stage == 1 {
                    ResxState { stage: 2, txt: Seq::<u8>::empty(), ..st }
                } else {
                    st
                }
            } else {
                st
            }
        },
        RawEvent::Text(t) => {
            if st.stage == 2 {
                ResxState { txt: st.txt + t@, ..st }
            } else {
                st
            }
        },
        RawEvent::End(n) => {
            if st.stage == 2 && n@ == value_word() {
                ResxState { stage: 0, map: map_put(st.map, st.name, st.txt), ..st }
            } else {
                st
            }
        },
    }
}

pub open spec fn resx_run(events: Seq<RawEvent>, st: ResxState) -> ResxState
    decreases events.len(),
{
    if events.len() == 0 {
        st
    } else {
        resx_run(events.drop_first(), resx_step(st, events[0]))
    }
}

/// The mapping committed by a whole event stream.
pub open spec fn resx_messages(events: Seq<RawEvent>) -> Seq<(Seq<u8>, Seq<u8>)> {
    resx_run(events, resx_init()).map
}

fn data_vec() -> (r: Vec<u8>)
    ensures
        r@ == data_word(),
{
    let mut r: Vec<u8> = Vec::new();
    r.push(100);
    r.push(97);
    r.push(116);
    r.push(97);
    proof {
        assert(r@ =~= data_word());
    }
    r
}

fn value_vec() -> (r: Vec<u8>)
    ensures
        r@ == value_word(),
{
    let mut r: Vec<u8> = Vec::new();
    r.push(118);
    r.push(97);
    r.push(108);
    r.push(117);
    r.push(101);
    proof {
        assert(r@ =~= value_word());
    }
    r
}

fn name_vec() -> (r: Vec<u8>)
    ensures
        r@ == name_word(),
{
    let mut r: Vec<u8> = Vec::new();
    r.push(110);
    r.push(97);
    r.push(109);
    r.push(101);
    proof {
        assert(r@ =~= name_word());
    }
    r
}

/// Find the last `name` attribute's value.
fn find_name_attr(attrs: &Vec<(Vec<u8>, Vec<u8>)>) -> (r: Option<Vec<u8>>)
    ensures
        match r {
            Some(v) => last_name_attr(attrs@) == Some(v@),
            None => last_name_attr(attrs@) is None,
        },
{
    let name_w = name_vec();
    let n = attrs.len();
    let mut found: Option<Vec<u8>> = None;
    let mut i: usize = 0;
    proof {
        assert(attrs@.take(0) =~= Seq::<(Vec<u8>, Vec<u8>)>::empty());
    }
    while i < n
        invariant
            0 <= i <= n == attrs@.len(),
            name_w@ == name_word(),
            match found {
                Some(v) => last_name_attr(attrs@.take(i as int)) == Some(v@),
                None => last_name_attr(attrs@.take(i as int)) is None,
            },
        decreases n - i,
    {
        proof {
            assert(attrs@.take(i + 1).drop_last() =~= attrs@.take(i as int));
            assert(attrs@.take(i + 1).last() == attrs@[i as int]);
        }
        let a = &attrs[i];
        if crate::text::eq_bytes(&a.0, &name_w) {
            found = Some(a.1.clone());
        }
        i += 1;
    }
    proof {
        assert(attrs@.take(n as int) =~= attrs@);
    }
    found
}

/// Run the state machine over an event stream, committing each completed
/// `data`/`value` pair; repeated names overwrite.
pub fn extract_messages(events: &Vec<RawEvent>) -> (m: SortedMap<Vec<u8>>)
    ensures
        m@ == resx_messages(events@),
        m.wf(),
{
    let data_w = data_vec();
    let value_w = value_vec();
    let n = events.len();
    let mut stage: u8 = 0;
    let mut name: Vec<u8> = Vec::new();
    let mut txt: Vec<u8> = Vec::new();
    let mut map: SortedMap<Vec<u8>> = SortedMap::new();
    let mut i: usize = 0;
    proof {
        assert(events@.skip(0) =~= events@);
    }
    while i < n
        invariant
            0 <= i <= n == events@.len(),
            data_w@ == data_word(),
            value_w@ == value_word(),
            stage <= 2,
            map.wf(),
            resx_run(events@, resx_init()) == resx_run(
                events@.skip(i as int),
                ResxState { stage: stage as int, name: name@, txt: txt@, map: map@ },
            ),
        decreases n - i,
    {
        let ghost st = ResxState { stage: stage as int, name: name@, txt: txt@, map: map@ };
        proof {
            assert(events@.skip(i as int)[0] == events@[i as int]);
            assert(events@.skip(i as int).drop_first() =~= events@.skip(i + 1));
        }
        match &events[i] {
            RawEvent::Start(en, attrs) => {
                if crate::text::eq_bytes(en, &data_w) {
                    match find_name_attr(attrs) {
                        Some(nm) => {
                            stage = 1;
                            name = nm;
                        },
                        None => {},
                    }
                } else if crate::text::eq_bytes(en, &value_w) {
                    if stage == 1 {
                        stage = 2;
                        txt = Vec::new();
                    }
                }
            },
            RawEvent::Text(t) => {
                if stage == 2 {
                    let mut t2 = t.clone();
                    txt.append(&mut t2);
                }
            },
            RawEvent::End(en) => {
                if stage == 2 && crate::text::eq_bytes(en, &value_w) {
                    stage = 0;
                    let nm = name.clone();
                    let tx = txt.clone();
                    map.insert(nm, tx);
                }
            },
        }
        proof {
            let st2 = ResxState { stage: stage as int, name: name@, txt: txt@, map: map@ };
            assert(st2 == resx_step(st, events@[i as int]));
        }
        i += 1;
    }
    proof {
        assert(events@.skip(n as int) =~= Seq::<RawEvent>::empty());
    }
    map
}

#[verifier::external_type_specification]
#[verifier::external_body]
pub struct ExBytesStart<'a>(quick_xml::events::BytesStart<'a>);

#[verifier::external_type_specification]
#[verifier::external_body]
pub struct ExBytesText<'a>(quick_xml::events::BytesText<'a>);

#[verifier::external_type_specification]
#[verifier::external_body]
pub struct ExBytesEnd<'a>(quick_xml::events::BytesEnd<'a>);

/// Relies on quick_xml's `BytesStart::name` and `attributes`: the element
/// name and the attribute keys and raw values as bytes; `None` on an
/// attribute parse error.
#[verifier::external_body]
fn start_event(e: &quick_xml::events::BytesStart) -> (r: Option<RawEvent>)
    ensures
        r matches Some(v) ==> v is Start,
{
    let name = e.name().as_ref().to_vec();
    let mut attrs: Vec<(Vec<u8>, Vec<u8>)> = Vec::new();
    for a in e.attributes() {
        match a {
            Ok(a) => attrs.push((a.key.as_ref().to_vec(), a.value.to_vec())),
            Err(_) => return None,
        }
    }
    Some(RawEvent::Start(name, attrs))
}

/// Relies on quick_xml's `BytesText::unescape`: the text content with
/// entities resolved; `None` on an escape error.
#[verifier::external_body]
fn text_event(e: &quick_xml::events::BytesText) -> (r: Option<RawEvent>)
    ensures
        r matches Some(v) ==> v is Text,
{
    match e.unescape() {
        Ok(t) => Some(RawEvent::Text(t.into_owned().into_bytes())),
        Err(_) => None,
    }
}

/// Relies on quick_xml's `BytesEnd::name`: the closing element's name.
#[verifier::external_body]
fn end_event(e: &quick_xml::events::BytesEnd) -> (r: RawEvent)
    ensures
        r is End,
{
    RawEvent::End(e.name().as_ref().to_vec())
}

/// The event stream that tokenizing a document yields, `None` on malformed
/// markup; a function of the document bytes alone.
pub uninterp spec fn xml_events_of(data: Seq<u8>) -> Option<Seq<RawEvent>>;

/// Relies on quick_xml's `Reader` over an in-memory slice, with text
/// trimming on: `read_event_into` walks the document and hands out start,
/// text and end events until end of input; any reader, attribute or escape
/// error is `None`. The stream depends on the document bytes alone.
#[verifier::external_body]
fn read_xml_events(data: &Vec<u8>) -> (r: Option<Vec<RawEvent>>)
    ensures
        r matches Some(v) ==> Some(v@) == xml_events_of(data@),
        r is Some <==> xml_events_of(data@) is Some,
{
    let mut rd = quick_xml::reader::Reader::from_reader(data.as_slice());
    rd.trim_text(true);
    let mut out: Vec<RawEvent> = Vec::new();
    let mut buf: Vec<u8> = Vec::new();
    loop {
        match rd.read_event_into(&mut buf) {
            Ok(Event::Start(e)) => match start_event(&e) { Some(v) => out.push(v), None => return None },
            Ok(Event::Text(e)) => match text_event(&e) { Some(v) => out.push(v), None => return None },
            Ok(Event::End(e)) => out.push(end_event(&e)),
            Ok(Event::Eof) => return Some(out),
            Err(_) => return None,
            _ => {},
        }
    }
}

/// Parse a localization document into its name-to-message mapping. `Err`
/// exactly when the document's markup is malformed; otherwise the mapping
/// the state machine commits over the document's event stream.
pub fn parse_message_table(data: &Vec<u8>) -> (r: Result<SortedMap<Vec<u8>>, FormatError>)
    ensures
        match r {
            Ok(m) => (match xml_events_of(data@) {
                Some(evs) => m@ == resx_messages(evs) && m.wf(),
                None => false,
            }),
            Err(e) => xml_events_of(data@) is None && e == FormatError::MalformedXml,
        },
{
    match read_xml_events(data) {
        Some(events) => Ok(extract_messages(&events)),
        None => Err(FormatError::MalformedXml),
    }
}

} // verus!
