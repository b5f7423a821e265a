use vstd::prelude::*;
use crate::event::{LogEvent, lookup, message_key};

verus! {

/// How a log record becomes one output line.
#[derive(Clone, Copy, Debug, PartialEq, Eq)]
pub enum BasicEncoding {
    /// The record's message field, verbatim.
    Text,
    /// The whole record as one JSON object.
    Json,
}

pub const NEWLINE: u8 = 10;

/// The bytes that the JSON encoder produces for a record's fields.
pub uninterp spec fn json_of(fields: Seq<(Seq<u8>, Seq<u8>)>) -> Seq<u8>;

/// Relies on serde_json::Map::insert and serde_json::to_vec: the object's text
/// depends on the fields alone (a later field of a name replaces an earlier
/// one), and serialising a map of strings cannot fail. Names and values are
/// read as UTF-8, invalid sequences replaced.
#[verifier::external_body]
fn fields_to_json(fields: &Vec<(Vec<u8>, Vec<u8>)>) -> (r: Vec<u8>)
    ensures
        r@ == json_of(fields@.map_values(|p: (Vec<u8>, Vec<u8>)| (p.0@, p.1@))),
{
    let mut map = serde_json::Map::new();
    for (k, v) in fields.iter() {
        map.insert(
            String::from_utf8_lossy(k).into_owned(),
            serde_json::Value::String(String::from_utf8_lossy(v).into_owned()),
        );
    }
    serde_json::to_vec(&serde_json::Value::Object(map)).unwrap_or_default()
}

/// The line body of a record: its message for text (empty when it has
/// none), its JSON object otherwise. An unset encoding means text.
pub open spec fn body_spec(event: Seq<(Seq<u8>, Seq<u8>)>, encoding: Option<BasicEncoding>) -> Seq<u8> {
    match encoding {
        Some(BasicEncoding::Json) => json_of(event),
        _ => match lookup(event, message_key()) {
            Some(m) => m,
            None => Seq::empty(),
        },
    }
}

/// One record: its body followed by a line terminator.
pub open spec fn record_spec(event: Seq<(Seq<u8>, Seq<u8>)>, encoding: Option<BasicEncoding>) -> Seq<u8> {
    body_spec(event, encoding).push(NEWLINE)
}

/// Encodes a record as one newline-terminated line.
pub fn log_event_as_bytes_with_nl(event: &LogEvent, encoding: Option<BasicEncoding>) -> (r: Vec<u8>)
    ensures
        r@ == record_spec(event@, encoding),
{
    let mut out = match encoding {
        Some(BasicEncoding::Json) => fields_to_json(&event.fields),
        _ => {
            let key: Vec<u8> = vec![109u8, 101u8, 115u8, 115u8, 97u8, 103u8, 101u8];
            assert(key@ =~= message_key());
            match event.get(key.as_slice()) {
                Some(m) => m.clone(),
                None => Vec::new(),
            }
        },
    };
    out.push(NEWLINE);
    out
}

/// Position of the first line terminator in `s`, or its length.
pub open spec fn line_end(s: Seq<u8>) -> nat
    decreases s.len(),
{
    if s.len() == 0 {
        0
    } else if s[0] == NEWLINE {
        0
    } else {
        1 + line_end(s.drop_first())
    }
}

/// The lines of a file's contents, as a reader sees them: split at each
/// terminator, with no empty line after a final terminator.
pub open spec fn lines_of(s: Seq<u8>) -> Seq<Seq<u8>>
    decreases s.len(),
{
    if s.len() == 0 {
        Seq::empty()
    } else {
        let k = line_end(s);
        if k >= s.len() {
            seq![s]
        } else {
            seq![s.take(k as int)] + lines_of(s.skip(k + 1int))
        }
    }
}

/// Contents after appending each buffer in turn.
pub open spec fn concat_all(bufs: Seq<Seq<u8>>) -> Seq<u8>
    decreases bufs.len(),
{
    if bufs.len() == 0 {
        Seq::empty()
    } else {
        bufs[0] + concat_all(bufs.drop_first())
    }
}

pub open spec fn has_no_newline(s: Seq<u8>) -> bool {
    forall|i: int| 0 <= i < s.len() ==> s[i] != NEWLINE
}

/// Empty, or ending in a line terminator.
pub open spec fn is_whole_lines(s: Seq<u8>) -> bool {
    s.len() == 0 || s.last() == NEWLINE
}

proof fn lemma_line_end_of_line(m: Seq<u8>, rest: Seq<u8>)
    requires
        has_no_newline(m),
    ensures
        line_end(m.push(NEWLINE) + rest) == m.len(),
    decreases m.len(),
{
    let s = m.push(NEWLINE) + rest;
    if m.len() > 0 {
        lemma_line_end_of_line(m.drop_first(), rest);
        assert(s.drop_first() =~= m.drop_first().push(NEWLINE) + rest);
    }
}

proof fn lemma_line_end_bounded(s: Seq<u8>)
    ensures
        line_end(s) <= s.len(),
        line_end(s) < s.len() ==> s[line_end(s) as int] == NEWLINE,
        forall|i: int| 0 <= i < line_end(s) ==> s[i] != NEWLINE,
    decreases s.len(),
{
    if s.len() > 0 && s[0] != NEWLINE {
        lemma_line_end_bounded(s.drop_first());
        assert forall|i: int| 0 <= i < line_end(s) implies s[i] != NEWLINE by {
            if i > 0 {
                assert(s[i] == s.drop_first()[i - 1]);
            }
        }
    }
}

/// Records of newline-free messages, written one after another, read back
/// as exactly those messages, in order.
pub proof fn lemma_lines_of_records(msgs: Seq<Seq<u8>>)
    requires
        forall|i: int| 0 <= i < msgs.len() ==> has_no_newline(#[trigger] msgs[i]),
    ensures
        lines_of(concat_all(msgs.map_values(|m: Seq<u8>| m.push(NEWLINE)))) == msgs,
    decreases msgs.len(),
{
    let recs = msgs.map_values(|m: Seq<u8>| m.push(NEWLINE));
    if msgs.len() > 0 {
        let m = msgs[0];
        let tail = msgs.drop_first();
        assert(recs.drop_first() =~= tail.map_values(|m: Seq<u8>| m.push(NEWLINE)));
        let rest = concat_all(recs.drop_first());
        let s = concat_all(recs);
        assert(s == m.push(NEWLINE) + rest);
        lemma_line_end_of_line(m, rest);
        assert(forall|i: int| 0 <= i < tail.len() ==> tail[i] == msgs[i + 1]);
        lemma_lines_of_records(tail);
        assert(s.take(m.len() as int) =~= m);
        assert(s.skip(m.len() + 1int) =~= rest);
        assert(lines_of(s) =~= seq![m] + tail);
        assert(msgs =~= seq![m] + tail);
    } else {
        assert(recs.len() == 0);
    }
}

proof fn lemma_line_end_append(a: Seq<u8>, b: Seq<u8>)
    requires
        line_end(a) < a.len(),
    ensures
        line_end(a + b) == line_end(a),
    decreases a.len(),
{
    if a[0] != NEWLINE {
        assert((a + b).drop_first() =~= a.drop_first() + b);
        lemma_line_end_append(a.drop_first(), b);
    }
}

/// Appending whole lines to whole lines: the lines read back are those
/// already there followed by the new ones.
pub proof fn lemma_lines_of_append(a: Seq<u8>, b: Seq<u8>)
    requires
        is_whole_lines(a),
    ensures
        lines_of(a + b) == lines_of(a) + lines_of(b),
    decreases a.len(),
{
    if a.len() == 0 {
        assert(a + b =~= b);
        assert(lines_of(a) =~= Seq::<Seq<u8>>::empty());
        assert(lines_of(a) + lines_of(b) =~= lines_of(b));
    } else {
        lemma_line_end_bounded(a);
        let k = line_end(a);
        if k >= a.len() {
            assert(a[a.len() - 1] == NEWLINE);
            assert(false);
        }
        lemma_line_end_append(a, b);
        let ab = a + b;
        assert(ab.take(k as int) =~= a.take(k as int));
        assert(ab.skip(k + 1int) =~= a.skip(k + 1int) + b);
        let a2 = a.skip(k + 1int);
        assert(a2.len() == 0 || a2.last() == a.last());
        lemma_lines_of_append(a2, b);
        assert(lines_of(ab) =~= lines_of(a) + lines_of(b));
    }
}

/// The text records of a sequence of events, one after another.
pub open spec fn text_records(events: Seq<Seq<(Seq<u8>, Seq<u8>)>>) -> Seq<Seq<u8>> {
    events.map_values(|e: Seq<(Seq<u8>, Seq<u8>)>| record_spec(e, Some(BasicEncoding::Text)))
}

/// The messages of a sequence of events, as text encoding renders them.
pub open spec fn text_bodies(events: Seq<Seq<(Seq<u8>, Seq<u8>)>>) -> Seq<Seq<u8>> {
    events.map_values(|e: Seq<(Seq<u8>, Seq<u8>)>| body_spec(e, Some(BasicEncoding::Text)))
}

proof fn lemma_text_records_are_lines(events: Seq<Seq<(Seq<u8>, Seq<u8>)>>)
    ensures
        text_records(events) == text_bodies(events).map_values(|m: Seq<u8>| m.push(NEWLINE)),
{
    assert(text_records(events) =~= text_bodies(events).map_values(
        |m: Seq<u8>| m.push(NEWLINE),
    ));
}

proof fn lemma_concat_whole_lines(bufs: Seq<Seq<u8>>)
    requires
        forall|i: int| 0 <= i < bufs.len() ==> (#[trigger] bufs[i]).len() > 0 && bufs[i].last()
            == NEWLINE,
    ensures
        is_whole_lines(concat_all(bufs)),
    decreases bufs.len(),
{
    if bufs.len() > 0 {
        let tail = bufs.drop_first();
        assert(forall|i: int| 0 <= i < tail.len() ==> tail[i] == bufs[i + 1]);
        lemma_concat_whole_lines(tail);
        let rest = concat_all(tail);
        if rest.len() > 0 {
            assert((bufs[0] + rest).last() == rest.last());
        } else {
            assert(bufs[0] + rest =~= bufs[0]);
        }
    }
}

/// Text records of events whose messages hold no line terminator, written to
/// a file in turn, read back as exactly those messages, one line each, in order.
pub proof fn lemma_text_file_reads_back(events: Seq<Seq<(Seq<u8>, Seq<u8>)>>)
    requires
        forall|i: int| 0 <= i < events.len() ==> has_no_newline(
            body_spec(#[trigger] events[i], Some(BasicEncoding::Text)),
        ),
    ensures
        lines_of(concat_all(text_records(events))) == text_bodies(events),
        lines_of(concat_all(text_records(events))).len() == events.len(),
{
    lemma_text_records_are_lines(events);
    let msgs = text_bodies(events);
    assert forall|i: int| 0 <= i < msgs.len() implies has_no_newline(#[trigger] msgs[i]) by {
        assert(msgs[i] == body_spec(events[i], Some(BasicEncoding::Text)));
    }
    lemma_lines_of_records(msgs);
}

/// A file that already holds the text records of earlier events, opened again
/// for appending and given the records of later ones, reads back as the earlier
/// messages followed by the later ones: nothing is truncated.
pub proof fn lemma_reopened_file_appends(
    first: Seq<Seq<(Seq<u8>, Seq<u8>)>>,
    second: Seq<Seq<(Seq<u8>, Seq<u8>)>>,
)
    requires
        forall|i: int| 0 <= i < first.len() ==> has_no_newline(
            body_spec(#[trigger] first[i], Some(BasicEncoding::Text)),
        ),
        forall|i: int| 0 <= i < second.len() ==> has_no_newline(
            body_spec(#[trigger] second[i], Some(BasicEncoding::Text)),
        ),
    ensures
        lines_of(concat_all(text_records(first)) + concat_all(text_records(second)))
            == text_bodies(first) + text_bodies(second),
        lines_of(concat_all(text_records(first)) + concat_all(text_records(second))).len()
            == first.len() + second.len(),
{
    let r1 = text_records(first);
    assert forall|i: int| 0 <= i < r1.len() implies (#[trigger] r1[i]).len() > 0 && r1[i].last()
        == NEWLINE by {
        assert(r1[i] == record_spec(first[i], Some(BasicEncoding::Text)));
    }
    lemma_concat_whole_lines(r1);
    lemma_lines_of_append(concat_all(r1), concat_all(text_records(second)));
    lemma_text_file_reads_back(first);
    lemma_text_file_reads_back(second);
}

} // verus!
