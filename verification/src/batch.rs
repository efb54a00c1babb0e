//! The pipeline for one line and for a batch of inputs.
use vstd::prelude::*;
use crate::json::{array_key, json_document, json_pairs, try_parse_json, DocModel};
use crate::pair::{clean, clean_value, pair_split, KVParser};
use crate::patterns::{boundary_starts, header_normalized, PatternRegistry};
use crate::record::{
    assemble, assembled, field_views, joined, keys_distinct, lemma_assembled_distinct,
    lemma_assembled_keeps, lemma_assembled_keeps_all, unparsed_key, Field,
};
use crate::segment::{lemma_segments_cover, segments_of, split_segments, views};
use crate::text::{lowercased, to_chars, to_lowercase, to_text, trim, trimmed};

verus! {

/// The compact JSON text of a value; `None` where it cannot be written.
pub uninterp spec fn json_text(value: serde_json::Value) -> Option<Seq<char>>;

/// `serde_json::to_string` on a `serde_json::Value`: the compact JSON text,
/// or `None` on the serializer's error.
#[verifier::external_body]
fn serialize(value: &serde_json::Value) -> (r: Option<String>)
    ensures
        r is Some <==> json_text(*value) is Some,
        r matches Some(s) ==> json_text(*value) == Some(s@),
{
    serde_json::to_string(value).ok()
}

/// One input of a batch.
pub enum Input {
    /// A line of text that is still to be parsed.
    RawText(String),
    /// A record that the caller has parsed already.
    StructuredValue(serde_json::Value),
}

/// What a record holds beside its text.
pub enum Payload {
    /// The ordered field mapping of a parsed line.
    Fields(Vec<Field>),
    /// The structure that the caller supplied, as it came.
    Structured(serde_json::Value),
}

/// The outcome for one input.
pub struct Record {
    pub text: String,
    pub payload: Payload,
}

/// The pairs of the segments that fit the pair shape, in order: the key in
/// lowercase, the value cleaned.
pub open spec fn extracted(segs: Seq<Seq<char>>) -> Seq<(Seq<char>, Seq<char>)>
    decreases segs.len(),
{
    if segs.len() == 0 {
        Seq::empty()
    } else {
        let prev = extracted(segs.drop_last());
        match pair_split(trimmed(segs.last())) {
            Some((k, v)) => prev.push((lowercased(k), clean_value(v))),
            None => prev,
        }
    }
}

/// The trimmed text of every segment that is not empty and does not fit the
/// pair shape, in order.
pub open spec fn leftover(segs: Seq<Seq<char>>) -> Seq<Seq<char>>
    decreases segs.len(),
{
    if segs.len() == 0 {
        Seq::empty()
    } else {
        let prev = leftover(segs.drop_last());
        let s = trimmed(segs.last());
        if s.len() > 0 && pair_split(s) is None {
            prev.push(s)
        } else {
            prev
        }
    }
}

/// The segments of a line on the heuristic path.
pub open spec fn line_segments(raw: Seq<char>) -> Seq<Seq<char>> {
    let content = header_normalized(raw);
    segments_of(content, boundary_starts(content))
}

/// The field mapping of a line.
pub open spec fn line_fields(raw: Seq<char>) -> Seq<(Seq<char>, Seq<char>)> {
    match json_pairs(trimmed(raw)) {
        Some(pairs) => assembled(pairs, Seq::empty()),
        None => assembled(extracted(line_segments(raw)), leftover(line_segments(raw))),
    }
}

/// The text of a record for a structured input.
pub open spec fn structured_text(rendered: Option<Seq<char>>) -> Seq<char> {
    match rendered {
        Some(s) => s,
        None => "{}"@,
    }
}

/// `record` is what `input` asks for.
pub open spec fn record_of(input: Input, record: Record) -> bool {
    match input {
        Input::RawText(s) => {
            &&& record.text@ == s@
            &&& record.payload matches Payload::Fields(f)
            &&& field_views(f@) == line_fields(s@)
        },
        Input::StructuredValue(v) => {
            &&& record.text@ == structured_text(json_text(v))
            &&& record.payload == Payload::Structured(v)
        },
    }
}

/// Every segment ends up in exactly one place: a segment that is empty
/// after trimming adds nothing, one that fits the pair shape adds one pair,
/// any other adds its trimmed text to the leftovers.
pub proof fn lemma_segment_accounted(segs: Seq<Seq<char>>, seg: Seq<char>)
    ensures
        ({
            let s = trimmed(seg);
            let all = segs.push(seg);
            &&& pair_split(s) matches Some((k, v)) ==> {
                &&& extracted(all) == extracted(segs).push((lowercased(k), clean_value(v)))
                &&& leftover(all) == leftover(segs)
            }
            &&& pair_split(s) is None && s.len() > 0 ==> {
                &&& extracted(all) == extracted(segs)
                &&& leftover(all) == leftover(segs).push(s)
            }
            &&& s.len() == 0 ==> extracted(all) == extracted(segs) && leftover(all) == leftover(
                segs,
            )
        }),
{
    let all = segs.push(seg);
    assert(all.drop_last() =~= segs);
    assert(all.last() == seg);
}

/// Every extracted pair has a key in lowercase and a value that is not
/// empty.
pub proof fn lemma_extracted_pairs(segs: Seq<Seq<char>>, i: int)
    requires
        0 <= i < extracted(segs).len(),
    ensures
        extracted(segs)[i].1.len() > 0,
        exists|k: Seq<char>| extracted(segs)[i].0 == lowercased(k),
    decreases segs.len(),
{
    if segs.len() > 0 {
        let prev = extracted(segs.drop_last());
        if i < prev.len() {
            lemma_extracted_pairs(segs.drop_last(), i);
        } else {
            let (k, v) = pair_split(trimmed(segs.last())).unwrap();
            assert(extracted(segs)[i].0 == lowercased(k));
        }
    }
}

/// On the heuristic path the segments of a line, put end to end, are the
/// line with its headers in normal form: segmentation loses no character.
pub proof fn lemma_line_segments_cover(raw: Seq<char>)
    ensures
        line_segments(raw).flatten() =~= header_normalized(raw),
{
    let content = header_normalized(raw);
    lemma_segments_cover(content, boundary_starts(content));
}

/// On the heuristic path, where the segments give no key twice and none
/// gives the reserved key, the field mapping of a line is every extracted
/// pair in the order of the segments, followed by every leftover segment
/// under the reserved key: no pair and no leftover is replaced.
pub proof fn lemma_line_keeps_all(raw: Seq<char>)
    requires
        json_pairs(trimmed(raw)) is None,
        keys_distinct(extracted(line_segments(raw))),
        forall|i: int|
            0 <= i < extracted(line_segments(raw)).len() ==> (#[trigger] extracted(
                line_segments(raw),
            )[i]).0 != unparsed_key(),
    ensures
        line_fields(raw) == if leftover(line_segments(raw)).len() > 0 {
            extracted(line_segments(raw)).push(
                (unparsed_key(), joined(leftover(line_segments(raw)))),
            )
        } else {
            extracted(line_segments(raw))
        },
{
    lemma_assembled_keeps_all(extracted(line_segments(raw)), leftover(line_segments(raw)));
}

/// No leftover segment is empty.
pub proof fn lemma_leftover_nonempty(segs: Seq<Seq<char>>, i: int)
    requires
        0 <= i < leftover(segs).len(),
    ensures
        leftover(segs)[i].len() > 0,
    decreases segs.len(),
{
    if segs.len() > 0 {
        if i < leftover(segs.drop_last()).len() {
            lemma_leftover_nonempty(segs.drop_last(), i);
        }
    }
}

/// A key as a record may hold it: the lowercase form of some text, or one
/// of the two reserved keys.
pub open spec fn is_emitted_key(k: Seq<char>) -> bool {
    ||| exists|s: Seq<char>| k == lowercased(s)
    ||| k == unparsed_key()
    ||| k == array_key()
}

/// Every key of the field mapping of a line is the lowercase form of a key
/// of the source or a reserved key, and no key occurs twice.
pub proof fn lemma_line_keys(raw: Seq<char>)
    ensures
        keys_distinct(line_fields(raw)),
        forall|i: int|
            0 <= i < line_fields(raw).len() ==> is_emitted_key((#[trigger] line_fields(raw)[i]).0),
{
    let holds = |p: (Seq<char>, Seq<char>)| is_emitted_key(p.0);
    match json_pairs(trimmed(raw)) {
        Some(pairs) => {
            assert forall|i: int| 0 <= i < pairs.len() implies holds(#[trigger] pairs[i]) by {
                match json_document(trimmed(raw)).unwrap() {
                    DocModel::Object(members) => {
                        assert(pairs[i].0 == lowercased(members[i].key));
                    },
                    DocModel::Array => {},
                    DocModel::Scalar => {},
                }
            }
            lemma_assembled_keeps(pairs, Seq::empty(), holds);
            lemma_assembled_distinct(pairs, Seq::empty());
        },
        None => {
            let segs = line_segments(raw);
            assert forall|i: int| 0 <= i < extracted(segs).len() implies holds(
                #[trigger] extracted(segs)[i],
            ) by {
                lemma_extracted_pairs(segs, i);
            }
            lemma_assembled_keeps(extracted(segs), leftover(segs), holds);
            lemma_assembled_distinct(extracted(segs), leftover(segs));
        },
    }
}

/// On the heuristic path no field of a line has an empty value.
pub proof fn lemma_heuristic_values_nonempty(raw: Seq<char>)
    requires
        json_pairs(trimmed(raw)) is None,
    ensures
        forall|i: int|
            0 <= i < line_fields(raw).len() ==> (#[trigger] line_fields(raw)[i]).1.len() > 0,
{
    let holds = |p: (Seq<char>, Seq<char>)| p.1.len() > 0;
    let segs = line_segments(raw);
    let rest = leftover(segs);
    assert forall|i: int| 0 <= i < extracted(segs).len() implies holds(
        #[trigger] extracted(segs)[i],
    ) by {
        lemma_extracted_pairs(segs, i);
    }
    if rest.len() > 0 {
        if rest.len() == 1 {
            lemma_leftover_nonempty(segs, 0);
        } else {
            assert(joined(rest) == joined(rest.drop_last()) + seq![' '] + rest.last());
        }
    }
    lemma_assembled_keeps(extracted(segs), rest, holds);
}

/// Reads every segment as a pair: the pairs that were found, and the
/// trimmed text of the segments that are none.
pub fn scan_segments(segs: &Vec<Vec<char>>) -> (r: (Vec<Field>, Vec<Vec<char>>))
    ensures
        field_views(r.0@) == extracted(views(segs@)),
        views(r.1@) == leftover(views(segs@)),
{
    let ghost all = views(segs@);
    let mut found: Vec<Field> = Vec::new();
    let mut rest: Vec<Vec<char>> = Vec::new();
    let mut i: usize = 0;
    assert(all.take(0) =~= Seq::<Seq<char>>::empty());
    assert(field_views(found@) =~= Seq::empty());
    assert(views(rest@) =~= Seq::empty());
    while i < segs.len()
        invariant
            i <= segs.len(),
            all == views(segs@),
            field_views(found@) == extracted(all.take(i as int)),
            views(rest@) == leftover(all.take(i as int)),
        decreases segs.len() - i,
    {
        let s = trim(&segs[i]);
        proof {
            assert(all.take(i + 1) =~= all.take(i as int).push(segs@[i as int]@));
            lemma_segment_accounted(all.take(i as int), segs@[i as int]@);
        }
        let ghost found_before = field_views(found@);
        let ghost rest_before = views(rest@);
        if s.len() > 0 {
            match KVParser::parse_chars(&s) {
                Some(p) => {
                    let key = to_lowercase(to_text(&p.key).as_str());
                    let value = to_text(&clean(&p.value));
                    found.push(Field { key, value });
                    assert(field_views(found@) =~= found_before.push((key@, value@)));
                },
                None => {
                    rest.push(s);
                    assert(views(rest@) =~= rest_before.push(s@));
                },
            }
        }
        i += 1;
    }
    assert(all.take(i as int) =~= all);
    (found, rest)
}

/// Parses one line of text into its field mapping.
pub fn parse_line(registry: &PatternRegistry, raw: &str) -> (r: Vec<Field>)
    ensures
        field_views(r@) == line_fields(raw@),
        keys_distinct(field_views(r@)),
{
    let chars = to_chars(raw);
    let t = to_text(&trim(&chars));
    let none: Vec<Vec<char>> = Vec::new();
    assert(views(none@) =~= Seq::empty());
    match try_parse_json(t.as_str()) {
        Some(pairs) => assemble(pairs, &none),
        None => {
            let content = registry.normalize_header(raw);
            let offsets = registry.find_boundaries(content.as_str());
            let segs = split_segments(&to_chars(content.as_str()), &offsets);
            let (found, rest) = scan_segments(&segs);
            assemble(found, &rest)
        },
    }
}

/// The text of a record for a structured input, given what the serializer
/// returned for it.
pub fn text_of_structured(rendered: Option<String>) -> (r: String)
    ensures
        r@ == structured_text(
            match rendered {
                Some(s) => Some(s@),
                None => None,
            },
        ),
{
    match rendered {
        Some(s) => s,
        None => "{}".to_owned(),
    }
}

/// Makes the record of one input: a line of text is parsed, a structured
/// value is passed through beside its JSON text.
pub fn parse_item(registry: &PatternRegistry, input: Input) -> (r: Record)
    ensures
        record_of(input, r),
{
    match input {
        Input::RawText(s) => {
            let fields = parse_line(registry, s.as_str());
            Record { text: s, payload: Payload::Fields(fields) }
        },
        Input::StructuredValue(v) => {
            let text = text_of_structured(serialize(&v));
            Record { text, payload: Payload::Structured(v) }
        },
    }
}

/// Makes one record for each input, in the order of the inputs.
pub fn smart_parse_batch(registry: &PatternRegistry, items: Vec<Input>) -> (r: Vec<Record>)
    ensures
        r@.len() == items@.len(),
        forall|i: int| 0 <= i < items@.len() ==> record_of(items@[i], #[trigger] r@[i]),
{
    let mut out: Vec<Record> = Vec::new();
    for item in it: items
        invariant
            it.seq() == items@,
            out@.len() == it.index(),
            forall|i: int| 0 <= i < it.index() ==> record_of(items@[i], #[trigger] out@[i]),
    {
        let record = parse_item(registry, item);
        out.push(record);
    }
    out
}

} // verus!
