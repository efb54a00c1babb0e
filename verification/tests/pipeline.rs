use kv_ingest::batch::{parse_item, parse_line, smart_parse_batch, Input, Payload, Record};
use kv_ingest::json::{document_fields, try_parse_json, JsonDoc, JsonMember};
use kv_ingest::pair::KVParser;
use kv_ingest::patterns::PatternRegistry;
use kv_ingest::record::Field;

fn registry() -> PatternRegistry {
    PatternRegistry::new().expect("both patterns compile")
}

fn pairs(fields: &[Field]) -> Vec<(String, String)> {
    fields.iter().map(|f| (f.key.clone(), f.value.clone())).collect()
}

fn expect(list: &[(&str, &str)]) -> Vec<(String, String)> {
    list.iter().map(|(k, v)| (k.to_string(), v.to_string())).collect()
}

fn fields_of(line: &str) -> Vec<(String, String)> {
    pairs(&parse_line(&registry(), line))
}

fn parsed(record: &Record) -> Vec<(String, String)> {
    match &record.payload {
        Payload::Fields(f) => pairs(f),
        Payload::Structured(_) => panic!("a parsed line was expected"),
    }
}

#[test]
fn simple_key_value_pairs() {
    assert_eq!(
        fields_of("user=alice, status=active"),
        expect(&[("user", "alice"), ("status", "active")])
    );
}

#[test]
fn json_object_members_become_fields() {
    assert_eq!(fields_of("{\"a\": 1, \"b\": \"x\"}"), expect(&[("a", "1"), ("b", "x")]));
}

#[test]
fn json_object_keeps_member_order_and_renders_values() {
    assert_eq!(
        fields_of("  {\"Zeta\": {\"x\": [1, 2]}, \"B\": null, \"c\": true, \"D\": 1.5, \"e\": \"\"}  "),
        expect(&[("zeta", "{\"x\":[1,2]}"), ("b", "null"), ("c", "true"), ("d", "1.5"), ("e", "")])
    );
}

#[test]
fn json_array_is_kept_whole() {
    assert_eq!(fields_of("[1,2,3]"), expect(&[("json_data", "[1,2,3]")]));
    assert_eq!(fields_of("  [1, {\"a\": 2}]\n"), expect(&[("json_data", "[1, {\"a\": 2}]")]));
}

#[test]
fn try_parse_json_declines_what_is_no_object_or_array() {
    assert!(try_parse_json("\"text\"").is_none());
    assert!(try_parse_json("12").is_none());
    assert!(try_parse_json("{not json}").is_none());
    assert!(try_parse_json("[1,2").is_none());
    assert!(try_parse_json("{").is_none());
    assert!(try_parse_json("").is_none());
    assert_eq!(pairs(&try_parse_json("{}").unwrap()), expect(&[]));
    assert_eq!(pairs(&try_parse_json("[]").unwrap()), expect(&[("json_data", "[]")]));
}

#[test]
fn broken_json_goes_the_heuristic_way() {
    assert_eq!(fields_of("{a=1, b=2}"), expect(&[("b", "2}"), ("_unparsed", "{a=1,")]));
}

#[test]
fn header_is_rewritten_before_segmentation() {
    let reg = registry();
    assert_eq!(reg.normalize_header("Worker 42: status=ok"), "Worker-42, status=ok");
    assert_eq!(reg.normalize_header("no header here"), "no header here");
    assert_eq!(
        fields_of("Worker 42: status=ok"),
        expect(&[("status", "ok"), ("_unparsed", "Worker-42,")])
    );
}

#[test]
fn boundaries_are_byte_offsets_of_separators() {
    let reg = registry();
    assert_eq!(reg.find_boundaries("user=alice, status=active"), vec![10]);
    assert_eq!(reg.find_boundaries("a=1 b:2,c = 3"), vec![3, 7]);
    assert_eq!(reg.find_boundaries("nothing to see"), Vec::<usize>::new());
}

#[test]
fn free_text_behind_a_value_stays_in_the_value() {
    assert_eq!(
        fields_of("status=ok ???free text???"),
        expect(&[("status", "ok ???free text???")])
    );
}

#[test]
fn malformed_segment_is_kept_as_unparsed() {
    assert_eq!(
        fields_of("???free text??? status=ok"),
        expect(&[("status", "ok"), ("_unparsed", "???free text???")])
    );
}

#[test]
fn unparsed_segments_are_joined_by_one_space() {
    assert_eq!(
        fields_of("x, b : 2, c : 3"),
        expect(&[("_unparsed", "x, b : 2, c : 3")])
    );
    assert_eq!(
        fields_of("lead  a=1   tail : 9"),
        expect(&[("a", "1"), ("_unparsed", "lead tail : 9")])
    );
}

#[test]
fn missing_value_becomes_the_sentinel() {
    assert_eq!(fields_of("status:"), expect(&[("status", "None")]));
    assert_eq!(fields_of("a=, b=   ,"), expect(&[("a", "None"), ("b", "None")]));
}

#[test]
fn keys_are_lowercased() {
    assert_eq!(fields_of("Status: OK"), expect(&[("status", "OK")]));
    assert_eq!(fields_of("{\"ÄB\": 1}"), expect(&[("äb", "1")]));
}

#[test]
fn one_trailing_comma_is_stripped() {
    assert_eq!(fields_of("a=1,, b=2"), expect(&[("a", "1,"), ("b", "2")]));
    assert_eq!(fields_of("a = 1"), expect(&[("_unparsed", "a = 1")]));
}

#[test]
fn repeated_key_keeps_its_first_place_and_last_value() {
    assert_eq!(fields_of("a=1, b=2, A=3"), expect(&[("a", "3"), ("b", "2")]));
    assert_eq!(
        fields_of("_unparsed=1 junk, b=2"),
        expect(&[("_unparsed", "1 junk"), ("b", "2")])
    );
}

#[test]
fn offsets_count_bytes_and_cuts_count_characters() {
    assert_eq!(
        fields_of("ééééé, k=v"),
        expect(&[("k", "v"), ("_unparsed", "ééééé,")])
    );
    assert_eq!(fields_of("k=日本語, m=𝄞 x"), expect(&[("k", "日本語"), ("m", "𝄞 x")]));
}

#[test]
fn unicode_whitespace_is_trimmed() {
    assert_eq!(fields_of("\u{3000}a=1\u{a0}"), expect(&[("a", "1")]));
    assert_eq!(fields_of("a=\u{2003}x\u{2003},\u{2003}"), expect(&[("a", "x")]));
}

#[test]
fn empty_and_blank_lines_give_no_fields() {
    assert_eq!(fields_of(""), expect(&[]));
    assert_eq!(fields_of("   \t "), expect(&[]));
}

#[test]
fn pair_grammar() {
    assert_eq!(KVParser::parse("key=value"), Some(("key".to_string(), "value".to_string())));
    assert_eq!(KVParser::parse("_k9: v , "), Some(("_k9".to_string(), " v , ".to_string())));
    assert_eq!(KVParser::parse("k:"), Some(("k".to_string(), String::new())));
    assert_eq!(KVParser::parse("k=a=b"), Some(("k".to_string(), "a=b".to_string())));
    assert_eq!(KVParser::parse("1abc=2"), None);
    assert_eq!(KVParser::parse("k"), None);
    assert_eq!(KVParser::parse("k v=1"), None);
    assert_eq!(KVParser::parse("=v"), None);
    assert_eq!(KVParser::parse(""), None);
    assert_eq!(KVParser::parse("é=1"), None);
}

#[test]
fn structured_value_passes_through() {
    let value: serde_json::Value =
        serde_json::from_str("{ \"b\": 1, \"a\": [true, null, \"x\"] }").unwrap();
    let record = parse_item(&registry(), Input::StructuredValue(value.clone()));
    assert_eq!(record.text, "{\"b\":1,\"a\":[true,null,\"x\"]}");
    match record.payload {
        Payload::Structured(v) => assert_eq!(v, value),
        Payload::Fields(_) => panic!("a structured value was expected"),
    }
}

#[test]
fn batch_keeps_length_and_order() {
    let value: serde_json::Value = serde_json::from_str("{\"k\": \"v\"}").unwrap();
    let items = vec![
        Input::RawText("c=3".to_string()),
        Input::StructuredValue(value),
        Input::RawText("  [1] ".to_string()),
        Input::RawText(String::new()),
        Input::RawText("a=1, b=2".to_string()),
    ];
    let records = smart_parse_batch(&registry(), items);
    assert_eq!(records.len(), 5);
    assert_eq!(records[0].text, "c=3");
    assert_eq!(parsed(&records[0]), expect(&[("c", "3")]));
    assert_eq!(records[1].text, "{\"k\":\"v\"}");
    assert!(matches!(records[1].payload, Payload::Structured(_)));
    assert_eq!(records[2].text, "  [1] ");
    assert_eq!(parsed(&records[2]), expect(&[("json_data", "[1]")]));
    assert_eq!(records[3].text, "");
    assert_eq!(parsed(&records[3]), expect(&[]));
    assert_eq!(parsed(&records[4]), expect(&[("a", "1"), ("b", "2")]));
    assert!(smart_parse_batch(&registry(), Vec::new()).is_empty());
}

#[test]
fn registry_exists_where_both_patterns_compiled() {
    let header = || regex::Regex::new(kv_ingest::patterns::HEADER_PATTERN).ok();
    let boundary = || regex::Regex::new(kv_ingest::patterns::BOUNDARY_PATTERN).ok();
    assert!(header().is_some() && boundary().is_some());
    assert!(PatternRegistry::from_compiled(None, None).is_none());
    assert!(PatternRegistry::from_compiled(header(), None).is_none());
    assert!(PatternRegistry::from_compiled(None, boundary()).is_none());
    let reg = PatternRegistry::from_compiled(header(), boundary()).expect("both compiled");
    assert_eq!(reg.normalize_header("Job 7:x=1"), "Job-7, x=1");
    assert_eq!(reg.find_boundaries("a=1 b=2"), vec![3]);
    assert!(PatternRegistry::new().is_some());
}

#[test]
fn document_fields_reads_members_in_order() {
    let doc = JsonDoc::Object(vec![
        JsonMember { key: "Name".to_string(), value: serde_json::Value::String("x \"y\"".to_string()) },
        JsonMember { key: "N".to_string(), value: serde_json::from_str("[1, 2]").unwrap() },
        JsonMember { key: "flag".to_string(), value: serde_json::Value::Bool(false) },
    ]);
    assert_eq!(
        pairs(&document_fields(&doc, "unused").unwrap()),
        expect(&[("name", "x \"y\""), ("n", "[1,2]"), ("flag", "false")])
    );
    assert_eq!(
        pairs(&document_fields(&JsonDoc::Array, "[ 1 ]").unwrap()),
        expect(&[("json_data", "[ 1 ]")])
    );
    assert!(document_fields(&JsonDoc::Scalar, "1").is_none());
}
