use kv_ingest::pair::clean;
use kv_ingest::record::{assemble, bind, join, Field};
use kv_ingest::segment::{char_index_of, skip_separators_from, split_segments};
use kv_ingest::text::{copy_range, is_whitespace_char, to_chars, trim, utf8_width_of};

fn chars(s: &str) -> Vec<char> {
    s.chars().collect()
}

fn text(v: &[char]) -> String {
    v.iter().collect()
}

fn texts(v: &[Vec<char>]) -> Vec<String> {
    v.iter().map(|p| text(p)).collect()
}

fn field(k: &str, v: &str) -> Field {
    Field { key: k.to_string(), value: v.to_string() }
}

fn listed(fields: &[Field]) -> Vec<(String, String)> {
    fields.iter().map(|f| (f.key.clone(), f.value.clone())).collect()
}

#[test]
fn to_chars_gives_every_character() {
    assert_eq!(to_chars("aé𝄞"), vec!['a', 'é', '𝄞']);
    assert_eq!(to_chars(""), Vec::<char>::new());
}

#[test]
fn whitespace_is_what_std_takes_for_it() {
    for n in 0u32..0x3100 {
        if let Some(c) = char::from_u32(n) {
            assert_eq!(is_whitespace_char(c), c.is_whitespace(), "U+{:04X}", n);
        }
    }
    assert!(!is_whitespace_char('\u{200B}'));
    assert!(!is_whitespace_char('\u{FEFF}'));
}

#[test]
fn width_is_the_length_in_utf8() {
    for c in ['a', '\u{7f}', '\u{80}', 'é', '\u{7ff}', '\u{800}', '日', '\u{ffff}', '\u{10000}', '𝄞'] {
        assert_eq!(utf8_width_of(c), c.len_utf8());
    }
}

#[test]
fn trim_agrees_with_std() {
    for s in ["", " ", "a", "  a b  ", "\t\na\r\n", "\u{3000}x\u{2003}", " , "] {
        assert_eq!(text(&trim(&chars(s))), s.trim());
    }
}

#[test]
fn copy_range_takes_the_half_open_range() {
    assert_eq!(text(&copy_range(&chars("abcdef"), 1, 4)), "bcd");
    assert_eq!(text(&copy_range(&chars("abcdef"), 3, 3)), "");
}

#[test]
fn clean_strips_one_comma_and_defaults_to_the_sentinel() {
    assert_eq!(text(&clean(&chars("  ok , "))), "ok");
    assert_eq!(text(&clean(&chars("a,,"))), "a,");
    assert_eq!(text(&clean(&chars(" , "))), "None");
    assert_eq!(text(&clean(&chars(""))), "None");
    assert_eq!(text(&clean(&chars("x y"))), "x y");
}

#[test]
fn byte_offsets_map_to_character_indices() {
    let t = chars("é=1");
    assert_eq!(char_index_of(&t, 0), 0);
    assert_eq!(char_index_of(&t, 1), 1);
    assert_eq!(char_index_of(&t, 2), 1);
    assert_eq!(char_index_of(&t, 3), 2);
    assert_eq!(char_index_of(&t, 4), 3);
    assert_eq!(char_index_of(&t, 100), 3);
    assert_eq!(char_index_of(&chars(""), 5), 0);
}

#[test]
fn separators_are_skipped_up_to_the_key() {
    let t = chars("a=1 ,\t b=2");
    assert_eq!(skip_separators_from(&t, 3), 7);
    assert_eq!(skip_separators_from(&t, 0), 0);
    assert_eq!(skip_separators_from(&chars(" , "), 0), 3);
}

#[test]
fn segments_partition_the_text() {
    let t = chars("a=1, b=2,c=3");
    let segs = split_segments(&t, &vec![3, 8]);
    assert_eq!(texts(&segs), vec!["a=1, ", "b=2,", "c=3"]);
    assert_eq!(texts(&segs).concat(), "a=1, b=2,c=3");
    assert_eq!(texts(&split_segments(&t, &Vec::new())), vec!["a=1, b=2,c=3"]);
}

#[test]
fn segments_for_offsets_in_any_order() {
    let t = chars("é, b=2,c=3");
    let segs = split_segments(&t, &vec![8, 2, 8, 500]);
    assert_eq!(texts(&segs), vec!["é, b=2,", "c=3", ""]);
    assert_eq!(texts(&segs).concat(), "é, b=2,c=3");
    let segs = split_segments(&t, &vec![2, 8]);
    assert_eq!(texts(&segs), vec!["é, ", "b=2,", "c=3"]);
    let segs = split_segments(&t, &vec![0]);
    assert_eq!(texts(&segs), vec!["é, b=2,c=3"]);
}

#[test]
fn bind_replaces_in_place_or_appends() {
    let mut m = vec![field("a", "1"), field("b", "2")];
    bind(&mut m, "a".to_string(), "9".to_string());
    bind(&mut m, "c".to_string(), "3".to_string());
    assert_eq!(
        listed(&m),
        vec![
            ("a".to_string(), "9".to_string()),
            ("b".to_string(), "2".to_string()),
            ("c".to_string(), "3".to_string())
        ]
    );
}

#[test]
fn join_puts_one_space_between_parts() {
    assert_eq!(text(&join(&vec![chars("a"), chars("b c"), chars("d")])), "a b c d");
    assert_eq!(text(&join(&vec![chars("only")])), "only");
    assert_eq!(text(&join(&Vec::new())), "");
}

#[test]
fn assemble_binds_pairs_and_leftovers() {
    let out = assemble(vec![field("a", "1"), field("b", "2"), field("a", "3")], &vec![chars("x"), chars("y")]);
    assert_eq!(
        listed(&out),
        vec![
            ("a".to_string(), "3".to_string()),
            ("b".to_string(), "2".to_string()),
            ("_unparsed".to_string(), "x y".to_string())
        ]
    );
    assert_eq!(listed(&assemble(Vec::new(), &Vec::new())), Vec::<(String, String)>::new());
}
