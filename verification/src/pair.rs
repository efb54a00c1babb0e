//! The pair grammar: `key delimiter value?`, where a key is an identifier,
//! the delimiter is `:` or `=` and the value is the rest of the segment.
use vstd::prelude::*;
use crate::text::{
    copy_range, is_whitespace, leading_whitespace, lemma_trimmed_is_range, to_chars, to_text,
    trailing_whitespace, trim, trim_start, trimmed,
};

verus! {

/// A letter of ASCII or an underscore: what a key may start with.
pub open spec fn is_key_start(c: char) -> bool {
    let n = c as u32;
    (0x41 <= n <= 0x5A) || (0x61 <= n <= 0x7A) || n == 0x5F
}

/// A letter or digit of ASCII or an underscore: what a key is made of.
pub open spec fn is_key_char(c: char) -> bool {
    let n = c as u32;
    is_key_start(c) || (0x30 <= n <= 0x39)
}

/// A colon or an equals sign: what parts a key from its value.
pub open spec fn is_delimiter(c: char) -> bool {
    c == ':' || c == '='
}

/// Length of the longest prefix of `s` made of key characters.
pub open spec fn key_len(s: Seq<char>) -> nat
    decreases s.len(),
{
    if s.len() > 0 && is_key_char(s[0]) {
        1 + key_len(s.drop_first())
    } else {
        0
    }
}

/// The key and the raw value of a segment that fits the pair shape:
/// the key is the longest identifier at the start, a delimiter follows it
/// directly, and everything behind the delimiter is the value.
pub open spec fn pair_split(s: Seq<char>) -> Option<(Seq<char>, Seq<char>)> {
    let n = key_len(s) as int;
    if 0 < n < s.len() && is_key_start(s[0]) && is_delimiter(s[n]) {
        Some((s.subrange(0, n), s.subrange(n + 1, s.len() as int)))
    } else {
        None
    }
}

/// The placeholder that stands for a missing value.
pub open spec fn sentinel() -> Seq<char> {
    seq!['N', 'o', 'n', 'e']
}

/// A raw value made presentable: trimmed, freed of one trailing comma,
/// trimmed again, and replaced by the sentinel where nothing is left.
pub open spec fn clean_value(raw: Seq<char>) -> Seq<char> {
    let t = trimmed(raw);
    let u = if t.len() > 0 && t.last() == ',' {
        trimmed(t.drop_last())
    } else {
        t
    };
    if u.len() == 0 {
        sentinel()
    } else {
        u
    }
}

/// A cleaned value is never empty, and where the raw value holds nothing
/// but whitespace it is the sentinel.
pub proof fn lemma_clean_value_nonempty(raw: Seq<char>)
    ensures
        clean_value(raw).len() > 0,
        trimmed(raw).len() == 0 ==> clean_value(raw) == sentinel(),
{
}

/// The cleaned value of `raw` is its range from `a` to `b`, or the
/// sentinel where that range is empty, and all that cleaning dropped is
/// whitespace and the comma at `c`, if `c` is an index of `raw`.
pub open spec fn is_cleaned_range(raw: Seq<char>, a: int, b: int, c: int) -> bool {
    &&& 0 <= a <= b <= c <= raw.len()
    &&& clean_value(raw) == if a < b {
        raw.subrange(a, b)
    } else {
        sentinel()
    }
    &&& c < raw.len() ==> raw[c] == ','
    &&& forall|i: int| (0 <= i < a || b <= i < raw.len()) && i != c ==> is_whitespace(#[trigger] raw[i])
}

/// Cleaning keeps one range of the raw value and drops nothing but
/// whitespace and at most one comma behind that range.
pub proof fn lemma_clean_value_is_range(raw: Seq<char>)
    ensures
        exists|a: int, b: int, c: int| #[trigger] is_cleaned_range(raw, a, b, c),
{
    let n = raw.len() as int;
    let a0 = leading_whitespace(raw) as int;
    let e0 = n - trailing_whitespace(trim_start(raw));
    let t = trimmed(raw);
    lemma_trimmed_is_range(raw);
    if t.len() > 0 && t.last() == ',' {
        let t2 = t.drop_last();
        let a1 = leading_whitespace(t2) as int;
        let e1 = t2.len() - trailing_whitespace(trim_start(t2));
        lemma_trimmed_is_range(t2);
        assert(t2 =~= raw.subrange(a0, e0 - 1));
        assert(t2.subrange(a1, e1) =~= raw.subrange(a0 + a1, a0 + e1));
        assert(raw[e0 - 1] == t[t.len() - 1]);
        assert forall|i: int|
            (0 <= i < a0 + a1 || a0 + e1 <= i < n) && i != e0 - 1 implies is_whitespace(
            #[trigger] raw[i],
        ) by {
            if a0 <= i < e0 - 1 {
                assert(raw[i] == t2[i - a0]);
            }
        }
        assert(is_cleaned_range(raw, a0 + a1, a0 + e1, e0 - 1));
    } else {
        assert(is_cleaned_range(raw, a0, e0, n));
    }
}

/// A segment that fits the pair shape is its key, one delimiter and its raw
/// value, with nothing left over.
pub proof fn lemma_pair_split_covers(s: Seq<char>)
    requires
        pair_split(s) is Some,
    ensures
        ({
            let (k, v) = pair_split(s).unwrap();
            &&& is_delimiter(s[k.len() as int])
            &&& s =~= k + seq![s[k.len() as int]] + v
        }),
{
}

/// Tells whether a key may start with `c`.
pub fn is_key_start_char(c: char) -> (b: bool)
    ensures
        b == is_key_start(c),
{
    let n: u32 = c as u32;
    (0x41 <= n && n <= 0x5A) || (0x61 <= n && n <= 0x7A) || n == 0x5F
}

/// Tells whether a key may hold `c`.
pub fn is_key_char_char(c: char) -> (b: bool)
    ensures
        b == is_key_char(c),
{
    let n: u32 = c as u32;
    is_key_start_char(c) || (0x30 <= n && n <= 0x39)
}

/// Key and raw value of one segment, both verbatim.
pub struct RawPair {
    pub key: Vec<char>,
    pub value: Vec<char>,
}

/// The parser of the pair grammar.
pub struct KVParser;

impl KVParser {
    /// Reads `segment` as a pair; `None` where it does not fit the shape.
    pub fn parse_chars(segment: &Vec<char>) -> (r: Option<RawPair>)
        ensures
            r is Some <==> pair_split(segment@) is Some,
            r matches Some(p) ==> pair_split(segment@) == Some((p.key@, p.value@)),
    {
        let n: usize = segment.len();
        let mut i: usize = 0;
        assert(segment@.subrange(0, n as int) =~= segment@);
        while i < n && is_key_char_char(segment[i])
            invariant
                i <= n == segment.len(),
                key_len(segment@) == i + key_len(segment@.subrange(i as int, n as int)),
            decreases n - i,
        {
            assert(segment@.subrange(i as int, n as int).drop_first() =~= segment@.subrange(
                i + 1,
                n as int,
            ));
            i += 1;
        }
        if 0 < i && i < n && is_key_start_char(segment[0]) && (segment[i] == ':' || segment[i]
            == '=') {
            Some(RawPair { key: copy_range(segment, 0, i), value: copy_range(segment, i + 1, n) })
        } else {
            None
        }
    }

    /// Reads `segment` as a pair and hands out key and raw value as strings.
    pub fn parse(segment: &str) -> (r: Option<(String, String)>)
        ensures
            r is Some <==> pair_split(segment@) is Some,
            r matches Some(p) ==> pair_split(segment@) == Some((p.0@, p.1@)),
    {
        let chars = to_chars(segment);
        match KVParser::parse_chars(&chars) {
            Some(p) => Some((to_text(&p.key), to_text(&p.value))),
            None => None,
        }
    }
}

/// Makes a raw value presentable; see `clean_value`.
pub fn clean(raw: &Vec<char>) -> (r: Vec<char>)
    ensures
        r@ == clean_value(raw@),
        r@.len() > 0,
{
    let t = trim(raw);
    let u = if t.len() > 0 && t[t.len() - 1] == ',' {
        let shorter = copy_range(&t, 0, t.len() - 1);
        assert(shorter@ =~= t@.drop_last());
        trim(&shorter)
    } else {
        t
    };
    if u.len() == 0 {
        let mut s: Vec<char> = Vec::new();
        s.push('N');
        s.push('o');
        s.push('n');
        s.push('e');
        assert(s@ =~= sentinel());
        s
    } else {
        u
    }
}

} // verus!
