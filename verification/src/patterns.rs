//! The two regular expressions of the heuristic path, compiled once and
//! shared read-only.
use vstd::prelude::*;

verus! {

/// `regex::Regex`: a compiled regular expression.
#[verifier::external_type_specification]
#[verifier::external_body]
pub struct ExRegex(regex::Regex);

/// The text that fixes what a compiled expression matches. For an
/// expression that `regex::Regex::new` made it is the pattern that was
/// given. Of an expression built with other settings nothing more is said:
/// it need not be the text that its `as_str` returns.
pub uninterp spec fn pattern_of(re: regex::Regex) -> Seq<char>;

/// The regex engine accepts the pattern: `regex::Regex::new` returns an
/// expression for it and no error.
pub uninterp spec fn pattern_compiles(pattern: Seq<char>) -> bool;

/// The byte offsets at which the successive non-overlapping matches of a
/// pattern in a text start.
pub uninterp spec fn regex_match_starts(pattern: Seq<char>, text: Seq<char>) -> Seq<usize>;

/// A text in which every non-overlapping match of a pattern is replaced by
/// the expansion of a replacement template.
pub uninterp spec fn regex_replaced(
    pattern: Seq<char>,
    text: Seq<char>,
    replacement: Seq<char>,
) -> Seq<char>;

/// An identifier, whitespace, a decimal number and a colon: a header token.
pub const HEADER_PATTERN: &'static str = r"(?P<name>[a-zA-Z]+)\s+(?P<id>\d+):\s*";

/// What a header token is rewritten to.
pub const HEADER_REPLACEMENT: &'static str = "$name-$id, ";

/// A separator, an identifier and a delimiter: the start of a new pair.
pub const BOUNDARY_PATTERN: &'static str = r"(?:,\s*|\s+)[a-zA-Z_]\w*\s*[:=]";

/// `regex::Regex::new`: whether an expression comes back depends on the
/// pattern alone, and the expression that comes back is the one of that
/// pattern.
#[verifier::external_body]
fn compile(pattern: &str) -> (r: Option<regex::Regex>)
    ensures
        r is Some <==> pattern_compiles(pattern@),
        r matches Some(re) ==> pattern_of(re) == pattern@,
{
    regex::Regex::new(pattern).ok()
}

/// `regex::Regex::find_iter`: the start offset of every match, in the order
/// in which the iterator yields them.
#[verifier::external_body]
fn match_starts(re: &regex::Regex, text: &str) -> (r: Vec<usize>)
    ensures
        r@ == regex_match_starts(pattern_of(*re), text@),
{
    re.find_iter(text).map(|m| m.start()).collect()
}

/// `regex::Regex::replace_all` with a template as the replacement.
#[verifier::external_body]
fn replace_all(re: &regex::Regex, text: &str, replacement: &str) -> (r: String)
    ensures
        r@ == regex_replaced(pattern_of(*re), text@, replacement@),
{
    re.replace_all(text, replacement).into_owned()
}

/// The header text of `text` in normal form.
pub open spec fn header_normalized(text: Seq<char>) -> Seq<char> {
    regex_replaced(HEADER_PATTERN@, text, HEADER_REPLACEMENT@)
}

/// The byte offsets in `text` at which a separator and a new key start.
pub open spec fn boundary_starts(text: Seq<char>) -> Seq<usize> {
    regex_match_starts(BOUNDARY_PATTERN@, text)
}

/// The compiled expressions. A value of this type always holds the two
/// expressions of the patterns above.
pub struct PatternRegistry {
    header: regex::Regex,
    boundary: regex::Regex,
}

impl PatternRegistry {
    #[verifier::type_invariant]
    spec fn well_formed(self) -> bool {
        &&& pattern_of(self.header) == HEADER_PATTERN@
        &&& pattern_of(self.boundary) == BOUNDARY_PATTERN@
    }

    /// The two expressions that the registry holds: the one for headers
    /// and the one for boundaries.
    pub closed spec fn compiled(&self) -> (regex::Regex, regex::Regex) {
        (self.header, self.boundary)
    }

    /// Compiles both patterns. There is a registry exactly where the regex
    /// engine accepts both; it holds the two expressions that the engine
    /// made of the header pattern and of the boundary pattern.
    pub fn new() -> (r: Option<PatternRegistry>)
        ensures
            r is Some <==> pattern_compiles(HEADER_PATTERN@) && pattern_compiles(
                BOUNDARY_PATTERN@,
            ),
            r matches Some(p) ==> {
                &&& pattern_of(p.compiled().0) == HEADER_PATTERN@
                &&& pattern_of(p.compiled().1) == BOUNDARY_PATTERN@
            },
    {
        let header = compile(HEADER_PATTERN);
        let boundary = compile(BOUNDARY_PATTERN);
        PatternRegistry::from_compiled(header, boundary)
    }

    /// Makes the registry of two expressions that were compiled from the
    /// header pattern and from the boundary pattern: there is one exactly
    /// where both compiled, and it holds these two.
    pub fn from_compiled(header: Option<regex::Regex>, boundary: Option<regex::Regex>) -> (r:
        Option<PatternRegistry>)
        requires
            header matches Some(h) ==> pattern_of(h) == HEADER_PATTERN@,
            boundary matches Some(b) ==> pattern_of(b) == BOUNDARY_PATTERN@,
        ensures
            r is Some <==> header is Some && boundary is Some,
            r matches Some(p) ==> p.compiled() == (header->0, boundary->0),
    {
        match header {
            Some(header) => match boundary {
                Some(boundary) => Some(PatternRegistry { header, boundary }),
                None => None,
            },
            None => None,
        }
    }

    /// Rewrites every header token of `text` to `name-number, `.
    pub fn normalize_header(&self, text: &str) -> (r: String)
        ensures
            r@ == header_normalized(text@),
    {
        proof {
            use_type_invariant(self);
        }
        replace_all(&self.header, text, HEADER_REPLACEMENT)
    }

    /// Finds where in `text` a separator followed by a new key starts.
    pub fn find_boundaries(&self, text: &str) -> (r: Vec<usize>)
        ensures
            r@ == boundary_starts(text@),
    {
        proof {
            use_type_invariant(self);
        }
        match_starts(&self.boundary, text)
    }
}

} // verus!
