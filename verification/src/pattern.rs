//! Patterns for server names.

use vstd::prelude::*;
use vstd::string::StringExecFns;

verus! {

/// The error of the regex crate.
#[verifier::external_type_specification]
#[verifier::external_body]
pub struct ExRegexError(regex::Error);

/// Whether a text is a regular expression that can be compiled.
pub uninterp spec fn regex_valid(pattern: Seq<char>) -> bool;

/// Where a regular expression first matches in a text: the byte offsets of the
/// match's start and end.
pub uninterp spec fn regex_found(pattern: Seq<char>, text: Seq<char>) -> Option<(nat, nat)>;

/// The byte offsets of a match, as numbers.
pub open spec fn span_view(found: Option<(usize, usize)>) -> Option<(nat, nat)> {
    match found {
        None => None,
        Some((start, end)) => Some((start as nat, end as nat)),
    }
}

/// Compiles with `regex::Regex::new`.
///
/// Believed: whether a text compiles depends on the text alone, and the empty
/// text does.
#[verifier::external_body]
fn compile(pattern: &str) -> (r: Result<(), regex::Error>)
    ensures
        r is Ok <==> regex_valid(pattern@),
        pattern@.len() == 0 ==> r is Ok,
{
    regex::Regex::new(pattern)?;
    Ok(())
}

/// Compiles with `regex::Regex::new` and searches with `regex::Regex::find`.
///
/// Believed: what is found depends on the pattern and the text alone, and is
/// `None` for a pattern that does not compile. Of a pattern `p` that compiles,
/// `^(?:p)$` is found only over the whole text, and only where `p` is found from
/// the text's start on; it is found wherever `p` is found over the whole text.
/// `p` and a newline within `^(?:` and `)$` is found over the whole text and
/// where `p` is found from the text's start on, too.
#[verifier::external_body]
fn find(pattern: &str, text: &str) -> (r: Option<(usize, usize)>)
    ensures
        span_view(r) == regex_found(pattern@, text@),
        !regex_valid(pattern@) ==> r is None,
        forall|p: Seq<char>|
            #![trigger regex_valid(p)]
            regex_valid(p) && regex_valid(pattern@) && pattern@ == "^(?:"@ + p + ")$"@ ==> {
                &&& r matches Some((start, end)) ==> start == 0 && end
                    == vstd::utf8::encode_utf8(text@).len()
                &&& r is Some ==> (regex_found(p, text@) matches Some((start, _)) && start == 0)
                &&& regex_found(p, text@) == Some((0nat, vstd::utf8::encode_utf8(text@).len()))
                    ==> r is Some
            },
        forall|p: Seq<char>|
            #![trigger regex_valid(p)]
            regex_valid(p) && regex_valid(pattern@) && pattern@ == "^(?:"@ + p + "\n)$"@ ==> {
                &&& r matches Some((start, end)) ==> start == 0 && end
                    == vstd::utf8::encode_utf8(text@).len()
                &&& r is Some ==> (regex_found(p, text@) matches Some((start, _)) && start == 0)
            },
{
    regex::Regex::new(pattern).ok()?.find(text).map(|m| (m.start(), m.end()))
}

/// A pattern between the start and the end of a text.
pub open spec fn anchored(pattern: Seq<char>) -> Seq<char> {
    "^(?:"@ + pattern + ")$"@
}

/// A pattern between the start and the end of a text, with a line of its own.
/// In verbose mode a comment reaches to the end of its line, so that a pattern
/// that ends with one would swallow what [`anchored`] puts behind it.
pub open spec fn anchored_line(pattern: Seq<char>) -> Seq<char> {
    "^(?:"@ + pattern + "\n)$"@
}

/// The pattern to search for to match a text as a whole. `None` where neither
/// form compiles, as for a pattern that is itself as large or as deeply nested
/// as one may be.
pub open spec fn whole_pattern(pattern: Seq<char>) -> Option<Seq<char>> {
    if regex_valid(anchored(pattern)) {
        Some(anchored(pattern))
    } else if regex_valid(anchored_line(pattern)) {
        Some(anchored_line(pattern))
    } else {
        None
    }
}

/// A regular expression that server names are matched against.
#[derive(Debug)]
pub struct Pattern {
    text: String,
    /// What to search for to match a text as a whole.
    whole: Option<String>,
}

impl View for Pattern {
    type V = Seq<char>;

    closed spec fn view(&self) -> Seq<char> {
        self.text@
    }
}

/// Makes the pattern to search for to match a text as a whole.
fn make_whole(pattern: &str) -> (r: Option<String>)
    ensures
        (match r {
            Some(whole) => Some(whole@),
            None => None,
        }) == whole_pattern(pattern@),
{
    let start = "^(?:".to_string().concat(pattern);
    let plain = start.clone().concat(")$");
    if compile(plain.as_str()).is_ok() {
        return Some(plain);
    }
    let line = start.concat("\n)$");
    if compile(line.as_str()).is_ok() {
        return Some(line);
    }
    None
}

impl Pattern {
    /// Every pattern can be compiled.
    #[verifier::type_invariant]
    spec fn compiles(self) -> bool {
        &&& regex_valid(self.text@)
        &&& (match self.whole {
            Some(whole) => Some(whole@),
            None => None,
        }) == whole_pattern(self.text@)
    }

    /// The pattern that a text stands for; `None` where the text cannot be
    /// compiled.
    pub fn new(text: String) -> (r: Option<Pattern>)
        ensures
            r matches Some(pattern) ==> pattern@ == text@,
            r is Some <==> regex_valid(text@),
            text@.len() == 0 ==> r is Some,
    {
        match compile(text.as_str()) {
            Ok(_) => {
                let whole = make_whole(text.as_str());
                Some(Pattern { text, whole })
            },
            Err(_) => None,
        }
    }

    /// The text of the pattern.
    pub fn as_str(&self) -> (r: &str)
        ensures
            r@ == self@,
    {
        self.text.as_str()
    }
}

/// Whether a match covers a text of `len` bytes as a whole.
pub open spec fn spans_all(found: Option<(nat, nat)>, len: nat) -> bool {
    found == Some((0nat, len))
}

/// Whether a pattern matches a text as a whole: whether it is found between the
/// text's start and its end. Where [`anchored`] does not compile, it also counts
/// that the first match covers the text.
pub open spec fn matches_fully(pattern: Seq<char>, text: Seq<char>) -> bool {
    ||| whole_pattern(pattern) matches Some(whole) && regex_found(whole, text) is Some
    ||| !regex_valid(anchored(pattern)) && spans_all(
        regex_found(pattern, text),
        vstd::utf8::encode_utf8(text).len(),
    )
}

/// Whether a match covers a text of `len` bytes as a whole.
pub fn is_full_span(found: Option<(usize, usize)>, len: usize) -> (r: bool)
    ensures
        r == spans_all(span_view(found), len as nat),
{
    match found {
        Some((start, end)) => start == 0 && end == len,
        None => false,
    }
}

/// Whether a pattern matches a text as a whole. It does only where the pattern
/// itself is found from the text's first byte on, and it does wherever the
/// pattern itself is found from the first byte to the last.
pub fn is_full_match(re: &Pattern, text: &str) -> (r: bool)
    ensures
        r == matches_fully(re@, text@),
        r ==> (regex_found(re@, text@) matches Some((start, _)) && start == 0),
        regex_found(re@, text@) == Some((0nat, vstd::utf8::encode_utf8(text@).len())) ==> r,
{
    proof {
        use_type_invariant(re);
    }
    if let Some(whole) = &re.whole {
        if find(whole.as_str(), text).is_some() {
            return true;
        }
    }
    is_full_span(find(re.text.as_str(), text), text.as_bytes().len())
}

/// A pattern matches a text as a whole exactly where it is found between the
/// start and the end of the text: where `^(?:` and `)$` around nothing but the
/// pattern is found. Where that does not compile, the pattern is to be found
/// over the whole text, or with a newline before the `)$`.
pub proof fn lemma_found_between_start_and_end(pattern: Seq<char>, text: Seq<char>)
    ensures
        regex_valid("^(?:"@ + pattern + ")$"@) ==> (matches_fully(pattern, text) <==> regex_found(
            "^(?:"@ + pattern + ")$"@,
            text,
        ) is Some),
        !regex_valid("^(?:"@ + pattern + ")$"@) ==> (matches_fully(pattern, text) <==> (regex_found(
            pattern,
            text,
        ) == Some((0nat, vstd::utf8::encode_utf8(text).len())) || (regex_valid(
            "^(?:"@ + pattern + "\n)$"@,
        ) && regex_found("^(?:"@ + pattern + "\n)$"@, text) is Some))),
{
}

} // verus!
