//! A regular expression together with the source text it was compiled from.

use vstd::prelude::*;

verus! {

use vstd::utf8::*;

/// `regex::Regex`, held inside [`RegexPattern`].
#[verifier::external_type_specification]
#[verifier::external_body]
pub struct ExRegex(regex::Regex);

/// The byte offsets (start, end) of the successive non-overlapping matches
/// that `regex::Regex::find_iter` yields for the regex compiled from
/// `pattern`, searching `hay`.
pub uninterp spec fn regex_spans_of(pattern: Seq<char>, hay: Seq<char>) -> Seq<(int, int)>;

/// A compiled regular expression. Its fields are private: the only way to
/// build one is [`RegexPattern::new`], which compiles `re` from `source`.
#[derive(Debug)]
pub struct RegexPattern {
    source: String,
    re: regex::Regex,
}

/// Relies on `regex::Regex::new`: compiles a pattern, `None` when it is not
/// a valid regular expression.
#[verifier::external_body]
fn compile_regex(source: &str) -> (r: Option<regex::Regex>) {
    regex::Regex::new(source).ok()
}

impl RegexPattern {
    /// The source text of the pattern.
    pub closed spec fn text(&self) -> Seq<char> {
        self.source@
    }

    /// Compiles a pattern; `None` when it is not a valid regular expression.
    pub fn new(source: &str) -> (r: Option<RegexPattern>)
        ensures
            r matches Some(p) ==> p.text() == source@,
    {
        match compile_regex(source) {
            Some(re) => Some(RegexPattern { source: source.to_owned(), re }),
            None => None,
        }
    }

    /// The source text of the pattern.
    pub fn as_str(&self) -> (r: &str)
        ensures
            r@ == self.text(),
    {
        self.source.as_str()
    }
}

/// The (start, end) offsets of matches given with their texts.
pub open spec fn spans_view(s: Seq<(usize, usize, String)>) -> Seq<(int, int)> {
    Seq::new(s.len(), |k: int| (s[k].0 as int, s[k].1 as int))
}

/// Relies on `regex::Regex::find_iter` with `Match::start`, `Match::end` and
/// `Match::as_str`: successive non-overlapping matches, each given by its
/// byte offsets and the text between them. The regex is the one that
/// [`RegexPattern::new`] compiled from `p.text()`.
#[verifier::external_body]
pub(crate) fn regex_matches(p: &RegexPattern, line: &str) -> (r: Vec<(usize, usize, String)>)
    ensures
        spans_view(r@) == regex_spans_of(p.text(), line@),
        forall|k: int|
            0 <= k < r@.len() ==> #[trigger] r@[k].0 <= r@[k].1 <= encode_utf8(line@).len()
                && encode_utf8(r@[k].2@) == encode_utf8(line@).subrange(
                r@[k].0 as int,
                r@[k].1 as int,
            ),
        forall|k: int| 0 < k < r@.len() ==> r@[k - 1].1 <= #[trigger] r@[k].0,
{
    p.re.find_iter(line).map(|m| (m.start(), m.end(), m.as_str().to_owned())).collect()
}

} // verus!
