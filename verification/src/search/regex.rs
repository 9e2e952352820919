//! Compiled regular expressions, backed by the `regex` crate.
use vstd::prelude::*;
use vstd::string::StringSliceAdditionalSpecFns;
use vstd::utf8::is_char_boundary;

verus! {

#[verifier::external_type_specification]
#[verifier::external_body]
pub struct ExRegex(::regex::Regex);

/// What `regex::Regex::new` reports for the pattern: `None` when the
/// pattern compiles, and otherwise the text of the error, as its `Display`
/// writes it. It depends on the pattern alone (the size limit that can fail
/// a valid pattern is the crate's fixed default).
pub uninterp spec fn regex_new_error(pattern: Seq<char>) -> Option<Seq<char>>;

/// The byte offsets `(start, end)` of the leftmost-first match of the
/// regular expression compiled from `pattern` in `haystack`, as
/// `regex::Regex::find` reports them, or `None` when there is no match.
pub uninterp spec fn regex_find(pattern: Seq<char>, haystack: Seq<char>) -> Option<
    (usize, usize),
>;

/// Why a pattern could not be compiled, with the message that the `regex`
/// crate gives for it.
#[derive(Debug, Clone, PartialEq, Eq)]
pub struct RegexError {
    pub message: String,
}

/// A compiled regular expression, together with the pattern it was
/// compiled from.
#[derive(Debug)]
pub struct CompiledRegex {
    inner: ::regex::Regex,
    source: String,
}

impl View for CompiledRegex {
    type V = Seq<char>;

    /// The pattern that the regular expression was compiled from.
    closed spec fn view(&self) -> Seq<char> {
        self.source@
    }
}

/// Calls `regex::Regex::new` and keeps the compiled regex together with the
/// pattern; on failure it turns the `regex::Error` into its text with
/// `ToString::to_string`. Trusted: the outcome is `regex_new_error` of the
/// pattern, and a compiled regex is paired with exactly the pattern it was
/// compiled from. This is the only place where a `CompiledRegex` is built.
#[verifier::external_body]
fn regex_new(pattern: &str) -> (compiled: Result<CompiledRegex, RegexError>)
    ensures
        compiled is Ok <==> regex_new_error(pattern@) is None,
        compiled matches Ok(regex) ==> regex@ == pattern@,
        compiled matches Err(error) ==> regex_new_error(pattern@) == Some(error.message@),
{
    match ::regex::Regex::new(pattern) {
        Ok(inner) => Ok(CompiledRegex { inner, source: pattern.to_owned() }),
        Err(error) => Err(RegexError { message: error.to_string() }),
    }
}

impl CompiledRegex {
    /// Compiles `pattern`.
    pub fn new(pattern: &str) -> (compiled: Result<CompiledRegex, RegexError>)
        ensures
            compiled is Ok <==> regex_new_error(pattern@) is None,
            compiled matches Ok(regex) ==> regex@ == pattern@,
            compiled matches Err(error) ==> regex_new_error(pattern@) == Some(error.message@),
    {
        regex_new(pattern)
    }

    /// Calls `regex::Regex::find` and gives back the match's byte offsets.
    /// Trusted: the result is `regex_find` of the pattern that the inner
    /// regex was compiled from (`regex_new`, the only place that builds a
    /// `CompiledRegex`, keeps the two together) and of the haystack; and, as
    /// the crate documents for `Match`, `start <= end`, both offsets lie in
    /// the haystack and fall on character boundaries.
    #[verifier::external_body]
    pub(crate) fn find_bounds(&self, haystack: &str) -> (found: Option<(usize, usize)>)
        ensures
            found == regex_find(self@, haystack@),
            found matches Some(bounds) ==> {
                &&& bounds.0 <= bounds.1 <= haystack.spec_bytes().len()
                &&& is_char_boundary(haystack.spec_bytes(), bounds.0 as int)
                &&& is_char_boundary(haystack.spec_bytes(), bounds.1 as int)
            },
    {
        match self.inner.find(haystack) {
            Some(m) => Some((m.start(), m.end())),
            None => None,
        }
    }

    /// Whether the regular expression matches somewhere in `haystack`.
    pub fn is_match(&self, haystack: &str) -> (matched: bool)
        ensures
            matched == (regex_find(self@, haystack@) is Some),
    {
        self.find_bounds(haystack).is_some()
    }
}

/// The pattern that `compile_regex` compiles: `(?i)` in front of the
/// pattern makes the match case-insensitive.
pub open spec fn effective_pattern(pattern: Seq<char>, ignore_case: bool) -> Seq<char> {
    if ignore_case {
        seq!['(', '?', 'i', ')'] + pattern
    } else {
        pattern
    }
}

/// Compiles `pattern`, case-insensitively when `ignore_case` is set.
pub fn compile_regex(pattern: &str, ignore_case: bool) -> (compiled: Result<CompiledRegex, RegexError>)
    ensures
        compiled is Ok <==> regex_new_error(effective_pattern(pattern@, ignore_case)) is None,
        compiled matches Ok(regex) ==> regex@ == effective_pattern(pattern@, ignore_case),
        compiled matches Err(error) ==> regex_new_error(effective_pattern(pattern@, ignore_case))
            == Some(error.message@),
        !ignore_case ==> {
            &&& compiled is Ok <==> regex_new_error(pattern@) is None
            &&& compiled matches Ok(regex) ==> regex@ == pattern@
            &&& compiled matches Err(error) ==> regex_new_error(pattern@) == Some(error.message@)
        },
        ignore_case ==> {
            &&& compiled is Ok <==> regex_new_error(seq!['(', '?', 'i', ')'] + pattern@) is None
            &&& compiled matches Ok(regex) ==> regex@ == seq!['(', '?', 'i', ')'] + pattern@
            &&& compiled matches Err(error) ==> regex_new_error(seq!['(', '?', 'i', ')'] + pattern@)
                == Some(error.message@)
        },
{
    if ignore_case {
        let mut final_pattern = String::from_str("(?i)");
        final_pattern.append(pattern);
        proof {
            reveal_strlit("(?i)");
            assert(final_pattern@ =~= effective_pattern(pattern@, ignore_case));
        }
        CompiledRegex::new(final_pattern.as_str())
    } else {
        CompiledRegex::new(pattern)
    }
}


/// Without `ignore_case` the pattern is compiled exactly as given; with it,
/// exactly `(?i)` is put in front, whatever the pattern.
pub proof fn lemma_effective_pattern(pattern: Seq<char>)
    ensures
        effective_pattern(pattern, false) == pattern,
        effective_pattern(pattern, true) == seq!['(', '?', 'i', ')'] + pattern,
        effective_pattern(pattern, true).len() == pattern.len() + 4,
        effective_pattern(pattern, true).subrange(4, pattern.len() + 4int) == pattern,
{
    assert(effective_pattern(pattern, true).subrange(4, pattern.len() + 4int) =~= pattern);
}

} // verus!
