//! The regular-expression engine, fancy-regex, behind trusted wrappers.
//!
//! What the engine accepts and what it matches takes pages to state, so its
//! results are named (`regex_compiles`, `regex_is_match`, `regex_captures`,
//! `regex_replace_all`) as functions of the pattern source and the text.
//! The only further facts claimed are the ones its source shows about match
//! positions: group 0 is the whole match, a search from `pos` finds a match
//! ending at or after `pos`, and every reported span is a pair of
//! character-boundary byte offsets of the text. (A match need not start at
//! or after `pos`: `\K` inside a lookbehind moves its start back.)

use vstd::prelude::*;
use crate::units::{char_at_byte, byte_len};
use crate::text::chars_of;

verus! {

#[verifier::external_type_specification]
#[verifier::external_body]
pub struct ExRegex(fancy_regex::Regex);

#[verifier::external_type_specification]
#[verifier::external_body]
pub struct ExRegexError(fancy_regex::Error);

/// Whether fancy-regex's `Regex::new` accepts the pattern source.
pub uninterp spec fn regex_compiles(pattern: Seq<char>) -> bool;

/// `Regex::is_match` on the compiled pattern: `None` when the engine reports
/// an error (such as its backtrack limit), else whether the text matches.
pub uninterp spec fn regex_is_match(pattern: Seq<char>, text: Seq<char>) -> Option<bool>;

/// `Regex::captures_from_pos`: `None` when the engine reports an error,
/// `Some(None)` when there is no match at or after byte `pos`, else the byte
/// span of each capture group (`None` for a group that did not take part).
pub uninterp spec fn regex_captures(pattern: Seq<char>, text: Seq<char>, pos: usize) -> Option<
    Option<Seq<Option<(usize, usize)>>>,
>;

/// `Regex::try_replacen(text, 0, rep)`, the fallible form of `replace_all`:
/// `None` when the engine reports an error, else the text with every
/// non-overlapping match replaced by the expansion of `rep`.
pub uninterp spec fn regex_replace_all(pattern: Seq<char>, text: Seq<char>, rep: Seq<char>) -> Option<
    Seq<char>,
>;

/// The positional facts about a set of capture spans found by a search of
/// `text` from byte `pos`: there is a whole match (group 0), it ends at or
/// after `pos`, and every span's offsets are character boundaries.
pub open spec fn spans_ok(text: Seq<char>, groups: Seq<Option<(usize, usize)>>, pos: int) -> bool {
    &&& groups.len() >= 1
    &&& groups[0] matches Some((_, end)) && pos <= end
    &&& forall|g: int|
        0 <= g < groups.len() ==> (#[trigger] groups[g] matches Some((a, b)) ==> {
            &&& char_at_byte(text, a as int) is Some
            &&& char_at_byte(text, b as int) is Some
        })
}

/// Whether a pattern source holds `\K` (the escape that resets a match's
/// start), written anywhere, escaped backslash or not.
pub open spec fn has_keepout(s: Seq<char>) -> bool {
    exists|i: int| 0 <= i && i + 1 < s.len() && #[trigger] s[i] == '\\' && s[i + 1] == 'K'
}

/// Exec form of [`has_keepout`].
pub fn has_keepout_exec(s: &str) -> (r: bool)
    ensures
        r == has_keepout(s@),
{
    let cs = chars_of(s);
    let mut i: usize = 1;
    while i < cs.len()
        invariant
            cs@ == s@,
            1 <= i,
            forall|j: int| 0 <= j && j + 1 < i && j + 1 < cs@.len() ==> !(#[trigger] cs@[j] == '\\' && cs@[j + 1] == 'K'),
        decreases cs@.len() - i,
    {
        if cs[i - 1] == '\\' && cs[i] == 'K' {
            return true;
        }
        i += 1;
    }
    false
}

/// A compiled regular expression together with the source it was compiled
/// from; `compile` is its only constructor.
pub struct Regexp {
    re: fancy_regex::Regex,
    source: String,
}

impl Regexp {
    /// The source the expression was compiled from.
    pub fn source_str(&self) -> (s: &str)
        ensures
            s@ == self@,
    {
        self.source.as_str()
    }
}

impl View for Regexp {
    type V = Seq<char>;

    /// The pattern source the expression was compiled from.
    closed spec fn view(&self) -> Seq<char> {
        self.source@
    }
}

/// `fancy_regex::Regex::new`: compiles `source`. The contract claims that it
/// succeeds exactly on the sources the engine accepts (a fixed property of
/// the source) and that the result remembers its source.
#[verifier::external_body]
pub(crate) fn compile(source: &str) -> (r: Result<Regexp, fancy_regex::Error>)
    ensures
        r is Ok <==> regex_compiles(source@),
        r matches Ok(re) ==> re@ == source@,
{
    match fancy_regex::Regex::new(source) {
        Ok(re) => Ok(Regexp { re, source: source.to_string() }),
        Err(e) => Err(e),
    }
}

impl Regexp {
    /// `fancy_regex::Regex::is_match`: the contract claims only that the
    /// outcome is the named one for this pattern and text.
    #[verifier::external_body]
    pub(crate) fn is_match(&self, text: &str) -> (r: Result<bool, fancy_regex::Error>)
        ensures
            match r {
                Ok(b) => regex_is_match(self@, text@) == Some(b),
                Err(_) => regex_is_match(self@, text@) is None,
            },
    {
        self.re.is_match(text)
    }

    /// `fancy_regex::Regex::captures_from_pos`, with each group turned into
    /// its byte span. The contract claims the named outcome and, for a match,
    /// the positional facts of [`spans_ok`].
    #[verifier::external_body]
    pub(crate) fn captures_from(&self, text: &str, pos: usize) -> (r: Result<
        Option<Vec<Option<(usize, usize)>>>,
        fancy_regex::Error,
    >)
        requires
            char_at_byte(text@, pos as int) is Some,
        ensures
            match r {
                Ok(Some(g)) => regex_captures(self@, text@, pos) == Some(Some(g@)) && spans_ok(
                    text@,
                    g@,
                    pos as int,
                ),
                Ok(None) => regex_captures(self@, text@, pos) == Some(
                    None::<Seq<Option<(usize, usize)>>>,
                ),
                Err(_) => regex_captures(self@, text@, pos) is None,
            },
    {
        match self.re.captures_from_pos(text, pos) {
            Ok(Some(caps)) => Ok(
                Some((0..caps.len()).map(|g| caps.get(g).map(|m| (m.start(), m.end()))).collect()),
            ),
            Ok(None) => Ok(None),
            Err(e) => Err(e),
        }
    }

    /// `fancy_regex::Regex::try_replacen` with no limit (what `replace_all`
    /// calls before unwrapping): the contract claims the named outcome and
    /// that the result, being a `String`, is at most `isize::MAX` bytes long.
    ///
    /// The call is made only on patterns without `\K`. With `\K` a match can
    /// start before the previous match ends (or a group can start after it
    /// ends), and `try_replacen` then slices the text backwards and panics.
    /// Without it, each match starts where its search started or later, so at
    /// or after the previous match's end, and every span runs forwards.
    #[verifier::external_body]
    pub(crate) fn replace_all(&self, text: &str, rep: &str) -> (r: Result<String, fancy_regex::Error>)
        requires
            !has_keepout(self@),
        ensures
            match r {
                Ok(s) => regex_replace_all(self@, text@, rep@) == Some(s@) && byte_len(s@)
                    <= isize::MAX,
                Err(_) => regex_replace_all(self@, text@, rep@) is None,
            },
    {
        self.re.try_replacen(text, 0, rep).map(|c| c.into_owned())
    }
}

} // verus!
