//! Checking a behavior tree source before it is applied: the source must parse to its end.

use vstd::prelude::*;
use crate::text::{count_lines_before, line_count};

verus! {

/// What parsing a behavior tree source gives: the part of the source left unparsed, or the
/// parser's error message.
pub uninterp spec fn bt_parse(src: Seq<char>) -> Result<Seq<char>, Seq<char>>;

/// Parses a behavior tree source with `behavior_tree_lite::parse_file`. Claimed of it: the
/// result is the name `bt_parse` of the source; the part left unparsed is a suffix of the
/// source (the parser hands back the rest of its input); the error is the parser error's
/// display text.
#[verifier::external_body]
fn parse_behavior_source(src: &str) -> (res: Result<String, String>)
    ensures
        match res {
            Ok(rest) => bt_parse(src@) == Ok::<Seq<char>, Seq<char>>(rest@)
                && rest@.len() <= src@.len()
                && rest@ == src@.subrange(src@.len() - rest@.len(), src@.len() as int),
            Err(e) => bt_parse(src@) == Err::<Seq<char>, Seq<char>>(e@),
        },
{
    match behavior_tree_lite::parse_file(src) {
        Ok((rest, _)) => Ok(rest.to_string()),
        Err(e) => Err(format!("{}", e)),
    }
}

/// The verdict on a behavior tree source.
#[derive(Debug, Clone, PartialEq, Eq)]
pub enum SourceCheck {
    /// The whole source parsed: it can be applied.
    Accepted,
    /// Parsing stopped early, after this many lines of the source.
    EndedAt(usize),
    /// The parser failed, with this message.
    Failed(String),
}

/// The verdict for a source that parsed up to the part `rest` (`Ok`) or failed with an error
/// message (`Err`): accepted when nothing is left, else the number of lines parsed.
pub open spec fn source_verdict(src: Seq<char>, parsed: Result<Seq<char>, Seq<char>>, res: SourceCheck) -> bool {
    match parsed {
        Ok(rest) => if rest.len() == 0 {
            res == SourceCheck::Accepted
        } else {
            res == SourceCheck::EndedAt(line_count(src.take(src.len() - rest.len())) as usize)
        },
        Err(e) => res matches SourceCheck::Failed(m) && m@ == e,
    }
}

/// A parse outcome, by the views of its strings.
pub open spec fn parsed_view(parsed: Result<String, String>) -> Result<Seq<char>, Seq<char>> {
    match parsed {
        Ok(r) => Ok(r@),
        Err(e) => Err(e@),
    }
}

/// The verdict on `src` once it is parsed (`parsed`: the part left, which is a suffix of the
/// source, or the error message).
pub fn verdict_of(src: &str, parsed: Result<String, String>) -> (res: SourceCheck)
    requires
        parsed matches Ok(rest) ==> rest@.len() <= src@.len(),
    ensures
        source_verdict(src@, parsed_view(parsed), res),
{
    match parsed {
        Ok(rest) => {
            let n = src.unicode_len();
            let left = rest.as_str().unicode_len();
            if left == 0 {
                SourceCheck::Accepted
            } else {
                let lines = count_lines_before(src, n - left);
                proof {
                    assert(lines <= n) by {
                        crate::text::lemma_line_count_bound(src@.take(n - left));
                    }
                }
                SourceCheck::EndedAt(lines)
            }
        },
        Err(e) => SourceCheck::Failed(e),
    }
}

/// Checks a behavior tree source before it is applied: `Accepted` when the whole source
/// parses, `EndedAt` with the number of lines parsed when parsing stops early, `Failed` with
/// the parser's message when it fails.
pub fn check_behavior_source(src: &str) -> (res: SourceCheck)
    ensures
        source_verdict(src@, bt_parse(src@), res),
{
    let parsed = parse_behavior_source(src);
    proof {
        assert(parsed_view(parsed) == bt_parse(src@));
    }
    verdict_of(src, parsed)
}

} // verus!
