//! Regular expressions, compiled and searched by the `regex` crate, and the
//! replacement of their matches in a text.
use vstd::prelude::*;
use vstd::utf8::*;
use vstd::string::*;
use crate::text::{splice, splice_text, spans_in_order, spans_on_boundaries, encodings};

verus! {

broadcast use vstd::utf8::group_utf8_lib;

#[verifier::external_type_specification]
#[verifier::external_body]
pub struct ExRegex(regex::Regex);

/// A compiled regular expression together with the pattern it was compiled from.
pub struct Pattern {
    re: regex::Regex,
    source: String,
}

impl Pattern {
    /// The pattern text this expression was compiled from.
    pub closed spec fn source(&self) -> Seq<char> {
        self.source@
    }
}

/// Whether `regex::Regex::new` accepts the pattern.
pub uninterp spec fn regex_compiles(pattern: Seq<char>) -> bool;

/// The successive non-overlapping matches of the pattern in the haystack, as
/// `regex::Regex::captures_iter` reports them: for each match, the byte span
/// of every capture group (group 0 is the whole match), `None` for a group
/// that did not take part in the match.
pub uninterp spec fn regex_captures(pattern: Seq<char>, haystack: Seq<char>) -> Seq<Seq<Option<(usize, usize)>>>;

/// Compiles a pattern with `regex::Regex::new`.
///
/// Trusted: the result is present exactly when the `regex` crate accepts the
/// pattern, and it remembers the pattern text.
#[verifier::external_body]
pub(crate) fn compile_pattern(source: &str) -> (res: Option<Pattern>)
    ensures
        res is Some <==> regex_compiles(source@),
        res matches Some(p) ==> p.source() == source@,
{
    match regex::Regex::new(source) {
        Ok(re) => Some(Pattern { re, source: source.to_string() }),
        Err(_) => None,
    }
}

/// The capture lists of a sequence of matches, as plain values.
pub open spec fn captures_view(caps: Seq<Vec<Option<(usize, usize)>>>) -> Seq<Seq<Option<(usize, usize)>>> {
    caps.map_values(|c: Vec<Option<(usize, usize)>>| c@)
}

/// The byte span of the whole match of a capture list.
pub open spec fn whole_match(c: Seq<Option<(usize, usize)>>) -> (usize, usize) {
    match c[0] {
        Some(span) => span,
        None => (0, 0),
    }
}

/// The byte spans of the whole matches.
pub open spec fn match_spans(caps: Seq<Seq<Option<(usize, usize)>>>) -> Seq<(usize, usize)> {
    caps.map_values(|c: Seq<Option<(usize, usize)>>| whole_match(c))
}

/// What the `regex` documentation promises of the matches in a haystack whose
/// UTF-8 encoding is `bytes`: every capture list holds the whole match; each
/// reported span lies in the haystack and starts and ends on character
/// boundaries; the whole matches come one after the other without overlap.
pub open spec fn captures_well_formed(caps: Seq<Seq<Option<(usize, usize)>>>, bytes: Seq<u8>) -> bool {
    &&& forall|k: int| 0 <= k < caps.len() ==> #[trigger] caps[k].len() >= 1 && caps[k][0] is Some
    &&& forall|k: int, g: int|
        #![trigger caps[k][g]]
        0 <= k < caps.len() && 0 <= g < caps[k].len() && caps[k][g] is Some ==> {
            let span = caps[k][g]->Some_0;
            &&& span.0 <= span.1 <= bytes.len()
            &&& is_char_boundary(bytes, span.0 as int)
            &&& is_char_boundary(bytes, span.1 as int)
        }
    &&& spans_in_order(match_spans(caps), bytes.len() as int)
}

/// Searches `text` for the successive non-overlapping matches of the pattern
/// with `regex::Regex::captures_iter`, and reports each match's capture
/// groups as byte spans.
///
/// Trusted: the result is the named `regex_captures` of the pattern text and
/// the haystack, and it has the shape that the `regex` documentation
/// promises (`captures_well_formed`).
#[verifier::external_body]
pub(crate) fn captures_in(p: &Pattern, text: &str) -> (res: Vec<Vec<Option<(usize, usize)>>>)
    ensures
        captures_view(res@) == regex_captures(p.source(), text@),
        captures_well_formed(captures_view(res@), text.spec_bytes()),
{
    p.re.captures_iter(text).map(|c| c.iter().map(|m| m.map(|m| (m.start(), m.end()))).collect()).collect()
}

/// `text` with the whole match of each capture list replaced by the matching
/// element of `reps`, as `regex::Regex::replace_all` builds it.
pub open spec fn replace_matches(
    text: Seq<char>,
    caps: Seq<Seq<Option<(usize, usize)>>>,
    reps: Seq<Seq<char>>,
) -> Seq<char> {
    decode_utf8(
        splice(
            encode_utf8(text),
            match_spans(caps),
            reps.map_values(|r: Seq<char>| encode_utf8(r)),
        ),
    )
}

/// Replaces the whole match of each capture list by the matching element of
/// `reps`, keeping the text between matches.
pub fn replace_captures(text: &str, caps: &Vec<Vec<Option<(usize, usize)>>>, reps: &Vec<String>) -> (res: String)
    requires
        captures_well_formed(captures_view(caps@), text.spec_bytes()),
        reps@.len() == caps@.len(),
    ensures
        res@ == replace_matches(
            text@,
            captures_view(caps@),
            reps@.map_values(|r: String| r@),
        ),
{
    let ghost cv = captures_view(caps@);
    let mut spans: Vec<(usize, usize)> = Vec::new();
    let mut k: usize = 0;
    while k < caps.len()
        invariant
            cv == captures_view(caps@),
            captures_well_formed(cv, text.spec_bytes()),
            0 <= k <= caps@.len(),
            spans@ == match_spans(cv).subrange(0, k as int),
        decreases caps@.len() - k,
    {
        assert(cv[k as int] == caps@[k as int]@);
        assert(cv[k as int].len() >= 1 && cv[k as int][0] is Some);
        let span = match caps[k][0] {
            Some(span) => span,
            None => (0, 0),
        };
        spans.push(span);
        k = k + 1;
        assert(spans@ =~= match_spans(cv).subrange(0, k as int));
    }
    assert(spans@ =~= match_spans(cv));
    assert(spans_on_boundaries(spans@, text.spec_bytes())) by {
        assert forall|j: int| 0 <= j < spans@.len() implies is_char_boundary(
            text.spec_bytes(),
            #[trigger] spans@[j].0 as int,
        ) && is_char_boundary(text.spec_bytes(), spans@[j].1 as int) by {
            assert(cv[j].len() >= 1);
            assert(cv[j][0] is Some);
            assert(spans@[j] == whole_match(cv[j]));
        }
    }
    let res = splice_text(text, &spans, reps);
    proof {
        assert(encodings(reps@) =~= reps@.map_values(|r: String| r@).map_values(
            |r: Seq<char>| encode_utf8(r),
        ));
        encode_utf8_decode_utf8(res@);
    }
    res
}

} // verus!
