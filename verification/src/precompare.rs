//! The normalisation of one export file's text.
use vstd::prelude::*;
use vstd::utf8::*;
use vstd::string::*;
use crate::ids::IdMap;
use crate::json::{
    parse_json,
    print_pretty,
    replace_ids,
    json_parse,
    json_pretty,
    ids_modified,
    renamed_document,
    lemma_renamed_document_depth,
};
use crate::pattern::{
    captures_in,
    captures_view,
    captures_well_formed,
    regex_captures,
    replace_captures,
    replace_matches,
};
use crate::rules::{
    ReplaceConfig,
    canonical_replacement,
    combined_pattern,
    entity_pattern,
    metadata_pattern,
    metadata_prefix,
    metadata_suffix,
    rule_count,
};
use crate::slots::key_view;
use crate::text::{slice_between, str_eq, lemma_splice_without_spans};

verus! {

broadcast use vstd::utf8::group_utf8_lib;

/// The first capture group, from group `g` up to the last field rule's group,
/// that took part in the match.
pub open spec fn chosen_group(c: Seq<Option<(usize, usize)>>, g: int) -> Option<int>
    decreases 9 - g,
{
    if g < 1 || g > 8 {
        None
    } else if g < c.len() && c[g] is Some {
        Some(g)
    } else {
        chosen_group(c, g + 1)
    }
}

/// The canonical text for a match of the combined field pattern: the
/// replacement of the field rule whose group took part in the match.
pub open spec fn canonical_for(c: Seq<Option<(usize, usize)>>) -> Seq<char> {
    match chosen_group(c, 1) {
        Some(g) => canonical_replacement(g - 1),
        None => Seq::empty(),
    }
}

/// The text of capture group `g`, or the empty text when the group did not
/// take part in the match.
pub open spec fn capture_text(text: Seq<char>, c: Seq<Option<(usize, usize)>>, g: int) -> Seq<char> {
    if 0 <= g < c.len() && c[g] is Some {
        decode_utf8(encode_utf8(text).subrange(c[g]->Some_0.0 as int, c[g]->Some_0.1 as int))
    } else {
        Seq::empty()
    }
}

/// The rewritten `SystemMetadataId` field for a match: the name recorded for
/// the identifier, or the identifier itself when none is recorded.
pub open spec fn metadata_replacement(
    text: Seq<char>,
    c: Seq<Option<(usize, usize)>>,
    ids: Map<Seq<char>, Seq<char>>,
) -> Seq<char> {
    let id = capture_text(text, c, 1);
    metadata_prefix() + (if ids.contains_key(id) {
        ids[id]
    } else {
        id
    }) + metadata_suffix()
}

/// The text with each volatile field replaced by its canonical form.
pub open spec fn normalized_fields(content: Seq<char>) -> Seq<char> {
    let caps = regex_captures(combined_pattern(), content);
    replace_matches(content, caps, caps.map_values(|c: Seq<Option<(usize, usize)>>| canonical_for(c)))
}

/// The text with each `SystemMetadataId` field rewritten.
pub open spec fn named_references(text: Seq<char>, ids: Map<Seq<char>, Seq<char>>) -> Seq<char> {
    let caps = regex_captures(metadata_pattern(), text);
    replace_matches(
        text,
        caps,
        caps.map_values(|c: Seq<Option<(usize, usize)>>| metadata_replacement(text, c, ids)),
    )
}

/// The text after both textual passes.
pub open spec fn canonical_text(content: Seq<char>, ids: Map<Seq<char>, Seq<char>>) -> Seq<char> {
    named_references(normalized_fields(content), ids)
}

/// The identifier in the first `EntityId` field of the text, if any.
pub open spec fn entity_id_in(text: Seq<char>) -> Option<Seq<char>> {
    let caps = regex_captures(entity_pattern(), text);
    if caps.len() > 0 && caps[0].len() > 1 && caps[0][1] is Some {
        Some(capture_text(text, caps[0], 1))
    } else {
        None
    }
}

/// A text without volatile fields comes out of the first pass unchanged.
pub proof fn lemma_no_fields_keeps_text(content: Seq<char>)
    requires
        regex_captures(combined_pattern(), content).len() == 0,
    ensures
        normalized_fields(content) == content,
{
    let caps = regex_captures(combined_pattern(), content);
    assert(crate::pattern::match_spans(caps) =~= Seq::empty());
    assert(caps.map_values(|c: Seq<Option<(usize, usize)>>| canonical_for(c)).map_values(
        |r: Seq<char>| encode_utf8(r),
    ) =~= Seq::empty());
    lemma_splice_without_spans(encode_utf8(content));
    encode_utf8_decode_utf8(content);
}

/// A text without `SystemMetadataId` fields comes out of the second pass
/// unchanged.
pub proof fn lemma_no_references_keeps_text(text: Seq<char>, ids: Map<Seq<char>, Seq<char>>)
    requires
        regex_captures(metadata_pattern(), text).len() == 0,
    ensures
        named_references(text, ids) == text,
{
    let caps = regex_captures(metadata_pattern(), text);
    assert(crate::pattern::match_spans(caps) =~= Seq::empty());
    assert(caps.map_values(
        |c: Seq<Option<(usize, usize)>>| metadata_replacement(text, c, ids),
    ).map_values(|r: Seq<char>| encode_utf8(r)) =~= Seq::empty());
    lemma_splice_without_spans(encode_utf8(text));
    encode_utf8_decode_utf8(text);
}

/// A text in which neither pass finds anything to replace is already
/// canonical.
pub proof fn lemma_plain_text_is_canonical(content: Seq<char>, ids: Map<Seq<char>, Seq<char>>)
    requires
        regex_captures(combined_pattern(), content).len() == 0,
        regex_captures(metadata_pattern(), content).len() == 0,
    ensures
        canonical_text(content, ids) == content,
{
    lemma_no_fields_keeps_text(content);
    lemma_no_references_keeps_text(content, ids);
}

/// The kind of failure of normalising a file's text.
pub enum Failure {
    /// The text after the textual passes is not a JSON document.
    InvalidJson,
}

/// What normalising a file's text gives: the new text and whether it
/// differs from the input, or the kind of failure.
///
/// The two textual passes give `canonical_text`. That must be a JSON
/// document. When its lists of references name an object of the table, the
/// renamed document is printed anew by `serde_json` and reported as changed;
/// otherwise the text of the passes is the result, changed when either pass
/// changed something.
pub open spec fn normalized_file(content: Seq<char>, ids: Map<Seq<char>, Seq<char>>) -> Result<(Seq<char>, bool), Failure> {
    let first = normalized_fields(content);
    let second = named_references(first, ids);
    match json_parse(second) {
        None => Err(Failure::InvalidJson),
        Some(doc) => if ids_modified(doc, ids) {
            Ok((json_pretty(renamed_document(doc, ids)), true))
        } else {
            Ok((second, first != content || second != first))
        },
    }
}

/// The result of `change_content` as a mathematical value.
pub open spec fn outcome_view(res: Result<(String, bool), ChangeError>) -> Result<(Seq<char>, bool), Failure> {
    match res {
        Ok((text, changed)) => Ok((text@, changed)),
        Err(ChangeError::InvalidJson(_)) => Err(Failure::InvalidJson),
    }
}

/// Why a file's text could not be normalised.
#[derive(Debug)]
pub enum ChangeError {
    /// The text after the textual passes is not a JSON document; the
    /// message is `serde_json`'s.
    InvalidJson(String),
}

fn choose_group(c: &Vec<Option<(usize, usize)>>) -> (res: Option<usize>)
    ensures
        match res {
            Some(g) => chosen_group(c@, 1) == Some(g as int),
            None => chosen_group(c@, 1) is None,
        },
        res matches Some(g) ==> 1 <= g <= 8,
{
    let mut g: usize = 1;
    while g <= 8
        invariant
            1 <= g <= 9,
            chosen_group(c@, 1) == chosen_group(c@, g as int),
        decreases 9 - g,
    {
        if g < c.len() && c[g].is_some() {
            return Some(g);
        }
        g = g + 1;
    }
    None
}

/// The canonical replacement of each match of the combined field pattern.
fn canonical_texts(caps: &Vec<Vec<Option<(usize, usize)>>>, reps: &Vec<&'static str>) -> (res: Vec<String>)
    requires
        reps@.len() == rule_count(),
        forall|i: int| 0 <= i < rule_count() ==> #[trigger] reps@[i]@ == canonical_replacement(i),
    ensures
        res@.len() == caps@.len(),
        res@.map_values(|r: String| r@) == captures_view(caps@).map_values(
            |c: Seq<Option<(usize, usize)>>| canonical_for(c),
        ),
{
    let ghost target = captures_view(caps@).map_values(
        |c: Seq<Option<(usize, usize)>>| canonical_for(c),
    );
    let mut out: Vec<String> = Vec::new();
    let mut k: usize = 0;
    while k < caps.len()
        invariant
            reps@.len() == rule_count(),
            forall|i: int| 0 <= i < rule_count() ==> #[trigger] reps@[i]@ == canonical_replacement(i),
            target == captures_view(caps@).map_values(
                |c: Seq<Option<(usize, usize)>>| canonical_for(c),
            ),
            0 <= k <= caps@.len(),
            out@.len() == k,
            out@.map_values(|r: String| r@) == target.subrange(0, k as int),
        decreases caps@.len() - k,
    {
        let text = match choose_group(&caps[k]) {
            Some(g) => reps[g - 1].to_owned(),
            None => String::new(),
        };
        assert(text@ == target[k as int]);
        let ghost prev = out@;
        out.push(text);
        k = k + 1;
        assert(out@.map_values(|r: String| r@) =~= prev.map_values(|r: String| r@).push(text@));
        assert(out@.map_values(|r: String| r@) =~= target.subrange(0, k as int));
    }
    out
}

/// The text of capture group `g` of a match.
fn capture_slice<'a>(text: &'a str, c: &Vec<Option<(usize, usize)>>, g: usize) -> (res: &'a str)
    requires
        forall|h: int|
            #![trigger c@[h]]
            0 <= h < c@.len() && c@[h] is Some ==> {
                let span = c@[h]->Some_0;
                &&& span.0 <= span.1 <= text.spec_bytes().len()
                &&& is_char_boundary(text.spec_bytes(), span.0 as int)
                &&& is_char_boundary(text.spec_bytes(), span.1 as int)
            },
    ensures
        res@ == capture_text(text@, c@, g as int),
{
    let empty = "";
    proof {
        reveal_strlit("");
    }
    if g < c.len() {
        match c[g] {
            Some((start, end)) => {
                assert(c@[g as int] is Some);
                let res = slice_between(text, start, end);
                proof {
                    encode_utf8_decode_utf8(res@);
                }
                res
            },
            None => empty,
        }
    } else {
        empty
    }
}

/// The rewritten `SystemMetadataId` field of each match.
fn metadata_texts(text: &str, caps: &Vec<Vec<Option<(usize, usize)>>>, id_map: &IdMap) -> (res: Vec<String>)
    requires
        captures_well_formed(captures_view(caps@), text.spec_bytes()),
    ensures
        res@.len() == caps@.len(),
        res@.map_values(|r: String| r@) == captures_view(caps@).map_values(
            |c: Seq<Option<(usize, usize)>>| metadata_replacement(text@, c, id_map@),
        ),
{
    let ghost cv = captures_view(caps@);
    let ghost target = cv.map_values(
        |c: Seq<Option<(usize, usize)>>| metadata_replacement(text@, c, id_map@),
    );
    let prefix = r#""SystemMetadataId": ""#;
    let suffix = "\"";
    let mut out: Vec<String> = Vec::new();
    let mut k: usize = 0;
    while k < caps.len()
        invariant
            cv == captures_view(caps@),
            captures_well_formed(cv, text.spec_bytes()),
            target == cv.map_values(
                |c: Seq<Option<(usize, usize)>>| metadata_replacement(text@, c, id_map@),
            ),
            prefix@ == metadata_prefix(),
            suffix@ == metadata_suffix(),
            0 <= k <= caps@.len(),
            out@.len() == k,
            out@.map_values(|r: String| r@) == target.subrange(0, k as int),
        decreases caps@.len() - k,
    {
        assert(cv[k as int] == caps@[k as int]@);
        assert forall|h: int|
            #![trigger caps@[k as int]@[h]]
            0 <= h < caps@[k as int]@.len() && caps@[k as int]@[h] is Some implies {
                let span = caps@[k as int]@[h]->Some_0;
                &&& span.0 <= span.1 <= text.spec_bytes().len()
                &&& is_char_boundary(text.spec_bytes(), span.0 as int)
                &&& is_char_boundary(text.spec_bytes(), span.1 as int)
            } by {
            assert(cv[k as int][h] == caps@[k as int]@[h]);
        }
        let id = capture_slice(text, &caps[k], 1);
        let mut rep = prefix.to_owned();
        match id_map.get(id) {
            Some(name) => rep.append(name.as_str()),
            None => rep.append(id),
        }
        rep.append(suffix);
        assert(rep@ == target[k as int]);
        let ghost prev = out@;
        out.push(rep);
        k = k + 1;
        assert(out@.map_values(|r: String| r@) =~= prev.map_values(|r: String| r@).push(rep@));
        assert(out@.map_values(|r: String| r@) =~= target.subrange(0, k as int));
    }
    out
}

/// Normalises the text of one export file.
///
/// First every volatile field (`FolderId`, `ClusterId`, `EntityId`,
/// `Version`, `X`, `Y`, `Key`, `Id`) is replaced by its canonical form, then
/// every `SystemMetadataId` field is rewritten with the name recorded for its
/// identifier. The result must be a JSON document; when its
/// `RouteSystemDataTypes` or `Config.HandlersList` array refers to an object
/// that the table names, the references are renamed and ordered and the
/// whole document is printed anew by `serde_json`. Returns the new text and
/// whether it differs from the input.
pub fn change_content(content: &str, init_cfg: &ReplaceConfig, id_map: &IdMap) -> (res: Result<
    (String, bool),
    ChangeError,
>)
    ensures
        outcome_view(res) == normalized_file(content@, id_map@),
        res matches Ok((out, changed)) ==> (!changed ==> out@ == content@),
        res matches Ok((out, _)) ==> json_parse(out@) is Some,
{
    let combined_re = init_cfg.combined_re();
    let caps = captures_in(combined_re, content);
    let reps = canonical_texts(&caps, init_cfg.patterns_reps());
    let modified_content = replace_captures(content, &caps, &reps);
    assert(modified_content@ == normalized_fields(content@));
    let mut changed = !str_eq(modified_content.as_str(), content);

    let metadata_re = init_cfg.metadata_re();
    let caps2 = captures_in(metadata_re, modified_content.as_str());
    let reps2 = metadata_texts(modified_content.as_str(), &caps2, id_map);
    let new_text2 = replace_captures(modified_content.as_str(), &caps2, &reps2);
    assert(new_text2@ == canonical_text(content@, id_map@));
    changed = changed || !str_eq(new_text2.as_str(), modified_content.as_str());
    let modified_content = new_text2;

    let mut doc = match parse_json(modified_content.as_str()) {
        Ok(doc) => doc,
        Err(message) => return Err(ChangeError::InvalidJson(message)),
    };
    let ghost parsed = doc@;
    let ids_changed = replace_ids(&mut doc, id_map);
    if ids_changed {
        proof {
            lemma_renamed_document_depth(parsed, id_map@);
        }
        Ok((print_pretty(&doc), true))
    } else {
        Ok((modified_content, changed))
    }
}

/// The identifier in the first `EntityId` field of a file's text, if any.
pub fn find_entity_id(content: &str, init_cfg: &ReplaceConfig) -> (res: Option<String>)
    ensures
        key_view(res) == entity_id_in(content@),
{
    let entity_re = init_cfg.entity_re();
    let caps = captures_in(entity_re, content);
    if caps.len() > 0 && caps[0].len() > 1 && caps[0][1].is_some() {
        let ghost cv = captures_view(caps@);
        assert(cv[0] == caps@[0]@);
        assert forall|h: int|
            #![trigger caps@[0]@[h]]
            0 <= h < caps@[0]@.len() && caps@[0]@[h] is Some implies {
                let span = caps@[0]@[h]->Some_0;
                &&& span.0 <= span.1 <= content.spec_bytes().len()
                &&& is_char_boundary(content.spec_bytes(), span.0 as int)
                &&& is_char_boundary(content.spec_bytes(), span.1 as int)
            } by {
            assert(cv[0][h] == caps@[0]@[h]);
        }
        let id = capture_slice(content, &caps[0], 1);
        Some(id.to_owned())
    } else {
        None
    }
}

} // verus!
