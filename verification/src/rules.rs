//! The normalisation rules: which fields are matched and what they are
//! replaced with, and the compiled form of these rules.
use vstd::prelude::*;
use vstd::string::*;
use crate::pattern::{Pattern, compile_pattern, regex_compiles};

verus! {

/// The number of field rules.
pub open spec fn rule_count() -> int {
    8
}

/// The pattern of field rule `i`: a field whose value is volatile.
pub open spec fn pattern_source(i: int) -> Seq<char> {
    if i == 0 {
        r#""FolderId":\s*"[0-9a-f-]*""#@
    } else if i == 1 {
        r#""ClusterId":\s*"[0-9a-f-]*""#@
    } else if i == 2 {
        r#""EntityId":\s*"[0-9a-f-]*""#@
    } else if i == 3 {
        r#""Version":\s*[0-9]+"#@
    } else if i == 4 {
        r#""X":\s*-?[0-9]+(?:\.[0-9]+)?(?:[eE][-+]?[0-9]+)?"#@
    } else if i == 5 {
        r#""Y":\s*-?[0-9]+(?:\.[0-9]+)?(?:[eE][-+]?[0-9]+)?"#@
    } else if i == 6 {
        r#""Key":\s*"[0-9a-f-]*""#@
    } else {
        r#""Id":\s*"[0-9a-f-]*""#@
    }
}

/// The canonical text that replaces a match of field rule `i`.
pub open spec fn canonical_replacement(i: int) -> Seq<char> {
    if i == 0 {
        r#""FolderId": "00000000-0000-0000-0000-000000000000""#@
    } else if i == 1 {
        r#""ClusterId": "00000000-0000-0000-0000-000000000000""#@
    } else if i == 2 {
        r#""EntityId": "00000000-0000-0000-0000-000000000000""#@
    } else if i == 3 {
        r#""Version": 0"#@
    } else if i == 4 {
        r#""X": 0"#@
    } else if i == 5 {
        r#""Y": 0"#@
    } else if i == 6 {
        r#""Key": "00000000-0000-0000-0000-000000000000""#@
    } else {
        r#""Id": "00000000-0000-0000-0000-000000000000""#@
    }
}

/// The decimal digit that names the capture group of field rule `i`.
pub open spec fn group_digit(i: int) -> Seq<char> {
    if i == 0 {
        "0"@
    } else if i == 1 {
        "1"@
    } else if i == 2 {
        "2"@
    } else if i == 3 {
        "3"@
    } else if i == 4 {
        "4"@
    } else if i == 5 {
        "5"@
    } else if i == 6 {
        "6"@
    } else {
        "7"@
    }
}

/// Field rule `i` as a named capture group `p<i>`.
pub open spec fn alternative(i: int) -> Seq<char> {
    "(?P<p"@ + group_digit(i) + ">"@ + pattern_source(i) + ")"@
}

/// The first `n` field rules as alternatives of one pattern.
pub open spec fn alternatives(n: nat) -> Seq<char>
    decreases n,
{
    if n == 0 {
        Seq::empty()
    } else if n == 1 {
        alternative(0)
    } else {
        alternatives((n - 1) as nat) + "|"@ + alternative(n - 1)
    }
}

/// The pattern that matches any of the field rules; a match of rule `i`
/// takes part in capture group `i + 1`.
pub open spec fn combined_pattern() -> Seq<char> {
    alternatives(8)
}

/// The pattern of a `SystemMetadataId` field; group 1 holds the identifier.
pub open spec fn metadata_pattern() -> Seq<char> {
    r#""SystemMetadataId":\s*"([0-9a-f-]*)""#@
}

/// The pattern of an `EntityId` field with a non-empty identifier in group 1.
pub open spec fn entity_pattern() -> Seq<char> {
    r#""EntityId":\s*"([0-9a-f-]+)""#@
}

/// A character an object identifier is written with: a lower-case
/// hexadecimal digit or a hyphen.
pub open spec fn is_id_char(c: char) -> bool {
    ('0' <= c && c <= '9') || ('a' <= c && c <= 'f') || c == '-'
}

/// The body of the bracket class of identifier characters.
pub open spec fn id_class() -> Seq<char> {
    "0-9a-f-"@
}

/// A bracket class body written only with ASCII letters, digits and single
/// hyphens, so that in the `regex` syntax it is a list of ranges `a-b` and
/// single characters, with no negation, escape, nested class or class
/// operator.
pub open spec fn plain_class(body: Seq<char>) -> bool {
    &&& forall|i: int|
        0 <= i < body.len() ==> ('0' <= #[trigger] body[i] && body[i] <= '9') || ('a' <= body[i]
            && body[i] <= 'z') || ('A' <= body[i] && body[i] <= 'Z') || body[i] == '-'
    &&& forall|i: int| 0 <= i < body.len() - 1 ==> !(#[trigger] body[i] == '-' && body[i + 1] == '-')
}

/// Whether the bracket class `[body]` admits `c`, reading `body` as the
/// `regex` syntax does for a plain class: `x-y` admits the characters from
/// `x` to `y`, any other character admits itself.
pub open spec fn class_admits(body: Seq<char>, c: char) -> bool
    decreases body.len(),
{
    if body.len() == 0 {
        false
    } else if body.len() >= 3 && body[1] == '-' {
        (body[0] <= c && c <= body[2]) || class_admits(body.subrange(3, body.len() as int), c)
    } else {
        body[0] == c || class_admits(body.drop_first(), c)
    }
}

/// The pattern of a JSON field `"name": "value"`, any white space allowed
/// after the colon, whose value is a run of characters of the class
/// `[class]` (any run for the repetition `*`, a non-empty one for `+`),
/// captured as group 1.
pub open spec fn captured_field_pattern(name: Seq<char>, class: Seq<char>, repeat: char) -> Seq<char> {
    "\""@ + name + r#"":\s*"(["#@ + class + "]"@ + seq![repeat] + ")\""@
}

/// The pattern of a JSON field `"name": "value"`, any white space allowed
/// after the colon, whose value is any run of characters of `[class]`.
pub open spec fn field_pattern(name: Seq<char>, class: Seq<char>) -> Seq<char> {
    "\""@ + name + r#"":\s*"["#@ + class + "]*\""@
}

proof fn lemma_id_class_admits_id_chars()
    ensures
        plain_class(id_class()),
        forall|c: char|
            #![trigger class_admits(id_class(), c)]
            #![trigger is_id_char(c)]
            class_admits(id_class(), c) <==> is_id_char(c),
{
    reveal_strlit("0-9a-f-");
    let b = id_class();
    assert(b.subrange(3, 7) =~= seq!['a', '-', 'f', '-']);
    assert(b.subrange(3, 7).subrange(3, 4) =~= seq!['-']);
    assert(seq!['-'].drop_first() =~= Seq::<char>::empty());
    reveal_with_fuel(class_admits, 5);
}

/// Every `SystemMetadataId` field is looked for whatever run of identifier
/// characters it holds, GUIDs among them: the pattern captures, as group 1,
/// any run of the characters that the class `[0-9a-f-]` admits, which are
/// exactly the identifier characters.
pub proof fn lemma_metadata_pattern_takes_any_identifier()
    ensures
        metadata_pattern() == captured_field_pattern("SystemMetadataId"@, id_class(), '*'),
        plain_class(id_class()),
        forall|c: char|
            #![trigger class_admits(id_class(), c)]
            #![trigger is_id_char(c)]
            class_admits(id_class(), c) <==> is_id_char(c),
{
    lemma_id_class_admits_id_chars();
    reveal_strlit(r#""SystemMetadataId":\s*"([0-9a-f-]*)""#);
    reveal_strlit("SystemMetadataId");
    reveal_strlit("0-9a-f-");
    reveal_strlit("\"");
    reveal_strlit(r#"":\s*"(["#);
    reveal_strlit("]");
    reveal_strlit(")\"");
    assert(metadata_pattern() =~= captured_field_pattern("SystemMetadataId"@, id_class(), '*'));
}

/// The identifier of an `EntityId` field is any non-empty run of identifier
/// characters, GUIDs among them: the pattern captures, as group 1, a
/// non-empty run of the characters that the class `[0-9a-f-]` admits.
pub proof fn lemma_entity_pattern_takes_any_identifier()
    ensures
        entity_pattern() == captured_field_pattern("EntityId"@, id_class(), '+'),
        plain_class(id_class()),
        forall|c: char|
            #![trigger class_admits(id_class(), c)]
            #![trigger is_id_char(c)]
            class_admits(id_class(), c) <==> is_id_char(c),
{
    lemma_id_class_admits_id_chars();
    reveal_strlit(r#""EntityId":\s*"([0-9a-f-]+)""#);
    reveal_strlit("EntityId");
    reveal_strlit("0-9a-f-");
    reveal_strlit("\"");
    reveal_strlit(r#"":\s*"(["#);
    reveal_strlit("]");
    reveal_strlit(")\"");
    assert(entity_pattern() =~= captured_field_pattern("EntityId"@, id_class(), '+'));
}

/// The identifier-valued field rules take any run of identifier characters
/// as the field's value.
pub proof fn lemma_identifier_rules_take_any_identifier()
    ensures
        pattern_source(0) == field_pattern("FolderId"@, id_class()),
        pattern_source(1) == field_pattern("ClusterId"@, id_class()),
        pattern_source(2) == field_pattern("EntityId"@, id_class()),
        pattern_source(6) == field_pattern("Key"@, id_class()),
        pattern_source(7) == field_pattern("Id"@, id_class()),
{
    reveal_strlit("0-9a-f-");
    reveal_strlit("\"");
    reveal_strlit(r#"":\s*"["#);
    reveal_strlit("]*\"");
    reveal_strlit("FolderId");
    reveal_strlit("ClusterId");
    reveal_strlit("EntityId");
    reveal_strlit("Key");
    reveal_strlit("Id");
    reveal_strlit(r#""FolderId":\s*"[0-9a-f-]*""#);
    reveal_strlit(r#""ClusterId":\s*"[0-9a-f-]*""#);
    reveal_strlit(r#""EntityId":\s*"[0-9a-f-]*""#);
    reveal_strlit(r#""Key":\s*"[0-9a-f-]*""#);
    reveal_strlit(r#""Id":\s*"[0-9a-f-]*""#);
    assert(pattern_source(0) =~= field_pattern("FolderId"@, id_class()));
    assert(pattern_source(1) =~= field_pattern("ClusterId"@, id_class()));
    assert(pattern_source(2) =~= field_pattern("EntityId"@, id_class()));
    assert(pattern_source(6) =~= field_pattern("Key"@, id_class()));
    assert(pattern_source(7) =~= field_pattern("Id"@, id_class()));
}

/// The text that opens a rewritten `SystemMetadataId` field.
pub open spec fn metadata_prefix() -> Seq<char> {
    r#""SystemMetadataId": ""#@
}

/// The text that closes a rewritten `SystemMetadataId` field.
pub open spec fn metadata_suffix() -> Seq<char> {
    "\""@
}

fn pattern_text(i: usize) -> (res: &'static str)
    requires
        i < 8,
    ensures
        res@ == pattern_source(i as int),
{
    if i == 0 {
        r#""FolderId":\s*"[0-9a-f-]*""#
    } else if i == 1 {
        r#""ClusterId":\s*"[0-9a-f-]*""#
    } else if i == 2 {
        r#""EntityId":\s*"[0-9a-f-]*""#
    } else if i == 3 {
        r#""Version":\s*[0-9]+"#
    } else if i == 4 {
        r#""X":\s*-?[0-9]+(?:\.[0-9]+)?(?:[eE][-+]?[0-9]+)?"#
    } else if i == 5 {
        r#""Y":\s*-?[0-9]+(?:\.[0-9]+)?(?:[eE][-+]?[0-9]+)?"#
    } else if i == 6 {
        r#""Key":\s*"[0-9a-f-]*""#
    } else {
        r#""Id":\s*"[0-9a-f-]*""#
    }
}

fn replacement_text(i: usize) -> (res: &'static str)
    requires
        i < 8,
    ensures
        res@ == canonical_replacement(i as int),
{
    if i == 0 {
        r#""FolderId": "00000000-0000-0000-0000-000000000000""#
    } else if i == 1 {
        r#""ClusterId": "00000000-0000-0000-0000-000000000000""#
    } else if i == 2 {
        r#""EntityId": "00000000-0000-0000-0000-000000000000""#
    } else if i == 3 {
        r#""Version": 0"#
    } else if i == 4 {
        r#""X": 0"#
    } else if i == 5 {
        r#""Y": 0"#
    } else if i == 6 {
        r#""Key": "00000000-0000-0000-0000-000000000000""#
    } else {
        r#""Id": "00000000-0000-0000-0000-000000000000""#
    }
}

fn group_digit_text(i: usize) -> (res: &'static str)
    requires
        i < 8,
    ensures
        res@ == group_digit(i as int),
{
    if i == 0 {
        "0"
    } else if i == 1 {
        "1"
    } else if i == 2 {
        "2"
    } else if i == 3 {
        "3"
    } else if i == 4 {
        "4"
    } else if i == 5 {
        "5"
    } else if i == 6 {
        "6"
    } else {
        "7"
    }
}

/// Builds the pattern that matches any of the field rules.
pub fn combined_pattern_text() -> (res: String)
    ensures
        res@ == combined_pattern(),
{
    let mut res = String::new();
    let mut i: usize = 0;
    while i < 8
        invariant
            i <= 8,
            res@ == alternatives(i as nat),
        decreases 8 - i,
    {
        if i > 0 {
            res.append("|");
        }
        res.append("(?P<p");
        res.append(group_digit_text(i));
        res.append(">");
        res.append(pattern_text(i));
        res.append(")");
        i = i + 1;
        assert(res@ =~= alternatives(i as nat));
    }
    res
}

/// The compiled rules.
pub struct ReplaceConfig {
    combined_re: Pattern,
    patterns_reps: Vec<&'static str>,
    metadata_re: Pattern,
    entity_re: Pattern,
}

impl ReplaceConfig {
    #[verifier::type_invariant]
    spec fn well_formed(self) -> bool {
        &&& self.combined_re.source() == combined_pattern()
        &&& self.patterns_reps@.len() == rule_count()
        &&& forall|i: int|
            0 <= i < rule_count() ==> #[trigger] self.patterns_reps@[i]@ == canonical_replacement(i)
        &&& self.metadata_re.source() == metadata_pattern()
        &&& self.entity_re.source() == entity_pattern()
    }

    /// The expression of the field rules.
    pub fn combined_re(&self) -> (res: &Pattern)
        ensures
            res.source() == combined_pattern(),
    {
        proof {
            use_type_invariant(self);
        }
        &self.combined_re
    }

    /// The canonical replacement texts, one per field rule.
    pub fn patterns_reps(&self) -> (res: &Vec<&'static str>)
        ensures
            res@.len() == rule_count(),
            forall|i: int| 0 <= i < rule_count() ==> #[trigger] res@[i]@ == canonical_replacement(i),
    {
        proof {
            use_type_invariant(self);
        }
        &self.patterns_reps
    }

    /// The expression of `SystemMetadataId` fields.
    pub fn metadata_re(&self) -> (res: &Pattern)
        ensures
            res.source() == metadata_pattern(),
    {
        proof {
            use_type_invariant(self);
        }
        &self.metadata_re
    }

    /// The expression of `EntityId` fields.
    pub fn entity_re(&self) -> (res: &Pattern)
        ensures
            res.source() == entity_pattern(),
    {
        proof {
            use_type_invariant(self);
        }
        &self.entity_re
    }
}

/// Compiles the rules. The result is present exactly when the `regex` crate
/// accepts the three patterns.
pub fn init_replace_config() -> (res: Option<ReplaceConfig>)
    ensures
        res is Some <==> (regex_compiles(combined_pattern()) && regex_compiles(metadata_pattern())
            && regex_compiles(entity_pattern())),
{
    let combined = combined_pattern_text();
    let mut reps: Vec<&'static str> = Vec::new();
    let mut i: usize = 0;
    while i < 8
        invariant
            i <= 8,
            reps@.len() == i,
            forall|j: int| 0 <= j < i ==> #[trigger] reps@[j]@ == canonical_replacement(j),
        decreases 8 - i,
    {
        reps.push(replacement_text(i));
        i = i + 1;
    }
    let combined_re = compile_pattern(combined.as_str());
    let metadata_re = compile_pattern(r#""SystemMetadataId":\s*"([0-9a-f-]*)""#);
    let entity_re = compile_pattern(r#""EntityId":\s*"([0-9a-f-]+)""#);
    match (combined_re, metadata_re, entity_re) {
        (Some(combined_re), Some(metadata_re), Some(entity_re)) => Some(
            ReplaceConfig { combined_re, patterns_reps: reps, metadata_re, entity_re },
        ),
        _ => None,
    }
}

} // verus!
