//! JSON documents: the library's own model of a document, parsed and printed
//! by `serde_json`, and the replacement of object identifiers in its two
//! lists of references.
use vstd::prelude::*;
use crate::ids::IdMap;
use crate::slots::{
    Slot,
    any_mapped,
    key_view,
    lemma_sort_by_key_map_items,
    lemma_sort_by_key_permutes,
    lemma_sort_by_key_sorted,
    maps_key,
    slots_view,
    sort_by_key,
    sort_slots,
    sorted_by_key,
};
use crate::text::str_eq;
use serde_json::{Number, Value};

verus! {

broadcast use {vstd::seq_lib::group_to_multiset_ensures, vstd::multiset::group_multiset_axioms};

#[verifier::external_type_specification]
#[verifier::external_body]
pub struct ExJsonValue(Value);

#[verifier::external_type_specification]
#[verifier::external_body]
pub struct ExJsonNumber(Number);

/// A JSON number as `serde_json` holds it, together with the text that
/// `serde_json` prints for it.
#[derive(Debug, PartialEq, Eq)]
pub struct JsonNumber {
    text: String,
    value: Number,
}

impl JsonNumber {
    /// The text `serde_json` prints for the number.
    pub closed spec fn text(&self) -> Seq<char> {
        self.text@
    }

    /// The text `serde_json` prints for the number.
    pub fn as_text(&self) -> (res: &str)
        ensures
            res@ == self.text(),
    {
        self.text.as_str()
    }
}

/// A JSON value. A number is kept as `serde_json` holds it, with its
/// printed text; an object's members are kept in the order `serde_json`
/// holds them.
#[derive(Debug, PartialEq, Eq)]
pub enum Json {
    Null,
    Bool(bool),
    Number(JsonNumber),
    Str(String),
    Array(Vec<Json>),
    Object(Vec<(String, Json)>),
}

/// A JSON value as a mathematical value.
pub enum JsonView {
    Null,
    Bool(bool),
    Number(Seq<char>),
    Str(Seq<char>),
    Array(Seq<JsonView>),
    Object(Seq<(Seq<char>, JsonView)>),
}

/// The mathematical value of a JSON value.
pub open spec fn json_view(j: Json) -> JsonView
    decreases j,
{
    match j {
        Json::Null => JsonView::Null,
        Json::Bool(b) => JsonView::Bool(b),
        Json::Number(n) => JsonView::Number(n.text()),
        Json::Str(s) => JsonView::Str(s@),
        Json::Array(items) => JsonView::Array(item_views(items@)),
        Json::Object(members) => JsonView::Object(member_seq_views(members@)),
    }
}

/// The mathematical values of array elements.
pub open spec fn item_views(s: Seq<Json>) -> Seq<JsonView>
    decreases s,
{
    if s.len() == 0 {
        Seq::empty()
    } else {
        item_views(s.drop_last()).push(json_view(s.last()))
    }
}

/// The mathematical values of object members.
pub open spec fn member_seq_views(s: Seq<(String, Json)>) -> Seq<(Seq<char>, JsonView)>
    decreases s,
{
    if s.len() == 0 {
        Seq::empty()
    } else {
        member_seq_views(s.drop_last()).push((s.last().0@, json_view(s.last().1)))
    }
}

impl View for Json {
    type V = JsonView;

    open spec fn view(&self) -> JsonView {
        json_view(*self)
    }
}

/// The mathematical values of a sequence of JSON values.
pub open spec fn views(s: Seq<Json>) -> Seq<JsonView> {
    s.map_values(|j: Json| j@)
}

/// The mathematical values of a sequence of object members.
pub open spec fn member_views(ms: Seq<(String, Json)>) -> Seq<(Seq<char>, JsonView)> {
    ms.map_values(|m: (String, Json)| (m.0@, m.1@))
}

proof fn lemma_item_views(s: Seq<Json>)
    ensures
        item_views(s) == views(s),
    decreases s.len(),
{
    if s.len() > 0 {
        lemma_item_views(s.drop_last());
        assert(views(s) =~= views(s.drop_last()).push(s.last()@));
    } else {
        assert(views(s) =~= Seq::<JsonView>::empty());
    }
}

proof fn lemma_member_views(s: Seq<(String, Json)>)
    ensures
        member_seq_views(s) == member_views(s),
    decreases s.len(),
{
    if s.len() > 0 {
        lemma_member_views(s.drop_last());
        assert(member_views(s) =~= member_views(s.drop_last()).push((s.last().0@, s.last().1@)));
    } else {
        assert(member_views(s) =~= Seq::<(Seq<char>, JsonView)>::empty());
    }
}

proof fn lemma_array_view(items: Vec<Json>)
    ensures
        Json::Array(items)@ == JsonView::Array(views(items@)),
{
    lemma_item_views(items@);
}

proof fn lemma_object_view(ms: Vec<(String, Json)>)
    ensures
        Json::Object(ms)@ == JsonView::Object(member_views(ms@)),
{
    lemma_member_views(ms@);
}

/// The document that `serde_json::from_str` parses from the text, as the
/// library's model; `None` when `serde_json` rejects the text.
pub uninterp spec fn json_parse(text: Seq<char>) -> Option<JsonView>;

/// The text that `serde_json::to_string_pretty` prints for the document.
pub uninterp spec fn json_pretty(doc: JsonView) -> Seq<char>;

/// How deeply arrays and objects are nested in a value: 0 for a scalar.
pub open spec fn json_depth(j: JsonView) -> nat
    decreases j,
{
    match j {
        JsonView::Array(items) => 1 + items_depth(items),
        JsonView::Object(ms) => 1 + members_depth(ms),
        _ => 0,
    }
}

/// The deepest nesting among array elements.
pub open spec fn items_depth(s: Seq<JsonView>) -> nat
    decreases s,
{
    if s.len() == 0 {
        0
    } else {
        let a = items_depth(s.drop_last());
        let b = json_depth(s.last());
        if a >= b {
            a
        } else {
            b
        }
    }
}

/// The deepest nesting among object members.
pub open spec fn members_depth(s: Seq<(Seq<char>, JsonView)>) -> nat
    decreases s,
{
    if s.len() == 0 {
        0
    } else {
        let a = members_depth(s.drop_last());
        let b = json_depth(s.last().1);
        if a >= b {
            a
        } else {
            b
        }
    }
}

/// The nesting depth `serde_json::from_str` accepts: its parser refuses a
/// 128th level of nested arrays and objects.
pub open spec fn parse_depth_limit() -> nat {
    127
}

/// Converts a `serde_json` value into the library's model, one value for
/// one: numbers become their printed text, objects their members in
/// `serde_json`'s order. Nothing is stated of it on its own.
#[verifier::external_body]
fn json_of_value(value: Value) -> Json {
    match value {
        Value::Null => Json::Null,
        Value::Bool(b) => Json::Bool(b),
        Value::Number(n) => Json::Number(JsonNumber { text: n.to_string(), value: n }),
        Value::String(s) => Json::Str(s),
        Value::Array(items) => Json::Array(items.into_iter().map(json_of_value).collect()),
        Value::Object(members) => Json::Object(members.into_iter().map(|(k, v)| (k, json_of_value(v))).collect()),
    }
}

/// Converts the library's model into a `serde_json` value, one value for
/// one. Nothing is stated of it on its own.
#[verifier::external_body]
fn value_of_json(doc: &Json) -> Value {
    match doc {
        Json::Null => Value::Null,
        Json::Bool(b) => Value::Bool(*b),
        Json::Number(n) => Value::Number(n.value.clone()),
        Json::Str(s) => Value::String(s.clone()),
        Json::Array(items) => Value::Array(items.iter().map(value_of_json).collect()),
        Json::Object(members) => Value::Object(members.iter().map(|(k, v)| (k.clone(), value_of_json(v))).collect()),
    }
}

/// Parses a JSON document with `serde_json::from_str` into the library's model.
///
/// Trusted: it succeeds exactly when `json_parse` of the text is a document,
/// and then gives that document, nested no deeper than `serde_json`'s
/// parser allows. On failure it gives `serde_json`'s error message, of which
/// nothing is stated.
#[verifier::external_body]
pub(crate) fn parse_json(text: &str) -> (res: Result<Json, String>)
    ensures
        res is Ok <==> json_parse(text@) is Some,
        res matches Ok(doc) ==> json_parse(text@) == Some(doc@),
        res matches Ok(doc) ==> json_depth(doc@) <= parse_depth_limit(),
{
    match serde_json::from_str::<Value>(text) {
        Ok(value) => Ok(json_of_value(value)),
        Err(e) => Err(e.to_string()),
    }
}

/// Prints a document with `serde_json::to_string_pretty`.
///
/// Trusted: the text is `json_pretty` of the document. Printing a
/// `serde_json::Value` does not fail (its object keys are strings, and the
/// text is written to memory). The text is JSON, so `serde_json` parses it
/// again when the document is nested no deeper than its parser allows.
#[verifier::external_body]
pub(crate) fn print_pretty(doc: &Json) -> (res: String)
    ensures
        res@ == json_pretty(doc@),
        json_depth(doc@) <= parse_depth_limit() ==> json_parse(res@) is Some,
{
    match serde_json::to_string_pretty(&value_of_json(doc)) {
        Ok(text) => text,
        Err(_) => String::new(),
    }
}

/// Parses a JSON document into the library's model, as `serde_json` does;
/// on failure gives `serde_json`'s error message.
pub fn parse_document(text: &str) -> (res: Result<Json, String>)
    ensures
        res is Ok <==> json_parse(text@) is Some,
        res matches Ok(doc) ==> json_parse(text@) == Some(doc@),
{
    parse_json(text)
}

/// The position of the first member named `key`, looking from `from` on.
pub open spec fn find_member(ms: Seq<(Seq<char>, JsonView)>, key: Seq<char>, from: nat) -> Option<int>
    decreases ms.len() - from,
{
    if from >= ms.len() {
        None
    } else if ms[from as int].0 == key {
        Some(from as int)
    } else {
        find_member(ms, key, from + 1)
    }
}

/// The name of the top-level list of route data types.
pub open spec fn route_list_key() -> Seq<char> {
    "RouteSystemDataTypes"@
}

/// The name of the configuration member.
pub open spec fn config_key() -> Seq<char> {
    "Config"@
}

/// The name of the handler list inside the configuration.
pub open spec fn handlers_list_key() -> Seq<char> {
    "HandlersList"@
}

/// The name of a handler's identifier member.
pub open spec fn handler_id_key() -> Seq<char> {
    "HandlerId"@
}

/// The identifier an element of a list carries: a route data type is
/// identified by its text when it is a string; a handler by its `HandlerId`
/// member when it is an object whose `HandlerId` is a string.
pub open spec fn element_key(e: JsonView, handler: bool) -> Option<Seq<char>> {
    if handler {
        match e {
            JsonView::Object(ms) => match find_member(ms, handler_id_key(), 0) {
                Some(i) => match ms[i].1 {
                    JsonView::Str(s) => Some(s),
                    _ => None,
                },
                None => None,
            },
            _ => None,
        }
    } else {
        match e {
            JsonView::Str(s) => Some(s),
            _ => None,
        }
    }
}

/// The element with its identifier replaced by the name the table records
/// for it; an element whose identifier the table does not name is kept.
pub open spec fn rename_element(e: JsonView, ids: Map<Seq<char>, Seq<char>>, handler: bool) -> JsonView {
    if handler {
        match e {
            JsonView::Object(ms) => match find_member(ms, handler_id_key(), 0) {
                Some(i) => match ms[i].1 {
                    JsonView::Str(s) => if ids.contains_key(s) {
                        JsonView::Object(ms.update(i, (ms[i].0, JsonView::Str(ids[s]))))
                    } else {
                        e
                    },
                    _ => e,
                },
                None => e,
            },
            _ => e,
        }
    } else {
        match e {
            JsonView::Str(s) => if ids.contains_key(s) {
                JsonView::Str(ids[s])
            } else {
                e
            },
            _ => e,
        }
    }
}

/// The elements paired with their identifiers.
pub open spec fn keyed(items: Seq<JsonView>, handler: bool) -> Seq<(Option<Seq<char>>, JsonView)> {
    items.map_values(|e: JsonView| (element_key(e, handler), e))
}

/// The identifiers of the elements.
pub open spec fn element_keys(items: Seq<JsonView>, handler: bool) -> Seq<Option<Seq<char>>> {
    items.map_values(|e: JsonView| element_key(e, handler))
}

/// The elements renamed by the table.
pub open spec fn renamed_elements(items: Seq<JsonView>, ids: Map<Seq<char>, Seq<char>>, handler: bool) -> Seq<JsonView> {
    items.map_values(|e: JsonView| rename_element(e, ids, handler))
}

/// A list after renaming: when some identifier is named by the table, the
/// renamed elements in ascending byte order of their identifiers (elements
/// without one count as the empty string; equal identifiers keep their
/// order), and `true`; otherwise the list as it was, and `false`.
pub open spec fn rewrite_list(items: Seq<JsonView>, ids: Map<Seq<char>, Seq<char>>, handler: bool) -> (Seq<JsonView>, bool) {
    if any_mapped(element_keys(items, handler), ids) {
        (
            sort_by_key(keyed(renamed_elements(items, ids, handler), handler)).map_values(
                |p: (Option<Seq<char>>, JsonView)| p.1,
            ),
            true,
        )
    } else {
        (items, false)
    }
}

/// The document with its top-level `RouteSystemDataTypes` array rewritten
/// (when the document is an object and that member is an array), and
/// whether anything was renamed. Every other part stays as it was.
pub open spec fn rewrite_routes(doc: JsonView, ids: Map<Seq<char>, Seq<char>>) -> (JsonView, bool) {
    match doc {
        JsonView::Object(ms) => match find_member(ms, route_list_key(), 0) {
            Some(i) => match ms[i].1 {
                JsonView::Array(items) => {
                    let r = rewrite_list(items, ids, false);
                    (JsonView::Object(ms.update(i, (ms[i].0, JsonView::Array(r.0)))), r.1)
                },
                _ => (doc, false),
            },
            None => (doc, false),
        },
        _ => (doc, false),
    }
}

/// The document with its `Config.HandlersList` array rewritten (when the
/// document and its `Config` are objects and `HandlersList` is an array), and
/// whether anything was renamed. Every other part stays as it was.
pub open spec fn rewrite_handlers(doc: JsonView, ids: Map<Seq<char>, Seq<char>>) -> (JsonView, bool) {
    match doc {
        JsonView::Object(ms) => match find_member(ms, config_key(), 0) {
            Some(i) => match ms[i].1 {
                JsonView::Object(cms) => match find_member(cms, handlers_list_key(), 0) {
                    Some(j) => match cms[j].1 {
                        JsonView::Array(items) => {
                            let r = rewrite_list(items, ids, true);
                            (
                                JsonView::Object(
                                    ms.update(
                                        i,
                                        (
                                            ms[i].0,
                                            JsonView::Object(cms.update(j, (cms[j].0, JsonView::Array(r.0)))),
                                        ),
                                    ),
                                ),
                                r.1,
                            )
                        },
                        _ => (doc, false),
                    },
                    None => (doc, false),
                },
                _ => (doc, false),
            },
            None => (doc, false),
        },
        _ => (doc, false),
    }
}

/// The document with both lists of references rewritten.
pub open spec fn renamed_document(doc: JsonView, ids: Map<Seq<char>, Seq<char>>) -> JsonView {
    rewrite_handlers(rewrite_routes(doc, ids).0, ids).0
}

/// Whether rewriting the lists of references renames anything.
pub open spec fn ids_modified(doc: JsonView, ids: Map<Seq<char>, Seq<char>>) -> bool {
    rewrite_routes(doc, ids).1 || rewrite_handlers(rewrite_routes(doc, ids).0, ids).1
}

/// After a rewrite that renamed something, the list is in ascending byte
/// order of its identifiers and holds exactly the renamed elements, each as
/// often as before.
pub proof fn lemma_rewritten_list_sorted_permutation(
    items: Seq<JsonView>,
    ids: Map<Seq<char>, Seq<char>>,
    handler: bool,
)
    requires
        rewrite_list(items, ids, handler).1,
    ensures
        ({
            let out = rewrite_list(items, ids, handler).0;
            &&& sorted_by_key(keyed(out, handler))
            &&& keyed(out, handler).to_multiset() == keyed(
                renamed_elements(items, ids, handler),
                handler,
            ).to_multiset()
            &&& out.len() == items.len()
        }),
{
    let ks = keyed(renamed_elements(items, ids, handler), handler);
    let sorted = sort_by_key(ks);
    let out = rewrite_list(items, ids, handler).0;
    lemma_sort_by_key_sorted(ks);
    lemma_sort_by_key_permutes(ks);
    assert forall|i: int| 0 <= i < sorted.len() implies #[trigger] sorted[i].0 == element_key(
        sorted[i].1,
        handler,
    ) by {
        vstd::seq_lib::to_multiset_contains(sorted, sorted[i]);
        vstd::seq_lib::to_multiset_contains(ks, sorted[i]);
        assert(sorted.contains(sorted[i]));
        let j = choose|j: int| 0 <= j < ks.len() && ks[j] == sorted[i];
        assert(ks[j].0 == element_key(ks[j].1, handler));
    }
    assert(out == sorted.map_values(|p: (Option<Seq<char>>, JsonView)| p.1));
    assert forall|i: int| 0 <= i < sorted.len() implies #[trigger] keyed(out, handler)[i] == sorted[i] by {
        assert(out[i] == sorted[i].1);
    }
    assert(keyed(out, handler) =~= sorted);
}

/// A list in which nothing is renamed comes out as it went in.
proof fn lemma_rewrite_list_unmapped(items: Seq<JsonView>, ids: Map<Seq<char>, Seq<char>>, handler: bool)
    requires
        !rewrite_list(items, ids, handler).1,
    ensures
        rewrite_list(items, ids, handler).0 == items,
{
}

/// A document in which nothing is renamed comes out as it went in.
pub proof fn lemma_unmapped_document_unchanged(doc: JsonView, ids: Map<Seq<char>, Seq<char>>)
    requires
        !ids_modified(doc, ids),
    ensures
        renamed_document(doc, ids) == doc,
{
    let d1 = rewrite_routes(doc, ids).0;
    match doc {
        JsonView::Object(ms) => match find_member(ms, route_list_key(), 0) {
            Some(i) => match ms[i].1 {
                JsonView::Array(items) => {
                    lemma_rewrite_list_unmapped(items, ids, false);
                    lemma_find_member_bounds(ms, route_list_key(), 0);
                    assert(ms.update(i, (ms[i].0, JsonView::Array(items))) =~= ms);
                },
                _ => {},
            },
            None => {},
        },
        _ => {},
    }
    assert(d1 == doc);
    match doc {
        JsonView::Object(ms) => match find_member(ms, config_key(), 0) {
            Some(i) => match ms[i].1 {
                JsonView::Object(cms) => match find_member(cms, handlers_list_key(), 0) {
                    Some(j) => match cms[j].1 {
                        JsonView::Array(items) => {
                            lemma_rewrite_list_unmapped(items, ids, true);
                            lemma_find_member_bounds(ms, config_key(), 0);
                            lemma_find_member_bounds(cms, handlers_list_key(), 0);
                            assert(cms.update(j, (cms[j].0, JsonView::Array(items))) =~= cms);
                            assert(ms.update(i, (ms[i].0, JsonView::Object(cms))) =~= ms);
                        },
                        _ => {},
                    },
                    None => {},
                },
                _ => {},
            },
            None => {},
        },
        _ => {},
    }
}

/// The position found lies in the members and carries the name looked for.
pub proof fn lemma_find_member_bounds(ms: Seq<(Seq<char>, JsonView)>, key: Seq<char>, from: nat)
    ensures
        find_member(ms, key, from) matches Some(i) ==> from <= i < ms.len() && ms[i].0 == key,
    decreases ms.len() - from,
{
    if from < ms.len() && ms[from as int].0 != key {
        lemma_find_member_bounds(ms, key, from + 1);
    }
}

/// Replacing a member's value, keeping its name, finds the same positions.
proof fn lemma_find_member_update(
    ms: Seq<(Seq<char>, JsonView)>,
    i: int,
    v: JsonView,
    key: Seq<char>,
    from: nat,
)
    requires
        0 <= i < ms.len(),
    ensures
        find_member(ms.update(i, (ms[i].0, v)), key, from) == find_member(ms, key, from),
    decreases ms.len() - from,
{
    if from < ms.len() {
        lemma_find_member_update(ms, i, v, key, from + 1);
    }
}

/// With no name that is itself an identifier of the table, a renamed
/// element carries no identifier that the table names.
proof fn lemma_renamed_key_unmapped(e: JsonView, ids: Map<Seq<char>, Seq<char>>, handler: bool)
    requires
        forall|k: Seq<char>| ids.contains_key(k) ==> !ids.contains_key(#[trigger] ids[k]),
    ensures
        !maps_key(element_key(rename_element(e, ids, handler), handler), ids),
{
    if handler {
        match e {
            JsonView::Object(ms) => match find_member(ms, handler_id_key(), 0) {
                Some(i) => {
                    lemma_find_member_bounds(ms, handler_id_key(), 0);
                    match ms[i].1 {
                        JsonView::Str(s) => if ids.contains_key(s) {
                            let v = JsonView::Str(ids[s]);
                            lemma_find_member_update(ms, i, v, handler_id_key(), 0);
                        },
                        _ => {},
                    }
                },
                None => {},
            },
            _ => {},
        }
    }
}

/// With no name that is itself an identifier of the table, a rewritten list
/// carries no identifier that the table names.
proof fn lemma_rewritten_list_unmapped(items: Seq<JsonView>, ids: Map<Seq<char>, Seq<char>>, handler: bool)
    requires
        forall|k: Seq<char>| ids.contains_key(k) ==> !ids.contains_key(#[trigger] ids[k]),
    ensures
        !any_mapped(element_keys(rewrite_list(items, ids, handler).0, handler), ids),
{
    if rewrite_list(items, ids, handler).1 {
        let out = rewrite_list(items, ids, handler).0;
        let rv = renamed_elements(items, ids, handler);
        let ks = keyed(rv, handler);
        let sorted = sort_by_key(ks);
        lemma_sort_by_key_permutes(ks);
        assert(out == sorted.map_values(|p: (Option<Seq<char>>, JsonView)| p.1));
        assert forall|i: int| 0 <= i < out.len() implies !maps_key(
            #[trigger] element_keys(out, handler)[i],
            ids,
        ) by {
            vstd::seq_lib::to_multiset_contains(sorted, sorted[i]);
            vstd::seq_lib::to_multiset_contains(ks, sorted[i]);
            assert(sorted.contains(sorted[i]));
            let j = choose|j: int| 0 <= j < ks.len() && ks[j] == sorted[i];
            assert(out[i] == rv[j]);
            lemma_renamed_key_unmapped(items[j], ids, handler);
        }
    }
}

proof fn lemma_list_keys_differ()
    ensures
        route_list_key() != config_key(),
{
    reveal_strlit("RouteSystemDataTypes");
    reveal_strlit("Config");
    assert(route_list_key().len() != config_key().len());
}

/// The route list of a rewritten document names nothing more.
proof fn lemma_routes_twice(doc: JsonView, ids: Map<Seq<char>, Seq<char>>)
    requires
        forall|k: Seq<char>| ids.contains_key(k) ==> !ids.contains_key(#[trigger] ids[k]),
    ensures
        !rewrite_routes(rewrite_routes(doc, ids).0, ids).1,
{
    match doc {
        JsonView::Object(ms) => match find_member(ms, route_list_key(), 0) {
            Some(i) => {
                lemma_find_member_bounds(ms, route_list_key(), 0);
                match ms[i].1 {
                    JsonView::Array(items) => {
                        let r = rewrite_list(items, ids, false);
                        lemma_find_member_update(ms, i, JsonView::Array(r.0), route_list_key(), 0);
                        lemma_rewritten_list_unmapped(items, ids, false);
                    },
                    _ => {},
                }
            },
            None => {},
        },
        _ => {},
    }
}

/// Rewriting the handler list leaves the route list as it was.
proof fn lemma_handlers_keep_routes(doc: JsonView, ids: Map<Seq<char>, Seq<char>>)
    ensures
        rewrite_routes(rewrite_handlers(doc, ids).0, ids).1 == rewrite_routes(doc, ids).1,
{
    lemma_list_keys_differ();
    match doc {
        JsonView::Object(ms) => match find_member(ms, config_key(), 0) {
            Some(i) => {
                lemma_find_member_bounds(ms, config_key(), 0);
                match ms[i].1 {
                    JsonView::Object(cms) => match find_member(cms, handlers_list_key(), 0) {
                        Some(j) => match cms[j].1 {
                            JsonView::Array(items) => {
                                let r = rewrite_list(items, ids, true);
                                let cv = JsonView::Object(cms.update(j, (cms[j].0, JsonView::Array(r.0))));
                                lemma_find_member_update(ms, i, cv, route_list_key(), 0);
                                lemma_find_member_bounds(ms, route_list_key(), 0);
                            },
                            _ => {},
                        },
                        None => {},
                    },
                    _ => {},
                }
            },
            None => {},
        },
        _ => {},
    }
}

/// The handler list of a rewritten document names nothing more.
proof fn lemma_handlers_twice(doc: JsonView, ids: Map<Seq<char>, Seq<char>>)
    requires
        forall|k: Seq<char>| ids.contains_key(k) ==> !ids.contains_key(#[trigger] ids[k]),
    ensures
        !rewrite_handlers(rewrite_handlers(doc, ids).0, ids).1,
{
    match doc {
        JsonView::Object(ms) => match find_member(ms, config_key(), 0) {
            Some(i) => {
                lemma_find_member_bounds(ms, config_key(), 0);
                match ms[i].1 {
                    JsonView::Object(cms) => match find_member(cms, handlers_list_key(), 0) {
                        Some(j) => {
                            lemma_find_member_bounds(cms, handlers_list_key(), 0);
                            match cms[j].1 {
                                JsonView::Array(items) => {
                                    let r = rewrite_list(items, ids, true);
                                    let av = JsonView::Array(r.0);
                                    let cv = JsonView::Object(cms.update(j, (cms[j].0, av)));
                                    lemma_find_member_update(ms, i, cv, config_key(), 0);
                                    lemma_find_member_update(cms, j, av, handlers_list_key(), 0);
                                    lemma_rewritten_list_unmapped(items, ids, true);
                                },
                                _ => {},
                            }
                        },
                        None => {},
                    },
                    _ => {},
                }
            },
            None => {},
        },
        _ => {},
    }
}

/// When no name is itself an identifier of the table, rewriting a rewritten
/// document renames nothing and leaves it as it is.
pub proof fn lemma_rewrite_idempotent(doc: JsonView, ids: Map<Seq<char>, Seq<char>>)
    requires
        forall|k: Seq<char>| ids.contains_key(k) ==> !ids.contains_key(#[trigger] ids[k]),
    ensures
        !ids_modified(renamed_document(doc, ids), ids),
        renamed_document(renamed_document(doc, ids), ids) == renamed_document(doc, ids),
{
    let d1 = rewrite_routes(doc, ids).0;
    let d2 = renamed_document(doc, ids);
    lemma_routes_twice(doc, ids);
    lemma_handlers_keep_routes(d1, ids);
    assert(!rewrite_routes(d2, ids).1);
    lemma_routes_unmapped_unchanged(d2, ids);
    lemma_handlers_twice(d1, ids);
    assert(!ids_modified(d2, ids));
    lemma_unmapped_document_unchanged(d2, ids);
}

/// A route list that names nothing leaves the document as it is.
proof fn lemma_routes_unmapped_unchanged(doc: JsonView, ids: Map<Seq<char>, Seq<char>>)
    requires
        !rewrite_routes(doc, ids).1,
    ensures
        rewrite_routes(doc, ids).0 == doc,
{
    match doc {
        JsonView::Object(ms) => match find_member(ms, route_list_key(), 0) {
            Some(i) => match ms[i].1 {
                JsonView::Array(items) => {
                    lemma_find_member_bounds(ms, route_list_key(), 0);
                    assert(ms.update(i, (ms[i].0, JsonView::Array(items))) =~= ms);
                },
                _ => {},
            },
            None => {},
        },
        _ => {},
    }
}

/// Each element is nested no deeper than the list's deepest element, and a
/// bound on every element bounds the list.
proof fn lemma_items_depth(s: Seq<JsonView>, b: nat)
    ensures
        forall|i: int| 0 <= i < s.len() ==> json_depth(#[trigger] s[i]) <= items_depth(s),
        (forall|i: int| 0 <= i < s.len() ==> json_depth(#[trigger] s[i]) <= b) ==> items_depth(s) <= b,
    decreases s.len(),
{
    if s.len() > 0 {
        let init = s.drop_last();
        lemma_items_depth(init, b);
        assert forall|i: int| 0 <= i < init.len() implies init[i] == s[i] by {}
    }
}

/// Each member is nested no deeper than the object's deepest member, and a
/// bound on every member bounds the object.
proof fn lemma_members_depth(s: Seq<(Seq<char>, JsonView)>, b: nat)
    ensures
        forall|i: int| 0 <= i < s.len() ==> json_depth(#[trigger] s[i].1) <= members_depth(s),
        (forall|i: int| 0 <= i < s.len() ==> json_depth(#[trigger] s[i].1) <= b) ==> members_depth(s) <= b,
    decreases s.len(),
{
    if s.len() > 0 {
        let init = s.drop_last();
        lemma_members_depth(init, b);
        assert forall|i: int| 0 <= i < init.len() implies init[i] == s[i] by {}
    }
}

/// Replacing one member's value by one nested no deeper keeps the object
/// no deeper.
proof fn lemma_member_update_depth(ms: Seq<(Seq<char>, JsonView)>, i: int, v: JsonView)
    requires
        0 <= i < ms.len(),
        json_depth(v) <= json_depth(ms[i].1),
    ensures
        members_depth(ms.update(i, (ms[i].0, v))) <= members_depth(ms),
{
    let up = ms.update(i, (ms[i].0, v));
    lemma_members_depth(ms, 0);
    lemma_members_depth(up, members_depth(ms));
    assert forall|k: int| 0 <= k < up.len() implies json_depth(#[trigger] up[k].1) <= members_depth(ms) by {
        if k != i {
            assert(up[k] == ms[k]);
        }
    }
}

/// Renaming an element's identifier does not nest it deeper.
proof fn lemma_rename_element_depth(e: JsonView, ids: Map<Seq<char>, Seq<char>>, handler: bool)
    ensures
        json_depth(rename_element(e, ids, handler)) <= json_depth(e),
{
    if handler {
        match e {
            JsonView::Object(ms) => match find_member(ms, handler_id_key(), 0) {
                Some(i) => {
                    lemma_find_member_bounds(ms, handler_id_key(), 0);
                    match ms[i].1 {
                        JsonView::Str(s) => if ids.contains_key(s) {
                            lemma_member_update_depth(ms, i, JsonView::Str(ids[s]));
                        },
                        _ => {},
                    }
                },
                None => {},
            },
            _ => {},
        }
    }
}

/// A rewritten list is nested no deeper than the list it came from.
proof fn lemma_rewrite_list_depth(items: Seq<JsonView>, ids: Map<Seq<char>, Seq<char>>, handler: bool)
    ensures
        items_depth(rewrite_list(items, ids, handler).0) <= items_depth(items),
{
    if rewrite_list(items, ids, handler).1 {
        let out = rewrite_list(items, ids, handler).0;
        let rv = renamed_elements(items, ids, handler);
        let ks = keyed(rv, handler);
        let sorted = sort_by_key(ks);
        lemma_sort_by_key_permutes(ks);
        lemma_items_depth(items, 0);
        lemma_items_depth(out, items_depth(items));
        assert(out == sorted.map_values(|p: (Option<Seq<char>>, JsonView)| p.1));
        assert forall|i: int| 0 <= i < out.len() implies json_depth(#[trigger] out[i]) <= items_depth(items) by {
            vstd::seq_lib::to_multiset_contains(sorted, sorted[i]);
            vstd::seq_lib::to_multiset_contains(ks, sorted[i]);
            assert(sorted.contains(sorted[i]));
            let j = choose|j: int| 0 <= j < ks.len() && ks[j] == sorted[i];
            assert(out[i] == rv[j]);
            lemma_rename_element_depth(items[j], ids, handler);
            assert(json_depth(items[j]) <= items_depth(items));
        }
    }
}

/// Rewriting the route list does not nest the document deeper.
proof fn lemma_rewrite_routes_depth(doc: JsonView, ids: Map<Seq<char>, Seq<char>>)
    ensures
        json_depth(rewrite_routes(doc, ids).0) <= json_depth(doc),
{
    match doc {
        JsonView::Object(ms) => match find_member(ms, route_list_key(), 0) {
            Some(i) => {
                lemma_find_member_bounds(ms, route_list_key(), 0);
                match ms[i].1 {
                    JsonView::Array(items) => {
                        lemma_rewrite_list_depth(items, ids, false);
                        let r = rewrite_list(items, ids, false);
                        lemma_member_update_depth(ms, i, JsonView::Array(r.0));
                    },
                    _ => {},
                }
            },
            None => {},
        },
        _ => {},
    }
}

/// Rewriting the handler list does not nest the document deeper.
proof fn lemma_rewrite_handlers_depth(doc: JsonView, ids: Map<Seq<char>, Seq<char>>)
    ensures
        json_depth(rewrite_handlers(doc, ids).0) <= json_depth(doc),
{
    match doc {
        JsonView::Object(ms) => match find_member(ms, config_key(), 0) {
            Some(i) => {
                lemma_find_member_bounds(ms, config_key(), 0);
                match ms[i].1 {
                    JsonView::Object(cms) => match find_member(cms, handlers_list_key(), 0) {
                        Some(j) => {
                            lemma_find_member_bounds(cms, handlers_list_key(), 0);
                            match cms[j].1 {
                                JsonView::Array(items) => {
                                    lemma_rewrite_list_depth(items, ids, true);
                                    let r = rewrite_list(items, ids, true);
                                    lemma_member_update_depth(cms, j, JsonView::Array(r.0));
                                    let cv = JsonView::Object(cms.update(j, (cms[j].0, JsonView::Array(r.0))));
                                    lemma_member_update_depth(ms, i, cv);
                                },
                                _ => {},
                            }
                        },
                        None => {},
                    },
                    _ => {},
                }
            },
            None => {},
        },
        _ => {},
    }
}

/// Renaming the lists of references nests the document no deeper than it
/// was: every array and object keeps its place, and a renamed handler only
/// has a string put in place of a string.
pub proof fn lemma_renamed_document_depth(doc: JsonView, ids: Map<Seq<char>, Seq<char>>)
    ensures
        json_depth(renamed_document(doc, ids)) <= json_depth(doc),
{
    lemma_rewrite_routes_depth(doc, ids);
    lemma_rewrite_handlers_depth(rewrite_routes(doc, ids).0, ids);
}

/// The first member carrying a name is found wherever it stands.
proof fn lemma_find_member_first(ms: Seq<(Seq<char>, JsonView)>, key: Seq<char>, k: int, from: nat)
    requires
        from <= k < ms.len(),
        ms[k].0 == key,
        forall|j: int| from <= j < k ==> (#[trigger] ms[j]).0 != key,
    ensures
        find_member(ms, key, from) == Some(k),
    decreases k - from,
{
    if from < k {
        lemma_find_member_first(ms, key, k, from + 1);
    }
}

/// The route list is looked for among all the document's members: when
/// member `k` is the first named `RouteSystemDataTypes` and holds an array,
/// wherever it stands, that array is rewritten in place and nothing else
/// changes.
pub proof fn lemma_route_list_found_anywhere(
    ms: Seq<(Seq<char>, JsonView)>,
    k: int,
    items: Seq<JsonView>,
    ids: Map<Seq<char>, Seq<char>>,
)
    requires
        0 <= k < ms.len(),
        ms[k].0 == route_list_key(),
        forall|j: int| 0 <= j < k ==> (#[trigger] ms[j]).0 != route_list_key(),
        ms[k].1 == JsonView::Array(items),
    ensures
        rewrite_routes(JsonView::Object(ms), ids) == (
            JsonView::Object(
                ms.update(k, (route_list_key(), JsonView::Array(rewrite_list(items, ids, false).0))),
            ),
            rewrite_list(items, ids, false).1,
        ),
{
    lemma_find_member_first(ms, route_list_key(), k, 0);
}

/// A string of the route list that the table names gets the document
/// renamed, wherever `RouteSystemDataTypes` stands among the members and
/// wherever the string stands in the list.
pub proof fn lemma_mapped_route_renames(
    ms: Seq<(Seq<char>, JsonView)>,
    k: int,
    items: Seq<JsonView>,
    h: int,
    id: Seq<char>,
    ids: Map<Seq<char>, Seq<char>>,
)
    requires
        0 <= k < ms.len(),
        ms[k].0 == route_list_key(),
        forall|j: int| 0 <= j < k ==> (#[trigger] ms[j]).0 != route_list_key(),
        ms[k].1 == JsonView::Array(items),
        0 <= h < items.len(),
        items[h] == JsonView::Str(id),
        ids.contains_key(id),
    ensures
        rewrite_list(items, ids, false).1,
        rewrite_routes(JsonView::Object(ms), ids).1,
        ids_modified(JsonView::Object(ms), ids),
{
    assert(maps_key(element_keys(items, false)[h], ids));
    lemma_route_list_found_anywhere(ms, k, items, ids);
}

/// The handler list is looked for among all members: when member `k` is the
/// first named `Config`, wherever it stands, and is an object whose member
/// `l` is the first named `HandlersList`, wherever it stands, and holds an
/// array, that array is rewritten in place and nothing else changes.
pub proof fn lemma_handler_list_found_anywhere(
    ms: Seq<(Seq<char>, JsonView)>,
    k: int,
    cms: Seq<(Seq<char>, JsonView)>,
    l: int,
    items: Seq<JsonView>,
    ids: Map<Seq<char>, Seq<char>>,
)
    requires
        0 <= k < ms.len(),
        ms[k].0 == config_key(),
        forall|j: int| 0 <= j < k ==> (#[trigger] ms[j]).0 != config_key(),
        ms[k].1 == JsonView::Object(cms),
        0 <= l < cms.len(),
        cms[l].0 == handlers_list_key(),
        forall|j: int| 0 <= j < l ==> (#[trigger] cms[j]).0 != handlers_list_key(),
        cms[l].1 == JsonView::Array(items),
    ensures
        rewrite_handlers(JsonView::Object(ms), ids) == (
            JsonView::Object(
                ms.update(
                    k,
                    (
                        config_key(),
                        JsonView::Object(
                            cms.update(
                                l,
                                (handlers_list_key(), JsonView::Array(rewrite_list(items, ids, true).0)),
                            ),
                        ),
                    ),
                ),
            ),
            rewrite_list(items, ids, true).1,
        ),
{
    lemma_find_member_first(ms, config_key(), k, 0);
    lemma_find_member_first(cms, handlers_list_key(), l, 0);
}

/// A handler of that list whose first `HandlerId` member is a string the
/// table names gets the document renamed, wherever `Config`, `HandlersList`
/// and `HandlerId` stand among their siblings.
pub proof fn lemma_mapped_handler_renames(
    ms: Seq<(Seq<char>, JsonView)>,
    k: int,
    cms: Seq<(Seq<char>, JsonView)>,
    l: int,
    items: Seq<JsonView>,
    h: int,
    hms: Seq<(Seq<char>, JsonView)>,
    p: int,
    id: Seq<char>,
    ids: Map<Seq<char>, Seq<char>>,
)
    requires
        0 <= k < ms.len(),
        ms[k].0 == config_key(),
        forall|j: int| 0 <= j < k ==> (#[trigger] ms[j]).0 != config_key(),
        ms[k].1 == JsonView::Object(cms),
        0 <= l < cms.len(),
        cms[l].0 == handlers_list_key(),
        forall|j: int| 0 <= j < l ==> (#[trigger] cms[j]).0 != handlers_list_key(),
        cms[l].1 == JsonView::Array(items),
        0 <= h < items.len(),
        items[h] == JsonView::Object(hms),
        0 <= p < hms.len(),
        hms[p].0 == handler_id_key(),
        forall|j: int| 0 <= j < p ==> (#[trigger] hms[j]).0 != handler_id_key(),
        hms[p].1 == JsonView::Str(id),
        ids.contains_key(id),
    ensures
        rewrite_list(items, ids, true).1,
        rewrite_handlers(JsonView::Object(ms), ids).1,
        ids_modified(JsonView::Object(ms), ids),
{
    let doc = JsonView::Object(ms);
    lemma_find_member_first(hms, handler_id_key(), p, 0);
    assert(element_keys(items, true)[h] == Some(id));
    assert(maps_key(element_keys(items, true)[h], ids));
    lemma_handler_list_found_anywhere(ms, k, cms, l, items, ids);
    if !rewrite_routes(doc, ids).1 {
        lemma_routes_unmapped_unchanged(doc, ids);
    }
}

/// The position of the first member named `key`.
fn find_member_exec(ms: &Vec<(String, Json)>, key: &str) -> (res: Option<usize>)
    ensures
        match res {
            Some(i) => i < ms@.len() && find_member(member_views(ms@), key@, 0) == Some(i as int),
            None => find_member(member_views(ms@), key@, 0) is None,
        },
{
    let ghost mv = member_views(ms@);
    let mut i: usize = 0;
    while i < ms.len()
        invariant
            mv == member_views(ms@),
            i <= ms@.len(),
            find_member(mv, key@, 0) == find_member(mv, key@, i as nat),
        decreases ms@.len() - i,
    {
        if str_eq(ms[i].0.as_str(), key) {
            return Some(i);
        }
        i = i + 1;
    }
    None
}

/// The identifier an element carries, as `element_key` says.
fn element_key_of(e: &Json, handler: bool) -> (res: Option<String>)
    ensures
        key_view(res) == element_key(e@, handler),
{
    if handler {
        match e {
            Json::Object(ms) => {
                proof {
                    lemma_object_view(*ms);
                }
                match find_member_exec(ms, "HandlerId") {
                    Some(i) => match &ms[i].1 {
                        Json::Str(s) => Some(s.clone()),
                        _ => None,
                    },
                    None => None,
                }
            },
            _ => None,
        }
    } else {
        match e {
            Json::Str(s) => Some(s.clone()),
            _ => None,
        }
    }
}

/// Renames one element, as `rename_element` says; returns whether its
/// identifier was named by the table.
fn rename_one(e: Json, id_map: &IdMap, handler: bool) -> (res: (Json, bool))
    ensures
        res.0@ == rename_element(e@, id_map@, handler),
        res.1 == maps_key(element_key(e@, handler), id_map@),
{
    if handler {
        match e {
            Json::Object(ms) => {
                let mut ms = ms;
                let ghost old_ms = ms@;
                proof {
                    lemma_object_view(ms);
                }
                match find_member_exec(&ms, "HandlerId") {
                    Some(i) => {
                        let name: Option<String> = match &ms[i].1 {
                            Json::Str(s) => match id_map.get(s.as_str()) {
                                Some(n) => Some(n.clone()),
                                None => None,
                            },
                            _ => None,
                        };
                        match name {
                            Some(name) => {
                                let (k, _previous) = ms.remove(i);
                                ms.insert(i, (k, Json::Str(name)));
                                proof {
                                    lemma_object_view(ms);
                                    assert(member_views(ms@) =~= member_views(old_ms).update(
                                        i as int,
                                        (member_views(old_ms)[i as int].0, JsonView::Str(name@)),
                                    ));
                                }
                                (Json::Object(ms), true)
                            },
                            None => (Json::Object(ms), false),
                        }
                    },
                    None => (Json::Object(ms), false),
                }
            },
            other => (other, false),
        }
    } else {
        match e {
            Json::Str(s) => match id_map.get(s.as_str()) {
                Some(n) => (Json::Str(n.clone()), true),
                None => (Json::Str(s), false),
            },
            other => (other, false),
        }
    }
}

/// Renames and orders the elements of one list of references, as
/// `rewrite_list` says.
fn rewrite_items(items: Vec<Json>, id_map: &IdMap, handler: bool) -> (res: (Vec<Json>, bool))
    ensures
        (views(res.0@), res.1) == rewrite_list(views(items@), id_map@, handler),
{
    let ghost iv = views(items@);
    let ghost rv = renamed_elements(iv, id_map@, handler);
    let mut renamed: Vec<Json> = Vec::new();
    let mut rest = items;
    let mut modified = false;
    let ghost mut n: int = 0;
    while rest.len() > 0
        invariant
            iv.len() == rv.len(),
            rv == renamed_elements(iv, id_map@, handler),
            0 <= n <= iv.len(),
            views(rest@) == iv.subrange(n, iv.len() as int),
            renamed@.len() == n,
            views(renamed@) == rv.subrange(0, n),
            modified == exists|j: int| 0 <= j < n && maps_key(#[trigger] element_keys(iv, handler)[j], id_map@),
            !modified ==> views(renamed@) == iv.subrange(0, n),
        decreases rest@.len(),
    {
        let ghost before = rest@;
        let e = rest.remove(0);
        assert(e@ == views(before)[0]);
        assert(views(before) == iv.subrange(n, iv.len() as int));
        assert(views(before).len() == before.len());
        assert(n < iv.len());
        assert(iv.subrange(n, iv.len() as int)[0] == iv[n]);
        assert(e@ == iv[n]);
        let (r, m) = rename_one(e, id_map, handler);
        let ghost prev = renamed@;
        renamed.push(r);
        if m {
            modified = true;
        }
        proof {
            assert(element_keys(iv, handler)[n] == element_key(iv[n], handler));
            assert(views(renamed@) =~= views(prev).push(r@));
            assert(views(renamed@) =~= rv.subrange(0, n + 1));
            if !modified {
                assert(r@ == iv[n]);
                assert(views(renamed@) =~= iv.subrange(0, n + 1));
            }
            assert(rest@ =~= before.subrange(1, before.len() as int));
            assert(views(rest@) =~= views(before).subrange(1, before.len() as int));
            assert(views(rest@) =~= iv.subrange(n + 1, iv.len() as int));
            n = n + 1;
        }
    }
    proof {
        assert(iv.subrange(0, n) =~= iv);
        assert(rv.subrange(0, n) =~= rv);
    }
    if !modified {
        return (renamed, false);
    }
    let ghost rj = renamed@;
    let mut slots: Vec<Slot<Json>> = Vec::new();
    let mut k: usize = 0;
    let ghost pairs = rj.map_values(|e: Json| (element_key(e@, handler), e));
    let mut rest = renamed;
    let ghost mut m: int = 0;
    while rest.len() > 0
        invariant
            pairs == rj.map_values(|e: Json| (element_key(e@, handler), e)),
            0 <= m <= rj.len(),
            rest@ == rj.subrange(m, rj.len() as int),
            slots_view(slots@) == pairs.subrange(0, m),
        decreases rest@.len(),
    {
        let e = rest.remove(0);
        assert(e == rj[m]);
        let key = element_key_of(&e, handler);
        let ghost prev = slots@;
        slots.push(Slot { key, item: e });
        proof {
            assert(slots_view(slots@) =~= slots_view(prev).push(pairs[m]));
            assert(slots_view(slots@) =~= pairs.subrange(0, m + 1));
            m = m + 1;
        }
    }
    assert(pairs.subrange(0, m) =~= pairs);
    let sorted = sort_slots(slots);
    let ghost sv = sort_by_key(pairs);
    let mut out: Vec<Json> = Vec::new();
    let mut rest = sorted;
    let ghost mut q: int = 0;
    let ghost target = sv.map_values(|p: (Option<Seq<char>>, Json)| p.1@);
    while rest.len() > 0
        invariant
            target == sv.map_values(|p: (Option<Seq<char>>, Json)| p.1@),
            0 <= q <= sv.len(),
            slots_view(rest@) == sv.subrange(q, sv.len() as int),
            views(out@) == target.subrange(0, q),
        decreases rest@.len(),
    {
        let ghost before = rest@;
        let slot = rest.remove(0);
        assert(slots_view(before) == sv.subrange(q, sv.len() as int));
        assert(slots_view(before).len() == before.len());
        assert(q < sv.len());
        assert(sv.subrange(q, sv.len() as int)[0] == sv[q]);
        assert(slots_view(before)[0] == sv[q]);
        assert(slot.item == sv[q].1);
        let ghost prev = out@;
        out.push(slot.item);
        proof {
            assert(views(out@) =~= views(prev).push(sv[q].1@));
            assert(target[q] == sv[q].1@);
            assert(views(out@) =~= target.subrange(0, q + 1));
            assert(rest@ =~= before.subrange(1, before.len() as int));
            assert(slots_view(rest@) =~= slots_view(before).subrange(1, before.len() as int));
            assert(slots_view(rest@) =~= sv.subrange(q + 1, sv.len() as int));
            q = q + 1;
        }
    }
    proof {
        assert(target.subrange(0, q) =~= target);
        let g = |e: Json| e@;
        lemma_sort_by_key_map_items(pairs, g);
        assert(pairs.map_values(|p: (Option<Seq<char>>, Json)| (p.0, g(p.1))) =~= keyed(rv, handler));
        assert(target =~= sort_by_key(keyed(rv, handler)).map_values(
            |p: (Option<Seq<char>>, JsonView)| p.1,
        ));
        assert(any_mapped(element_keys(iv, handler), id_map@));
    }
    (out, true)
}

/// Rewrites the top-level `RouteSystemDataTypes` list, as `rewrite_routes` says.
fn rewrite_route_types(doc: Json, id_map: &IdMap) -> (res: (Json, bool))
    ensures
        (res.0@, res.1) == rewrite_routes(doc@, id_map@),
{
    match doc {
        Json::Object(ms) => {
            let mut ms = ms;
            let ghost old_ms = ms@;
            proof {
                lemma_object_view(ms);
            }
            match find_member_exec(&ms, "RouteSystemDataTypes") {
                Some(i) => {
                    let (k, v) = ms.remove(i);
                    match v {
                        Json::Array(items) => {
                            proof {
                                lemma_array_view(items);
                            }
                            let (new_items, changed) = rewrite_items(items, id_map, false);
                            proof {
                                lemma_array_view(new_items);
                            }
                            ms.insert(i, (k, Json::Array(new_items)));
                            proof {
                                lemma_object_view(ms);
                                assert(member_views(ms@) =~= member_views(old_ms).update(
                                    i as int,
                                    (member_views(old_ms)[i as int].0, JsonView::Array(views(new_items@))),
                                ));
                            }
                            (Json::Object(ms), changed)
                        },
                        other => {
                            ms.insert(i, (k, other));
                            proof {
                                lemma_object_view(ms);
                                assert(ms@ =~= old_ms);
                            }
                            (Json::Object(ms), false)
                        },
                    }
                },
                None => (Json::Object(ms), false),
            }
        },
        other => (other, false),
    }
}

/// Rewrites the `Config.HandlersList` list, as `rewrite_handlers` says.
fn rewrite_handler_list(doc: Json, id_map: &IdMap) -> (res: (Json, bool))
    ensures
        (res.0@, res.1) == rewrite_handlers(doc@, id_map@),
{
    match doc {
        Json::Object(ms) => {
            let mut ms = ms;
            let ghost old_ms = ms@;
            proof {
                lemma_object_view(ms);
            }
            match find_member_exec(&ms, "Config") {
                Some(i) => {
                    let (k, v) = ms.remove(i);
                    match v {
                        Json::Object(cms) => {
                            let mut cms = cms;
                            let ghost old_cms = cms@;
                            proof {
                                lemma_object_view(cms);
                            }
                            match find_member_exec(&cms, "HandlersList") {
                                Some(j) => {
                                    let (ck, cv) = cms.remove(j);
                                    match cv {
                                        Json::Array(items) => {
                                            proof {
                                                lemma_array_view(items);
                                            }
                                            let (new_items, changed) = rewrite_items(items, id_map, true);
                                            proof {
                                                lemma_array_view(new_items);
                                            }
                                            cms.insert(j, (ck, Json::Array(new_items)));
                                            proof {
                                                lemma_object_view(cms);
                                                assert(member_views(cms@) =~= member_views(old_cms).update(
                                                    j as int,
                                                    (member_views(old_cms)[j as int].0, JsonView::Array(views(new_items@))),
                                                ));
                                            }
                                            let ghost new_config = Json::Object(cms)@;
                                            ms.insert(i, (k, Json::Object(cms)));
                                            proof {
                                                lemma_object_view(ms);
                                                assert(member_views(ms@) =~= member_views(old_ms).update(
                                                    i as int,
                                                    (member_views(old_ms)[i as int].0, new_config),
                                                ));
                                            }
                                            (Json::Object(ms), changed)
                                        },
                                        other => {
                                            cms.insert(j, (ck, other));
                                            proof {
                                                assert(cms@ =~= old_cms);
                                                lemma_object_view(cms);
                                            }
                                            let ghost new_config = Json::Object(cms)@;
                                            ms.insert(i, (k, Json::Object(cms)));
                                            proof {
                                                lemma_object_view(ms);
                                                assert(member_views(ms@) =~= member_views(old_ms));
                                            }
                                            (Json::Object(ms), false)
                                        },
                                    }
                                },
                                None => {
                                    proof {
                                        lemma_object_view(cms);
                                    }
                                    ms.insert(i, (k, Json::Object(cms)));
                                    proof {
                                        lemma_object_view(ms);
                                        assert(member_views(ms@) =~= member_views(old_ms));
                                    }
                                    (Json::Object(ms), false)
                                },
                            }
                        },
                        other => {
                            ms.insert(i, (k, other));
                            proof {
                                assert(ms@ =~= old_ms);
                            }
                            (Json::Object(ms), false)
                        },
                    }
                },
                None => (Json::Object(ms), false),
            }
        },
        other => (other, false),
    }
}

/// Replaces, in the document's `RouteSystemDataTypes` array and in the
/// `HandlerId` members of its `Config.HandlersList` array, every identifier
/// that the table names by that name; a list in which something was renamed
/// is then put in ascending byte order of its identifiers. Every other part
/// of the document stays as it was. Returns whether anything was renamed.
pub fn replace_ids(json: &mut Json, id_map: &IdMap) -> (res: bool)
    ensures
        final(json)@ == renamed_document(old(json)@, id_map@),
        res == ids_modified(old(json)@, id_map@),
{
    let mut doc = Json::Null;
    std::mem::swap(json, &mut doc);
    let (with_routes, routes_changed) = rewrite_route_types(doc, id_map);
    let (with_handlers, handlers_changed) = rewrite_handler_list(with_routes, id_map);
    *json = with_handlers;
    routes_changed || handlers_changed
}

} // verus!
