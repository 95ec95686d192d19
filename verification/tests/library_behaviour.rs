use dtr_precompare::ids::{build_id_map, build_object_name, IdMap};
use dtr_precompare::precompare::{change_content, find_entity_id, ChangeError};
use dtr_precompare::rules::{combined_pattern_text, init_replace_config};
use dtr_precompare::json::{parse_document, replace_ids, Json};
use dtr_precompare::slots::{sort_slots, Slot};
use dtr_precompare::text::{str_eq, str_le};

fn slot(key: Option<&str>, item: u32) -> Slot<u32> {
    Slot { key: key.map(|k| k.to_string()), item }
}

fn names(pairs: &[(&str, &str)]) -> IdMap {
    let mut map = IdMap::new();
    for (id, name) in pairs {
        map.insert(id.to_string(), name.to_string());
    }
    map
}

#[test]
fn combined_pattern_lists_every_field_rule_as_named_group() {
    let expected = [
        r#"(?P<p0>"FolderId":\s*"[0-9a-f-]*")"#,
        r#"(?P<p1>"ClusterId":\s*"[0-9a-f-]*")"#,
        r#"(?P<p2>"EntityId":\s*"[0-9a-f-]*")"#,
        r#"(?P<p3>"Version":\s*[0-9]+)"#,
        r#"(?P<p4>"X":\s*-?[0-9]+(?:\.[0-9]+)?(?:[eE][-+]?[0-9]+)?)"#,
        r#"(?P<p5>"Y":\s*-?[0-9]+(?:\.[0-9]+)?(?:[eE][-+]?[0-9]+)?)"#,
        r#"(?P<p6>"Key":\s*"[0-9a-f-]*")"#,
        r#"(?P<p7>"Id":\s*"[0-9a-f-]*")"#,
    ]
    .join("|");
    assert_eq!(combined_pattern_text(), expected);
}

#[test]
fn config_compiles() {
    assert!(init_replace_config().is_some());
}

#[test]
fn several_fields_are_normalised_in_one_pass() {
    let cfg = init_replace_config().unwrap();
    let input = r#"{"FolderId": "12ab", "ClusterId":"ff-01", "EntityId":  "9", "Version": 7, "Key": "", "Name": "x"}"#;
    let expected = r#"{"FolderId": "00000000-0000-0000-0000-000000000000", "ClusterId": "00000000-0000-0000-0000-000000000000", "EntityId": "00000000-0000-0000-0000-000000000000", "Version": 0, "Key": "00000000-0000-0000-0000-000000000000", "Name": "x"}"#;
    let (out, changed) = change_content(input, &cfg, &IdMap::new()).unwrap();
    assert_eq!(out, expected);
    assert!(changed);
}

#[test]
fn version_is_cleared_wherever_it_stands() {
    let cfg = init_replace_config().unwrap();
    let input = r#"{"Z": 1, "Version": 5}"#;
    let expected = r#"{"Z": 1, "Version": 0}"#;
    let (out, changed) = change_content(input, &cfg, &IdMap::new()).unwrap();
    assert_eq!(out, expected);
    assert!(changed);
}

#[test]
fn fractional_and_exponent_coordinates_are_cleared() {
    let cfg = init_replace_config().unwrap();
    let input = r#"{"X": 12.5, "Y": -3.25e2, "A": 1}"#;
    let expected = r#"{"X": 0, "Y": 0, "A": 1}"#;
    let (out, changed) = change_content(input, &cfg, &IdMap::new()).unwrap();
    assert_eq!(out, expected);
    assert!(changed);
}

#[test]
fn already_canonical_text_is_reported_unchanged() {
    let cfg = init_replace_config().unwrap();
    let input = r#"{"FolderId": "00000000-0000-0000-0000-000000000000", "X": 0, "Y": 0}"#;
    let (out, changed) = change_content(input, &cfg, &IdMap::new()).unwrap();
    assert_eq!(out, input);
    assert!(!changed);
}

#[test]
fn non_ascii_text_around_matches_is_kept() {
    let cfg = init_replace_config().unwrap();
    let input = "{\"Название\": \"Привет\", \"FolderId\": \"abc\", \"Описание\": \"мир\"}";
    let expected = "{\"Название\": \"Привет\", \"FolderId\": \"00000000-0000-0000-0000-000000000000\", \"Описание\": \"мир\"}";
    let (out, changed) = change_content(input, &cfg, &IdMap::new()).unwrap();
    assert_eq!(out, expected);
    assert!(changed);
}

#[test]
fn metadata_field_spacing_is_canonicalised() {
    let cfg = init_replace_config().unwrap();
    let input = r#"{"SystemMetadataId":   "ab-12", "Other": 1}"#;
    let expected = r#"{"SystemMetadataId": "Pkg.Item", "Other": 1}"#;
    let (out, changed) = change_content(input, &cfg, &names(&[("ab-12", "Pkg.Item")])).unwrap();
    assert_eq!(out, expected);
    assert!(changed);
}

#[test]
fn text_that_is_not_json_is_refused() {
    let cfg = init_replace_config().unwrap();
    let res = change_content(r#"{"FolderId": "1", "#, &cfg, &IdMap::new());
    assert!(matches!(res, Err(ChangeError::InvalidJson(_))));
}

#[test]
fn route_types_that_are_not_strings_sort_as_empty() {
    let cfg = init_replace_config().unwrap();
    let input = r#"{"RouteSystemDataTypes":["b",1,"a"]}"#;
    let expected = "{\n  \"RouteSystemDataTypes\": [\n    1,\n    \"BName\",\n    \"a\"\n  ]\n}";
    let (out, changed) = change_content(input, &cfg, &names(&[("b", "BName")])).unwrap();
    assert_eq!(out, expected);
    assert!(changed);
}

#[test]
fn handlers_without_known_ids_keep_their_place_in_order() {
    let cfg = init_replace_config().unwrap();
    let input = r#"{"Config":{"HandlersList":[{"HandlerId":"z"},{"Other":1},{"HandlerId":"a"}]}}"#;
    let expected = "{\n  \"Config\": {\n    \"HandlersList\": [\n      {\n        \"Other\": 1\n      },\n      {\n        \"HandlerId\": \"First\"\n      },\n      {\n        \"HandlerId\": \"z\"\n      }\n    ]\n  }\n}";
    let (out, changed) = change_content(input, &cfg, &names(&[("a", "First")])).unwrap();
    assert_eq!(out, expected);
    assert!(changed);
}

#[test]
fn entity_id_is_taken_from_first_entity_field() {
    let cfg = init_replace_config().unwrap();
    assert_eq!(
        find_entity_id(r#"{"EntityId": "abc-1", "Inner": {"EntityId": "ff"}}"#, &cfg),
        Some("abc-1".to_string())
    );
    assert_eq!(find_entity_id(r#"{"EntityId": ""}"#, &cfg), None);
    assert_eq!(find_entity_id(r#"{"Name": "x"}"#, &cfg), None);
}

#[test]
fn object_named_after_folder_or_grandfolder() {
    assert_eq!(build_object_name("Order", "Handlers", "Project"), "Handlers.Order");
    assert_eq!(build_object_name("Order", "Order", "Project"), "Project.Order");
}

#[test]
fn later_pair_wins_in_id_map() {
    let map = build_id_map(vec![
        ("a".to_string(), "One".to_string()),
        ("b".to_string(), "Two".to_string()),
        ("a".to_string(), "Three".to_string()),
    ]);
    assert_eq!(map.get("a"), Some(&"Three".to_string()));
    assert_eq!(map.get("b"), Some(&"Two".to_string()));
    assert_eq!(map.get("c"), None);
}

#[test]
fn strings_compare_by_bytes() {
    assert!(str_le("a", "b"));
    assert!(!str_le("b", "a"));
    assert!(str_le("", ""));
    assert!(str_le("a", "ab"));
    assert!(!str_le("ab", "a"));
    assert!(str_le("Z", "a"));
    assert!(str_le("z", "é"));
    assert!(str_eq("abc", "abc"));
    assert!(!str_eq("abc", "abd"));
}

#[test]
fn sorting_is_by_key_and_keeps_equal_keys_in_order() {
    let sorted = sort_slots(vec![
        slot(Some("b"), 1),
        slot(None, 2),
        slot(Some("a"), 3),
        slot(Some("b"), 4),
    ]);
    let items: Vec<u32> = sorted.iter().map(|s| s.item).collect();
    assert_eq!(items, vec![2, 3, 1, 4]);
}

fn text(t: &str) -> Json {
    Json::Str(t.to_string())
}

fn number(t: &str) -> Json {
    parse_document(t).unwrap()
}

fn array(items: Vec<Json>) -> Json {
    Json::Array(items)
}

fn object(members: Vec<(&str, Json)>) -> Json {
    Json::Object(members.into_iter().map(|(k, v)| (k.to_string(), v)).collect())
}

#[test]
fn route_list_renamed_and_sorted_handlers_without_names_untouched() {
    let mut doc = object(vec![
        ("Config", object(vec![("HandlersList", array(vec![
            object(vec![("HandlerId", text("y"))]),
            object(vec![("HandlerId", text("x"))]),
        ]))])),
        ("RouteSystemDataTypes", array(vec![text("b"), text("a")])),
    ]);
    let modified = replace_ids(&mut doc, &names(&[("a", "AName"), ("b", "BName")]));
    assert!(modified);
    let expected = object(vec![
        ("Config", object(vec![("HandlersList", array(vec![
            object(vec![("HandlerId", text("y"))]),
            object(vec![("HandlerId", text("x"))]),
        ]))])),
        ("RouteSystemDataTypes", array(vec![text("AName"), text("BName")])),
    ]);
    assert_eq!(doc, expected);
}

#[test]
fn unmapped_route_list_is_neither_renamed_nor_sorted() {
    let mut doc = object(vec![("RouteSystemDataTypes", array(vec![text("y"), text("x")]))]);
    let modified = replace_ids(&mut doc, &names(&[("a", "AName")]));
    assert!(!modified);
    assert_eq!(doc, object(vec![("RouteSystemDataTypes", array(vec![text("y"), text("x")]))]));
}

#[test]
fn route_elements_that_are_not_strings_order_as_empty() {
    let mut doc = object(vec![("RouteSystemDataTypes", array(vec![text("b"), number("5"), text("a")]))]);
    let modified = replace_ids(&mut doc, &names(&[("b", "BName")]));
    assert!(modified);
    assert_eq!(
        doc,
        object(vec![("RouteSystemDataTypes", array(vec![number("5"), text("BName"), text("a")]))])
    );
}

#[test]
fn handlers_renamed_sorted_and_other_members_kept() {
    let mut doc = object(vec![("Config", object(vec![("HandlersList", array(vec![
        object(vec![("HandlerId", text("b")), ("Order", number("1"))]),
        object(vec![("Name", text("n"))]),
        object(vec![("HandlerId", text("a")), ("Order", number("2"))]),
    ]))]))]);
    let modified = replace_ids(&mut doc, &names(&[("a", "AName"), ("b", "BName")]));
    assert!(modified);
    let expected = object(vec![("Config", object(vec![("HandlersList", array(vec![
        object(vec![("Name", text("n"))]),
        object(vec![("HandlerId", text("AName")), ("Order", number("2"))]),
        object(vec![("HandlerId", text("BName")), ("Order", number("1"))]),
    ]))]))]);
    assert_eq!(doc, expected);
}

#[test]
fn lists_in_other_places_are_ignored() {
    let original = || {
        object(vec![
            ("Config", object(vec![("HandlersList", object(vec![("HandlerId", text("a"))]))])),
            ("HandlersList", array(vec![object(vec![("HandlerId", text("a"))])])),
            ("RouteSystemDataTypes", text("a")),
        ])
    };
    let mut doc = original();
    let modified = replace_ids(&mut doc, &names(&[("a", "AName")]));
    assert!(!modified);
    assert_eq!(doc, original());
}

#[test]
fn second_rewrite_changes_nothing() {
    let ids = names(&[("a", "Pkg.A"), ("b", "Pkg.B")]);
    let mut doc = object(vec![("RouteSystemDataTypes", array(vec![text("b"), text("a")]))]);
    assert!(replace_ids(&mut doc, &ids));
    let once = object(vec![("RouteSystemDataTypes", array(vec![text("Pkg.A"), text("Pkg.B")]))]);
    assert_eq!(doc, once);
    assert!(!replace_ids(&mut doc, &ids));
    assert_eq!(doc, once);
}

#[test]
fn reprinted_document_parses_again() {
    let cfg = init_replace_config().unwrap();
    let input = r#"{"RouteSystemDataTypes":["b",[[1.50,{"X": 2}]],"a"],"Config":{"HandlersList":[{"HandlerId":"a"}]}}"#;
    let (out, changed) = change_content(input, &cfg, &names(&[("a", "AName")])).unwrap();
    assert!(changed);
    let reparsed = parse_document(&out).unwrap();
    let again = parse_document(&out).unwrap();
    assert_eq!(reparsed, again);
    assert!(out.contains("\"AName\""));
    assert!(out.contains("1.5"));
}
