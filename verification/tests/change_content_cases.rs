use dtr_precompare::ids::IdMap;
use dtr_precompare::precompare::change_content;
use dtr_precompare::rules::init_replace_config;

fn run_case(input: &str, expected: &str, id_map: IdMap, expect_changed: bool) {
    let cfg = init_replace_config().unwrap();
    let (out, changed) = change_content(input, &cfg, &id_map).unwrap();
    assert_eq!(
        out, expected,
        "Output mismatch.\nINPUT:\n{}\n\nOUT:\n{}\n\nEXPECTED:\n{}",
        input, out, expected
    );
    assert_eq!(
        changed, expect_changed,
        "Changed flag mismatch.\nINPUT:\n{}\nOUT:\n{}",
        input, out
    );
}

#[test]
fn no_changes_returns_same_string_and_changed_false() {
    let input = r#"{"A": 1, "B": 1}"#;
    let expected = r#"{"A": 1, "B": 1}"#;

    run_case(input, expected, IdMap::new(), false);
}

#[test]
fn pattern_folder_id_replaced() {
    let input = r#"{"FolderId": "11111111-1111-1111-1111-111111111111", "A": 1}"#;
    let expected = r#"{"FolderId": "00000000-0000-0000-0000-000000000000", "A": 1}"#;

    run_case(input, expected, IdMap::new(), true);
}

#[test]
fn pattern_version_replaced() {
    let input = r#"{"Version": 123, "Z": 1}"#;
    let expected = r#"{"Version": 0, "Z": 1}"#;

    run_case(input, expected, IdMap::new(), true);
}

#[test]
fn pattern_x_and_y_replaced() {
    let input = r#"{"X": -12, "Y": 34, "A": 1}"#;
    let expected = r#"{"X": 0, "Y": 0, "A": 1}"#;

    run_case(input, expected, IdMap::new(), true);
}

#[test]
fn pattern_key_replaced() {
    let input = r#"{"Key": "aaaaaaaa-aaaa-aaaa-aaaa-aaaaaaaaaaaa", "A": 1}"#;
    let expected = r#"{"Key": "00000000-0000-0000-0000-000000000000", "A": 1}"#;

    run_case(input, expected, IdMap::new(), true);
}

#[test]
fn pattern_id_replaced() {
    let input = r#"{"Id": "bbbbbbbb-bbbb-bbbb-bbbb-bbbbbbbbbbbb", "A": 1}"#;
    let expected = r#"{"Id": "00000000-0000-0000-0000-000000000000", "A": 1}"#;

    run_case(input, expected, IdMap::new(), true);
}

#[test]
fn system_metadata_id_replaced_by_name_when_mapping_exists() {
    let mut id_map = IdMap::new();
    id_map.insert("1111".to_string(), "My.Object".to_string());

    let input = r#"{"A": {"SystemMetadataId": "1111"}}"#;
    let expected = r#"{"A": {"SystemMetadataId": "My.Object"}}"#;

    run_case(input, expected, id_map, true);

    let mut id_map = IdMap::new();
    id_map.insert("1111".to_string(), "My.Object".to_string());

    let input = r#"{"B": {"A": {"SystemMetadataId": "1111"}}}"#;
    let expected = r#"{"B": {"A": {"SystemMetadataId": "My.Object"}}}"#;

    run_case(input, expected, id_map, true);
}

#[test]
fn system_metadata_id_kept_when_mapping_missing_but_format_changes() {
    let input = r#"{"SystemMetadataId":"1111"}"#;
    let expected = r#"{"SystemMetadataId": "1111"}"#;

    run_case(input, expected, IdMap::new(), true);
}

#[test]
fn json_route_system_data_types_replaced_and_sorted_and_prettified() {
    let input = r#"{"RouteSystemDataTypes":["b","a"]}"#;
    let expected = r#"{
  "RouteSystemDataTypes": [
    "AName",
    "BName"
  ]
}"#;

    let mut id_map = IdMap::new();
    id_map.insert("a".to_string(), "AName".to_string());
    id_map.insert("b".to_string(), "BName".to_string());

    run_case(input, expected, id_map, true);
}

#[test]
fn json_handlers_list_replaced_and_sorted_and_prettified() {
    let input = r#"{"Config":{"HandlersList":[{"HandlerId":"b"},{"HandlerId":"a"}]}}"#;
    let expected = r#"{
  "Config": {
    "HandlersList": [
      {
        "HandlerId": "AName"
      },
      {
        "HandlerId": "BName"
      }
    ]
  }
}"#;

    let mut id_map = IdMap::new();
    id_map.insert("a".to_string(), "AName".to_string());
    id_map.insert("b".to_string(), "BName".to_string());

    run_case(input, expected, id_map, true);
}

#[test]
fn json_present_but_no_replacements_means_no_pretty_and_changed_depends_on_previous_steps() {
    let input = r#"{"RouteSystemDataTypes":["x","y"]}"#;
    let expected = r#"{"RouteSystemDataTypes":["x","y"]}"#;

    let mut id_map = IdMap::new();
    id_map.insert("a".to_string(), "AName".to_string());

    run_case(input, expected, id_map, false);
}
