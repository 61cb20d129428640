use resfix::classify::get_resolver_by_name;
use resfix::classify::resolve_file_by_path;
use resfix::classify::IssueResolver;

#[test]
fn drawable_name_maps_to_remove_file() {
    assert_eq!(get_resolver_by_name("drawable"), IssueResolver::RemoveFile);
}

#[test]
fn drawable_variant_maps_to_remove_file() {
    assert_eq!(get_resolver_by_name("drawable-hdpi"), IssueResolver::RemoveFile);
}

#[test]
fn layout_variant_maps_to_remove_file() {
    assert_eq!(get_resolver_by_name("layout-land"), IssueResolver::RemoveFile);
}

#[test]
fn strings_name_maps_to_remove_tag() {
    assert_eq!(get_resolver_by_name("strings"), IssueResolver::RemoveTag);
}

#[test]
fn values_name_maps_to_remove_tag() {
    assert_eq!(get_resolver_by_name("values"), IssueResolver::RemoveTag);
}

#[test]
fn values_variant_is_unknown() {
    assert_eq!(get_resolver_by_name("values-en"), IssueResolver::Unknown);
}

#[test]
fn raw_name_is_unknown() {
    assert_eq!(get_resolver_by_name("raw"), IssueResolver::Unknown);
}

#[test]
fn case_sensitive_match_only() {
    assert_eq!(get_resolver_by_name("Drawable"), IssueResolver::Unknown);
}

#[test]
fn path_with_drawable_parent_resolves_to_remove_file() {
    assert_eq!(resolve_file_by_path("res/drawable/icon.xml"), Some(IssueResolver::RemoveFile));
}

#[test]
fn path_with_values_parent_resolves_to_remove_tag() {
    assert_eq!(resolve_file_by_path("res/values/strings.xml"), Some(IssueResolver::RemoveTag));
}

#[test]
fn path_with_raw_parent_resolves_to_unknown() {
    assert_eq!(resolve_file_by_path("res/raw/data.json"), Some(IssueResolver::Unknown));
}

#[test]
fn path_without_parent_resolves_to_nothing() {
    assert_eq!(resolve_file_by_path("icon.xml"), None);
}

#[test]
fn path_with_empty_parent_resolves_to_nothing() {
    assert_eq!(resolve_file_by_path("/icon.xml"), None);
}

#[test]
fn deep_path_uses_immediate_parent_only() {
    assert_eq!(
        resolve_file_by_path("app/src/main/res/layout/activity.xml"),
        Some(IssueResolver::RemoveFile)
    );
}
