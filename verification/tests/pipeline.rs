use resfix::lines::remove_line;
use resfix::pipeline::apply_issues;
use resfix::pipeline::Action;
use resfix::report::Issue;
use resfix::report::Location;

fn loc(file: &str, line: Option<u32>) -> Location {
    Location { file: file.to_string(), line, column: None }
}

fn unused_issue(locations: Vec<Location>) -> Issue {
    Issue {
        id: "UnusedResources".to_string(),
        message: "unused".to_string(),
        explanation: String::new(),
        locations,
    }
}

#[test]
fn drawable_location_plans_file_deletion() {
    let plan = apply_issues(vec![unused_issue(vec![loc("res/drawable/icon.xml", Some(1))])]);
    assert_eq!(plan.len(), 1);
    assert_eq!(plan[0].file, "res/drawable/icon.xml");
    assert_eq!(plan[0].action, Action::DeleteFile);
}

#[test]
fn values_location_plans_line_removal() {
    let plan = apply_issues(vec![unused_issue(vec![loc("res/values/strings.xml", Some(42))])]);
    assert_eq!(plan.len(), 1);
    assert_eq!(plan[0].file, "res/values/strings.xml");
    assert_eq!(plan[0].action, Action::RemoveLine(42));
}

#[test]
fn line_removal_rewrite_drops_exactly_that_line() {
    let plan = apply_issues(vec![unused_issue(vec![loc("res/values/strings.xml", Some(2))])]);
    assert_eq!(plan[0].action, Action::RemoveLine(2));
    let strings_xml: Vec<u8> = b"<resources>\n    <string name=\"gone\">x</string>\n</resources>\n".to_vec();
    match plan[0].action {
        Action::RemoveLine(line) => {
            let rewritten = remove_line(&strings_xml, line);
            assert_eq!(rewritten, b"<resources>\n</resources>\n".to_vec());
        },
        _ => panic!("expected a line removal"),
    }
}

#[test]
fn raw_location_plans_nothing() {
    let plan = apply_issues(vec![unused_issue(vec![loc("res/raw/data.json", Some(3))])]);
    assert_eq!(plan.len(), 1);
    assert_eq!(plan[0].action, Action::Unsupported);
}

#[test]
fn parentless_location_plans_nothing() {
    let plan = apply_issues(vec![unused_issue(vec![loc("orphan.xml", Some(1))])]);
    assert_eq!(plan.len(), 1);
    assert_eq!(plan[0].action, Action::Unsupported);
}

#[test]
fn missing_line_number_demotes_line_removal_to_unsupported() {
    let plan = apply_issues(vec![unused_issue(vec![loc("res/values/strings.xml", None)])]);
    assert_eq!(plan.len(), 1);
    assert_eq!(plan[0].action, Action::Unsupported);
}

#[test]
fn missing_line_number_still_allows_deletion() {
    let plan = apply_issues(vec![unused_issue(vec![loc("res/drawable/old.png", None)])]);
    assert_eq!(plan[0].action, Action::DeleteFile);
}

#[test]
fn plan_walks_issues_and_locations_in_source_order() {
    let plan = apply_issues(vec![
        unused_issue(vec![
            loc("res/drawable/a.xml", None),
            loc("res/values/strings.xml", Some(7)),
        ]),
        unused_issue(vec![loc("res/raw/b.bin", Some(1))]),
    ]);
    assert_eq!(plan.len(), 3);
    assert_eq!(plan[0].file, "res/drawable/a.xml");
    assert_eq!(plan[0].action, Action::DeleteFile);
    assert_eq!(plan[1].file, "res/values/strings.xml");
    assert_eq!(plan[1].action, Action::RemoveLine(7));
    assert_eq!(plan[2].file, "res/raw/b.bin");
    assert_eq!(plan[2].action, Action::Unsupported);
}

#[test]
fn empty_issue_list_plans_nothing() {
    let plan = apply_issues(Vec::new());
    assert_eq!(plan.len(), 0);
}
