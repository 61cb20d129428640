use resfix::report::load_report;
use resfix::report::Issue;
use resfix::report::Report;

fn issue(id: &str, message: &str) -> Issue {
    Issue {
        id: id.to_string(),
        message: message.to_string(),
        explanation: String::new(),
        locations: Vec::new(),
    }
}

#[test]
fn loader_keeps_only_matching_category_in_order() {
    let report = Report {
        format: "5".to_string(),
        issues: vec![
            issue("UnusedResources", "first"),
            issue("MissingTranslation", "noise"),
            issue("UnusedResources", "second"),
            issue("HardcodedText", "noise"),
        ],
    };
    let (warn, kept) = load_report(report, "UnusedResources", "5");
    assert!(!warn);
    assert_eq!(kept.len(), 2);
    assert_eq!(kept[0].message, "first");
    assert_eq!(kept[1].message, "second");
}

#[test]
fn loader_drops_everything_when_nothing_matches() {
    let report = Report {
        format: "5".to_string(),
        issues: vec![issue("MissingTranslation", "a"), issue("HardcodedText", "b")],
    };
    let (_, kept) = load_report(report, "UnusedResources", "5");
    assert_eq!(kept.len(), 0);
}

#[test]
fn loader_warns_on_format_mismatch_but_continues() {
    let report = Report {
        format: "4".to_string(),
        issues: vec![issue("UnusedResources", "kept anyway")],
    };
    let (warn, kept) = load_report(report, "UnusedResources", "5");
    assert!(warn);
    assert_eq!(kept.len(), 1);
    assert_eq!(kept[0].message, "kept anyway");
}

#[test]
fn loader_category_is_configurable() {
    let report = Report {
        format: "5".to_string(),
        issues: vec![issue("UnusedResources", "a"), issue("Custom", "b")],
    };
    let (_, kept) = load_report(report, "Custom", "5");
    assert_eq!(kept.len(), 1);
    assert_eq!(kept[0].message, "b");
}

#[test]
fn loader_of_empty_issue_list_is_empty() {
    let report = Report { format: "5".to_string(), issues: Vec::new() };
    let (warn, kept) = load_report(report, "UnusedResources", "5");
    assert!(!warn);
    assert_eq!(kept.len(), 0);
}
