use huectl::reconcile::{decide, find_by_id, plan_upload, Decision};
use huectl::report::{created_line, step_line};
use huectl::rule::{Action, Condition, ConditionOperator, RequestMethod, Rule};

fn sample(id: &str, name: &str) -> Rule {
    Rule {
        id: id.to_string(),
        name: name.to_string(),
        actions: vec![Action {
            address: "/groups/1/action".to_string(),
            method: RequestMethod::Put,
            body: "{\"on\":true}".to_string(),
        }],
        conditions: vec![Condition {
            address: "/sensors/2/state/buttonevent".to_string(),
            operator: ConditionOperator::Equals,
            value: Some("1002".to_string()),
        }],
    }
}

#[test]
fn equal_rule_is_unchanged() {
    let current = vec![sample("1", "a"), sample("2", "b")];
    assert_eq!(decide(&current, &sample("2", "b")), Decision::Unchanged);
}

#[test]
fn renamed_rule_is_changed() {
    let current = vec![sample("1", "a")];
    assert_eq!(decide(&current, &sample("1", "renamed")), Decision::Changed);
}

#[test]
fn rule_with_other_action_body_is_changed() {
    let current = vec![sample("1", "a")];
    let mut desired = sample("1", "a");
    desired.actions[0].body = "{\"on\":false}".to_string();
    assert_eq!(decide(&current, &desired), Decision::Changed);
}

#[test]
fn rule_with_other_condition_value_is_changed() {
    let current = vec![sample("1", "a")];
    let mut desired = sample("1", "a");
    desired.conditions[0].value = None;
    assert_eq!(decide(&current, &desired), Decision::Changed);
    desired.conditions[0].value = Some("1002".to_string());
    desired.conditions[0].operator = ConditionOperator::Dx;
    assert_eq!(decide(&current, &desired), Decision::Changed);
}

#[test]
fn rule_with_extra_condition_is_changed() {
    let current = vec![sample("1", "a")];
    let mut desired = sample("1", "a");
    desired.conditions.push(desired.conditions[0].clone());
    assert_eq!(decide(&current, &desired), Decision::Changed);
}

#[test]
fn absent_id_is_new() {
    let current = vec![sample("1", "a")];
    assert_eq!(decide(&current, &sample("9", "a")), Decision::New);
    assert_eq!(decide(&vec![], &sample("1", "a")), Decision::New);
}

#[test]
fn first_rule_with_the_id_decides() {
    let current = vec![sample("4", "x"), sample("4", "y")];
    assert_eq!(find_by_id(&current, &"4".to_string()), Some(0));
    assert_eq!(find_by_id(&current, &"5".to_string()), None);
    assert_eq!(decide(&current, &sample("4", "y")), Decision::Changed);
}

#[test]
fn plan_orders_and_decides_each_rule() {
    let current = vec![sample("2", "b"), sample("1", "a")];
    let desired = vec![sample("10", "new"), sample("2", "b2"), sample("1", "a")];
    let steps = plan_upload(&current, desired);
    let got: Vec<(String, Decision)> =
        steps.iter().map(|s| (s.rule.id.clone(), s.decision)).collect();
    assert_eq!(
        got,
        vec![
            ("1".to_string(), Decision::Unchanged),
            ("2".to_string(), Decision::Changed),
            ("10".to_string(), Decision::New),
        ]
    );
    assert_eq!(steps[1].rule.name, "b2");
    assert_eq!(steps[2].rule.name, "new");
}

#[test]
fn uploading_the_dumped_rules_changes_nothing() {
    let current = vec![sample("3", "c"), sample("1", "a"), sample("2", "b")];
    let document = vec![sample("2", "b"), sample("3", "c"), sample("1", "a")];
    let steps = plan_upload(&current, document);
    assert_eq!(steps.len(), 3);
    assert!(steps.iter().all(|s| s.decision == Decision::Unchanged));
}

#[test]
fn empty_document_plans_nothing() {
    let current = vec![sample("1", "a")];
    assert!(plan_upload(&current, vec![]).is_empty());
}

#[test]
fn rule_equality_is_structural() {
    assert!(sample("1", "a") == sample("1", "a"));
    assert!(sample("1", "a") != sample("2", "a"));
    let mut other = sample("1", "a");
    other.actions[0].method = RequestMethod::Post;
    assert!(sample("1", "a") != other);
}

#[test]
fn step_lines_name_decision_id_and_name() {
    let current = vec![sample("2", "b")];
    let desired = vec![sample("3", "new rule"), sample("2", "b"), sample("1", "x")];
    let lines: Vec<String> = plan_upload(&current, desired).iter().map(step_line).collect();
    assert_eq!(lines, vec!["New 1 -- x", "Unchanged 2 -- b", "New 3 -- new rule"]);
    let changed = plan_upload(&current, vec![sample("2", "c")]);
    assert_eq!(step_line(&changed[0]), "Changed 2 -- c");
}

#[test]
fn created_line_reports_the_bridge_id() {
    assert_eq!(created_line("17"), "Created with id: 17");
    assert_eq!(created_line(""), "Created with id: ");
}

#[test]
fn reupload_with_repeated_equal_rules_changes_nothing() {
    let current = vec![sample("1", "a"), sample("1", "a"), sample("2", "b")];
    let document = vec![sample("2", "b"), sample("1", "a"), sample("1", "a")];
    let steps = plan_upload(&current, document);
    assert_eq!(steps.len(), 3);
    assert!(steps.iter().all(|s| s.decision == Decision::Unchanged));
}

#[test]
fn second_upload_after_updates_changes_nothing() {
    let mut current = vec![sample("1", "a"), sample("2", "b"), sample("3", "c")];
    let document = vec![sample("2", "b2"), sample("1", "a")];
    let first = plan_upload(&current, document.clone());
    let got: Vec<Decision> = first.iter().map(|s| s.decision).collect();
    assert_eq!(got, vec![Decision::Unchanged, Decision::Changed]);
    for step in first {
        if step.decision == Decision::Changed {
            let slot = find_by_id(&current, &step.rule.id).unwrap();
            current[slot] = step.rule;
        }
    }
    let second = plan_upload(&current, document);
    assert!(second.iter().all(|s| s.decision == Decision::Unchanged));
}
