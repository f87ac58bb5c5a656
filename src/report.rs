//! The lines that report what an upload does.
use vstd::prelude::*;
use vstd::string::StringExecFns;
use crate::reconcile::{Decision, Step};

verus! {

pub open spec fn decision_label(d: Decision) -> Seq<char> {
    match d {
        Decision::Unchanged => "Unchanged "@,
        Decision::Changed => "Changed "@,
        Decision::New => "New "@,
    }
}

/// The line reporting a step: its decision, then the rule's identifier and name.
pub fn step_line(step: &Step) -> (r: String)
    ensures
        r@ == decision_label(step.decision) + step.rule.id@ + " -- "@ + step.rule.name@,
{
    let label = match step.decision {
        Decision::Unchanged => "Unchanged ",
        Decision::Changed => "Changed ",
        Decision::New => "New ",
    };
    let mut line = String::from_str(label);
    line.append(step.rule.id.as_str());
    line.append(" -- ");
    line.append(step.rule.name.as_str());
    line
}

/// The line reporting the identifier that the bridge gave a created rule.
pub fn created_line(id: &str) -> (r: String)
    ensures
        r@ == "Created with id: "@ + id@,
{
    let mut line = String::from_str("Created with id: ");
    line.append(id);
    line
}

} // verus!
