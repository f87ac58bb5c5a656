//! Reconciliation of a desired rule set against the bridge's current one.
use vstd::prelude::*;
use crate::order::{sort_by_numeric_id, sorted_by_id, stable_arrangement};
use crate::rule::{Rule, RuleModel, rules_view};

verus! {

/// What is done with one desired rule.
#[derive(Clone, Copy, Debug, PartialEq, Eq, Structural)]
pub enum Decision {
    /// The bridge holds an equal rule under that identifier: no call is made.
    Unchanged,
    /// The bridge holds a different rule under that identifier: it is updated
    /// with the desired name, actions and conditions.
    Changed,
    /// The bridge holds no rule under that identifier: one is created from the
    /// desired conditions, actions and name.
    New,
}

/// One desired rule with the decision taken for it.
#[derive(Debug)]
pub struct Step {
    pub decision: Decision,
    pub rule: Rule,
}

/// `i` is the first position of `rules` that holds identifier `id`.
pub open spec fn is_first_with_id(rules: Seq<RuleModel>, id: Seq<char>, i: int) -> bool {
    &&& 0 <= i < rules.len()
    &&& rules[i].id == id
    &&& forall|j: int| 0 <= j < i ==> (#[trigger] rules[j]).id != id
}

pub open spec fn has_id(rules: Seq<RuleModel>, id: Seq<char>) -> bool {
    exists|i: int| 0 <= i < rules.len() && (#[trigger] rules[i]).id == id
}

/// No two rules share an identifier.
pub open spec fn ids_unique(rules: Seq<RuleModel>) -> bool {
    forall|i: int, j: int|
        0 <= i < rules.len() && 0 <= j < rules.len() && i != j ==> (#[trigger] rules[i]).id != (
        #[trigger] rules[j]).id
}

/// The decision for `rule` against the current rules: the current rule that
/// shares its identifier (the first, should several) decides between
/// unchanged and changed; where there is none the rule is new.
pub open spec fn decision_of(current: Seq<RuleModel>, rule: RuleModel) -> Decision {
    if has_id(current, rule.id) {
        let i = choose|i: int| is_first_with_id(current, rule.id, i);
        if current[i] == rule {
            Decision::Unchanged
        } else {
            Decision::Changed
        }
    } else {
        Decision::New
    }
}

pub open spec fn step_rules(steps: Seq<Step>) -> Seq<Rule> {
    steps.map_values(|s: Step| s.rule)
}

proof fn lemma_first_with_id_unique(rules: Seq<RuleModel>, id: Seq<char>, i: int, k: int)
    requires
        is_first_with_id(rules, id, i),
        is_first_with_id(rules, id, k),
    ensures
        i == k,
{
    if i < k {
        assert(rules[i].id != id);
    } else if k < i {
        assert(rules[k].id != id);
    }
}

/// Position of the first current rule with identifier `id`.
pub fn find_by_id(current: &Vec<Rule>, id: &String) -> (r: Option<usize>)
    ensures
        match r {
            Some(i) => is_first_with_id(rules_view(current@), id@, i as int),
            None => !has_id(rules_view(current@), id@),
        },
{
    let ghost cv = rules_view(current@);
    let mut i: usize = 0;
    while i < current.len()
        invariant
            i <= current.len(),
            cv == rules_view(current@),
            forall|j: int| 0 <= j < i ==> (#[trigger] cv[j]).id != id@,
        decreases current.len() - i,
    {
        if current[i].id == *id {
            return Some(i);
        }
        i = i + 1;
    }
    None
}

/// Decides what is done with `rule` given the rules the bridge holds.
pub fn decide(current: &Vec<Rule>, rule: &Rule) -> (d: Decision)
    ensures
        d == decision_of(rules_view(current@), rule@),
{
    match find_by_id(current, &rule.id) {
        Some(i) => {
            proof {
                let cv = rules_view(current@);
                let k = choose|k: int| is_first_with_id(cv, rule@.id, k);
                lemma_first_with_id_unique(cv, rule@.id, i as int, k);
            }
            if current[i] == *rule {
                Decision::Unchanged
            } else {
                Decision::Changed
            }
        },
        None => Decision::New,
    }
}

/// The steps of an upload: the desired rules in ascending numeric order of
/// their identifiers, each with its decision against the current rules.
pub fn plan_upload(current: &Vec<Rule>, desired: Vec<Rule>) -> (steps: Vec<Step>)
    ensures
        step_rules(steps@).to_multiset() == desired@.to_multiset(),
        sorted_by_id(rules_view(step_rules(steps@))),
        exists|p: Seq<int>| stable_arrangement(desired@, step_rules(steps@), p),
        forall|i: int|
            0 <= i < steps.len() ==> (#[trigger] steps@[i]).decision == decision_of(
                rules_view(current@),
                steps@[i].rule@,
            ),
{
    let mut rest = sort_by_numeric_id(desired);
    let ghost sorted = rest@;
    let mut steps: Vec<Step> = Vec::new();
    while rest.len() > 0
        invariant
            step_rules(steps@) + rest@ == sorted,
            forall|i: int|
                0 <= i < steps.len() ==> (#[trigger] steps@[i]).decision == decision_of(
                    rules_view(current@),
                    steps@[i].rule@,
                ),
        decreases rest.len(),
    {
        let ghost pre = rest@;
        let rule = rest.remove(0);
        let decision = decide(current, &rule);
        let ghost before = steps@;
        steps.push(Step { decision, rule });
        proof {
            assert(step_rules(steps@) =~= step_rules(before).push(rule));
            assert(pre =~= seq![rule] + rest@);
            assert(step_rules(steps@) + rest@ =~= step_rules(before) + pre);
        }
    }
    proof {
        assert(step_rules(steps@) =~= sorted);
    }
    steps
}

/// A desired rule equal to the rule the bridge holds under its identifier
/// (identifier, name, actions and conditions alike) is unchanged, so no call
/// is made for it. Where the bridge holds several rules under one identifier,
/// the first of them is the one compared.
pub proof fn lemma_equal_rule_unchanged(current: Seq<RuleModel>, i: int, rule: RuleModel)
    requires
        0 <= i < current.len(),
        current[i] == rule,
        forall|j: int| 0 <= j < i ==> (#[trigger] current[j]).id != rule.id,
    ensures
        decision_of(current, rule) == Decision::Unchanged,
{
    assert(has_id(current, rule.id));
    assert(is_first_with_id(current, rule.id, i));
    let k = choose|k: int| is_first_with_id(current, rule.id, k);
    lemma_first_with_id_unique(current, rule.id, i, k);
}

proof fn lemma_first_with_id_exists(rules: Seq<RuleModel>, id: Seq<char>, i: int)
    requires
        0 <= i < rules.len(),
        rules[i].id == id,
    ensures
        exists|k: int| 0 <= k <= i && is_first_with_id(rules, id, k),
    decreases i,
{
    if exists|j: int| 0 <= j < i && (#[trigger] rules[j]).id == id {
        let j = choose|j: int| 0 <= j < i && (#[trigger] rules[j]).id == id;
        lemma_first_with_id_exists(rules, id, j);
    } else {
        assert(is_first_with_id(rules, id, i));
    }
}

/// Rules that share an identifier are equal.
pub open spec fn shared_ids_agree(rules: Seq<RuleModel>) -> bool {
    forall|i: int, j: int|
        0 <= i < rules.len() && 0 <= j < rules.len() && (#[trigger] rules[i]).id == (
        #[trigger] rules[j]).id ==> rules[i] == rules[j]
}

/// A desired rule whose identifier the bridge does not hold is new: a create
/// call is made for it.
pub proof fn lemma_absent_id_new(current: Seq<RuleModel>, rule: RuleModel)
    requires
        forall|i: int| 0 <= i < current.len() ==> (#[trigger] current[i]).id != rule.id,
    ensures
        decision_of(current, rule) == Decision::New,
{
}

/// Uploading the very rules the bridge holds, in any order, changes nothing:
/// every rule of such a document is unchanged. This holds whenever rules the
/// bridge holds under one identifier are equal, as when it holds each
/// identifier once.
pub proof fn lemma_reupload_unchanged(current: Seq<Rule>, document: Seq<Rule>)
    requires
        shared_ids_agree(rules_view(current)),
        document.to_multiset() == current.to_multiset(),
    ensures
        forall|r: Rule|
            document.to_multiset().count(r) > 0 ==> decision_of(rules_view(current), r@)
                == Decision::Unchanged,
{
    broadcast use vstd::seq_lib::group_to_multiset_ensures;

    let cv = rules_view(current);
    assert forall|r: Rule| document.to_multiset().count(r) > 0 implies decision_of(cv, r@)
        == Decision::Unchanged by {
        assert(current.contains(r));
        let i = choose|i: int| 0 <= i < current.len() && current[i] == r;
        assert(cv[i] == r@);
        lemma_first_with_id_exists(cv, r@.id, i);
        let k = choose|k: int| 0 <= k <= i && is_first_with_id(cv, r@.id, k);
        assert(cv[k] == cv[i]);
        lemma_equal_rule_unchanged(cv, k, r@);
    }
}

/// The bridge's rules once each has been replaced by the document's rule
/// with its identifier, if the document has one: what the bridge holds after
/// an upload that creates nothing has stored its updates.
pub open spec fn after_updates(current: Seq<RuleModel>, document: Seq<RuleModel>) -> Seq<RuleModel> {
    Seq::new(
        current.len(),
        |k: int|
            if has_id(document, current[k].id) {
                document[choose|f: int| is_first_with_id(document, current[k].id, f)]
            } else {
                current[k]
            },
    )
}

/// Uploading a document a second time, once the bridge has stored the
/// updates of the first upload, changes nothing: every rule of the document
/// is unchanged. The document names each identifier once, and each already
/// on the bridge, so that the first upload creates nothing.
pub proof fn lemma_second_upload_unchanged(current: Seq<RuleModel>, document: Seq<RuleModel>)
    requires
        ids_unique(document),
        forall|i: int| 0 <= i < document.len() ==> has_id(current, (#[trigger] document[i]).id),
    ensures
        forall|i: int|
            0 <= i < document.len() ==> decision_of(after_updates(current, document), #[trigger] document[i])
                == Decision::Unchanged,
{
    let after = after_updates(current, document);
    assert forall|k: int| 0 <= k < current.len() implies (#[trigger] after[k]).id == current[k].id by {
        if has_id(document, current[k].id) {
            let j = choose|j: int| 0 <= j < document.len() && (#[trigger] document[j]).id == current[k].id;
            lemma_first_with_id_exists(document, current[k].id, j);
        }
    }
    assert forall|i: int| 0 <= i < document.len() implies decision_of(after, #[trigger] document[i])
        == Decision::Unchanged by {
        let d = document[i];
        assert(is_first_with_id(document, d.id, i));
        let m = choose|m: int| 0 <= m < current.len() && (#[trigger] current[m]).id == d.id;
        assert(after[m].id == d.id);
        lemma_first_with_id_exists(after, d.id, m);
        let k = choose|k: int| 0 <= k <= m && is_first_with_id(after, d.id, k);
        assert(current[k].id == d.id);
        assert(has_id(document, d.id));
        let f = choose|f: int| is_first_with_id(document, d.id, f);
        lemma_first_with_id_unique(document, d.id, i, f);
        assert(after[k] == d);
        lemma_equal_rule_unchanged(after, k, d);
    }
}

} // verus!
