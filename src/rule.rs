//! Rule records and their structural equality.
use vstd::prelude::*;

verus! {

/// How a condition compares a sensor attribute with its value.
#[derive(Clone, Copy, Debug, PartialEq, Eq, Structural)]
pub enum ConditionOperator {
    LessThan,
    GreaterThan,
    Equals,
    Dx,
    Ddx,
    Stable,
    NotStable,
    In,
    NotIn,
}

/// The request method with which an action sends its body.
#[derive(Clone, Copy, Debug, PartialEq, Eq, Structural)]
pub enum RequestMethod {
    Put,
    Post,
    Delete,
}

/// A condition of a rule: an attribute address, an operator and an optional value.
#[derive(Clone, Debug)]
pub struct Condition {
    pub address: String,
    pub operator: ConditionOperator,
    pub value: Option<String>,
}

/// An action of a rule: the address it is sent to, the method, and the body
/// of the request as a document text.
#[derive(Clone, Debug)]
pub struct Action {
    pub address: String,
    pub method: RequestMethod,
    pub body: String,
}

/// A rule record: identifier, name, actions and conditions.
#[derive(Clone, Debug)]
pub struct Rule {
    pub id: String,
    pub name: String,
    pub actions: Vec<Action>,
    pub conditions: Vec<Condition>,
}

/// Mathematical value of a [`Condition`].
pub struct ConditionModel {
    pub address: Seq<char>,
    pub operator: ConditionOperator,
    pub value: Option<Seq<char>>,
}

/// Mathematical value of an [`Action`].
pub struct ActionModel {
    pub address: Seq<char>,
    pub method: RequestMethod,
    pub body: Seq<char>,
}

/// Mathematical value of a [`Rule`].
pub struct RuleModel {
    pub id: Seq<char>,
    pub name: Seq<char>,
    pub actions: Seq<ActionModel>,
    pub conditions: Seq<ConditionModel>,
}

pub open spec fn option_string_view(o: Option<String>) -> Option<Seq<char>> {
    match o {
        Some(s) => Some(s@),
        None => None,
    }
}

impl View for Condition {
    type V = ConditionModel;

    open spec fn view(&self) -> ConditionModel {
        ConditionModel {
            address: self.address@,
            operator: self.operator,
            value: option_string_view(self.value),
        }
    }
}

impl View for Action {
    type V = ActionModel;

    open spec fn view(&self) -> ActionModel {
        ActionModel { address: self.address@, method: self.method, body: self.body@ }
    }
}

impl View for Rule {
    type V = RuleModel;

    open spec fn view(&self) -> RuleModel {
        RuleModel {
            id: self.id@,
            name: self.name@,
            actions: self.actions@.map_values(|a: Action| a@),
            conditions: self.conditions@.map_values(|c: Condition| c@),
        }
    }
}

/// Models of a sequence of rules, in order.
pub open spec fn rules_view(rules: Seq<Rule>) -> Seq<RuleModel> {
    rules.map_values(|r: Rule| r@)
}

fn option_string_eq(a: &Option<String>, b: &Option<String>) -> (r: bool)
    ensures
        r == (option_string_view(*a) == option_string_view(*b)),
{
    match (a, b) {
        (Some(x), Some(y)) => *x == *y,
        (None, None) => true,
        _ => false,
    }
}

impl PartialEq for Condition {
    fn eq(&self, other: &Condition) -> (r: bool) {
        self.address == other.address && self.operator == other.operator && option_string_eq(
            &self.value,
            &other.value,
        )
    }
}

impl vstd::std_specs::cmp::PartialEqSpecImpl for Condition {
    open spec fn obeys_eq_spec() -> bool {
        true
    }

    open spec fn eq_spec(&self, other: &Condition) -> bool {
        self@ == other@
    }
}

impl PartialEq for Action {
    fn eq(&self, other: &Action) -> (r: bool) {
        self.address == other.address && self.method == other.method && self.body == other.body
    }
}

impl vstd::std_specs::cmp::PartialEqSpecImpl for Action {
    open spec fn obeys_eq_spec() -> bool {
        true
    }

    open spec fn eq_spec(&self, other: &Action) -> bool {
        self@ == other@
    }
}

fn conditions_eq(a: &Vec<Condition>, b: &Vec<Condition>) -> (r: bool)
    ensures
        r == (a@.map_values(|c: Condition| c@) == b@.map_values(|c: Condition| c@)),
{
    if a.len() != b.len() {
        proof {
            assert(a@.map_values(|c: Condition| c@).len() != b@.map_values(|c: Condition| c@).len());
        }
        return false;
    }
    let mut i: usize = 0;
    while i < a.len()
        invariant
            a.len() == b.len(),
            i <= a.len(),
            forall|j: int| 0 <= j < i ==> a@[j]@ == b@[j]@,
        decreases a.len() - i,
    {
        if !(a[i] == b[i]) {
            proof {
                assert(a@.map_values(|c: Condition| c@)[i as int] != b@.map_values(
                    |c: Condition| c@,
                )[i as int]);
            }
            return false;
        }
        i = i + 1;
    }
    proof {
        assert(a@.map_values(|c: Condition| c@) =~= b@.map_values(|c: Condition| c@));
    }
    true
}

fn actions_eq(a: &Vec<Action>, b: &Vec<Action>) -> (r: bool)
    ensures
        r == (a@.map_values(|x: Action| x@) == b@.map_values(|x: Action| x@)),
{
    if a.len() != b.len() {
        proof {
            assert(a@.map_values(|x: Action| x@).len() != b@.map_values(|x: Action| x@).len());
        }
        return false;
    }
    let mut i: usize = 0;
    while i < a.len()
        invariant
            a.len() == b.len(),
            i <= a.len(),
            forall|j: int| 0 <= j < i ==> a@[j]@ == b@[j]@,
        decreases a.len() - i,
    {
        if !(a[i] == b[i]) {
            proof {
                assert(a@.map_values(|x: Action| x@)[i as int] != b@.map_values(|x: Action| x@)[i as int]);
            }
            return false;
        }
        i = i + 1;
    }
    proof {
        assert(a@.map_values(|x: Action| x@) =~= b@.map_values(|x: Action| x@));
    }
    true
}

impl PartialEq for Rule {
    fn eq(&self, other: &Rule) -> (r: bool) {
        self.id == other.id && self.name == other.name && actions_eq(&self.actions, &other.actions)
            && conditions_eq(&self.conditions, &other.conditions)
    }
}

impl vstd::std_specs::cmp::PartialEqSpecImpl for Rule {
    open spec fn obeys_eq_spec() -> bool {
        true
    }

    open spec fn eq_spec(&self, other: &Rule) -> bool {
        self@ == other@
    }
}

} // verus!
