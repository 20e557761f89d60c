use vstd::prelude::*;
use crate::stage::StageId;

verus! {

/// The raw key reserved for the `user` anchor stage.
pub const USER_STAGE_KEY: u64 = u64::MAX - 1;

/// The raw key reserved for the `post_user` anchor stage.
pub const POST_USER_STAGE_KEY: u64 = u64::MAX;

/// A rule that pins the placement of one stage relative to another.
#[derive(Clone, Copy, Debug, Hash, PartialEq, Eq, Structural)]
pub enum InjectionRule {
    /// The stage carrying the rule must complete before the target starts.
    Before(StageId),
    /// The stage carrying the rule must start after the target completes.
    After(StageId),
    /// The stage carrying the rule must share an execution group with the
    /// target; if the compiled plan cannot honour that, sorting fails.
    Parallel(StageId),
}

impl InjectionRule {
    /// The stage this rule points at.
    pub open spec fn reference(self) -> StageId {
        match self {
            InjectionRule::Before(t) => t,
            InjectionRule::After(t) => t,
            InjectionRule::Parallel(t) => t,
        }
    }
}

/// The reserved anchor stage that every ordinary system implicitly runs
/// after.
pub fn user() -> (s: StageId)
    ensures
        s == user_stage(),
{
    StageId { id: USER_STAGE_KEY }
}

/// The reserved anchor stage that every ordinary system implicitly runs
/// before.
pub fn post_user() -> (s: StageId)
    ensures
        s == post_user_stage(),
{
    StageId { id: POST_USER_STAGE_KEY }
}

/// The identity of the `user` anchor.
pub open spec fn user_stage() -> StageId {
    StageId { id: USER_STAGE_KEY }
}

/// The identity of the `post_user` anchor.
pub open spec fn post_user_stage() -> StageId {
    StageId { id: POST_USER_STAGE_KEY }
}

/// The implicit rules given to a freshly registered system: it is pinned
/// strictly between the two anchors until the caller states an explicit
/// `before`/`after` rule.
pub open spec fn default_rules_spec() -> Seq<InjectionRule> {
    seq![
        InjectionRule::Before(post_user_stage()),
        InjectionRule::After(user_stage()),
    ]
}

/// The default rules for a freshly registered system.
pub fn default_rules() -> (v: Vec<InjectionRule>)
    ensures
        v@ == default_rules_spec(),
{
    let mut v: Vec<InjectionRule> = Vec::new();
    v.push(InjectionRule::Before(post_user()));
    v.push(InjectionRule::After(user()));
    proof {
        assert(v@ =~= default_rules_spec());
    }
    v
}

} // verus!
