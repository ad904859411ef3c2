use vstd::prelude::*;
use crate::diagn::Span;
use crate::state::{Context, RuleRef};

verus! {

/// A parameter of a rule: the name under which the production reads its argument.
#[derive(Debug)]
pub struct RuleParameter {
    pub name: String,
}

/// A declared production: its parameters and the expression that yields its encoding. The
/// expression type `E` belongs to the evaluator.
#[derive(Debug)]
pub struct Rule<E> {
    pub parameters: Vec<RuleParameter>,
    pub production: E,
}

/// A named group of rules.
#[derive(Debug)]
pub struct Ruleset<E> {
    pub name: String,
    pub rules: Vec<Rule<E>>,
}

/// One argument of a candidate: an expression, or the candidates of a nested rule.
#[derive(Debug)]
pub enum RuleInvokationArgument<E> {
    Expression(E),
    NestedRuleset(Vec<RuleInvokationCandidate<E>>),
}

/// One admissible encoding of an instruction: a rule and the arguments for its parameters, in
/// the parameters' order.
#[derive(Debug)]
pub struct RuleInvokationCandidate<E> {
    pub rule_ref: RuleRef,
    pub args: Vec<RuleInvokationArgument<E>>,
}

/// An instruction awaiting emission, with its candidates in the order of preference.
#[derive(Debug)]
pub struct RuleInvokation<E> {
    pub candidates: Vec<RuleInvokationCandidate<E>>,
}

/// A data element awaiting emission: the expression, where it stands, and the width that the
/// directive fixes, if it fixes one.
#[derive(Debug)]
pub struct DataInvokation<E> {
    pub expr: E,
    pub span: Span,
    pub elem_size: Option<usize>,
}

/// The two kinds of pending emission.
#[derive(Debug)]
pub enum InvokationKind<E> {
    Rule(RuleInvokation<E>),
    Data(DataInvokation<E>),
}

/// One pending emission: where it was parsed, the bits reserved for it in this pass, and what
/// is to be emitted.
#[derive(Debug)]
pub struct Invokation<E> {
    pub ctx: Context,
    pub size_guess: usize,
    pub span: Span,
    pub kind: InvokationKind<E>,
}

/// Whether a candidate names a rule of `rulesets`, gives it no more arguments than the rule
/// has parameters, and holds only nested candidate lists that are not empty and whose
/// candidates are valid in turn.
pub open spec fn valid_candidate<E>(
    rulesets: Seq<Ruleset<E>>,
    cand: RuleInvokationCandidate<E>,
) -> bool
    decreases cand, 1int,
{
    &&& cand.rule_ref.ruleset_ref.index < rulesets.len()
    &&& cand.rule_ref.index < rulesets[cand.rule_ref.ruleset_ref.index as int].rules.len()
    &&& cand.args.len()
        <= rulesets[cand.rule_ref.ruleset_ref.index as int].rules[cand.rule_ref.index as int].parameters.len()
    &&& forall|j: int|
        0 <= j < cand.args.len() ==> valid_argument(rulesets, #[trigger] cand.args[j])
}

/// Whether an argument is an expression or a valid list of nested candidates.
pub open spec fn valid_argument<E>(rulesets: Seq<Ruleset<E>>, arg: RuleInvokationArgument<E>) -> bool
    decreases arg, 2int,
{
    match arg {
        RuleInvokationArgument::Expression(_) => true,
        RuleInvokationArgument::NestedRuleset(inner) => valid_candidates(rulesets, inner),
    }
}

/// Whether a list of candidates is not empty and holds valid candidates only.
pub open spec fn valid_candidates<E>(
    rulesets: Seq<Ruleset<E>>,
    cands: Vec<RuleInvokationCandidate<E>>,
) -> bool
    decreases cands, 0int,
{
    &&& cands.len() > 0
    &&& forall|k: int| 0 <= k < cands.len() ==> valid_candidate(rulesets, #[trigger] cands[k])
}

/// Executable form of `valid_candidate`.
pub fn check_candidate<E>(rulesets: &Vec<Ruleset<E>>, cand: &RuleInvokationCandidate<E>) -> (r: bool)
    ensures
        r == valid_candidate(rulesets@, *cand),
    decreases cand, 1int,
{
    let set = cand.rule_ref.ruleset_ref.index;
    if set >= rulesets.len() || cand.rule_ref.index >= rulesets[set].rules.len() {
        return false;
    }
    if cand.args.len() > rulesets[set].rules[cand.rule_ref.index].parameters.len() {
        return false;
    }
    let mut j: usize = 0;
    while j < cand.args.len()
        invariant
            j <= cand.args.len(),
            forall|i: int| 0 <= i < j ==> valid_argument(rulesets@, #[trigger] cand.args[i]),
        decreases cand.args.len() - j,
    {
        let ok = match &cand.args[j] {
            RuleInvokationArgument::Expression(_) => true,
            RuleInvokationArgument::NestedRuleset(inner) => check_candidates(rulesets, inner),
        };
        if !ok {
            assert(!valid_argument(rulesets@, cand.args[j as int]));
            return false;
        }
        assert(valid_argument(rulesets@, cand.args[j as int]));
        j = j + 1;
    }
    true
}

/// Executable form of `valid_candidates`.
pub fn check_candidates<E>(rulesets: &Vec<Ruleset<E>>, cands: &Vec<RuleInvokationCandidate<E>>) -> (r:
    bool)
    ensures
        r == valid_candidates(rulesets@, *cands),
    decreases cands, 0int,
{
    if cands.len() == 0 {
        return false;
    }
    let mut k: usize = 0;
    while k < cands.len()
        invariant
            k <= cands.len(),
            forall|i: int| 0 <= i < k ==> valid_candidate(rulesets@, #[trigger] cands[i]),
        decreases cands.len() - k,
    {
        if !check_candidate(rulesets, &cands[k]) {
            return false;
        }
        k = k + 1;
    }
    true
}


} // verus!
