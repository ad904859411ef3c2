use vstd::prelude::*;
use vstd::string::*;
use crate::bigint::{min_bits, Integer};
use crate::bitvec::{overlay, written_bits, BitVec};
use crate::diagn::{
    lemma_nested_under_nothing, lemma_with_entries_in_scope, lemma_with_entries_twice,
    lemma_with_error, lemma_with_no_entries, nested_all, plain_error, Entry, MessageKind, Notice,
    Place, Report, Span, Transcript,
};
use crate::eval::{datum_of, EvalContext, Evaluation, Outcome};
use crate::rule::{
    valid_argument, valid_candidate, valid_candidates, Invokation, InvokationKind, Rule,
    RuleInvokationArgument, RuleInvokationCandidate,
};
use crate::state::{BankData, Context, State};
use crate::text::{decimal, push_decimal};
use crate::value::{Datum, Value};

verus! {

/// Whether an evaluator accepts every expression, whatever the locals and the pass, at every
/// position of `state`.
pub open spec fn accepts_all<E, F: Fn(&E, &EvalContext, &State<E>, &Context, bool) -> Evaluation>(
    eval: &F,
    state: &State<E>,
) -> bool {
    forall|expr: &E, locals: &EvalContext, ctx: &Context, final_pass: bool|
        state.valid_ctx(ctx) ==> call_requires(eval, (expr, locals, state, ctx, final_pass))
}

/// The text of the error for a value of `needed` bits under a directive of `size` bits.
pub open spec fn too_large_text(needed: nat, size: nat) -> Seq<char> {
    "value (size = "@ + decimal(needed) + ") is larger than the directive size (= "@ + decimal(size)
        + ")"@
}

/// What becomes of the outcome of a data element's expression under a directive that may fix
/// the width: an integer takes the directive's width, and where it needs more bits than that,
/// an error at the expression follows what the evaluation emitted. Anything else stays.
pub open spec fn data_outcome(ev: Outcome, elem_size: Option<usize>, span: Place) -> Outcome {
    match (ev.value, elem_size) {
        (Ok(Datum::Integer(n)), Some(size)) => Outcome {
            value: Ok(Datum::Integer(Integer { value: n.value, size: Some(size) })),
            emitted: if min_bits(n.value) > size {
                ev.emitted.push(
                    plain_error(too_large_text(min_bits(n.value), size as nat), Some(span)),
                )
            } else {
                ev.emitted
            },
        },
        _ => ev,
    }
}

/// Gives a resolved data element the width of its directive, and reports a value that needs
/// more bits than the directive has.
pub fn finish_data(resolved: Value, elem_size: Option<usize>, span: &Span, report: &mut Report) -> (r:
    Value)
    ensures
        Ok::<Datum, ()>(r@) == data_outcome(
            Outcome { value: Ok(resolved@), emitted: Seq::empty() },
            elem_size,
            span@,
        ).value,
        final(report)@ == old(report)@.with_entries(
            data_outcome(
                Outcome { value: Ok(resolved@), emitted: Seq::empty() },
                elem_size,
                span@,
            ).emitted,
        ),
{
    proof {
        lemma_with_no_entries(old(report)@);
    }
    match elem_size {
        Some(size) => match resolved {
            Value::Integer(bigint) => {
                let needed = bigint.min_size();
                if needed > size {
                    let mut descr = String::from_str("value (size = ");
                    push_decimal(&mut descr, needed);
                    descr.append(") is larger than the directive size (= ");
                    push_decimal(&mut descr, size);
                    descr.append(")");
                    report.error_span(descr.as_str(), span);
                    proof {
                        let text = too_large_text(needed as nat, size as nat);
                        assert(descr@ == text);
                        lemma_with_error(old(report)@, text, Some(span@));
                        assert(Seq::<Entry>::empty().push(plain_error(text, Some(span@))) =~= seq![
                            plain_error(text, Some(span@)),
                        ]);
                    }
                }
                Value::Integer(bigint.with_size(Some(size)))
            },
            other => other,
        },
        None => resolved,
    }
}

impl<E> State<E> {
    /// Evaluates an expression at the position `ctx` with the locals `eval_ctx`, and moves
    /// what the evaluation emitted into `report`.
    pub fn eval_expr<F>(
        &self,
        eval: &F,
        report: &mut Report,
        expr: &E,
        ctx: &Context,
        eval_ctx: &EvalContext,
        final_pass: bool,
    ) -> (r: Result<Value, ()>) where F: Fn(&E, &EvalContext, &State<E>, &Context, bool) -> Evaluation
        requires
            self.valid_ctx(ctx),
            accepts_all(eval, self),
        ensures
            exists|ev: Evaluation|
                {
                    &&& #[trigger] call_ensures(eval, (expr, eval_ctx, self, ctx, final_pass), ev)
                    &&& datum_of(r) == ev@.value
                    &&& final(report)@ == old(report)@.with_entries(ev@.emitted)
                },
    {
        let mut ev = eval(expr, eval_ctx, self, ctx, final_pass);
        let ghost seen = ev;
        ev.report.transfer_to(report);
        assert(call_ensures(eval, (expr, eval_ctx, self, ctx, final_pass), seen));
        ev.value
    }

    /// Resolves a data element: evaluates its expression without locals at the position where
    /// it was parsed, moves what the evaluation emitted into `report`, and fits the value to
    /// the directive's width.
    pub fn resolve_data_invokation<F>(
        &self,
        eval: &F,
        report: &mut Report,
        invokation: &Invokation<E>,
        final_pass: bool,
    ) -> (r: Result<Value, ()>) where F: Fn(&E, &EvalContext, &State<E>, &Context, bool) -> Evaluation
        requires
            invokation.kind is Data,
            self.valid_ctx(&invokation.ctx),
            accepts_all(eval, self),
        ensures
            exists|locals: EvalContext, ev: Evaluation|
                {
                    &&& locals@ == Map::<Seq<char>, Datum>::empty()
                    &&& #[trigger] call_ensures(
                        eval,
                        (
                            &invokation.kind->Data_0.expr,
                            &locals,
                            self,
                            &invokation.ctx,
                            final_pass,
                        ),
                        ev,
                    )
                    &&& datum_of(r) == data_outcome(
                        ev@,
                        invokation.kind->Data_0.elem_size,
                        invokation.kind->Data_0.span@,
                    ).value
                    &&& final(report)@ == old(report)@.with_entries(
                        data_outcome(
                            ev@,
                            invokation.kind->Data_0.elem_size,
                            invokation.kind->Data_0.span@,
                        ).emitted,
                    )
                },
    {
        match &invokation.kind {
            InvokationKind::Data(data_invok) => {
                let locals = EvalContext::new();
                let evaluated = self.eval_expr(
                    eval,
                    report,
                    &data_invok.expr,
                    &invokation.ctx,
                    &locals,
                    final_pass,
                );
                let ghost seen = choose|ev: Evaluation|
                    {
                        &&& #[trigger] call_ensures(
                            eval,
                            (&data_invok.expr, &locals, self, &invokation.ctx, final_pass),
                            ev,
                        )
                        &&& datum_of(evaluated) == ev@.value
                        &&& report@ == old(report)@.with_entries(ev@.emitted)
                    };
                match evaluated {
                    Ok(resolved) => {
                        let value = finish_data(resolved, data_invok.elem_size, &data_invok.span, report);
                        proof {
                            let rest = data_outcome(
                                Outcome { value: Ok(resolved@), emitted: Seq::empty() },
                                data_invok.elem_size,
                                data_invok.span@,
                            ).emitted;
                            lemma_with_entries_twice(old(report)@, seen@.emitted, rest);
                            assert(seen@.emitted + rest =~= data_outcome(
                                seen@,
                                data_invok.elem_size,
                                data_invok.span@,
                            ).emitted);
                        }
                        Ok(value)
                    },
                    Err(_) => Err(()),
                }
            },
            InvokationKind::Rule(_) => Err(()),
        }
    }
}

/// Holds of every outcome. It marks the outcome that a statement "there is an outcome such
/// that" speaks of, so that a proof can name one.
pub open spec fn witnessed(out: Outcome) -> bool {
    true
}

/// The outcome of a failure that emitted nothing.
pub open spec fn silent_failure() -> Outcome {
    Outcome { value: Err(()), emitted: Seq::empty() }
}

/// The rule that a candidate names.
pub open spec fn rule_of<E>(state: &State<E>, cand: RuleInvokationCandidate<E>) -> Rule<E> {
    state.rulesets[cand.rule_ref.ruleset_ref.index as int].rules[cand.rule_ref.index as int]
}

/// What follows an argument's outcome `arg` when `emitted` was emitted before it: a failure
/// ends the candidate with everything emitted so far; a value is bound to the parameter's name
/// and the next argument has its turn.
pub open spec fn after_argument<
    E,
    F: Fn(&E, &EvalContext, &State<E>, &Context, bool) -> Evaluation,
>(
    eval: &F,
    state: &State<E>,
    ctx: &Context,
    final_pass: bool,
    cand: RuleInvokationCandidate<E>,
    j: int,
    bound: Map<Seq<char>, Datum>,
    emitted: Seq<Entry>,
    arg: Outcome,
    out: Outcome,
) -> bool
    decreases cand, cand.args.len() - j, 0int,
{
    if 0 <= j < cand.args.len() {
        match arg.value {
            Ok(value) => candidate_result_from(
                eval,
                state,
                ctx,
                final_pass,
                cand,
                j + 1,
                bound.insert(rule_of(state, cand).parameters[j].name@, value),
                emitted + arg.emitted,
                out,
            ),
            Err(_) => out == Outcome { value: Err(()), emitted: emitted + arg.emitted },
        }
    } else {
        false
    }
}

/// Whether `out` is a possible outcome of resolving the candidate `cand` from its argument
/// `j` on, when the arguments before it have bound `bound` and emitted `emitted`.
///
/// Each argument is resolved in turn: an expression is evaluated without locals, a nested
/// list of candidates is resolved as any list of candidates is. The first failure ends the
/// candidate. After the last argument the rule's production is evaluated with the locals that
/// the arguments have bound, and gives the candidate's value. Everything emitted on the way
/// is the candidate's, in the order of emission.
pub open spec fn candidate_result_from<
    E,
    F: Fn(&E, &EvalContext, &State<E>, &Context, bool) -> Evaluation,
>(
    eval: &F,
    state: &State<E>,
    ctx: &Context,
    final_pass: bool,
    cand: RuleInvokationCandidate<E>,
    j: int,
    bound: Map<Seq<char>, Datum>,
    emitted: Seq<Entry>,
    out: Outcome,
) -> bool
    decreases cand, cand.args.len() - j, 1int,
{
    if j < 0 {
        false
    } else if j >= cand.args.len() {
        exists|locals: EvalContext, ev: Evaluation|
            {
                &&& locals@ == bound
                &&& #[trigger] call_ensures(
                    eval,
                    (&rule_of(state, cand).production, &locals, state, ctx, final_pass),
                    ev,
                )
                &&& out == Outcome { value: ev@.value, emitted: emitted + ev@.emitted }
            }
    } else {
        match cand.args[j] {
            RuleInvokationArgument::Expression(expr) => exists|locals: EvalContext, ev: Evaluation|
                {
                    &&& locals@ == Map::<Seq<char>, Datum>::empty()
                    &&& #[trigger] call_ensures(eval, (&expr, &locals, state, ctx, final_pass), ev)
                    &&& after_argument(
                        eval,
                        state,
                        ctx,
                        final_pass,
                        cand,
                        j,
                        bound,
                        emitted,
                        ev@,
                        out,
                    )
                },
            RuleInvokationArgument::NestedRuleset(inner) => exists|sub: Outcome|
                {
                    &&& #[trigger] witnessed(sub)
                    &&& candidates_result_from(
                        eval,
                        state,
                        ctx,
                        final_pass,
                        inner,
                        0,
                        silent_failure(),
                        sub,
                    )
                    &&& after_argument(
                        eval,
                        state,
                        ctx,
                        final_pass,
                        cand,
                        j,
                        bound,
                        emitted,
                        sub,
                        out,
                    )
                },
        }
    }
}

/// Whether `out` is a possible outcome of resolving the candidate `cand`.
pub open spec fn candidate_result<
    E,
    F: Fn(&E, &EvalContext, &State<E>, &Context, bool) -> Evaluation,
>(
    eval: &F,
    state: &State<E>,
    ctx: &Context,
    final_pass: bool,
    cand: RuleInvokationCandidate<E>,
    out: Outcome,
) -> bool {
    candidate_result_from(eval, state, ctx, final_pass, cand, 0, Map::empty(), Seq::empty(), out)
}

/// Whether `out` is a possible outcome of resolving the candidates of `cands` from position
/// `k` on, when the candidate before it failed with `last`.
///
/// The first candidate that resolves gives the value, and what it emitted is kept; what the
/// candidates before it emitted is dropped. Where none resolves, a final pass gives the
/// outcome of the last candidate, errors and all; any other pass fails without a word.
pub open spec fn candidates_result_from<
    E,
    F: Fn(&E, &EvalContext, &State<E>, &Context, bool) -> Evaluation,
>(
    eval: &F,
    state: &State<E>,
    ctx: &Context,
    final_pass: bool,
    cands: Vec<RuleInvokationCandidate<E>>,
    k: int,
    last: Outcome,
    out: Outcome,
) -> bool
    decreases cands, cands.len() - k, 2int,
{
    if k < 0 {
        false
    } else if k >= cands.len() {
        out == if final_pass {
            last
        } else {
            silent_failure()
        }
    } else {
        exists|c: Outcome|
            {
                &&& #[trigger] witnessed(c)
                &&& candidate_result_from(
                    eval,
                    state,
                    ctx,
                    final_pass,
                    cands[k],
                    0,
                    Map::empty(),
                    Seq::empty(),
                    c,
                )
                &&& if c.value.is_ok() {
                    out == c
                } else {
                    candidates_result_from(eval, state, ctx, final_pass, cands, k + 1, c, out)
                }
            }
    }
}

/// Whether `out` is a possible outcome of resolving the candidates of `cands`.
pub open spec fn candidates_result<
    E,
    F: Fn(&E, &EvalContext, &State<E>, &Context, bool) -> Evaluation,
>(
    eval: &F,
    state: &State<E>,
    ctx: &Context,
    final_pass: bool,
    cands: Vec<RuleInvokationCandidate<E>>,
    out: Outcome,
) -> bool {
    candidates_result_from(eval, state, ctx, final_pass, cands, 0, silent_failure(), out)
}


/// A candidate whose arguments are all bound has the outcome of its production.
pub proof fn lemma_production_outcome<
    E,
    F: Fn(&E, &EvalContext, &State<E>, &Context, bool) -> Evaluation,
>(
    eval: &F,
    state: &State<E>,
    ctx: &Context,
    final_pass: bool,
    cand: RuleInvokationCandidate<E>,
    j: int,
    bound: Map<Seq<char>, Datum>,
    emitted: Seq<Entry>,
    locals: EvalContext,
    ev: Evaluation,
)
    requires
        j >= cand.args.len(),
        locals@ == bound,
        call_ensures(eval, (&rule_of(state, cand).production, &locals, state, ctx, final_pass), ev),
    ensures
        candidate_result_from(
            eval,
            state,
            ctx,
            final_pass,
            cand,
            j,
            bound,
            emitted,
            Outcome { value: ev@.value, emitted: emitted + ev@.emitted },
        ),
{
}

/// An expression argument leads on from any of its evaluations.
pub proof fn lemma_expression_argument<
    E,
    F: Fn(&E, &EvalContext, &State<E>, &Context, bool) -> Evaluation,
>(
    eval: &F,
    state: &State<E>,
    ctx: &Context,
    final_pass: bool,
    cand: RuleInvokationCandidate<E>,
    j: int,
    bound: Map<Seq<char>, Datum>,
    emitted: Seq<Entry>,
    locals: EvalContext,
    ev: Evaluation,
    out: Outcome,
)
    requires
        0 <= j < cand.args.len(),
        cand.args[j] is Expression,
        locals@ == Map::<Seq<char>, Datum>::empty(),
        call_ensures(eval, (&cand.args[j]->Expression_0, &locals, state, ctx, final_pass), ev),
        after_argument(eval, state, ctx, final_pass, cand, j, bound, emitted, ev@, out),
    ensures
        candidate_result_from(eval, state, ctx, final_pass, cand, j, bound, emitted, out),
{
}

/// A nested argument leads on from any outcome of its candidates.
pub proof fn lemma_nested_argument<
    E,
    F: Fn(&E, &EvalContext, &State<E>, &Context, bool) -> Evaluation,
>(
    eval: &F,
    state: &State<E>,
    ctx: &Context,
    final_pass: bool,
    cand: RuleInvokationCandidate<E>,
    j: int,
    bound: Map<Seq<char>, Datum>,
    emitted: Seq<Entry>,
    sub: Outcome,
    out: Outcome,
)
    requires
        0 <= j < cand.args.len(),
        cand.args[j] is NestedRuleset,
        candidates_result(eval, state, ctx, final_pass, cand.args[j]->NestedRuleset_0, sub),
        after_argument(eval, state, ctx, final_pass, cand, j, bound, emitted, sub, out),
    ensures
        candidate_result_from(eval, state, ctx, final_pass, cand, j, bound, emitted, out),
{
    assert(witnessed(sub));
}

/// Past the last candidate, a final pass has the outcome of the candidate that failed last,
/// and any other pass fails without a word.
pub proof fn lemma_candidates_exhausted<
    E,
    F: Fn(&E, &EvalContext, &State<E>, &Context, bool) -> Evaluation,
>(
    eval: &F,
    state: &State<E>,
    ctx: &Context,
    final_pass: bool,
    cands: Vec<RuleInvokationCandidate<E>>,
    k: int,
    last: Outcome,
)
    requires
        k >= cands.len(),
    ensures
        candidates_result_from(
            eval,
            state,
            ctx,
            final_pass,
            cands,
            k,
            last,
            if final_pass {
                last
            } else {
                silent_failure()
            },
        ),
{
}

/// A candidate that resolves decides; one that fails hands on to the next.
pub proof fn lemma_candidates_step<
    E,
    F: Fn(&E, &EvalContext, &State<E>, &Context, bool) -> Evaluation,
>(
    eval: &F,
    state: &State<E>,
    ctx: &Context,
    final_pass: bool,
    cands: Vec<RuleInvokationCandidate<E>>,
    k: int,
    last: Outcome,
    c: Outcome,
    out: Outcome,
)
    requires
        0 <= k < cands.len(),
        candidate_result(eval, state, ctx, final_pass, cands[k], c),
        if c.value.is_ok() {
            out == c
        } else {
            candidates_result_from(eval, state, ctx, final_pass, cands, k + 1, c, out)
        },
    ensures
        candidates_result_from(eval, state, ctx, final_pass, cands, k, last, out),
{
    assert(witnessed(c));
}

impl<E> State<E> {
    /// Resolves one candidate: its arguments in turn, then the rule's production with the
    /// locals that the arguments have bound. What the evaluations emit is moved into `report`.
    pub fn resolve_rule_invokation_candidate<F>(
        &self,
        eval: &F,
        report: &mut Report,
        invokation: &Invokation<E>,
        candidate: &RuleInvokationCandidate<E>,
        final_pass: bool,
    ) -> (r: Result<Value, ()>) where F: Fn(&E, &EvalContext, &State<E>, &Context, bool) -> Evaluation
        requires
            valid_candidate(self.rulesets@, *candidate),
            self.valid_ctx(&invokation.ctx),
            accepts_all(eval, self),
        ensures
            exists|out: Outcome|
                {
                    &&& #[trigger] candidate_result(
                        eval,
                        self,
                        &invokation.ctx,
                        final_pass,
                        *candidate,
                        out,
                    )
                    &&& datum_of(r) == out.value
                    &&& final(report)@ == old(report)@.with_entries(out.emitted)
                },
        decreases candidate, 0int,
    {
        let ctx = &invokation.ctx;
        let rule = &self.rulesets[candidate.rule_ref.ruleset_ref.index].rules[candidate.rule_ref.index];
        let mut eval_ctx = EvalContext::new();
        let ghost mut emitted: Seq<Entry> = Seq::empty();
        proof {
            lemma_with_no_entries(old(report)@);
        }
        let mut i: usize = 0;
        while i < candidate.args.len()
            invariant
                i <= candidate.args.len(),
                valid_candidate(self.rulesets@, *candidate),
                self.valid_ctx(ctx),
                accepts_all(eval, self),
                ctx == &invokation.ctx,
                *rule == rule_of(self, *candidate),
                report@ == old(report)@.with_entries(emitted),
                forall|out: Outcome| #[trigger]
                    candidate_result_from(
                        eval,
                        self,
                        ctx,
                        final_pass,
                        *candidate,
                        i as int,
                        eval_ctx@,
                        emitted,
                        out,
                    ) ==> candidate_result(eval, self, ctx, final_pass, *candidate, out),
            decreases candidate.args.len() - i,
        {
            let ghost bound = eval_ctx@;
            let ghost before = emitted;
            let ghost arg: Outcome;
            let resolved: Result<Value, ()>;
            assert(valid_argument(self.rulesets@, candidate.args[i as int]));
            match &candidate.args[i] {
                RuleInvokationArgument::Expression(expr) => {
                    let locals = EvalContext::new();
                    let ghost mid = report@;
                    resolved = self.eval_expr(eval, report, expr, ctx, &locals, final_pass);
                    let ghost seen = choose|ev: Evaluation|
                        {
                            &&& #[trigger] call_ensures(
                                eval,
                                (expr, &locals, self, ctx, final_pass),
                                ev,
                            )
                            &&& datum_of(resolved) == ev@.value
                            &&& report@ == mid.with_entries(ev@.emitted)
                        };
                    proof {
                        arg = seen@;
                        assert forall|out: Outcome| #[trigger]
                            after_argument(
                                eval,
                                self,
                                ctx,
                                final_pass,
                                *candidate,
                                i as int,
                                bound,
                                before,
                                arg,
                                out,
                            ) implies candidate_result_from(
                            eval,
                            self,
                            ctx,
                            final_pass,
                            *candidate,
                            i as int,
                            bound,
                            before,
                            out,
                        ) by {
                            lemma_expression_argument(
                                eval,
                                self,
                                ctx,
                                final_pass,
                                *candidate,
                                i as int,
                                bound,
                                before,
                                locals,
                                seen,
                                out,
                            );
                        }
                    }
                },
                RuleInvokationArgument::NestedRuleset(inner) => {
                    let ghost mid = report@;
                    resolved =
                    self.resolve_rule_invokation_candidates(eval, report, invokation, inner, final_pass);
                    proof {
                        arg = choose|sub: Outcome|
                            {
                                &&& #[trigger] candidates_result(
                                    eval,
                                    self,
                                    ctx,
                                    final_pass,
                                    *inner,
                                    sub,
                                )
                                &&& datum_of(resolved) == sub.value
                                &&& report@ == mid.with_entries(sub.emitted)
                            };
                        assert forall|out: Outcome| #[trigger]
                            after_argument(
                                eval,
                                self,
                                ctx,
                                final_pass,
                                *candidate,
                                i as int,
                                bound,
                                before,
                                arg,
                                out,
                            ) implies candidate_result_from(
                            eval,
                            self,
                            ctx,
                            final_pass,
                            *candidate,
                            i as int,
                            bound,
                            before,
                            out,
                        ) by {
                            lemma_nested_argument(
                                eval,
                                self,
                                ctx,
                                final_pass,
                                *candidate,
                                i as int,
                                bound,
                                before,
                                arg,
                                out,
                            );
                        }
                    }
                },
            }
            proof {
                lemma_with_entries_twice(old(report)@, before, arg.emitted);
                emitted = before + arg.emitted;
            }
            match resolved {
                Ok(value) => {
                    let ghost datum = value@;
                    eval_ctx.set_local(rule.parameters[i].name.as_str(), value);
                    proof {
                        assert forall|out: Outcome| #[trigger]
                            candidate_result_from(
                                eval,
                                self,
                                ctx,
                                final_pass,
                                *candidate,
                                i + 1,
                                eval_ctx@,
                                emitted,
                                out,
                            ) implies candidate_result(
                            eval,
                            self,
                            ctx,
                            final_pass,
                            *candidate,
                            out,
                        ) by {
                            assert(after_argument(
                                eval,
                                self,
                                ctx,
                                final_pass,
                                *candidate,
                                i as int,
                                bound,
                                before,
                                arg,
                                out,
                            ));
                        }
                    }
                },
                Err(_) => {
                    proof {
                        let out = Outcome { value: Err(()), emitted };
                        assert(after_argument(
                            eval,
                            self,
                            ctx,
                            final_pass,
                            *candidate,
                            i as int,
                            bound,
                            before,
                            arg,
                            out,
                        ));
                        assert(candidate_result(eval, self, ctx, final_pass, *candidate, out));
                    }
                    return Err(());
                },
            }
            i = i + 1;
        }
        let ghost mid = report@;
        let r = self.eval_expr(eval, report, &rule.production, ctx, &eval_ctx, final_pass);
        let ghost seen = choose|ev: Evaluation|
            {
                &&& #[trigger] call_ensures(
                    eval,
                    (&rule.production, &eval_ctx, self, ctx, final_pass),
                    ev,
                )
                &&& datum_of(r) == ev@.value
                &&& report@ == mid.with_entries(ev@.emitted)
            };
        proof {
            let out = Outcome { value: seen@.value, emitted: emitted + seen@.emitted };
            lemma_with_entries_twice(old(report)@, emitted, seen@.emitted);
            lemma_production_outcome(
                eval,
                self,
                ctx,
                final_pass,
                *candidate,
                i as int,
                eval_ctx@,
                emitted,
                eval_ctx,
                seen,
            );
            assert(candidate_result(eval, self, ctx, final_pass, *candidate, out));
        }
        r
    }

    /// Resolves a list of candidates: the first one that resolves gives the value.
    ///
    /// Each candidate is resolved against a report of its own. What the chosen candidate
    /// emitted is moved into `report`; what the candidates before it emitted is dropped. Where
    /// none resolves, a final pass moves what the last candidate emitted into `report`; any
    /// other pass leaves `report` as it was.
    pub fn resolve_rule_invokation_candidates<F>(
        &self,
        eval: &F,
        report: &mut Report,
        invokation: &Invokation<E>,
        candidates: &Vec<RuleInvokationCandidate<E>>,
        final_pass: bool,
    ) -> (r: Result<Value, ()>) where F: Fn(&E, &EvalContext, &State<E>, &Context, bool) -> Evaluation
        requires
            valid_candidates(self.rulesets@, *candidates),
            self.valid_ctx(&invokation.ctx),
            accepts_all(eval, self),
        ensures
            exists|out: Outcome|
                {
                    &&& #[trigger] candidates_result(
                        eval,
                        self,
                        &invokation.ctx,
                        final_pass,
                        *candidates,
                        out,
                    )
                    &&& datum_of(r) == out.value
                    &&& final(report)@ == old(report)@.with_entries(out.emitted)
                },
        decreases candidates, 1int,
    {
        let ctx = &invokation.ctx;
        let mut last_report = Report::new();
        let ghost mut last = silent_failure();
        let mut i: usize = 0;
        while i < candidates.len()
            invariant
                i <= candidates.len(),
                valid_candidates(self.rulesets@, *candidates),
                self.valid_ctx(ctx),
                accepts_all(eval, self),
                ctx == &invokation.ctx,
                *report == *old(report),
                last.value == Err::<Datum, ()>(()),
                last_report@.messages == last.emitted,
                forall|out: Outcome| #[trigger]
                    candidates_result_from(
                        eval,
                        self,
                        ctx,
                        final_pass,
                        *candidates,
                        i as int,
                        last,
                        out,
                    ) ==> candidates_result(eval, self, ctx, final_pass, *candidates, out),
            decreases candidates.len() - i,
        {
            let ghost before = last;
            let mut candidate_report = Report::new();
            let resolved = self.resolve_rule_invokation_candidate(
                eval,
                &mut candidate_report,
                invokation,
                &candidates[i],
                final_pass,
            );
            let ghost c = choose|out: Outcome|
                {
                    &&& #[trigger] candidate_result(
                        eval,
                        self,
                        ctx,
                        final_pass,
                        candidates[i as int],
                        out,
                    )
                    &&& datum_of(resolved) == out.value
                    &&& candidate_report@ == Transcript::empty().with_entries(out.emitted)
                };
            proof {
                lemma_nested_under_nothing(c.emitted);
                assert(candidate_report@.messages =~= c.emitted);
            }
            match resolved {
                Ok(value) => {
                    candidate_report.transfer_to(report);
                    proof {
                        lemma_candidates_step(
                            eval,
                            self,
                            ctx,
                            final_pass,
                            *candidates,
                            i as int,
                            before,
                            c,
                            c,
                        );
                        assert(candidates_result(eval, self, ctx, final_pass, *candidates, c));
                    }
                    return Ok(value);
                },
                Err(_) => {
                    last_report = candidate_report;
                    proof {
                        last = c;
                        assert forall|out: Outcome| #[trigger]
                            candidates_result_from(
                                eval,
                                self,
                                ctx,
                                final_pass,
                                *candidates,
                                i + 1,
                                c,
                                out,
                            ) implies candidates_result(
                            eval,
                            self,
                            ctx,
                            final_pass,
                            *candidates,
                            out,
                        ) by {
                            lemma_candidates_step(
                                eval,
                                self,
                                ctx,
                                final_pass,
                                *candidates,
                                i as int,
                                before,
                                c,
                                out,
                            );
                        }
                    }
                },
            }
            i = i + 1;
        }
        proof {
            lemma_candidates_exhausted(eval, self, ctx, final_pass, *candidates, i as int, last);
        }
        if final_pass {
            last_report.transfer_to(report);
            proof {
                assert(candidates_result(eval, self, ctx, final_pass, *candidates, last));
            }
        } else {
            proof {
                lemma_with_no_entries(old(report)@);
                assert(candidates_result(eval, self, ctx, final_pass, *candidates, silent_failure()));
            }
        }
        Err(())
    }

    /// Resolves an instruction: the first of its candidates that resolves gives the value.
    pub fn resolve_rule_invokation<F>(
        &self,
        eval: &F,
        report: &mut Report,
        invokation: &Invokation<E>,
        final_pass: bool,
    ) -> (r: Result<Value, ()>) where F: Fn(&E, &EvalContext, &State<E>, &Context, bool) -> Evaluation
        requires
            invokation.kind is Rule,
            valid_candidates(self.rulesets@, invokation.kind->Rule_0.candidates),
            self.valid_ctx(&invokation.ctx),
            accepts_all(eval, self),
        ensures
            exists|out: Outcome|
                {
                    &&& #[trigger] candidates_result(
                        eval,
                        self,
                        &invokation.ctx,
                        final_pass,
                        invokation.kind->Rule_0.candidates,
                        out,
                    )
                    &&& datum_of(r) == out.value
                    &&& final(report)@ == old(report)@.with_entries(out.emitted)
                },
    {
        match &invokation.kind {
            InvokationKind::Rule(rule_invok) => self.resolve_rule_invokation_candidates(
                eval,
                report,
                invokation,
                &rule_invok.candidates,
                final_pass,
            ),
            InvokationKind::Data(_) => Err(()),
        }
    }
}


/// How an invokation is called in diagnostics: an instruction, or an expression.
pub open spec fn kind_name<E>(invok: &Invokation<E>) -> Seq<char> {
    match invok.kind {
        InvokationKind::Rule(_) => "instruction"@,
        InvokationKind::Data(_) => "expression"@,
    }
}

/// The heading under which the diagnostics of an invokation's resolution stand.
pub open spec fn resolution_heading<E>(invok: &Invokation<E>) -> Notice {
    Notice {
        kind: MessageKind::Error,
        descr: match invok.kind {
            InvokationKind::Rule(_) => "failed to resolve instruction"@,
            InvokationKind::Data(_) => "failed to resolve data element"@,
        },
        span: Some(invok.span@),
    }
}

/// Why a resolved value cannot be written into the bits reserved for it, if it cannot: it is
/// no integer, it has no width, or its width is not the width that was reserved.
pub open spec fn placement_error(value: Datum, size_guess: usize, name: Seq<char>) -> Option<
    Seq<char>,
> {
    match value {
        Datum::Integer(n) => match n.size {
            Some(size) => if size == size_guess {
                None
            } else {
                Some(name + " size did not converge after iterations"@)
            },
            None => Some("cannot infer size of "@ + name),
        },
        _ => Some("wrong type returned from "@ + name),
    }
}

/// The bank's bits after the resolved value of an invokation had its turn: written at the
/// invokation's bit offset where it can be placed, as they were where it cannot.
pub open spec fn placed_bits<E>(bits: Seq<bool>, invok: &Invokation<E>, value: Datum) -> Seq<bool> {
    match placement_error(value, invok.size_guess, kind_name(invok)) {
        None => overlay(bits, invok.ctx.bit_offset as int, written_bits(value->Integer_0)),
        Some(_) => bits,
    }
}

/// What placing the resolved value of an invokation emits: nothing, or the one error that says
/// why it cannot be placed.
pub open spec fn placement_entries<E>(invok: &Invokation<E>, value: Datum) -> Seq<Entry> {
    match placement_error(value, invok.size_guess, kind_name(invok)) {
        None => Seq::empty(),
        Some(text) => seq![plain_error(text, Some(invok.span@))],
    }
}

/// Writes the resolved value of an invokation into the bank's bits, or reports why it cannot
/// be written.
pub fn place_resolved<E>(
    bitvec: &mut BitVec,
    report: &mut Report,
    invok: &Invokation<E>,
    resolved: &Value,
)
    requires
        invok.ctx.bit_offset + invok.size_guess < usize::MAX,
    ensures
        final(bitvec)@ == placed_bits(old(bitvec)@, invok, resolved@),
        final(report)@ == old(report)@.with_entries(placement_entries(invok, resolved@)),
{
    let mut descr = String::new();
    match resolved {
        Value::Integer(bigint) => match bigint.size {
            Some(size) => {
                if size == invok.size_guess {
                    bitvec.write_bigint(invok.ctx.bit_offset, bigint);
                    proof {
                        lemma_with_no_entries(old(report)@);
                    }
                    return ;
                }
                append_kind_name(&mut descr, invok);
                descr.append(" size did not converge after iterations");
            },
            None => {
                descr.append("cannot infer size of ");
                append_kind_name(&mut descr, invok);
            },
        },
        _ => {
            descr.append("wrong type returned from ");
            append_kind_name(&mut descr, invok);
        },
    }
    report.error_span(descr.as_str(), &invok.span);
    proof {
        let text = placement_error(resolved@, invok.size_guess, kind_name(invok)).unwrap();
        assert(descr@ =~= text);
        lemma_with_error(old(report)@, text, Some(invok.span@));
    }
}

/// Appends the name by which diagnostics call an invokation.
pub fn append_kind_name<E>(descr: &mut String, invok: &Invokation<E>)
    ensures
        final(descr)@ == old(descr)@ + kind_name(invok),
{
    match &invok.kind {
        InvokationKind::Rule(_) => {
            descr.append("instruction");
        },
        InvokationKind::Data(_) => {
            descr.append("expression");
        },
    }
}

/// Whether `out` is a possible outcome of resolving the invokation `invok` in a final pass:
/// for an instruction an outcome of its candidates, for a data element the outcome of its
/// expression, fitted to the directive's width.
pub open spec fn invokation_result<
    E,
    F: Fn(&E, &EvalContext, &State<E>, &Context, bool) -> Evaluation,
>(eval: &F, state: &State<E>, invok: &Invokation<E>, out: Outcome) -> bool {
    match invok.kind {
        InvokationKind::Rule(rule_invok) => candidates_result(
            eval,
            state,
            &invok.ctx,
            true,
            rule_invok.candidates,
            out,
        ),
        InvokationKind::Data(data_invok) => exists|locals: EvalContext, ev: Evaluation|
            {
                &&& locals@ == Map::<Seq<char>, Datum>::empty()
                &&& #[trigger] call_ensures(
                    eval,
                    (&data_invok.expr, &locals, state, &invok.ctx, true),
                    ev,
                )
                &&& out == data_outcome(ev@, data_invok.elem_size, data_invok.span@)
            },
    }
}

/// What resolving a bank gives: its bits or a failure, and the entries emitted.
pub struct BankOutcome {
    pub bits: Result<Seq<bool>, ()>,
    pub emitted: Seq<Entry>,
}

/// What a resolved bank stands for.
pub open spec fn bits_of(r: Result<BitVec, ()>) -> Result<Seq<bool>, ()> {
    match r {
        Ok(bitvec) => Ok(bitvec@),
        Err(_) => Err(()),
    }
}

/// Whether `out` is a possible outcome of resolving the invokations of `bank` from position
/// `i` on, when those before it left the bits `bits` and emitted `emitted`.
///
/// The invokations are resolved in order, each in a final pass and under its heading. One
/// that fails ends the bank with a failure. The value of one that resolves is placed, and
/// what cannot be placed is reported, which does not end the bank.
pub open spec fn bank_result_from<
    E,
    F: Fn(&E, &EvalContext, &State<E>, &Context, bool) -> Evaluation,
>(
    eval: &F,
    state: &State<E>,
    bank: &BankData<E>,
    i: int,
    bits: Seq<bool>,
    emitted: Seq<Entry>,
    out: BankOutcome,
) -> bool
    decreases bank.invokations.len() - i,
{
    if i < 0 {
        false
    } else if i >= bank.invokations.len() {
        out == BankOutcome { bits: Ok(bits), emitted }
    } else {
        let invok = &bank.invokations[i];
        exists|r: Outcome|
            {
                &&& #[trigger] witnessed(r)
                &&& invokation_result(eval, state, invok, r)
                &&& match r.value {
                    Ok(value) => bank_result_from(
                        eval,
                        state,
                        bank,
                        i + 1,
                        placed_bits(bits, invok, value),
                        emitted + nested_all(seq![resolution_heading(invok)], r.emitted)
                            + placement_entries(invok, value),
                        out,
                    ),
                    Err(_) => out == BankOutcome {
                        bits: Err(()),
                        emitted: emitted + nested_all(seq![resolution_heading(invok)], r.emitted),
                    },
                }
            }
    }
}

/// Whether `out` is a possible outcome of resolving the bank `bank`.
pub open spec fn bank_result<E, F: Fn(&E, &EvalContext, &State<E>, &Context, bool) -> Evaluation>(
    eval: &F,
    state: &State<E>,
    bank: &BankData<E>,
    out: BankOutcome,
) -> bool {
    bank_result_from(eval, state, bank, 0, Seq::empty(), Seq::empty(), out)
}

/// One invokation leads on from any of its outcomes.
pub proof fn lemma_bank_step<E, F: Fn(&E, &EvalContext, &State<E>, &Context, bool) -> Evaluation>(
    eval: &F,
    state: &State<E>,
    bank: &BankData<E>,
    i: int,
    bits: Seq<bool>,
    emitted: Seq<Entry>,
    r: Outcome,
    out: BankOutcome,
)
    requires
        0 <= i < bank.invokations.len(),
        invokation_result(eval, state, &bank.invokations[i], r),
        match r.value {
            Ok(value) => bank_result_from(
                eval,
                state,
                bank,
                i + 1,
                placed_bits(bits, &bank.invokations[i], value),
                emitted + nested_all(seq![resolution_heading(&bank.invokations[i])], r.emitted)
                    + placement_entries(&bank.invokations[i], value),
                out,
            ),
            Err(_) => out == BankOutcome {
                bits: Err(()),
                emitted: emitted + nested_all(
                    seq![resolution_heading(&bank.invokations[i])],
                    r.emitted,
                ),
            },
        },
    ensures
        bank_result_from(eval, state, bank, i, bits, emitted, out),
{
    assert(witnessed(r));
}

impl<E> State<E> {
    /// Resolves one invokation in a final pass, under its heading: what the resolution emits
    /// comes to stand in `report` under "failed to resolve instruction" or "failed to resolve
    /// data element".
    pub fn resolve_invokation<F>(&self, eval: &F, report: &mut Report, invok: &Invokation<E>) -> (r:
        Result<Value, ()>) where F: Fn(&E, &EvalContext, &State<E>, &Context, bool) -> Evaluation
        requires
            self.valid_invokation(invok),
            accepts_all(eval, self),
        ensures
            exists|out: Outcome|
                {
                    &&& #[trigger] witnessed(out)
                    &&& invokation_result(eval, self, invok, out)
                    &&& datum_of(r) == out.value
                    &&& final(report)@ == old(report)@.with_entries(
                        nested_all(seq![resolution_heading(invok)], out.emitted),
                    )
                },
    {
        let ghost out: Outcome;
        let ghost inside: Transcript;
        let r = match &invok.kind {
            InvokationKind::Rule(_) => {
                report.push_parent("failed to resolve instruction", &invok.span);
                proof {
                    inside = report@;
                }
                let r = self.resolve_rule_invokation(eval, report, invok, true);
                proof {
                    out = choose|out: Outcome|
                        {
                            &&& #[trigger] candidates_result(
                                eval,
                                self,
                                &invok.ctx,
                                true,
                                invok.kind->Rule_0.candidates,
                                out,
                            )
                            &&& datum_of(r) == out.value
                            &&& report@ == inside.with_entries(out.emitted)
                        };
                }
                r
            },
            InvokationKind::Data(_) => {
                report.push_parent("failed to resolve data element", &invok.span);
                proof {
                    inside = report@;
                }
                let r = self.resolve_data_invokation(eval, report, invok, true);
                proof {
                    let (locals, ev) = choose|locals: EvalContext, ev: Evaluation|
                        {
                            &&& locals@ == Map::<Seq<char>, Datum>::empty()
                            &&& #[trigger] call_ensures(
                                eval,
                                (&invok.kind->Data_0.expr, &locals, self, &invok.ctx, true),
                                ev,
                            )
                            &&& datum_of(r) == data_outcome(
                                ev@,
                                invok.kind->Data_0.elem_size,
                                invok.kind->Data_0.span@,
                            ).value
                            &&& report@ == inside.with_entries(
                                data_outcome(
                                    ev@,
                                    invok.kind->Data_0.elem_size,
                                    invok.kind->Data_0.span@,
                                ).emitted,
                            )
                        };
                    out = data_outcome(ev@, invok.kind->Data_0.elem_size, invok.kind->Data_0.span@);
                }
                r
            },
        };
        report.pop_parent();
        proof {
            assert(inside.parents.drop_last() =~= old(report)@.parents);
            lemma_with_entries_in_scope(old(report)@, resolution_heading(invok), out.emitted);
            assert(witnessed(out));
        }
        r
    }

    /// Resolves what a bank holds into the bank's bits.
    ///
    /// The invokations are resolved in the order of the source, each in a final pass. A value
    /// whose width is the width reserved for it is written at the invokation's bit offset;
    /// any other value is reported. A resolution that fails ends the bank with a failure.
    pub fn resolve_bankdata<F>(&self, eval: &F, report: &mut Report, bank: &BankData<E>) -> (r: Result<
        BitVec,
        (),
    >) where F: Fn(&E, &EvalContext, &State<E>, &Context, bool) -> Evaluation
        requires
            self.valid_bankdata(bank),
            accepts_all(eval, self),
        ensures
            exists|out: BankOutcome|
                {
                    &&& #[trigger] bank_result(eval, self, bank, out)
                    &&& bits_of(r) == out.bits
                    &&& final(report)@ == old(report)@.with_entries(out.emitted)
                },
    {
        let mut bitvec = BitVec::new();
        let ghost mut emitted: Seq<Entry> = Seq::empty();
        proof {
            lemma_with_no_entries(old(report)@);
        }
        let mut i: usize = 0;
        while i < bank.invokations.len()
            invariant
                i <= bank.invokations.len(),
                self.valid_bankdata(bank),
                accepts_all(eval, self),
                report@ == old(report)@.with_entries(emitted),
                forall|out: BankOutcome| #[trigger]
                    bank_result_from(eval, self, bank, i as int, bitvec@, emitted, out)
                        ==> bank_result(eval, self, bank, out),
            decreases bank.invokations.len() - i,
        {
            let invok = &bank.invokations[i];
            let ghost bits = bitvec@;
            let ghost before = emitted;
            assert(self.valid_invokation(&bank.invokations[i as int]));
            let resolved = self.resolve_invokation(eval, report, invok);
            let ghost out = choose|out: Outcome|
                {
                    &&& #[trigger] witnessed(out)
                    &&& invokation_result(eval, self, invok, out)
                    &&& datum_of(resolved) == out.value
                    &&& report@ == old(report)@.with_entries(before).with_entries(
                        nested_all(seq![resolution_heading(invok)], out.emitted),
                    )
                };
            let ghost under = nested_all(seq![resolution_heading(invok)], out.emitted);
            proof {
                lemma_with_entries_twice(old(report)@, before, under);
            }
            match resolved {
                Err(_) => {
                    proof {
                        let failed = BankOutcome { bits: Err(()), emitted: before + under };
                        lemma_bank_step(eval, self, bank, i as int, bits, before, out, failed);
                        assert(bank_result(eval, self, bank, failed));
                    }
                    return Err(());
                },
                Ok(value) => {
                    place_resolved(&mut bitvec, report, invok, &value);
                    proof {
                        let placed = placement_entries(invok, value@);
                        lemma_with_entries_twice(old(report)@, before + under, placed);
                        emitted = before + under + placed;
                        assert forall|o: BankOutcome| #[trigger]
                            bank_result_from(eval, self, bank, i + 1, bitvec@, emitted, o) implies bank_result(
                            eval,
                            self,
                            bank,
                            o,
                        ) by {
                            lemma_bank_step(eval, self, bank, i as int, bits, before, out, o);
                        }
                    }
                },
            }
            i = i + 1;
        }
        proof {
            let done = BankOutcome { bits: Ok(bitvec@), emitted };
            assert(bank_result_from(eval, self, bank, i as int, bitvec@, emitted, done));
        }
        Ok(bitvec)
    }
}


} // verus!
