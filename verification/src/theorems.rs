use vstd::prelude::*;
use crate::assembler::{
    assemble_result_from, banks_result_from, end_of_banks, fits_image, image_of, image_with,
    out_of_range_text, parse_result_from, parser_total, pass_result, witnessed_bank,
    witnessed_image, witnessed_parse, witnessed_pass, Assembly, ImageOutcome, ParseOutcome,
    Parsed, PassEnd, PassOutcome,
};
use crate::bank::layouts;
use crate::diagn::{any_error, plain_error, Entry};
use crate::eval::{EvalContext, Evaluation, Outcome};
use crate::resolve::{
    bank_result, candidate_result, candidates_result, candidates_result_from, silent_failure,
    witnessed, BankOutcome,
};
use crate::rule::RuleInvokationCandidate;
use crate::state::{Context, State};
use crate::symbols::SymbolManager;

verus! {

/// From position `j` on, a candidate at or before `k` that cannot fail decides the list.
pub proof fn lemma_preference_from<
    E,
    F: Fn(&E, &EvalContext, &State<E>, &Context, bool) -> Evaluation,
>(
    eval: &F,
    state: &State<E>,
    ctx: &Context,
    final_pass: bool,
    cands: Vec<RuleInvokationCandidate<E>>,
    j: int,
    k: int,
    last: Outcome,
    out: Outcome,
) -> (chosen: int)
    requires
        0 <= j <= k < cands.len(),
        forall|c: Outcome|
            candidate_result(eval, state, ctx, final_pass, cands[k], c) ==> c.value.is_ok(),
        candidates_result_from(eval, state, ctx, final_pass, cands, j, last, out),
    ensures
        j <= chosen <= k,
        out.value.is_ok(),
        candidate_result(eval, state, ctx, final_pass, cands[chosen], out),
    decreases k - j,
{
    let c = choose|c: Outcome|
        {
            &&& #[trigger] witnessed(c)
            &&& candidate_result(eval, state, ctx, final_pass, cands[j], c)
            &&& if c.value.is_ok() {
                out == c
            } else {
                candidates_result_from(eval, state, ctx, final_pass, cands, j + 1, c, out)
            }
        };
    if c.value.is_ok() {
        j
    } else {
        lemma_preference_from(eval, state, ctx, final_pass, cands, j + 1, k, c, out)
    }
}

/// An earlier candidate is preferred: where the candidate at `k` resolves whatever happens,
/// the list resolves, and its outcome is, value and diagnostics, the outcome of one candidate
/// at or before `k`. Nothing that another candidate emitted is part of it. With `k` zero: the
/// first candidate is chosen and its diagnostics are kept, whatever the later ones would give.
pub proof fn lemma_earlier_candidate_is_chosen<
    E,
    F: Fn(&E, &EvalContext, &State<E>, &Context, bool) -> Evaluation,
>(
    eval: &F,
    state: &State<E>,
    ctx: &Context,
    final_pass: bool,
    cands: Vec<RuleInvokationCandidate<E>>,
    k: int,
    out: Outcome,
)
    requires
        0 <= k < cands.len(),
        forall|c: Outcome|
            candidate_result(eval, state, ctx, final_pass, cands[k], c) ==> c.value.is_ok(),
        candidates_result(eval, state, ctx, final_pass, cands, out),
    ensures
        out.value.is_ok(),
        exists|chosen: int|
            0 <= chosen <= k && #[trigger] candidate_result(
                eval,
                state,
                ctx,
                final_pass,
                cands[chosen],
                out,
            ),
{
    let chosen = lemma_preference_from(
        eval,
        state,
        ctx,
        final_pass,
        cands,
        0,
        k,
        silent_failure(),
        out,
    );
}

/// From position `j` on, a list that fails in a final pass fails as its last candidate does.
pub proof fn lemma_last_candidate_from<
    E,
    F: Fn(&E, &EvalContext, &State<E>, &Context, bool) -> Evaluation,
>(
    eval: &F,
    state: &State<E>,
    ctx: &Context,
    cands: Vec<RuleInvokationCandidate<E>>,
    j: int,
    last: Outcome,
    out: Outcome,
)
    requires
        cands.len() > 0,
        0 <= j <= cands.len(),
        j > 0 ==> candidate_result(eval, state, ctx, true, cands[j - 1], last),
        candidates_result_from(eval, state, ctx, true, cands, j, last, out),
        out.value.is_err(),
    ensures
        candidate_result(eval, state, ctx, true, cands[cands.len() - 1], out),
    decreases cands.len() - j,
{
    if j < cands.len() {
        let c = choose|c: Outcome|
            {
                &&& #[trigger] witnessed(c)
                &&& candidate_result(eval, state, ctx, true, cands[j], c)
                &&& if c.value.is_ok() {
                    out == c
                } else {
                    candidates_result_from(eval, state, ctx, true, cands, j + 1, c, out)
                }
            };
        lemma_last_candidate_from(eval, state, ctx, cands, j + 1, c, out);
    }
}

/// The last candidate speaks for a list that fails: where no candidate of a list resolves in
/// a final pass, the outcome of the list is the outcome of its last candidate, so that the
/// diagnostics reported are those of the last candidate and no others.
pub proof fn lemma_last_candidate_reports<
    E,
    F: Fn(&E, &EvalContext, &State<E>, &Context, bool) -> Evaluation,
>(
    eval: &F,
    state: &State<E>,
    ctx: &Context,
    cands: Vec<RuleInvokationCandidate<E>>,
    out: Outcome,
)
    requires
        cands.len() > 0,
        candidates_result(eval, state, ctx, true, cands, out),
        out.value.is_err(),
    ensures
        candidate_result(eval, state, ctx, true, cands[cands.len() - 1], out),
{
    lemma_last_candidate_from(eval, state, ctx, cands, 0, silent_failure(), out);
}

/// From position `j` on, a list that fails in a pass that is not final fails without a word.
pub proof fn lemma_silent_from<E, F: Fn(&E, &EvalContext, &State<E>, &Context, bool) -> Evaluation>(
    eval: &F,
    state: &State<E>,
    ctx: &Context,
    cands: Vec<RuleInvokationCandidate<E>>,
    j: int,
    last: Outcome,
    out: Outcome,
)
    requires
        0 <= j <= cands.len(),
        candidates_result_from(eval, state, ctx, false, cands, j, last, out),
        out.value.is_err(),
    ensures
        out == silent_failure(),
    decreases cands.len() - j,
{
    if j < cands.len() {
        let c = choose|c: Outcome|
            {
                &&& #[trigger] witnessed(c)
                &&& candidate_result(eval, state, ctx, false, cands[j], c)
                &&& if c.value.is_ok() {
                    out == c
                } else {
                    candidates_result_from(eval, state, ctx, false, cands, j + 1, c, out)
                }
            };
        lemma_silent_from(eval, state, ctx, cands, j + 1, c, out);
    }
}

/// While passes remain, a list of candidates that fails emits nothing, whatever its
/// candidates emitted.
pub proof fn lemma_failure_is_silent_before_final_pass<
    E,
    F: Fn(&E, &EvalContext, &State<E>, &Context, bool) -> Evaluation,
>(
    eval: &F,
    state: &State<E>,
    ctx: &Context,
    cands: Vec<RuleInvokationCandidate<E>>,
    out: Outcome,
)
    requires
        candidates_result(eval, state, ctx, false, cands, out),
        out.value.is_err(),
    ensures
        out == silent_failure(),
{
    lemma_silent_from(eval, state, ctx, cands, 0, silent_failure(), out);
}

/// Whether `bits` are the bits of a possible outcome of resolving bank `b` of `state`.
pub open spec fn is_bank_output<E, F: Fn(&E, &EvalContext, &State<E>, &Context, bool) -> Evaluation>(
    eval: &F,
    state: &State<E>,
    b: int,
    bits: Seq<bool>,
) -> bool {
    exists|o: BankOutcome|
        {
            &&& #[trigger] witnessed_bank(o)
            &&& bank_result(eval, state, &state.bankdata[b], o)
            &&& o.bits == Ok::<Seq<bool>, ()>(bits)
        }
}

/// Whether `outputs` holds, for each of the first `n` banks of `state`, the bits of a possible
/// outcome of resolving that bank.
pub open spec fn are_bank_outputs<
    E,
    F: Fn(&E, &EvalContext, &State<E>, &Context, bool) -> Evaluation,
>(eval: &F, state: &State<E>, outputs: Seq<Seq<bool>>, n: int) -> bool {
    &&& outputs.len() == n
    &&& forall|b: int| 0 <= b < n ==> #[trigger] is_bank_output(eval, state, b, outputs[b])
}

/// From bank `b` on, an image that comes about is the image of the banks and their outputs.
pub proof fn lemma_image_from<E, F: Fn(&E, &EvalContext, &State<E>, &Context, bool) -> Evaluation>(
    eval: &F,
    state: &State<E>,
    b: int,
    image: Seq<bool>,
    emitted: Seq<Entry>,
    out: ImageOutcome,
    before: Seq<Seq<bool>>,
) -> (outputs: Seq<Seq<bool>>)
    requires
        state.wf(),
        0 <= b <= state.banks.len(),
        banks_result_from(eval, state, b, image, emitted, out),
        out.image.is_some(),
        are_bank_outputs(eval, state, before, b),
        image == image_of(layouts(state.banks@).take(b), before),
    ensures
        are_bank_outputs(eval, state, outputs, state.banks.len() as int),
        out.image == Some(image_of(layouts(state.banks@), outputs)),
    decreases state.banks.len() - b,
{
    let all = layouts(state.banks@);
    if b >= state.banks.len() {
        assert(all.take(b) == all);
        before
    } else {
        let o = choose|o: BankOutcome|
            {
                &&& #[trigger] witnessed_bank(o)
                &&& bank_result(eval, state, &state.bankdata[b], o)
                &&& if any_error(emitted + o.emitted) || o.bits.is_err() {
                    out == (ImageOutcome { image: None, emitted: emitted + o.emitted })
                } else if !fits_image(state.banks[b]@, o.bits.unwrap().len()) {
                    out == (ImageOutcome {
                        image: None,
                        emitted: (emitted + o.emitted).push(
                            plain_error(
                                out_of_range_text(),
                                state.banks[b]@.decl_span,
                            ),
                        ),
                    })
                } else {
                    banks_result_from(
                        eval,
                        state,
                        b + 1,
                        image_with(image, state.banks[b]@, o.bits.unwrap()),
                        emitted + o.emitted,
                        out,
                    )
                }
            };
        let bits = o.bits.unwrap();
        let now = before.push(bits);
        assert(all.take(b + 1).drop_last() == all.take(b));
        assert(all.take(b + 1).last() == state.banks[b]@);
        assert(now.drop_last() == before);
        assert forall|i: int| 0 <= i < b + 1 implies #[trigger] is_bank_output(
            eval,
            state,
            i,
            now[i],
        ) by {
            if i < b {
                assert(now[i] == before[i]);
                assert(is_bank_output(eval, state, i, before[i]));
            } else {
                assert(witnessed_bank(o));
            }
        }
        lemma_image_from(
            eval,
            state,
            b + 1,
            image_with(image, state.banks[b]@, bits),
            emitted + o.emitted,
            out,
            now,
        )
    }
}

/// Where the banks of a state give an image, there is for each bank an outcome of resolving
/// it such that the image is what comes of laying the bits of these outcomes over one
/// another, each at its bank's output offset times the bank's word size, in the order of the
/// banks.
pub proof fn lemma_image_is_banks_laid_out<
    E,
    F: Fn(&E, &EvalContext, &State<E>, &Context, bool) -> Evaluation,
>(eval: &F, state: &State<E>, emitted: Seq<Entry>, out: ImageOutcome) -> (outputs: Seq<Seq<bool>>)
    requires
        state.wf(),
        banks_result_from(eval, state, 0, Seq::empty(), emitted, out),
        out.image.is_some(),
    ensures
        are_bank_outputs(eval, state, outputs, state.banks.len() as int),
        out.image == Some(image_of(layouts(state.banks@), outputs)),
{
    let all = layouts(state.banks@);
    assert(all.take(0) =~= Seq::empty());
    lemma_image_from(eval, state, 0, Seq::empty(), emitted, out, Seq::empty())
}

/// A parser that keeps states resolvable leaves a resolvable state after any number of files.
pub proof fn lemma_parsed_state_is_resolvable<E, P: Fn(State<E>, &String) -> Parsed<E>>(
    parse: &P,
    files: Seq<String>,
    k: int,
    state: State<E>,
    emitted: Seq<Entry>,
    out: ParseOutcome<E>,
)
    requires
        parser_total(parse),
        state.resolvable(),
        parse_result_from(parse, files, k, state, emitted, out),
    ensures
        out.state.resolvable(),
    decreases files.len() - k,
{
    if 0 <= k < files.len() {
        let parsed = choose|parsed: Parsed<E>|
            {
                &&& #[trigger] call_ensures(parse, (state, &files[k]), parsed)
                &&& if any_error(emitted + parsed.report@.messages)
                    || parsed.result.is_err() {
                    out == (ParseOutcome {
                        state: parsed.state,
                        ok: false,
                        emitted: emitted + parsed.report@.messages,
                    })
                } else {
                    parse_result_from(
                        parse,
                        files,
                        k + 1,
                        parsed.state,
                        emitted + parsed.report@.messages,
                        out,
                    )
                }
            };
        if !(any_error(emitted + parsed.report@.messages) || parsed.result.is_err()) {
            lemma_parsed_state_is_resolvable(
                parse,
                files,
                k + 1,
                parsed.state,
                emitted + parsed.report@.messages,
                out,
            );
        }
    }
}

/// The image of a pass is bit-exact: it is the image of the banks of the state that the pass
/// left and of outputs that resolving these banks can give.
pub proof fn lemma_pass_image_is_banks_laid_out<
    E,
    P: Fn(State<E>, &String) -> Parsed<E>,
    F: Fn(&E, &EvalContext, &State<E>, &Context, bool) -> Evaluation,
>(
    parse: &P,
    eval: &F,
    files: Seq<String>,
    guesses: SymbolManager,
    pass: PassOutcome<E>,
    bits: Seq<bool>,
) -> (outputs: Seq<Seq<bool>>)
    requires
        parser_total(parse),
        pass_result(parse, eval, files, guesses, pass),
        pass.end == PassEnd::Image(bits),
    ensures
        pass.state.resolvable(),
        are_bank_outputs(eval, &pass.state, outputs, pass.state.banks.len() as int),
        bits == image_of(layouts(pass.state.banks@), outputs),
{
    let (start, parsed) = choose|start: State<E>, parsed: ParseOutcome<E>|
        {
            &&& #[trigger] witnessed_parse(start, parsed)
            &&& start.is_fresh()
            &&& start.symbol_guesses == guesses
            &&& parse_result_from(parse, files, 0, start, Seq::empty(), parsed)
            &&& if !parsed.ok {
                pass == (PassOutcome {
                    end: PassEnd::Failed,
                    emitted: parsed.emitted,
                    state: parsed.state,
                })
            } else {
                exists|banks: ImageOutcome|
                    {
                        &&& #[trigger] witnessed_image(banks)
                        &&& banks_result_from(
                            eval,
                            &parsed.state,
                            0,
                            Seq::empty(),
                            parsed.emitted,
                            banks,
                        )
                        &&& pass == (PassOutcome {
                            end: end_of_banks(banks.image),
                            emitted: banks.emitted,
                            state: parsed.state,
                        })
                    }
            }
        };
    let banks = choose|banks: ImageOutcome|
        {
            &&& #[trigger] witnessed_image(banks)
            &&& banks_result_from(eval, &parsed.state, 0, Seq::empty(), parsed.emitted, banks)
            &&& pass == (PassOutcome {
                end: end_of_banks(banks.image),
                emitted: banks.emitted,
                state: parsed.state,
            })
        };
    assert(layouts(start.banks@).len() == 1);
    assert(start.resolvable());
    lemma_parsed_state_is_resolvable(parse, files, 0, start, Seq::empty(), parsed);
    lemma_image_is_banks_laid_out(eval, &parsed.state, parsed.emitted, banks)
}

/// The output is bit-exact: where an assembly gives an image, the image is what comes of
/// laying the bits of the banks of its last pass over one another, each at its bank's output
/// offset times the bank's word size, in the order of the banks; and these bits are bits that
/// resolving the banks can give.
pub proof fn lemma_assembled_image_is_banks_laid_out<
    E,
    P: Fn(State<E>, &String) -> Parsed<E>,
    F: Fn(&E, &EvalContext, &State<E>, &Context, bool) -> Evaluation,
>(
    parse: &P,
    eval: &F,
    files: Seq<String>,
    guesses: SymbolManager,
    done: int,
    max: int,
    out: Assembly<E>,
) -> (outputs: Seq<Seq<bool>>)
    requires
        parser_total(parse),
        assemble_result_from(parse, eval, files, guesses, done, max, out),
        out.image.is_ok(),
    ensures
        out.state.is_some(),
        out.state.unwrap().resolvable(),
        are_bank_outputs(
            eval,
            &out.state.unwrap(),
            outputs,
            out.state.unwrap().banks.len() as int,
        ),
        out.image.unwrap() == image_of(layouts(out.state.unwrap().banks@), outputs),
    decreases max - done,
{
    let pass = choose|pass: PassOutcome<E>|
        {
            &&& #[trigger] witnessed_pass(pass)
            &&& pass_result(parse, eval, files, guesses, pass)
            &&& match pass.end {
                PassEnd::Image(b) => out == (Assembly {
                    image: Ok(b),
                    emitted: pass.emitted,
                    state: Some(pass.state),
                }),
                PassEnd::Failed => out == (Assembly {
                    image: Err(()),
                    emitted: pass.emitted,
                    state: Some(pass.state),
                }),
                PassEnd::Unresolved => if done + 1 >= max {
                    out == (Assembly {
                        image: Err(()),
                        emitted: pass.emitted,
                        state: Some(pass.state),
                    })
                } else {
                    assemble_result_from(
                        parse,
                        eval,
                        files,
                        pass.state.symbols,
                        done + 1,
                        max,
                        out,
                    )
                },
            }
        };
    match pass.end {
        PassEnd::Image(b) => lemma_pass_image_is_banks_laid_out(
            parse,
            eval,
            files,
            guesses,
            pass,
            b,
        ),
        PassEnd::Failed => Seq::empty(),
        PassEnd::Unresolved => lemma_assembled_image_is_banks_laid_out(
            parse,
            eval,
            files,
            pass.state.symbols,
            done + 1,
            max,
            out,
        ),
    }
}

/// Whether every pass over `files` is determined by the symbols it starts with: how it ends,
/// what it emits, and the symbols it hands on.
pub open spec fn passes_determined<
    E,
    P: Fn(State<E>, &String) -> Parsed<E>,
    F: Fn(&E, &EvalContext, &State<E>, &Context, bool) -> Evaluation,
>(parse: &P, eval: &F, files: Seq<String>) -> bool {
    forall|guesses: SymbolManager, a: PassOutcome<E>, b: PassOutcome<E>|
        #[trigger] pass_result(parse, eval, files, guesses, a) && #[trigger] pass_result(
            parse,
            eval,
            files,
            guesses,
            b,
        ) ==> a.end == b.end && a.emitted == b.emitted && a.state.symbols == b.state.symbols
}

/// Whether an assembly of `files` that starts with the symbols `guesses` converges in `k`
/// passes to the image `bits`: the first `k - 1` passes each leave banks unresolved and hand
/// their symbols on, and pass `k` gives the image.
pub open spec fn converges_in<
    E,
    P: Fn(State<E>, &String) -> Parsed<E>,
    F: Fn(&E, &EvalContext, &State<E>, &Context, bool) -> Evaluation,
>(parse: &P, eval: &F, files: Seq<String>, guesses: SymbolManager, k: nat, bits: Seq<bool>) -> bool
    decreases k,
{
    &&& k >= 1
    &&& exists|pass: PassOutcome<E>|
        {
            &&& #[trigger] witnessed_pass(pass)
            &&& pass_result(parse, eval, files, guesses, pass)
            &&& if k == 1 {
                pass.end == PassEnd::Image(bits)
            } else {
                &&& pass.end == PassEnd::Unresolved
                &&& converges_in(
                    parse,
                    eval,
                    files,
                    pass.state.symbols,
                    (k - 1) as nat,
                    bits,
                )
            }
        }
}

/// Convergence does not depend on the passes allowed beyond those needed: where every pass is
/// determined by the symbols it starts with and the assembly converges in `k` passes to an
/// image, an assembly that may still run `k` passes or more gives that image, and one that
/// may run fewer fails.
pub proof fn lemma_convergence_needs_k_passes<
    E,
    P: Fn(State<E>, &String) -> Parsed<E>,
    F: Fn(&E, &EvalContext, &State<E>, &Context, bool) -> Evaluation,
>(
    parse: &P,
    eval: &F,
    files: Seq<String>,
    guesses: SymbolManager,
    k: nat,
    bits: Seq<bool>,
    done: int,
    max: int,
    out: Assembly<E>,
)
    requires
        passes_determined(parse, eval, files),
        converges_in(parse, eval, files, guesses, k, bits),
        assemble_result_from(parse, eval, files, guesses, done, max, out),
    ensures
        max - done >= k ==> out.image == Ok::<Seq<bool>, ()>(bits),
        max - done < k ==> out.image.is_err(),
    decreases k,
{
    if done < max {
        let p = choose|pass: PassOutcome<E>|
            {
                &&& #[trigger] witnessed_pass(pass)
                &&& pass_result(parse, eval, files, guesses, pass)
                &&& match pass.end {
                    PassEnd::Image(b) => out == (Assembly {
                        image: Ok(b),
                        emitted: pass.emitted,
                        state: Some(pass.state),
                    }),
                    PassEnd::Failed => out == (Assembly {
                        image: Err(()),
                        emitted: pass.emitted,
                        state: Some(pass.state),
                    }),
                    PassEnd::Unresolved => if done + 1 >= max {
                        out == (Assembly {
                            image: Err(()),
                            emitted: pass.emitted,
                            state: Some(pass.state),
                        })
                    } else {
                        assemble_result_from(
                            parse,
                            eval,
                            files,
                            pass.state.symbols,
                            done + 1,
                            max,
                            out,
                        )
                    },
                }
            };
        let q = choose|pass: PassOutcome<E>|
            {
                &&& #[trigger] witnessed_pass(pass)
                &&& pass_result(parse, eval, files, guesses, pass)
                &&& if k == 1 {
                    pass.end == PassEnd::Image(bits)
                } else {
                    &&& pass.end == PassEnd::Unresolved
                    &&& converges_in(
                        parse,
                        eval,
                        files,
                        pass.state.symbols,
                        (k - 1) as nat,
                        bits,
                    )
                }
            };
        assert(p.end == q.end && p.state.symbols == q.state.symbols);
        if k > 1 && done + 1 < max {
            lemma_convergence_needs_k_passes(
                parse,
                eval,
                files,
                p.state.symbols,
                (k - 1) as nat,
                bits,
                done + 1,
                max,
                out,
            );
        }
    }
}


} // verus!
