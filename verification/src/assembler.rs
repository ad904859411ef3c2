use vstd::prelude::*;
use vstd::string::*;
use crate::bank::{wide_product, Bank, Layout};
use crate::bitvec::{overlay, BitVec};
use crate::diagn::{
    any_error, lemma_nested_under_nothing, lemma_with_error, lemma_with_no_entries, plain_error,
    Entry, Report,
};
use crate::eval::{EvalContext, Evaluation};
use crate::resolve::{accepts_all, bank_result, bits_of, BankOutcome};
use crate::state::{Context, State};
use crate::symbols::SymbolManager;

verus! {

/// The text of the error for a bank whose output would end beyond what a machine word can
/// address.
pub open spec fn out_of_range_text() -> Seq<char> {
    "bank output is out of range"@
}

/// Whether `len` bits of output of a bank end within what a machine word can address. A bank
/// without an output offset is no part of the image and always fits.
pub open spec fn fits_image(bank: Layout, len: nat) -> bool {
    match bank.output_offset {
        Some(_) => bank.output_start() + len < usize::MAX,
        None => true,
    }
}

/// The image after the output of a bank was laid over it at the bank's output offset, counted
/// in words of the bank; a bank without an output offset leaves the image as it is.
pub open spec fn image_with(image: Seq<bool>, bank: Layout, bits: Seq<bool>) -> Seq<bool> {
    match bank.output_offset {
        Some(_) => overlay(image, bank.output_start(), bits),
        None => image,
    }
}

/// The image of a list of banks and their outputs: each output laid over the image at its
/// bank's output offset, in the order of the banks.
pub open spec fn image_of(banks: Seq<Layout>, outputs: Seq<Seq<bool>>) -> Seq<bool>
    decreases banks.len(),
{
    if banks.len() == 0 || outputs.len() != banks.len() {
        Seq::empty()
    } else {
        image_with(image_of(banks.drop_last(), outputs.drop_last()), banks.last(), outputs.last())
    }
}

/// Lays the output of a bank over the image, where it fits.
pub fn place_bank_output(image: &mut BitVec, bank: &Bank, output: &BitVec) -> (placed: bool)
    ensures
        placed == fits_image(bank@, output@.len()),
        final(image)@ == if placed {
            image_with(old(image)@, bank@, output@)
        } else {
            old(image)@
        },
{
    match bank.output_offset {
        None => true,
        Some(offset) => {
            let start = wide_product(offset, bank.wordsize);
            let limit = usize::MAX;
            if start >= limit as u128 || output.len() >= limit - (start as usize) {
                return false;
            }
            image.write_bitvec(start as usize, output);
            true
        },
    }
}

/// What a parser hands back for one file: the state as the file left it, whether the file was
/// read through, and the diagnostics that parsing emitted.
#[derive(Debug)]
pub struct Parsed<E> {
    pub state: State<E>,
    pub result: Result<(), ()>,
    pub report: Report,
}

/// Whether a parser takes every file on every state that can be resolved, and leaves a state
/// that can be resolved.
pub open spec fn parser_total<E, P: Fn(State<E>, &String) -> Parsed<E>>(parse: &P) -> bool {
    &&& forall|state: State<E>, file: &String|
        state.resolvable() ==> call_requires(parse, (state, file))
    &&& forall|state: State<E>, file: &String, parsed: Parsed<E>|
        state.resolvable() && call_ensures(parse, (state, file), parsed)
            ==> parsed.state.resolvable()
}

/// Whether an evaluator accepts every expression at every position of every state.
pub open spec fn evaluator_total<
    E,
    F: Fn(&E, &EvalContext, &State<E>, &Context, bool) -> Evaluation,
>(eval: &F) -> bool {
    forall|state: &State<E>| accepts_all(eval, state)
}

/// How parsing the files of a pass ended: the state, whether all files were read through
/// without an error, and the entries emitted.
pub struct ParseOutcome<E> {
    pub state: State<E>,
    pub ok: bool,
    pub emitted: Seq<Entry>,
}

/// Whether `out` is a possible outcome of parsing `files` from position `k` on, when the
/// files before it left `state` and emitted `emitted`.
///
/// The files are parsed in order, each on the state that the one before left. Parsing ends
/// at the first file that fails or after which an error is among the entries.
pub open spec fn parse_result_from<E, P: Fn(State<E>, &String) -> Parsed<E>>(
    parse: &P,
    files: Seq<String>,
    k: int,
    state: State<E>,
    emitted: Seq<Entry>,
    out: ParseOutcome<E>,
) -> bool
    decreases files.len() - k,
{
    if k < 0 {
        false
    } else if k >= files.len() {
        out == (ParseOutcome { state, ok: true, emitted })
    } else {
        exists|parsed: Parsed<E>|
            {
                &&& #[trigger] call_ensures(parse, (state, &files[k]), parsed)
                &&& if any_error(emitted + parsed.report@.messages) || parsed.result.is_err() {
                    out == (ParseOutcome {
                        state: parsed.state,
                        ok: false,
                        emitted: emitted + parsed.report@.messages,
                    })
                } else {
                    parse_result_from(
                        parse,
                        files,
                        k + 1,
                        parsed.state,
                        emitted + parsed.report@.messages,
                        out,
                    )
                }
            }
    }
}

/// One file leads on from any outcome of parsing it.
pub proof fn lemma_parse_step<E, P: Fn(State<E>, &String) -> Parsed<E>>(
    parse: &P,
    files: Seq<String>,
    k: int,
    state: State<E>,
    emitted: Seq<Entry>,
    parsed: Parsed<E>,
    out: ParseOutcome<E>,
)
    requires
        0 <= k < files.len(),
        call_ensures(parse, (state, &files[k]), parsed),
        if any_error(emitted + parsed.report@.messages) || parsed.result.is_err() {
            out == (ParseOutcome {
                state: parsed.state,
                ok: false,
                emitted: emitted + parsed.report@.messages,
            })
        } else {
            parse_result_from(
                parse,
                files,
                k + 1,
                parsed.state,
                emitted + parsed.report@.messages,
                out,
            )
        },
    ensures
        parse_result_from(parse, files, k, state, emitted, out),
{
}

/// Parses the files of a pass, one after the other, into `state`; what the parser emits is
/// moved into `pass_report`.
pub fn parse_files<E, P>(parse: &P, files: &Vec<String>, initial: State<E>, pass_report: &mut Report) -> (r:
    (State<E>, bool)) where P: Fn(State<E>, &String) -> Parsed<E>
    requires
        parser_total(parse),
        initial.resolvable(),
        old(pass_report)@.parents.len() == 0,
    ensures
        final(pass_report)@.parents.len() == 0,
        r.0.resolvable(),
        parse_result_from(
            parse,
            files@,
            0,
            initial,
            old(pass_report)@.messages,
            ParseOutcome { state: r.0, ok: r.1, emitted: final(pass_report)@.messages },
        ),
{
    let mut state = initial;
    let mut k: usize = 0;
    while k < files.len()
        invariant
            k <= files.len(),
            parser_total(parse),
            state.resolvable(),
            pass_report@.parents.len() == 0,
            forall|out: ParseOutcome<E>| #[trigger]
                parse_result_from(parse, files@, k as int, state, pass_report@.messages, out)
                    ==> parse_result_from(
                    parse,
                    files@,
                    0,
                    initial,
                    old(pass_report)@.messages,
                    out,
                ),
        decreases files.len() - k,
    {
        let ghost before = state;
        let ghost emitted = pass_report@.messages;
        let ghost mid = pass_report@;
        let mut parsed = parse(state, &files[k]);
        let ghost seen = parsed;
        parsed.report.transfer_to(pass_report);
        proof {
            assert(mid.parents =~= Seq::empty());
            lemma_nested_under_nothing(seen.report@.messages);
            assert(pass_report@.messages == emitted + seen.report@.messages);
        }
        state = parsed.state;
        if pass_report.has_errors() || parsed.result.is_err() {
            proof {
                let out = ParseOutcome { state, ok: false, emitted: pass_report@.messages };
                lemma_parse_step(parse, files@, k as int, before, emitted, seen, out);
            }
            return (state, false);
        }
        proof {
            assert forall|out: ParseOutcome<E>| #[trigger]
                parse_result_from(
                    parse,
                    files@,
                    k + 1,
                    state,
                    pass_report@.messages,
                    out,
                ) implies parse_result_from(
                parse,
                files@,
                0,
                initial,
                old(pass_report)@.messages,
                out,
            ) by {
                lemma_parse_step(parse, files@, k as int, before, emitted, seen, out);
            }
        }
        k = k + 1;
    }
    proof {
        let out = ParseOutcome { state, ok: true, emitted: pass_report@.messages };
        assert(parse_result_from(parse, files@, k as int, state, pass_report@.messages, out));
    }
    (state, true)
}

/// How resolving the banks of a pass ended: the image, where every bank resolved without an
/// error and fits, and the entries emitted.
pub struct ImageOutcome {
    pub image: Option<Seq<bool>>,
    pub emitted: Seq<Entry>,
}

/// Holds of every outcome of a bank. It marks the outcome that a statement "there is an
/// outcome such that" speaks of, so that a proof can name one.
pub open spec fn witnessed_bank(out: BankOutcome) -> bool {
    true
}

/// Whether `out` is a possible outcome of resolving the banks of `state` from position `b`
/// on, when the banks before it gave `image` and `emitted` stands in the report of the pass.
///
/// The banks are resolved in the order of their declaration, and the bits of each are laid
/// over the image at the bank's output offset. There is no image where a bank fails, where an
/// error is among the entries after a bank, or where the output of a bank does not fit, which
/// is reported at the bank's declaration.
pub open spec fn banks_result_from<
    E,
    F: Fn(&E, &EvalContext, &State<E>, &Context, bool) -> Evaluation,
>(
    eval: &F,
    state: &State<E>,
    b: int,
    image: Seq<bool>,
    emitted: Seq<Entry>,
    out: ImageOutcome,
) -> bool
    decreases state.banks.len() - b,
{
    if b < 0 {
        false
    } else if b >= state.banks.len() {
        out == (ImageOutcome { image: Some(image), emitted })
    } else {
        exists|o: BankOutcome|
            {
                &&& #[trigger] witnessed_bank(o)
                &&& bank_result(eval, state, &state.bankdata[b], o)
                &&& if any_error(emitted + o.emitted) || o.bits.is_err() {
                    out == (ImageOutcome { image: None, emitted: emitted + o.emitted })
                } else if !fits_image(state.banks[b]@, o.bits.unwrap().len()) {
                    out == (ImageOutcome {
                        image: None,
                        emitted: (emitted + o.emitted).push(
                            plain_error(out_of_range_text(), state.banks[b]@.decl_span),
                        ),
                    })
                } else {
                    banks_result_from(
                        eval,
                        state,
                        b + 1,
                        image_with(image, state.banks[b]@, o.bits.unwrap()),
                        emitted + o.emitted,
                        out,
                    )
                }
            }
    }
}

/// One bank leads on from any of its outcomes.
pub proof fn lemma_banks_step<E, F: Fn(&E, &EvalContext, &State<E>, &Context, bool) -> Evaluation>(
    eval: &F,
    state: &State<E>,
    b: int,
    image: Seq<bool>,
    emitted: Seq<Entry>,
    o: BankOutcome,
    out: ImageOutcome,
)
    requires
        0 <= b < state.banks.len(),
        bank_result(eval, state, &state.bankdata[b], o),
        if any_error(emitted + o.emitted) || o.bits.is_err() {
            out == (ImageOutcome { image: None, emitted: emitted + o.emitted })
        } else if !fits_image(state.banks[b]@, o.bits.unwrap().len()) {
            out == (ImageOutcome {
                image: None,
                emitted: (emitted + o.emitted).push(
                    plain_error(out_of_range_text(), state.banks[b]@.decl_span),
                ),
            })
        } else {
            banks_result_from(
                eval,
                state,
                b + 1,
                image_with(image, state.banks[b]@, o.bits.unwrap()),
                emitted + o.emitted,
                out,
            )
        },
    ensures
        banks_result_from(eval, state, b, image, emitted, out),
{
    assert(witnessed_bank(o));
}

/// What an optional image stands for.
pub open spec fn image_bits(image: Option<BitVec>) -> Option<Seq<bool>> {
    match image {
        Some(bitvec) => Some(bitvec@),
        None => None,
    }
}

/// Resolves the banks of a parsed state into the image of the pass; what the resolution emits
/// is moved into `pass_report`.
pub fn resolve_banks<E, F>(eval: &F, state: &State<E>, pass_report: &mut Report) -> (r: Option<
    BitVec,
>) where F: Fn(&E, &EvalContext, &State<E>, &Context, bool) -> Evaluation
    requires
        state.resolvable(),
        accepts_all(eval, state),
        old(pass_report)@.parents.len() == 0,
    ensures
        final(pass_report)@.parents.len() == 0,
        banks_result_from(
            eval,
            state,
            0,
            Seq::empty(),
            old(pass_report)@.messages,
            ImageOutcome { image: image_bits(r), emitted: final(pass_report)@.messages },
        ),
{
    let mut full_output = BitVec::new();
    let mut b: usize = 0;
    while b < state.banks.len()
        invariant
            b <= state.banks.len(),
            state.resolvable(),
            accepts_all(eval, state),
            pass_report@.parents.len() == 0,
            forall|out: ImageOutcome| #[trigger]
                banks_result_from(eval, state, b as int, full_output@, pass_report@.messages, out)
                    ==> banks_result_from(
                    eval,
                    state,
                    0,
                    Seq::empty(),
                    old(pass_report)@.messages,
                    out,
                ),
        decreases state.banks.len() - b,
    {
        let ghost image = full_output@;
        let ghost emitted = pass_report@.messages;
        let ghost mid = pass_report@;
        assert(state.valid_bankdata(&state.bankdata[b as int]));
        let bank_output = state.resolve_bankdata(eval, pass_report, &state.bankdata[b]);
        let ghost o = choose|o: BankOutcome|
            {
                &&& #[trigger] bank_result(eval, state, &state.bankdata[b as int], o)
                &&& bits_of(bank_output) == o.bits
                &&& pass_report@ == mid.with_entries(o.emitted)
            };
        proof {
            assert(mid.parents =~= Seq::empty());
            lemma_nested_under_nothing(o.emitted);
            assert(pass_report@.messages == emitted + o.emitted);
        }
        if pass_report.has_errors() {
            proof {
                let out = ImageOutcome { image: None, emitted: pass_report@.messages };
                lemma_banks_step(eval, state, b as int, image, emitted, o, out);
            }
            return None;
        }
        match bank_output {
            Err(_) => {
                proof {
                    let out = ImageOutcome { image: None, emitted: pass_report@.messages };
                    lemma_banks_step(eval, state, b as int, image, emitted, o, out);
                }
                return None;
            },
            Ok(bits) => {
                if !place_bank_output(&mut full_output, &state.banks[b], &bits) {
                    let ghost here = pass_report@;
                    match &state.banks[b].decl_span {
                        Some(span) => {
                            pass_report.error_span("bank output is out of range", span);
                        },
                        None => {
                            pass_report.error("bank output is out of range");
                        },
                    }
                    proof {
                        let e = plain_error(out_of_range_text(), state.banks[b as int]@.decl_span);
                        lemma_with_error(here, out_of_range_text(), state.banks[b as int]@.decl_span);
                        lemma_nested_under_nothing(seq![e]);
                        assert(here.parents =~= Seq::empty());
                        assert(pass_report@.messages =~= (emitted + o.emitted).push(e));
                        assert(pass_report@.parents =~= Seq::empty());
                        let out = ImageOutcome { image: None, emitted: pass_report@.messages };
                        lemma_banks_step(eval, state, b as int, image, emitted, o, out);
                    }
                    return None;
                }
            },
        }
        proof {
            assert forall|out: ImageOutcome| #[trigger]
                banks_result_from(
                    eval,
                    state,
                    b + 1,
                    full_output@,
                    pass_report@.messages,
                    out,
                ) implies banks_result_from(
                eval,
                state,
                0,
                Seq::empty(),
                old(pass_report)@.messages,
                out,
            ) by {
                lemma_banks_step(eval, state, b as int, image, emitted, o, out);
            }
        }
        b = b + 1;
    }
    proof {
        let out = ImageOutcome { image: Some(full_output@), emitted: pass_report@.messages };
        assert(banks_result_from(eval, state, b as int, full_output@, pass_report@.messages, out));
    }
    Some(full_output)
}

/// How a pass ended: with the image, with a failure of the parser, which ends the assembly, or
/// with banks that did not all resolve, which another pass may mend.
pub enum PassEnd {
    Image(Seq<bool>),
    Failed,
    Unresolved,
}

/// What a pass gave: how it ended, the entries it emitted, and the state it left.
pub struct PassOutcome<E> {
    pub end: PassEnd,
    pub emitted: Seq<Entry>,
    pub state: State<E>,
}

/// Holds of every start and outcome of parsing. It marks those that a statement "there are
/// ... such that" speaks of, so that a proof can name them.
pub open spec fn witnessed_parse<E>(start: State<E>, out: ParseOutcome<E>) -> bool {
    true
}

/// Holds of every outcome of the banks of a pass; a marker as `witnessed_parse` is.
pub open spec fn witnessed_image(out: ImageOutcome) -> bool {
    true
}

/// Holds of every outcome of a pass; a marker as `witnessed_parse` is.
pub open spec fn witnessed_pass<E>(out: PassOutcome<E>) -> bool {
    true
}

/// How a pass ends whose banks gave `image`.
pub open spec fn end_of_banks(image: Option<Seq<bool>>) -> PassEnd {
    match image {
        Some(bits) => PassEnd::Image(bits),
        None => PassEnd::Unresolved,
    }
}

/// Whether `out` is a possible outcome of one pass over `files` that starts with the symbols
/// `guesses` of the pass before.
///
/// The pass starts from a fresh state that holds `guesses`, parses the files into it, and
/// resolves the banks of the parsed state. Where parsing fails, the banks are not resolved.
pub open spec fn pass_result<
    E,
    P: Fn(State<E>, &String) -> Parsed<E>,
    F: Fn(&E, &EvalContext, &State<E>, &Context, bool) -> Evaluation,
>(parse: &P, eval: &F, files: Seq<String>, guesses: SymbolManager, out: PassOutcome<E>) -> bool {
    exists|start: State<E>, parsed: ParseOutcome<E>|
        {
            &&& #[trigger] witnessed_parse(start, parsed)
            &&& start.is_fresh()
            &&& start.symbol_guesses == guesses
            &&& parse_result_from(parse, files, 0, start, Seq::empty(), parsed)
            &&& if !parsed.ok {
                out == (PassOutcome {
                    end: PassEnd::Failed,
                    emitted: parsed.emitted,
                    state: parsed.state,
                })
            } else {
                exists|banks: ImageOutcome|
                    {
                        &&& #[trigger] witnessed_image(banks)
                        &&& banks_result_from(
                            eval,
                            &parsed.state,
                            0,
                            Seq::empty(),
                            parsed.emitted,
                            banks,
                        )
                        &&& out == (PassOutcome {
                            end: end_of_banks(banks.image),
                            emitted: banks.emitted,
                            state: parsed.state,
                        })
                    }
            }
        }
}

/// How a pass ended, with the image where there is one.
#[derive(Debug)]
pub enum PassResult {
    Image(BitVec),
    Failed,
    Unresolved,
}

impl View for PassResult {
    type V = PassEnd;

    open spec fn view(&self) -> PassEnd {
        match self {
            PassResult::Image(bitvec) => PassEnd::Image(bitvec@),
            PassResult::Failed => PassEnd::Failed,
            PassResult::Unresolved => PassEnd::Unresolved,
        }
    }
}

/// One pass: how it ended, the state it left, and the report of the pass.
#[derive(Debug)]
pub struct Pass<E> {
    pub end: PassResult,
    pub state: State<E>,
    pub report: Report,
}

/// Runs one pass over `files`, starting with the symbols `guesses` of the pass before.
pub fn run_pass<E, P, F>(parse: &P, eval: &F, files: &Vec<String>, guesses: SymbolManager) -> (r: Pass<
    E,
>) where
    P: Fn(State<E>, &String) -> Parsed<E>,
    F: Fn(&E, &EvalContext, &State<E>, &Context, bool) -> Evaluation,

    requires
        parser_total(parse),
        evaluator_total(eval),
    ensures
        r.report@.parents.len() == 0,
        pass_result(
            parse,
            eval,
            files@,
            guesses,
            PassOutcome { end: r.end@, emitted: r.report@.messages, state: r.state },
        ),
{
    let mut start: State<E> = State::new();
    start.symbol_guesses = guesses;
    let ghost first = start;
    let mut pass_report = Report::new();
    let (state, ok) = parse_files(parse, files, start, &mut pass_report);
    let ghost parsed = ParseOutcome { state, ok, emitted: pass_report@.messages };
    assert(witnessed_parse(first, parsed));
    if !ok {
        return Pass { end: PassResult::Failed, state, report: pass_report };
    }
    assert(accepts_all(eval, &state));
    let image = resolve_banks(eval, &state, &mut pass_report);
    let ghost banks = ImageOutcome { image: image_bits(image), emitted: pass_report@.messages };
    assert(witnessed_image(banks));
    let end = match image {
        Some(bitvec) => PassResult::Image(bitvec),
        None => PassResult::Unresolved,
    };
    Pass { end, state, report: pass_report }
}

/// What an assembly gives: the image or a failure, the entries that surface, and the state
/// that the pass which ended the assembly left, where a pass ran.
pub struct Assembly<E> {
    pub image: Result<Seq<bool>, ()>,
    pub emitted: Seq<Entry>,
    pub state: Option<State<E>>,
}

/// Holds of every start and outcome of an assembly; a marker as `witnessed_parse` is.
pub open spec fn witnessed_assembly<E>(guesses: SymbolManager, out: Assembly<E>) -> bool {
    true
}

/// Whether `out` is a possible outcome of an assembly of `files` that may run `max` passes,
/// has run `done` of them, and starts its next pass with the symbols `guesses`.
///
/// A pass that gives the image ends the assembly with it, and a pass in which parsing fails
/// ends it with a failure; the entries of that pass surface. A pass whose banks did not all
/// resolve hands the symbols it declared to the next pass, and its entries are dropped, unless
/// it was the last pass allowed: then the assembly fails and the entries of that pass surface.
/// The state of the assembly is the state that its last pass left. With no pass allowed the
/// assembly fails without a word and has no state.
pub open spec fn assemble_result_from<
    E,
    P: Fn(State<E>, &String) -> Parsed<E>,
    F: Fn(&E, &EvalContext, &State<E>, &Context, bool) -> Evaluation,
>(
    parse: &P,
    eval: &F,
    files: Seq<String>,
    guesses: SymbolManager,
    done: int,
    max: int,
    out: Assembly<E>,
) -> bool
    decreases max - done,
{
    if done >= max {
        out == (Assembly::<E> { image: Err(()), emitted: Seq::empty(), state: None })
    } else {
        exists|pass: PassOutcome<E>|
            {
                &&& #[trigger] witnessed_pass(pass)
                &&& pass_result(parse, eval, files, guesses, pass)
                &&& match pass.end {
                    PassEnd::Image(bits) => out == (Assembly {
                        image: Ok(bits),
                        emitted: pass.emitted,
                        state: Some(pass.state),
                    }),
                    PassEnd::Failed => out == (Assembly {
                        image: Err(()),
                        emitted: pass.emitted,
                        state: Some(pass.state),
                    }),
                    PassEnd::Unresolved => if done + 1 >= max {
                        out == (Assembly {
                            image: Err(()),
                            emitted: pass.emitted,
                            state: Some(pass.state),
                        })
                    } else {
                        assemble_result_from(
                            parse,
                            eval,
                            files,
                            pass.state.symbols,
                            done + 1,
                            max,
                            out,
                        )
                    },
                }
            }
    }
}

/// One pass leads on from any of its outcomes.
pub proof fn lemma_assemble_step<
    E,
    P: Fn(State<E>, &String) -> Parsed<E>,
    F: Fn(&E, &EvalContext, &State<E>, &Context, bool) -> Evaluation,
>(
    parse: &P,
    eval: &F,
    files: Seq<String>,
    guesses: SymbolManager,
    done: int,
    max: int,
    pass: PassOutcome<E>,
    out: Assembly<E>,
)
    requires
        done < max,
        pass_result(parse, eval, files, guesses, pass),
        match pass.end {
            PassEnd::Image(bits) => out == (Assembly {
                image: Ok(bits),
                emitted: pass.emitted,
                state: Some(pass.state),
            }),
            PassEnd::Failed => out == (Assembly {
                image: Err(()),
                emitted: pass.emitted,
                state: Some(pass.state),
            }),
            PassEnd::Unresolved => if done + 1 >= max {
                out == (Assembly { image: Err(()), emitted: pass.emitted, state: Some(pass.state) })
            } else {
                assemble_result_from(parse, eval, files, pass.state.symbols, done + 1, max, out)
            },
        },
    ensures
        assemble_result_from(parse, eval, files, guesses, done, max, out),
{
    assert(witnessed_pass(pass));
}

/// The driver: the files to assemble and the state of the pass that ran last.
#[derive(Debug)]
pub struct Assembler<E> {
    pub root_files: Vec<String>,
    pub state: State<E>,
}

impl<E> Assembler<E> {
    /// An assembler without files.
    pub fn new() -> (r: Assembler<E>)
        ensures
            r.root_files.len() == 0,
            r.state.is_fresh(),
            r.state.resolvable(),
    {
        Assembler { root_files: Vec::new(), state: State::new() }
    }

    /// Adds a file to assemble, after those that are registered.
    pub fn register_file(&mut self, filename: &str)
        ensures
            final(self).root_files.len() == old(self).root_files.len() + 1,
            final(self).root_files@.drop_last() == old(self).root_files@,
            final(self).root_files@.last()@ == filename@,
            final(self).state == old(self).state,
    {
        self.root_files.push(String::from_str(filename));
        assert(self.root_files@.drop_last() =~= old(self).root_files@);
    }

    /// Assembles the registered files into the image, in `max_iterations` passes at most.
    ///
    /// The first pass starts without symbols of a pass before. The diagnostics of the pass
    /// that ended the assembly are moved into `report`, and its state is kept in the
    /// assembler.
    pub fn assemble<P, F>(
        &mut self,
        report: &mut Report,
        parse: &P,
        eval: &F,
        max_iterations: usize,
    ) -> (r: Result<BitVec, ()>) where
        P: Fn(State<E>, &String) -> Parsed<E>,
        F: Fn(&E, &EvalContext, &State<E>, &Context, bool) -> Evaluation,

        requires
            parser_total(parse),
            evaluator_total(eval),
        ensures
            final(self).root_files == old(self).root_files,
            exists|guesses: SymbolManager, out: Assembly<E>|
                {
                    &&& #[trigger] witnessed_assembly(guesses, out)
                    &&& guesses@.bindings.len() == 0
                    &&& guesses@.cursor.len() == 0
                    &&& assemble_result_from(
                        parse,
                        eval,
                        old(self).root_files@,
                        guesses,
                        0,
                        max_iterations as int,
                        out,
                    )
                    &&& bits_of(r) == out.image
                    &&& final(report)@ == old(report)@.with_entries(out.emitted)
                    &&& final(self).state == match out.state {
                        Some(state) => state,
                        None => old(self).state,
                    }
                },
    {
        let mut symbol_guesses = SymbolManager::new();
        let ghost first = symbol_guesses;
        let ghost files = self.root_files@;
        let ghost max = max_iterations as int;
        let mut iteration: usize = 0;
        while iteration < max_iterations
            invariant
                iteration <= max_iterations,
                max == max_iterations as int,
                parser_total(parse),
                evaluator_total(eval),
                self.root_files == old(self).root_files,
                files == self.root_files@,
                *report == *old(report),
                first@.bindings.len() == 0,
                first@.cursor.len() == 0,
                iteration > 0 ==> iteration < max_iterations,
                iteration == 0 ==> self.state == old(self).state,
                forall|out: Assembly<E>| #[trigger]
                    assemble_result_from(
                        parse,
                        eval,
                        files,
                        symbol_guesses,
                        iteration as int,
                        max,
                        out,
                    ) ==> assemble_result_from(parse, eval, files, first, 0, max, out),
            decreases max_iterations - iteration,
        {
            let ghost guesses = symbol_guesses;
            let mut pass = run_pass(parse, eval, &self.root_files, symbol_guesses);
            let ghost seen = PassOutcome {
                end: pass.end@,
                emitted: pass.report@.messages,
                state: pass.state,
            };
            let last = iteration + 1 >= max_iterations;
            let ended: Option<Result<BitVec, ()>> = match pass.end {
                PassResult::Image(bitvec) => Some(Ok(bitvec)),
                PassResult::Failed => Some(Err(())),
                PassResult::Unresolved => if last {
                    Some(Err(()))
                } else {
                    None
                },
            };
            match ended {
                Some(r) => {
                    pass.report.transfer_to(report);
                    self.state = pass.state;
                    proof {
                        let out = Assembly {
                            image: bits_of(r),
                            emitted: seen.emitted,
                            state: Some(seen.state),
                        };
                        lemma_assemble_step(
                            parse,
                            eval,
                            files,
                            guesses,
                            iteration as int,
                            max,
                            seen,
                            out,
                        );
                        assert(witnessed_assembly(first, out));
                    }
                    return r;
                },
                None => {
                    let mut next = SymbolManager::new();
                    core::mem::swap(&mut next, &mut pass.state.symbols);
                    symbol_guesses = next;
                    self.state = pass.state;
                    proof {
                        assert forall|out: Assembly<E>| #[trigger]
                            assemble_result_from(
                                parse,
                                eval,
                                files,
                                symbol_guesses,
                                iteration + 1,
                                max,
                                out,
                            ) implies assemble_result_from(
                            parse,
                            eval,
                            files,
                            first,
                            0,
                            max,
                            out,
                        ) by {
                            lemma_assemble_step(
                                parse,
                                eval,
                                files,
                                guesses,
                                iteration as int,
                                max,
                                seen,
                                out,
                            );
                        }
                    }
                },
            }
            iteration = iteration + 1;
        }
        proof {
            let out = Assembly::<E> { image: Err(()), emitted: Seq::empty(), state: None };
            assert(assemble_result_from(
                parse,
                eval,
                files,
                symbol_guesses,
                iteration as int,
                max,
                out,
            ));
            lemma_with_no_entries(old(report)@);
            assert(witnessed_assembly(first, out));
        }
        Err(())
    }
}


} // verus!
