use asmcore::assembler::{place_bank_output, Assembler, Parsed};
use asmcore::bank::Bank;
use asmcore::bigint::BigInt;
use asmcore::bitvec::BitVec;
use asmcore::diagn::{MessageKind, Report, Span};
use asmcore::eval::{EvalContext, EvalFunctionInfo, EvalVariableInfo, Evaluation};
use asmcore::resolve::{finish_data, place_resolved};
use asmcore::rule::{
    check_candidate, check_candidates, DataInvokation, Invokation, InvokationKind, Rule,
    RuleInvokation, RuleInvokationArgument, RuleInvokationCandidate, RuleParameter, Ruleset,
};
use asmcore::state::{BankData, BankRef, Context, RuleRef, RulesetRef, State};
use asmcore::symbols::SymbolContext;
use asmcore::value::Value;

// A small expression language, enough to drive the library.
#[derive(Clone, Debug)]
enum Expr {
    Int(usize),
    Sized(Box<Expr>, usize),
    Var(usize, Vec<String>, usize),
    Call(Box<Expr>, Vec<Expr>, usize),
    Equal(Box<Expr>, Box<Expr>),
    Less(Box<Expr>, Box<Expr>),
    Note(String, usize, Box<Expr>),
    Fail(String, usize),
    Nothing,
}

fn var(name: &str) -> Expr {
    Expr::Var(0, vec![name.to_string()], 0)
}

fn sized(e: Expr, size: usize) -> Expr {
    Expr::Sized(Box::new(e), size)
}

fn assert_that(e: Expr) -> Expr {
    Expr::Call(Box::new(var("assert")), vec![e], 0)
}

fn to_usize(n: &BigInt) -> usize {
    let mut r = 0usize;
    for i in 0..(usize::BITS as usize) {
        if n.get_bit(i) {
            r |= 1 << i;
        }
    }
    r
}

fn number(v: Value) -> Result<BigInt, ()> {
    match v {
        Value::Integer(n) => Ok(n),
        _ => Err(()),
    }
}

fn evaluate(
    expr: &Expr,
    locals: &EvalContext,
    state: &State<Expr>,
    ctx: &Context,
    final_pass: bool,
    report: &mut Report,
) -> Result<Value, ()> {
    match expr {
        Expr::Int(n) => Ok(Value::make_integer(BigInt::from_usize(*n))),
        Expr::Sized(inner, size) => {
            let n = number(evaluate(inner, locals, state, ctx, final_pass, report)?)?;
            Ok(Value::make_integer(n.with_size(Some(*size))))
        }
        Expr::Var(level, path, line) => {
            if *level == 0 && path.len() == 1 {
                if let Some(value) = locals.get_local(&path[0]) {
                    return Ok(value.clone());
                }
            }
            let info = EvalVariableInfo {
                hierarchy_level: *level,
                hierarchy: path.clone(),
                span: Span::new("main.asm", *line),
            };
            state.lookup_var(ctx, &info, report, final_pass)
        }
        Expr::Call(func, args, line) => {
            let func = evaluate(func, locals, state, ctx, final_pass, report)?;
            let mut values = Vec::new();
            for arg in args {
                values.push(evaluate(arg, locals, state, ctx, final_pass, report)?);
            }
            match &func {
                Value::Function(name) if name == "assert" => {}
                _ => {
                    report.error_span("not a function", &Span::new("main.asm", *line));
                    return Err(());
                }
            }
            let info = EvalFunctionInfo { func, args: values, span: Span::new("main.asm", *line) };
            state.eval_fn(ctx, &info, report).map_err(|_| ())
        }
        Expr::Equal(a, b) => {
            let a = number(evaluate(a, locals, state, ctx, final_pass, report)?)?;
            let b = number(evaluate(b, locals, state, ctx, final_pass, report)?)?;
            Ok(Value::Bool(to_usize(&a) == to_usize(&b)))
        }
        Expr::Less(a, b) => {
            let a = number(evaluate(a, locals, state, ctx, final_pass, report)?)?;
            let b = number(evaluate(b, locals, state, ctx, final_pass, report)?)?;
            Ok(Value::Bool(to_usize(&a) < to_usize(&b)))
        }
        Expr::Note(text, line, inner) => {
            report.note_span(text, &Span::new("main.asm", *line));
            evaluate(inner, locals, state, ctx, final_pass, report)
        }
        Expr::Fail(text, line) => {
            report.error_span(text, &Span::new("main.asm", *line));
            Err(())
        }
        Expr::Nothing => Ok(Value::Void),
    }
}

fn evaluator(
    expr: &Expr,
    locals: &EvalContext,
    state: &State<Expr>,
    ctx: &Context,
    final_pass: bool,
) -> Evaluation {
    let mut report = Report::new();
    let value = evaluate(expr, locals, state, ctx, final_pass, &mut report);
    Evaluation { value, report }
}

// A small front end: a program is a list of statements, one to a line.
enum Stmt {
    Rules(fn() -> Ruleset<Expr>),
    Bank(fn() -> Bank),
    Label(&'static str, usize),
    Instr(fn() -> Vec<RuleInvokationCandidate<Expr>>),
    Data(Expr, Option<usize>),
    Broken(&'static str),
}

fn width_of(guess: Result<Value, ()>) -> usize {
    match guess {
        Ok(Value::Integer(n)) => n.size.unwrap_or(0),
        _ => 0,
    }
}

fn emit(state: &mut State<Expr>, mut invok: Invokation<Expr>, size: usize) {
    invok.size_guess = size;
    assert!(state.is_resolvable() && state.is_valid_invokation(&invok));
    state.add_invokation(invok);
}

fn parse_program(program: &[Stmt], state: State<Expr>, filename: &String) -> Parsed<Expr> {
    let mut state = state;
    let mut report = Report::new();
    let mut result = Ok(());
    for (line, stmt) in program.iter().enumerate() {
        let span = Span::new(filename, line);
        match stmt {
            Stmt::Rules(make) => state.rulesets.push(make()),
            Stmt::Bank(make) => {
                if state.create_bank(make(), &mut report).is_err() {
                    result = Err(());
                }
            }
            Stmt::Label(name, level) => {
                let ctx = state.get_ctx();
                match state.get_addr(&mut report, &ctx, &span) {
                    Ok(addr) => {
                        let value = Value::make_integer(addr);
                        if state.symbols.create(name, *level, value, &mut report, &span).is_err() {
                            result = Err(());
                        }
                    }
                    Err(()) => result = Err(()),
                }
            }
            Stmt::Instr(make) => {
                let invok = Invokation {
                    ctx: state.get_ctx(),
                    size_guess: 0,
                    span,
                    kind: InvokationKind::Rule(RuleInvokation { candidates: make() }),
                };
                let mut scratch = Report::new();
                let guess = state.resolve_rule_invokation(&evaluator, &mut scratch, &invok, false);
                emit(&mut state, invok, width_of(guess));
            }
            Stmt::Data(expr, elem_size) => {
                let invok = Invokation {
                    ctx: state.get_ctx(),
                    size_guess: 0,
                    span: span.clone(),
                    kind: InvokationKind::Data(DataInvokation {
                        expr: expr.clone(),
                        span,
                        elem_size: *elem_size,
                    }),
                };
                let mut scratch = Report::new();
                let guess = state.resolve_data_invokation(&evaluator, &mut scratch, &invok, false);
                emit(&mut state, invok, width_of(guess));
            }
            Stmt::Broken(text) => {
                report.error_span(text, &span);
                result = Err(());
            }
        }
        if result.is_err() {
            break;
        }
    }
    assert!(state.is_resolvable());
    Parsed { state, result, report }
}

fn assemble(program: &[Stmt], max_iterations: usize) -> (Result<BitVec, ()>, Report) {
    let mut assembler: Assembler<Expr> = Assembler::new();
    assembler.register_file("main.asm");
    let mut report = Report::new();
    let parse = |state: State<Expr>, file: &String| parse_program(program, state, file);
    let image = assembler.assemble(&mut report, &parse, &evaluator, max_iterations);
    (image, report)
}

fn bits_of(text: &str) -> Vec<bool> {
    text.chars().filter(|c| *c == '0' || *c == '1').map(|c| c == '1').collect()
}

fn rule(parameters: &[&str], production: Expr) -> Rule<Expr> {
    Rule {
        parameters: parameters.iter().map(|p| RuleParameter { name: p.to_string() }).collect(),
        production,
    }
}

fn candidate(index: usize, args: Vec<RuleInvokationArgument<Expr>>) -> RuleInvokationCandidate<Expr> {
    RuleInvokationCandidate { rule_ref: RuleRef { ruleset_ref: RulesetRef { index: 0 }, index }, args }
}

fn descriptions(report: &Report) -> Vec<String> {
    report.messages.iter().map(|d| d.message.descr.clone()).collect()
}

#[test]
fn one_data_byte_is_the_image() {
    let program = [Stmt::Data(Expr::Int(0x41), Some(8))];
    let (image, report) = assemble(&program, 10);
    assert_eq!(image.unwrap().bits, bits_of("01000001"));
    assert_eq!(report.len(), 0);
}

#[test]
fn data_bytes_follow_one_another() {
    let program = [
        Stmt::Data(Expr::Int(0x12), Some(8)),
        Stmt::Data(Expr::Int(0x3), Some(4)),
        Stmt::Data(sized(Expr::Int(0x5), 4), None),
    ];
    let (image, report) = assemble(&program, 10);
    assert_eq!(image.unwrap().bits, bits_of("00010010 0011 0101"));
    assert_eq!(report.len(), 0);
}

fn jump_rules() -> Ruleset<Expr> {
    Ruleset {
        name: "cpu".to_string(),
        rules: vec![
            rule(&["addr", "near"], sized(var("addr"), 8)),
            rule(&["addr"], sized(var("addr"), 16)),
            rule(&[], sized(Expr::Int(0xea), 8)),
        ],
    }
}

fn jump_to_end() -> Vec<RuleInvokationCandidate<Expr>> {
    vec![
        candidate(
            0,
            vec![
                RuleInvokationArgument::Expression(var("end")),
                RuleInvokationArgument::Expression(assert_that(Expr::Less(
                    Box::new(var("end")),
                    Box::new(Expr::Int(2)),
                ))),
            ],
        ),
        candidate(1, vec![RuleInvokationArgument::Expression(var("end"))]),
    ]
}

fn nop() -> Vec<RuleInvokationCandidate<Expr>> {
    vec![candidate(2, vec![])]
}

fn forward_jump() -> [Stmt; 4] {
    [Stmt::Rules(jump_rules), Stmt::Instr(jump_to_end), Stmt::Instr(nop), Stmt::Label("end", 0)]
}

#[test]
fn forward_label_converges_in_two_passes() {
    let program = forward_jump();
    let (image, report) = assemble(&program, 2);
    assert_eq!(image.unwrap().bits, bits_of("0000000000000011 11101010"));
    assert_eq!(report.len(), 0);
}

#[test]
fn more_passes_than_needed_give_the_same_image() {
    let program = forward_jump();
    for max in [2usize, 3, 10, 1000] {
        let (image, report) = assemble(&program, max);
        assert_eq!(image.unwrap().bits, bits_of("0000000000000011 11101010"));
        assert_eq!(report.len(), 0);
    }
}

#[test]
fn one_pass_fewer_than_needed_fails() {
    let program = forward_jump();
    let (image, report) = assemble(&program, 1);
    assert!(image.is_err());
    assert_eq!(descriptions(&report), vec!["instruction size did not converge after iterations"]);
    assert!(report.has_message_at("main.asm", MessageKind::Error, 1, "size did not converge"));
}

#[test]
fn no_pass_allowed_fails_without_a_word() {
    let program = [Stmt::Data(Expr::Int(1), Some(8))];
    let (image, report) = assemble(&program, 0);
    assert!(image.is_err());
    assert_eq!(report.len(), 0);
}

fn bank_a() -> Bank {
    Bank {
        name: "a".to_string(),
        addr_start: BigInt::from_usize(0),
        addr_size: Some(4),
        wordsize: 8,
        output_offset: Some(0),
        decl_span: Some(Span::new("main.asm", 0)),
    }
}

fn bank_a_too_long() -> Bank {
    let mut bank = bank_a();
    bank.addr_size = Some(5);
    bank
}

fn bank_b() -> Bank {
    Bank {
        name: "b".to_string(),
        addr_start: BigInt::from_usize(0x100),
        addr_size: Some(4),
        wordsize: 8,
        output_offset: Some(4),
        decl_span: Some(Span::new("main.asm", 2)),
    }
}

#[test]
fn banks_are_laid_out_at_their_output_offsets() {
    let program = [
        Stmt::Bank(bank_a),
        Stmt::Data(Expr::Int(0xaa), Some(8)),
        Stmt::Bank(bank_b),
        Stmt::Data(Expr::Int(0xbb), Some(8)),
        Stmt::Data(var("pc"), Some(16)),
    ];
    let (image, report) = assemble(&program, 10);
    assert_eq!(
        image.unwrap().bits,
        bits_of("10101010 00000000 00000000 00000000 10111011 0000000100000001")
    );
    assert_eq!(report.len(), 0);
}

#[test]
fn overlapping_bank_fails_the_assembly() {
    let program = [
        Stmt::Bank(bank_a_too_long),
        Stmt::Data(Expr::Int(0xaa), Some(8)),
        Stmt::Bank(bank_b),
        Stmt::Data(Expr::Int(0xbb), Some(8)),
    ];
    let (image, report) = assemble(&program, 10);
    assert!(image.is_err());
    assert_eq!(descriptions(&report), vec!["output region overlaps with bank `a`"]);
    assert!(report.has_message_at("main.asm", MessageKind::Error, 2, "overlaps with bank `a`"));
}

fn bank_without_output() -> Bank {
    Bank {
        name: "ram".to_string(),
        addr_start: BigInt::from_usize(0),
        addr_size: None,
        wordsize: 8,
        output_offset: None,
        decl_span: Some(Span::new("main.asm", 1)),
    }
}

#[test]
fn bank_without_output_offset_is_no_part_of_the_image() {
    let program = [
        Stmt::Data(Expr::Int(0x0f), Some(8)),
        Stmt::Bank(bank_without_output),
        Stmt::Data(Expr::Int(0xff), Some(8)),
    ];
    let (image, report) = assemble(&program, 10);
    assert_eq!(image.unwrap().bits, bits_of("00001111"));
    assert_eq!(report.len(), 0);
}

fn bank_out_of_range() -> Bank {
    Bank {
        name: "far".to_string(),
        addr_start: BigInt::from_usize(0),
        addr_size: Some(1),
        wordsize: 8,
        output_offset: Some(usize::MAX / 2),
        decl_span: Some(Span::new("main.asm", 0)),
    }
}

#[test]
fn bank_beyond_the_addressable_range_is_reported() {
    let program = [Stmt::Bank(bank_out_of_range), Stmt::Data(Expr::Int(1), Some(8))];
    let (image, report) = assemble(&program, 3);
    assert!(image.is_err());
    assert_eq!(descriptions(&report), vec!["bank output is out of range"]);
    assert!(report.has_message_at("main.asm", MessageKind::Error, 0, "out of range"));
}

#[test]
fn value_larger_than_the_directive_is_reported() {
    let program = [Stmt::Data(Expr::Int(0x1234), Some(8))];
    let (image, report) = assemble(&program, 10);
    assert!(image.is_err());
    assert_eq!(
        descriptions(&report),
        vec!["value (size = 13) is larger than the directive size (= 8)"]
    );
    assert_eq!(report.messages[0].context.len(), 1);
    assert_eq!(report.messages[0].context[0].descr, "failed to resolve data element");
    assert_eq!(report.len_with_submessages(), 2);
}

#[test]
fn data_element_takes_the_width_of_its_directive() {
    let state: State<Expr> = State::new();
    let invok = Invokation {
        ctx: state.get_ctx(),
        size_guess: 8,
        span: Span::new("main.asm", 0),
        kind: InvokationKind::Data(DataInvokation {
            expr: Expr::Int(0x1234),
            span: Span::new("main.asm", 0),
            elem_size: Some(8),
        }),
    };
    let mut report = Report::new();
    let value = state.resolve_data_invokation(&evaluator, &mut report, &invok, true).unwrap();
    let n = number(value).unwrap();
    assert_eq!(n.size, Some(8));
    assert_eq!(to_usize(&n), 0x1234);
    assert_eq!(
        descriptions(&report),
        vec!["value (size = 13) is larger than the directive size (= 8)"]
    );
}

#[test]
fn finish_data_leaves_other_values_alone() {
    let mut report = Report::new();
    let span = Span::new_dummy();
    let kept = finish_data(Value::Bool(true), Some(8), &span, &mut report);
    assert!(matches!(kept, Value::Bool(true)));
    let free = finish_data(Value::make_integer(BigInt::from_usize(0xfff)), None, &span, &mut report);
    assert_eq!(number(free).unwrap().size, None);
    let fits = finish_data(Value::make_integer(BigInt::from_usize(0xff)), Some(8), &span, &mut report);
    assert_eq!(number(fits).unwrap().size, Some(8));
    assert_eq!(report.len(), 0);
}

#[test]
fn assertion_in_an_expression() {
    let state: State<Expr> = State::new();
    let ctx = state.get_ctx();
    let locals = EvalContext::new();
    let fails = assert_that(Expr::Equal(Box::new(Expr::Int(1)), Box::new(Expr::Int(2))));
    let failed = evaluator(&fails, &locals, &state, &ctx, true);
    assert!(failed.value.is_err());
    assert_eq!(descriptions(&failed.report), vec!["assertion failed"]);
    let holds = assert_that(Expr::Equal(Box::new(Expr::Int(1)), Box::new(Expr::Int(1))));
    let held = evaluator(&holds, &locals, &state, &ctx, true);
    assert!(matches!(held.value, Ok(Value::Void)));
    assert_eq!(held.report.len(), 0);
}

fn flip_rules() -> Ruleset<Expr> {
    Ruleset {
        name: "cpu".to_string(),
        rules: vec![rule(&["check"], sized(Expr::Int(0), 8)), rule(&[], sized(Expr::Int(0), 16))],
    }
}

fn flip() -> Vec<RuleInvokationCandidate<Expr>> {
    vec![
        candidate(
            0,
            vec![RuleInvokationArgument::Expression(assert_that(Expr::Equal(
                Box::new(var("after")),
                Box::new(Expr::Int(2)),
            )))],
        ),
        candidate(1, vec![]),
    ]
}

#[test]
fn circular_sizing_does_not_converge() {
    let program = [Stmt::Rules(flip_rules), Stmt::Instr(flip), Stmt::Label("after", 0)];
    for max in [1usize, 2, 5, 10] {
        let (image, report) = assemble(&program, max);
        assert!(image.is_err());
        assert_eq!(
            descriptions(&report),
            vec!["instruction size did not converge after iterations"]
        );
        assert!(report.has_message_at("main.asm", MessageKind::Error, 1, "size did not converge"));
    }
}

#[test]
fn parser_failure_ends_the_assembly_at_once() {
    let program = [Stmt::Data(Expr::Int(1), Some(8)), Stmt::Broken("unexpected token")];
    let (image, report) = assemble(&program, 10);
    assert!(image.is_err());
    assert_eq!(descriptions(&report), vec!["unexpected token"]);
}

#[test]
fn unknown_symbol_is_reported_once_for_each_reference() {
    let program = [Stmt::Data(sized(var("missing"), 8), None), Stmt::Data(sized(var("gone"), 8), None)];
    let (image, report) = assemble(&program, 4);
    assert!(image.is_err());
    assert_eq!(descriptions(&report), vec!["unknown symbol"]);
    assert_eq!(report.messages[0].context[0].descr, "failed to resolve data element");
}

fn state_with_rules(rules: Vec<Rule<Expr>>) -> State<Expr> {
    let mut state: State<Expr> = State::new();
    state.rulesets.push(Ruleset { name: "cpu".to_string(), rules });
    state
}

fn instruction(state: &State<Expr>, candidates: Vec<RuleInvokationCandidate<Expr>>, size_guess: usize) -> Invokation<Expr> {
    Invokation {
        ctx: state.get_ctx(),
        size_guess,
        span: Span::new("main.asm", 0),
        kind: InvokationKind::Rule(RuleInvokation { candidates }),
    }
}

#[test]
fn earlier_candidate_is_chosen_and_its_diagnostics_are_kept() {
    let state = state_with_rules(vec![
        rule(&[], Expr::Note("from the first".to_string(), 1, Box::new(sized(Expr::Int(1), 8)))),
        rule(&[], Expr::Note("from the second".to_string(), 2, Box::new(sized(Expr::Int(2), 8)))),
    ]);
    let invok = instruction(&state, vec![candidate(0, vec![]), candidate(1, vec![])], 8);
    for final_pass in [false, true] {
        let mut report = Report::new();
        let value = state.resolve_rule_invokation(&evaluator, &mut report, &invok, final_pass).unwrap();
        assert_eq!(to_usize(&number(value).unwrap()), 1);
        assert_eq!(descriptions(&report), vec!["from the first"]);
    }
}

#[test]
fn diagnostics_of_failed_candidates_are_dropped() {
    let state = state_with_rules(vec![
        rule(&[], Expr::Fail("first is wrong".to_string(), 1)),
        rule(&[], Expr::Note("second is fine".to_string(), 2, Box::new(sized(Expr::Int(2), 8)))),
        rule(&[], Expr::Fail("third is never tried".to_string(), 3)),
    ]);
    let invok =
        instruction(&state, vec![candidate(0, vec![]), candidate(1, vec![]), candidate(2, vec![])], 8);
    let mut report = Report::new();
    let value = state.resolve_rule_invokation(&evaluator, &mut report, &invok, true).unwrap();
    assert_eq!(to_usize(&number(value).unwrap()), 2);
    assert_eq!(descriptions(&report), vec!["second is fine"]);
}

#[test]
fn last_candidate_speaks_for_a_failed_instruction() {
    let state = state_with_rules(vec![
        rule(&[], Expr::Fail("first is wrong".to_string(), 1)),
        rule(
            &[],
            Expr::Note("last was tried".to_string(), 2, Box::new(Expr::Fail("last is wrong".to_string(), 2))),
        ),
    ]);
    let invok = instruction(&state, vec![candidate(0, vec![]), candidate(1, vec![])], 8);
    let mut report = Report::new();
    assert!(state.resolve_rule_invokation(&evaluator, &mut report, &invok, true).is_err());
    assert_eq!(descriptions(&report), vec!["last was tried", "last is wrong"]);
}

#[test]
fn failed_instruction_is_silent_while_passes_remain() {
    let state = state_with_rules(vec![
        rule(&[], Expr::Fail("first is wrong".to_string(), 1)),
        rule(&[], Expr::Fail("last is wrong".to_string(), 2)),
    ]);
    let invok = instruction(&state, vec![candidate(0, vec![]), candidate(1, vec![])], 8);
    let mut report = Report::new();
    report.error("already there");
    assert!(state.resolve_rule_invokation(&evaluator, &mut report, &invok, false).is_err());
    assert_eq!(descriptions(&report), vec!["already there"]);
}

#[test]
fn arguments_are_bound_to_the_parameters_in_order() {
    let state = state_with_rules(vec![
        rule(&["a", "b"], sized(var("b"), 8)),
        rule(&["x"], sized(var("x"), 4)),
    ]);
    let nested = vec![
        candidate(1, vec![RuleInvokationArgument::Expression(Expr::Fail("inner first".to_string(), 0))]),
        candidate(1, vec![RuleInvokationArgument::Expression(Expr::Int(9))]),
    ];
    let cand = candidate(
        0,
        vec![
            RuleInvokationArgument::Expression(Expr::Int(5)),
            RuleInvokationArgument::NestedRuleset(nested),
        ],
    );
    assert!(check_candidate(&state.rulesets, &cand));
    let invok = instruction(&state, vec![], 8);
    let mut report = Report::new();
    let value = state
        .resolve_rule_invokation_candidate(&evaluator, &mut report, &invok, &cand, true)
        .unwrap();
    let n = number(value).unwrap();
    assert_eq!(to_usize(&n), 9);
    assert_eq!(n.size, Some(8));
    assert_eq!(report.len(), 0);
}

#[test]
fn failing_argument_fails_the_candidate() {
    let state = state_with_rules(vec![rule(
        &["a", "b"],
        Expr::Note("production".to_string(), 0, Box::new(Expr::Int(1))),
    )]);
    let cand = candidate(
        0,
        vec![
            RuleInvokationArgument::Expression(Expr::Note("first".to_string(), 0, Box::new(Expr::Int(1)))),
            RuleInvokationArgument::Expression(Expr::Fail("second".to_string(), 0)),
        ],
    );
    let invok = instruction(&state, vec![], 8);
    let mut report = Report::new();
    assert!(state
        .resolve_rule_invokation_candidate(&evaluator, &mut report, &invok, &cand, true)
        .is_err());
    assert_eq!(descriptions(&report), vec!["first", "second"]);
}

#[test]
fn nested_candidates_that_all_fail_report_their_last() {
    let state = state_with_rules(vec![rule(&["a"], sized(var("a"), 8)), rule(&[], Expr::Nothing)]);
    let inner = vec![
        candidate(0, vec![RuleInvokationArgument::Expression(Expr::Fail("inner one".to_string(), 0))]),
        candidate(0, vec![RuleInvokationArgument::Expression(Expr::Fail("inner two".to_string(), 0))]),
    ];
    let cand = candidate(0, vec![RuleInvokationArgument::NestedRuleset(inner)]);
    let invok = instruction(&state, vec![], 8);
    let mut report = Report::new();
    assert!(state
        .resolve_rule_invokation_candidate(&evaluator, &mut report, &invok, &cand, true)
        .is_err());
    assert_eq!(descriptions(&report), vec!["inner two"]);
    let mut quiet = Report::new();
    assert!(state
        .resolve_rule_invokation_candidate(&evaluator, &mut quiet, &invok, &cand, false)
        .is_err());
    assert_eq!(quiet.len(), 0);
}

#[test]
fn candidates_are_checked_against_the_rules() {
    let state = state_with_rules(vec![rule(&["a"], Expr::Nothing)]);
    assert!(check_candidates(&state.rulesets, &vec![candidate(0, vec![])]));
    assert!(!check_candidates(&state.rulesets, &vec![]));
    assert!(!check_candidates(&state.rulesets, &vec![candidate(1, vec![])]));
    let too_many = candidate(
        0,
        vec![
            RuleInvokationArgument::Expression(Expr::Nothing),
            RuleInvokationArgument::Expression(Expr::Nothing),
        ],
    );
    assert!(!check_candidate(&state.rulesets, &too_many));
    let empty_nested = candidate(0, vec![RuleInvokationArgument::NestedRuleset(vec![])]);
    assert!(!check_candidate(&state.rulesets, &empty_nested));
    let other_set = RuleInvokationCandidate {
        rule_ref: RuleRef { ruleset_ref: RulesetRef { index: 3 }, index: 0 },
        args: vec![],
    };
    assert!(!check_candidate(&state.rulesets, &other_set));
}

#[test]
fn state_with_an_invalid_invokation_is_not_resolvable() {
    let mut state = state_with_rules(vec![rule(&[], Expr::Nothing)]);
    let good = instruction(&state, vec![candidate(0, vec![])], 8);
    assert!(state.is_valid_invokation(&good));
    let no_candidates = instruction(&state, vec![], 8);
    assert!(!state.is_valid_invokation(&no_candidates));
    let mut elsewhere = instruction(&state, vec![candidate(0, vec![])], 8);
    elsewhere.ctx.bank_ref = BankRef { index: 5 };
    assert!(!state.is_valid_invokation(&elsewhere));
    let mut too_far = instruction(&state, vec![candidate(0, vec![])], 8);
    too_far.ctx.bit_offset = usize::MAX - 8;
    assert!(!state.is_valid_invokation(&too_far));
    state.bankdata[0].invokations.push(good);
    assert!(state.is_resolvable());
    state.bankdata[0].invokations.push(no_candidates);
    assert!(!state.is_resolvable());
}

#[test]
fn values_that_cannot_be_placed_are_reported() {
    let state = state_with_rules(vec![
        rule(&[], Expr::Int(1)),
        rule(&[], Expr::Nothing),
        rule(&[], sized(Expr::Int(1), 16)),
        rule(&[], sized(Expr::Int(0xf), 4)),
    ]);
    let mut bank = BankData { bank_ref: BankRef { index: 0 }, cur_bit_offset: 0, invokations: Vec::new() };
    for index in 0..4 {
        let mut invok = instruction(&state, vec![candidate(index, vec![])], 4);
        invok.ctx.bit_offset = 4 * index;
        invok.span = Span::new("main.asm", index);
        bank.invokations.push(invok);
    }
    bank.invokations.push(Invokation {
        ctx: Context { bit_offset: 16, bank_ref: BankRef { index: 0 }, symbol_ctx: SymbolContext::new() },
        size_guess: 4,
        span: Span::new("main.asm", 4),
        kind: InvokationKind::Data(DataInvokation {
            expr: Expr::Int(1),
            span: Span::new("main.asm", 4),
            elem_size: None,
        }),
    });
    let mut report = Report::new();
    let bits = state.resolve_bankdata(&evaluator, &mut report, &bank).unwrap();
    assert_eq!(bits.bits, bits_of("0000 0000 0000 1111"));
    assert_eq!(
        descriptions(&report),
        vec![
            "cannot infer size of instruction",
            "wrong type returned from instruction",
            "instruction size did not converge after iterations",
            "cannot infer size of expression",
        ]
    );
    assert!(report.messages.iter().all(|d| d.context.is_empty()));
    assert!(report.has_message_at("main.asm", MessageKind::Error, 2, "did not converge"));
}

#[test]
fn failed_resolution_ends_the_bank() {
    let state = state_with_rules(vec![
        rule(&[], sized(Expr::Int(1), 4)),
        rule(&[], Expr::Fail("broken".to_string(), 1)),
    ]);
    let mut bank = BankData { bank_ref: BankRef { index: 0 }, cur_bit_offset: 0, invokations: Vec::new() };
    bank.invokations.push(instruction(&state, vec![candidate(0, vec![])], 4));
    bank.invokations.push(instruction(&state, vec![candidate(1, vec![])], 4));
    bank.invokations.push(instruction(&state, vec![candidate(0, vec![])], 4));
    let mut report = Report::new();
    assert!(state.resolve_bankdata(&evaluator, &mut report, &bank).is_err());
    assert_eq!(descriptions(&report), vec!["broken"]);
    assert_eq!(report.messages[0].context[0].descr, "failed to resolve instruction");
    assert_eq!(report.len_with_submessages(), 2);
}

#[test]
fn resolved_value_is_placed_at_the_offset_of_its_invokation() {
    let state: State<Expr> = State::new();
    let mut invok = instruction(&state, vec![], 4);
    invok.ctx.bit_offset = 2;
    let mut bits = BitVec::new();
    let mut report = Report::new();
    let value = Value::make_integer(BigInt::from_usize(0b1001).with_size(Some(4)));
    place_resolved(&mut bits, &mut report, &invok, &value);
    assert_eq!(bits.bits, bits_of("001001"));
    assert_eq!(report.len(), 0);
}

#[test]
fn bank_output_is_placed_in_words_of_the_bank() {
    let mut image = BitVec::new();
    let mut output = BitVec::new();
    output.append_bits(&bits_of("111"));
    let mut bank = bank_b();
    bank.wordsize = 2;
    assert!(place_bank_output(&mut image, &bank, &output));
    assert_eq!(image.bits, bits_of("00000000 111"));
    bank.output_offset = None;
    assert!(place_bank_output(&mut image, &bank, &output));
    assert_eq!(image.len(), 11);
    bank.output_offset = Some(usize::MAX);
    bank.wordsize = usize::MAX;
    assert!(!place_bank_output(&mut image, &bank, &output));
    assert_eq!(image.len(), 11);
}

#[test]
fn registered_files_are_parsed_in_order() {
    let mut assembler: Assembler<Expr> = Assembler::new();
    assembler.register_file("first.asm");
    assembler.register_file("second.asm");
    assert_eq!(assembler.root_files, vec!["first.asm", "second.asm"]);
    let parse = |state: State<Expr>, file: &String| {
        let byte = if file == "first.asm" { 0x11 } else { 0x22 };
        parse_program(&[Stmt::Data(Expr::Int(byte), Some(8))], state, file)
    };
    let mut report = Report::new();
    let image = assembler.assemble(&mut report, &parse, &evaluator, 3).unwrap();
    assert_eq!(image.bits, bits_of("00010001 00100010"));
    assert_eq!(assembler.state.bankdata[0].invokations.len(), 2);
    assert_eq!(assembler.root_files.len(), 2);
}

#[test]
fn invokations_are_appended_to_the_current_bank() {
    let mut state = state_with_rules(vec![rule(&[], sized(Expr::Int(1), 8))]);
    let mut report = Report::new();
    state.create_bank(bank_a(), &mut report).unwrap();
    let first = instruction(&state, vec![candidate(0, vec![])], 8);
    state.add_invokation(first);
    let second = instruction(&state, vec![candidate(0, vec![])], 12);
    assert_eq!(second.ctx.bit_offset, 8);
    assert_eq!(second.ctx.bank_ref, BankRef { index: 1 });
    state.add_invokation(second);
    assert_eq!(state.bankdata[1].invokations.len(), 2);
    assert_eq!(state.bankdata[1].cur_bit_offset, 20);
    assert_eq!(state.bankdata[1].invokations[1].size_guess, 12);
    assert_eq!(state.bankdata[0].invokations.len(), 0);
    assert_eq!(state.bankdata[0].cur_bit_offset, 0);
    assert!(state.is_resolvable());
}
