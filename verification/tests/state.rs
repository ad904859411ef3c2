use asmcore::bank::Bank;
use asmcore::bigint::BigInt;
use asmcore::diagn::{Report, Span};
use asmcore::eval::{EvalContext, EvalFunctionInfo, EvalVariableInfo};
use asmcore::rule::{Rule, RuleParameter, Ruleset};
use asmcore::state::{BankRef, Context, RuleRef, RulesetRef, State};
use asmcore::symbols::SymbolContext;
use asmcore::value::Value;

fn bank(name: &str, offset: Option<usize>, size: Option<usize>, wordsize: usize, line: usize) -> Bank {
    Bank {
        name: name.to_string(),
        addr_start: BigInt::from_usize(0),
        addr_size: size,
        wordsize,
        output_offset: offset,
        decl_span: Some(Span::new("banks.asm", line)),
    }
}

fn at(bit_offset: usize) -> Context {
    Context { bit_offset, bank_ref: BankRef { index: 0 }, symbol_ctx: SymbolContext::new() }
}

fn variable(level: usize, names: &[&str]) -> EvalVariableInfo {
    EvalVariableInfo {
        hierarchy_level: level,
        hierarchy: names.iter().map(|s| s.to_string()).collect(),
        span: Span::new("main.asm", 5),
    }
}

fn integer(v: &Value) -> BigInt {
    match v {
        Value::Integer(n) => n.clone(),
        _ => panic!("not an integer"),
    }
}

#[test]
fn fresh_state_holds_the_default_bank() {
    let state: State<u8> = State::new();
    assert_eq!(state.banks.len(), 1);
    assert_eq!(state.bankdata.len(), 1);
    assert_eq!(state.banks[0].name, "");
    assert_eq!(state.banks[0].wordsize, 8);
    assert_eq!(state.banks[0].output_offset, Some(0));
    assert!(state.banks[0].addr_size.is_none());
    assert_eq!(state.cur_bank, BankRef { index: 0 });
    assert_eq!(state.cur_wordsize, 8);
    assert!(state.is_resolvable());
    let ctx = state.get_ctx();
    assert_eq!(ctx.bit_offset, 0);
    assert_eq!(ctx.bank_ref, BankRef { index: 0 });
}

#[test]
fn address_is_bit_offset_in_eighths_from_the_bank_start() {
    let mut state: State<u8> = State::new();
    state.banks[0].addr_start = BigInt::from_usize(0x8000);
    let mut report = Report::new();
    let addr = state.get_addr(&mut report, &at(24), &Span::new_dummy()).unwrap();
    assert!(addr.same_as(&BigInt::from_usize(0x8003)));
    assert_eq!(report.len(), 0);
}

#[test]
fn address_of_the_second_bank_uses_its_start() {
    let mut state: State<u8> = State::new();
    let mut report = Report::new();
    let mut second = bank("rom", Some(0), Some(16), 16, 1);
    second.addr_start = BigInt::from_usize(100);
    state.create_bank(second, &mut report).unwrap();
    let ctx = Context { bit_offset: 32, bank_ref: BankRef { index: 1 }, symbol_ctx: SymbolContext::new() };
    let addr = state.get_addr(&mut report, &ctx, &Span::new_dummy()).unwrap();
    assert!(addr.same_as(&BigInt::from_usize(104)));
}

#[test]
fn misaligned_position_has_no_address() {
    let state: State<u8> = State::new();
    let mut report = Report::new();
    let span = Span::new("main.asm", 11);
    assert!(state.get_addr(&mut report, &at(5), &span).is_err());
    assert_eq!(report.len(), 1);
    assert_eq!(
        report.messages[0].message.descr,
        "position not aligned to an address boundary (3 bits short)"
    );
    assert_eq!(report.messages[0].message.span.as_ref().unwrap().line, 11);
}

#[test]
fn one_bit_short_is_singular() {
    let state: State<u8> = State::new();
    let mut report = Report::new();
    assert!(state.get_addr(&mut report, &at(15), &Span::new_dummy()).is_err());
    assert_eq!(
        report.messages[0].message.descr,
        "position not aligned to an address boundary (1 bit short)"
    );
}

#[test]
fn every_misalignment_names_its_missing_bits() {
    let state: State<u8> = State::new();
    for excess in 1..8usize {
        let mut report = Report::new();
        assert!(state.get_addr(&mut report, &at(64 + excess), &Span::new_dummy()).is_err());
        let short = 8 - excess;
        let unit = if short > 1 { "bits" } else { "bit" };
        let expected =
            format!("position not aligned to an address boundary ({} {} short)", short, unit);
        assert_eq!(report.messages[0].message.descr, expected);
        assert_eq!(report.len(), 1);
    }
}

#[test]
fn adjacent_banks_do_not_overlap() {
    let mut state: State<u8> = State::new();
    let mut report = Report::new();
    assert!(state.create_bank(bank("a", Some(0), Some(4), 8, 1), &mut report).is_ok());
    assert!(state.create_bank(bank("b", Some(4), Some(4), 8, 2), &mut report).is_ok());
    assert_eq!(report.len(), 0);
    assert_eq!(state.banks.len(), 3);
    assert_eq!(state.bankdata.len(), 3);
    assert_eq!(state.cur_bank, BankRef { index: 2 });
    assert_eq!(state.bankdata[2].bank_ref, BankRef { index: 2 });
    assert_eq!(state.bankdata[2].cur_bit_offset, 0);
    assert!(state.is_resolvable());
}

#[test]
fn bank_that_reaches_into_the_next_is_refused() {
    let mut state: State<u8> = State::new();
    let mut report = Report::new();
    assert!(state.create_bank(bank("a", Some(0), Some(5), 8, 1), &mut report).is_ok());
    assert!(state.create_bank(bank("b", Some(4), Some(4), 8, 2), &mut report).is_err());
    assert_eq!(report.len(), 1);
    assert_eq!(report.messages[0].message.descr, "output region overlaps with bank `a`");
    let span = report.messages[0].message.span.as_ref().unwrap();
    assert_eq!(span.file, "banks.asm");
    assert_eq!(span.line, 2);
    assert_eq!(state.banks.len(), 2);
    assert_eq!(state.bankdata.len(), 2);
    assert_eq!(state.cur_bank, BankRef { index: 1 });
}

#[test]
fn overlap_is_counted_in_bits() {
    let mut state: State<u8> = State::new();
    let mut report = Report::new();
    assert!(state.create_bank(bank("wide", Some(0), Some(2), 16, 1), &mut report).is_ok());
    assert!(state.create_bank(bank("late", Some(3), Some(1), 8, 2), &mut report).is_err());
    assert!(state.create_bank(bank("later", Some(4), Some(1), 8, 3), &mut report).is_ok());
}

#[test]
fn unbounded_banks_overlap_what_follows_them() {
    let mut state: State<u8> = State::new();
    let mut report = Report::new();
    assert!(state.create_bank(bank("open", Some(8), None, 8, 1), &mut report).is_ok());
    assert!(state.create_bank(bank("before", Some(0), Some(8), 8, 2), &mut report).is_ok());
    assert!(state.create_bank(bank("into", Some(0), Some(9), 8, 3), &mut report).is_err());
    assert!(state.create_bank(bank("also_open", Some(100), None, 8, 4), &mut report).is_err());
    assert_eq!(report.len(), 2);
    assert_eq!(report.messages[0].message.descr, "output region overlaps with bank `open`");
    assert_eq!(report.messages[1].message.descr, "output region overlaps with bank `open`");
}

#[test]
fn new_unbounded_bank_clashes_with_a_bounded_one_that_ends_after_its_start() {
    let mut state: State<u8> = State::new();
    let mut report = Report::new();
    assert!(state.create_bank(bank("fixed", Some(4), Some(4), 8, 1), &mut report).is_ok());
    assert!(state.create_bank(bank("open", Some(7), None, 8, 2), &mut report).is_err());
    assert!(state.create_bank(bank("open", Some(8), None, 8, 3), &mut report).is_ok());
}

#[test]
fn bank_without_output_never_clashes() {
    let mut state: State<u8> = State::new();
    let mut report = Report::new();
    assert!(state.create_bank(bank("a", Some(0), None, 8, 1), &mut report).is_ok());
    assert!(state.create_bank(bank("ram", None, Some(10), 8, 2), &mut report).is_ok());
    assert!(state.create_bank(bank("ram2", None, None, 8, 3), &mut report).is_ok());
    assert_eq!(report.len(), 0);
}

#[test]
fn the_first_clashing_bank_is_named() {
    let mut state: State<u8> = State::new();
    let mut report = Report::new();
    state.create_bank(bank("one", Some(0), Some(4), 8, 1), &mut report).unwrap();
    state.create_bank(bank("two", Some(4), Some(4), 8, 2), &mut report).unwrap();
    assert!(state.create_bank(bank("all", Some(0), Some(8), 8, 3), &mut report).is_err());
    assert_eq!(report.messages[0].message.descr, "output region overlaps with bank `one`");
}

#[test]
fn huge_banks_are_compared_without_overflow() {
    let mut state: State<u8> = State::new();
    let mut report = Report::new();
    let max = usize::MAX;
    assert!(state.create_bank(bank("far", Some(max), Some(max), max, 1), &mut report).is_ok());
    assert!(state.create_bank(bank("near", Some(0), Some(1), 8, 2), &mut report).is_ok());
    assert!(state.create_bank(bank("wide", Some(1), Some(max), max, 3), &mut report).is_err());
}

#[test]
fn banks_are_found_by_name() {
    let mut state: State<u8> = State::new();
    let mut report = Report::new();
    state.create_bank(bank("rom", Some(0), Some(4), 8, 1), &mut report).unwrap();
    state.create_bank(bank("ram", None, None, 8, 2), &mut report).unwrap();
    let span = Span::new("main.asm", 3);
    assert_eq!(state.find_bank("ram", &mut report, &span), Ok(BankRef { index: 2 }));
    assert_eq!(state.find_bank("rom", &mut report, &span), Ok(BankRef { index: 1 }));
    assert_eq!(state.find_bank("", &mut report, &span), Ok(BankRef { index: 0 }));
    assert_eq!(report.len(), 0);
    assert!(state.find_bank("disk", &mut report, &span).is_err());
    assert_eq!(report.len(), 1);
    assert_eq!(report.messages[0].message.descr, "unknown bank");
}

#[test]
fn rulesets_are_found_and_activated_by_name() {
    let mut state: State<u8> = State::new();
    state.rulesets.push(Ruleset { name: "cpu".to_string(), rules: Vec::new() });
    state.rulesets.push(Ruleset { name: "fpu".to_string(), rules: Vec::new() });
    let mut report = Report::new();
    let span = Span::new("main.asm", 0);
    assert_eq!(state.find_ruleset("fpu", &mut report, &span), Ok(RulesetRef { index: 1 }));
    assert!(state.activate_ruleset("fpu", &mut report, &span).is_ok());
    assert!(state.activate_ruleset("cpu", &mut report, &span).is_ok());
    assert_eq!(state.active_rulesets, vec![RulesetRef { index: 1 }, RulesetRef { index: 0 }]);
    assert_eq!(report.len(), 0);
    assert!(state.activate_ruleset("gpu", &mut report, &span).is_err());
    assert_eq!(state.active_rulesets.len(), 2);
    assert_eq!(report.len(), 1);
    assert_eq!(report.messages[0].message.descr, "unknown ruleset");
}

#[test]
fn rules_are_found_by_reference() {
    let mut state: State<u8> = State::new();
    let rule = Rule { parameters: vec![RuleParameter { name: "x".to_string() }], production: 7u8 };
    state.rulesets.push(Ruleset { name: "cpu".to_string(), rules: vec![rule] });
    let found = state.get_rule(RuleRef { ruleset_ref: RulesetRef { index: 0 }, index: 0 });
    assert_eq!(found.unwrap().production, 7);
    assert!(state.get_rule(RuleRef { ruleset_ref: RulesetRef { index: 0 }, index: 1 }).is_none());
    assert!(state.get_rule(RuleRef { ruleset_ref: RulesetRef { index: 1 }, index: 0 }).is_none());
}

#[test]
fn bank_data_can_be_changed_in_place() {
    let mut state: State<u8> = State::new();
    state.get_bankdata_mut(BankRef { index: 0 }).cur_bit_offset = 40;
    assert_eq!(state.get_bankdata(BankRef { index: 0 }).cur_bit_offset, 40);
    assert_eq!(state.get_ctx().bit_offset, 40);
}

#[test]
fn program_counter_names_evaluate_to_the_address() {
    let mut state: State<u8> = State::new();
    state.banks[0].addr_start = BigInt::from_usize(0x100);
    let mut report = Report::new();
    for name in ["$", "pc"] {
        let value = state.eval_var(&at(16), &variable(0, &[name]), &mut report, true).unwrap();
        assert!(integer(&value).same_as(&BigInt::from_usize(0x102)));
    }
    assert_eq!(report.len(), 0);
}

#[test]
fn program_counter_at_a_misaligned_position_is_reported() {
    let state: State<u8> = State::new();
    let mut report = Report::new();
    let r = state.eval_var(&at(4), &variable(0, &["pc"]), &mut report, false);
    assert!(matches!(r, Err(true)));
    assert_eq!(report.len(), 1);
    assert_eq!(
        report.messages[0].message.descr,
        "position not aligned to an address boundary (4 bits short)"
    );
    assert_eq!(report.messages[0].message.span.as_ref().unwrap().line, 5);
}

#[test]
fn assert_evaluates_to_its_handle() {
    let state: State<u8> = State::new();
    let mut report = Report::new();
    let value = state.eval_var(&at(0), &variable(0, &["assert"]), &mut report, true).unwrap();
    assert!(matches!(value, Value::Function(ref name) if name == "assert"));
}

#[test]
fn reserved_names_are_plain_symbols_below_the_top_level() {
    let mut state: State<u8> = State::new();
    let mut report = Report::new();
    let span = Span::new_dummy();
    state.symbols.create("scope", 0, Value::Void, &mut report, &span).unwrap();
    state.symbols.create("pc", 1, Value::Bool(true), &mut report, &span).unwrap();
    let mut ctx = at(0);
    ctx.symbol_ctx = state.symbols.get_ctx();
    ctx.symbol_ctx.hierarchy.truncate(1);
    let value = state.eval_var(&ctx, &variable(1, &["pc"]), &mut report, true).unwrap();
    assert!(matches!(value, Value::Bool(true)));
}

#[test]
fn declared_symbols_win_over_guesses() {
    let mut state: State<u8> = State::new();
    let mut report = Report::new();
    let span = Span::new_dummy();
    state.symbols.create("x", 0, Value::make_integer(BigInt::from_usize(1)), &mut report, &span).unwrap();
    state.symbol_guesses.create("x", 0, Value::make_integer(BigInt::from_usize(2)), &mut report, &span).unwrap();
    for final_pass in [false, true] {
        let value = state.eval_var(&at(0), &variable(0, &["x"]), &mut report, final_pass).unwrap();
        assert!(integer(&value).same_as(&BigInt::from_usize(1)));
    }
}

#[test]
fn forward_reference_takes_the_guess_while_passes_remain() {
    let mut state: State<u8> = State::new();
    let mut report = Report::new();
    let span = Span::new_dummy();
    state.symbol_guesses.create("later", 0, Value::make_integer(BigInt::from_usize(9)), &mut report, &span).unwrap();
    let value = state.eval_var(&at(0), &variable(0, &["later"]), &mut report, false).unwrap();
    assert!(integer(&value).same_as(&BigInt::from_usize(9)));
    assert_eq!(report.len(), 0);
}

#[test]
fn unknown_name_is_zero_while_passes_remain() {
    let state: State<u8> = State::new();
    let mut report = Report::new();
    let value = state.eval_var(&at(0), &variable(0, &["nowhere"]), &mut report, false).unwrap();
    assert!(integer(&value).same_as(&BigInt::from_usize(0)));
    assert_eq!(report.len(), 0);
    let looked = state.lookup_var(&at(0), &variable(0, &["nowhere"]), &mut report, false).unwrap();
    assert!(integer(&looked).same_as(&BigInt::from_usize(0)));
    assert_eq!(report.len(), 0);
}

#[test]
fn unknown_name_fails_unreported_in_the_final_pass() {
    let mut state: State<u8> = State::new();
    let mut report = Report::new();
    let span = Span::new_dummy();
    state.symbol_guesses.create("later", 0, Value::Void, &mut report, &span).unwrap();
    let r = state.eval_var(&at(0), &variable(0, &["later"]), &mut report, true);
    assert!(matches!(r, Err(false)));
    assert_eq!(report.len(), 0);
}

#[test]
fn lookup_reports_each_unknown_name_once_in_the_final_pass() {
    let state: State<u8> = State::new();
    let mut report = Report::new();
    assert!(state.lookup_var(&at(0), &variable(0, &["a"]), &mut report, true).is_err());
    assert_eq!(report.len(), 1);
    assert_eq!(report.messages[0].message.descr, "unknown symbol");
    assert_eq!(report.messages[0].message.span.as_ref().unwrap().line, 5);
    assert!(state.lookup_var(&at(0), &variable(0, &["b"]), &mut report, true).is_err());
    assert_eq!(report.len(), 2);
}

#[test]
fn lookup_does_not_report_a_misaligned_position_twice() {
    let state: State<u8> = State::new();
    let mut report = Report::new();
    assert!(state.lookup_var(&at(1), &variable(0, &["$"]), &mut report, true).is_err());
    assert_eq!(report.len(), 1);
    assert_eq!(
        report.messages[0].message.descr,
        "position not aligned to an address boundary (7 bits short)"
    );
}

fn call_assert(args: Vec<Value>) -> EvalFunctionInfo {
    EvalFunctionInfo { func: Value::make_function("assert"), args, span: Span::new("main.asm", 8) }
}

#[test]
fn assertion_that_holds_gives_nothing() {
    let state: State<u8> = State::new();
    let mut report = Report::new();
    let r = state.eval_fn(&at(0), &call_assert(vec![Value::Bool(true)]), &mut report);
    assert!(matches!(r, Ok(Value::Void)));
    assert_eq!(report.len(), 0);
}

#[test]
fn assertion_that_fails_is_reported() {
    let state: State<u8> = State::new();
    let mut report = Report::new();
    let r = state.eval_fn(&at(0), &call_assert(vec![Value::Bool(false)]), &mut report);
    assert!(matches!(r, Err(true)));
    assert_eq!(report.len(), 1);
    assert_eq!(report.messages[0].message.descr, "assertion failed");
    assert_eq!(report.messages[0].message.span.as_ref().unwrap().line, 8);
}

#[test]
fn assertion_wants_one_argument() {
    let state: State<u8> = State::new();
    let mut report = Report::new();
    let none = state.eval_fn(&at(0), &call_assert(vec![]), &mut report);
    assert!(matches!(none, Err(true)));
    let two = state.eval_fn(&at(0), &call_assert(vec![Value::Bool(true), Value::Bool(true)]), &mut report);
    assert!(matches!(two, Err(true)));
    assert_eq!(report.len(), 2);
    assert_eq!(report.messages[0].message.descr, "wrong number of arguments");
    assert_eq!(report.messages[1].message.descr, "wrong number of arguments");
}

#[test]
fn assertion_wants_a_boolean() {
    let state: State<u8> = State::new();
    let mut report = Report::new();
    let r = state.eval_fn(
        &at(0),
        &call_assert(vec![Value::make_integer(BigInt::from_usize(1))]),
        &mut report,
    );
    assert!(matches!(r, Err(true)));
    assert_eq!(report.messages[0].message.descr, "wrong argument type");
}

#[test]
fn locals_hide_earlier_bindings() {
    let mut locals = EvalContext::new();
    assert!(locals.get_local("x").is_none());
    locals.set_local("x", Value::Bool(false));
    locals.set_local("y", Value::Void);
    locals.set_local("x", Value::Bool(true));
    assert!(matches!(locals.get_local("x"), Some(Value::Bool(true))));
    assert!(matches!(locals.get_local("y"), Some(Value::Void)));
    assert!(locals.get_local("z").is_none());
}
