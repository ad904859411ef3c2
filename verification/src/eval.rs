use vstd::prelude::*;
use vstd::string::*;
use crate::bigint::{BigInt, Integer};
use crate::diagn::{Entry, Report, Span};
use crate::state::{misaligned_text, Context, State};
use crate::symbols::{names, SymbolTable};
use crate::value::{Datum, Value};

verus! {

/// A local of an evaluation: a name and the value bound to it.
#[derive(Debug)]
pub struct Local {
    pub name: String,
    pub value: Value,
}

/// What a list of locals binds: each name to the value that was bound to it last.
pub open spec fn bound_map(locals: Seq<Local>) -> Map<Seq<char>, Datum>
    decreases locals.len(),
{
    if locals.len() == 0 {
        Map::empty()
    } else {
        bound_map(locals.drop_last()).insert(locals.last().name@, locals.last().value@)
    }
}

/// The locals that an expression is evaluated with.
#[derive(Debug)]
pub struct EvalContext {
    pub locals: Vec<Local>,
}

impl View for EvalContext {
    type V = Map<Seq<char>, Datum>;

    open spec fn view(&self) -> Map<Seq<char>, Datum> {
        bound_map(self.locals@)
    }
}

impl EvalContext {
    /// No locals.
    pub fn new() -> (r: EvalContext)
        ensures
            r@ == Map::<Seq<char>, Datum>::empty(),
    {
        EvalContext { locals: Vec::new() }
    }

    /// Binds `name` to `value`; an earlier binding of the name is hidden.
    pub fn set_local(&mut self, name: &str, value: Value)
        ensures
            final(self)@ == old(self)@.insert(name@, value@),
    {
        self.locals.push(Local { name: String::from_str(name), value });
        assert(self.locals@.drop_last() == old(self).locals@);
    }

    /// The value bound to `name`, if any is.
    pub fn get_local(&self, name: &str) -> (r: Option<&Value>)
        ensures
            match r {
                Some(value) => self@.contains_key(name@) && self@[name@] == value@,
                None => !self@.contains_key(name@),
            },
    {
        let wanted = String::from_str(name);
        let mut i: usize = self.locals.len();
        assert(self.locals@.take(i as int) == self.locals@);
        while i > 0
            invariant
                i <= self.locals.len(),
                wanted@ == name@,
                bound_map(self.locals@.take(i as int)).contains_key(name@) == self@.contains_key(name@),
                self@.contains_key(name@) ==> bound_map(self.locals@.take(i as int))[name@]
                    == self@[name@],
            decreases i,
        {
            proof {
                let now = self.locals@.take(i as int);
                assert(now.drop_last() == self.locals@.take(i - 1));
                assert(now.last() == self.locals@[i - 1]);
            }
            if self.locals[i - 1].name == wanted {
                return Some(&self.locals[i - 1].value);
            }
            i = i - 1;
        }
        None
    }
}

/// What the evaluator asks when it meets a variable: the name's path, the hierarchy level it
/// is read at, and where it stands.
#[derive(Debug)]
pub struct EvalVariableInfo {
    pub hierarchy_level: usize,
    pub hierarchy: Vec<String>,
    pub span: Span,
}

/// What the evaluator asks when it meets a call: the callee, the arguments, and where the
/// call stands.
#[derive(Debug)]
pub struct EvalFunctionInfo {
    pub func: Value,
    pub args: Vec<Value>,
    pub span: Span,
}

/// What a list of values stands for.
pub open spec fn data(v: Seq<Value>) -> Seq<Datum> {
    v.map_values(|x: Value| x@)
}

/// What one evaluation gave: the value or a failure, and a report of its own with the
/// diagnostics that the evaluation emitted.
#[derive(Debug)]
pub struct Evaluation {
    pub value: Result<Value, ()>,
    pub report: Report,
}

/// What a result of an evaluation stands for.
pub open spec fn datum_of(value: Result<Value, ()>) -> Result<Datum, ()> {
    match value {
        Ok(v) => Ok(v@),
        Err(_) => Err(()),
    }
}

/// What an `Evaluation` stands for: the value or a failure, and the entries emitted.
pub struct Outcome {
    pub value: Result<Datum, ()>,
    pub emitted: Seq<Entry>,
}

impl View for Evaluation {
    type V = Outcome;

    open spec fn view(&self) -> Outcome {
        Outcome { value: datum_of(self.value), emitted: self.report@.messages }
    }
}

/// Whether a path read at a level is one of the two names of the program counter.
pub open spec fn names_pc(level: usize, path: Seq<Seq<char>>) -> bool {
    level == 0 && path.len() == 1 && (path[0] == "$"@ || path[0] == "pc"@)
}

/// Whether a path read at a level is the name of the built-in `assert`.
pub open spec fn names_assert(level: usize, path: Seq<Seq<char>>) -> bool {
    level == 0 && path.len() == 1 && path[0] == "assert"@
}

/// The integer zero without a declared width: what an unknown name is taken for while passes
/// remain.
pub open spec fn zero_guess() -> Datum {
    Datum::Integer(Integer { value: 0, size: None })
}

/// What a name that is none of the reserved ones evaluates to. The symbols of this pass are
/// asked first. Where they do not know the name, a final pass fails without having reported
/// anything (`Err(false)`); any other pass takes the value from the pass before, or zero where
/// that pass did not know the name either.
pub open spec fn symbol_value(
    symbols: SymbolTable,
    guesses: SymbolTable,
    cursor: Seq<Seq<char>>,
    level: usize,
    path: Seq<Seq<char>>,
    final_pass: bool,
) -> Result<Datum, bool> {
    match symbols.lookup(cursor, level, path) {
        Some(found) => Ok(found.value),
        None => if final_pass {
            Err(false)
        } else {
            match guesses.lookup(cursor, level, path) {
                Some(guess) => Ok(guess.value),
                None => Ok(zero_guess()),
            }
        },
    }
}

/// What the built-in `assert` gives for its arguments: nothing on the one argument `true`, or
/// else the text of the error.
pub open spec fn assert_outcome(args: Seq<Datum>) -> Result<Datum, Seq<char>> {
    if args.len() != 1 {
        Err("wrong number of arguments"@)
    } else {
        match args[0] {
            Datum::Bool(true) => Ok(Datum::Void),
            Datum::Bool(false) => Err("assertion failed"@),
            _ => Err("wrong argument type"@),
        }
    }
}

impl<E> State<E> {
    /// What a variable evaluates to at the position `ctx`.
    ///
    /// An error carries `true` where it was reported here already, `false` where reporting is
    /// left to the evaluator.
    pub open spec fn variable_value(
        &self,
        ctx: &Context,
        level: usize,
        path: Seq<Seq<char>>,
        final_pass: bool,
    ) -> Result<Datum, bool> {
        if names_pc(level, path) {
            if ctx.bit_offset % 8 == 0 {
                Ok(
                    Datum::Integer(
                        Integer {
                            value: ctx.bit_offset / 8
                                + self.banks[ctx.bank_ref.index as int]@.addr_start.value,
                            size: None,
                        },
                    ),
                )
            } else {
                Err(true)
            }
        } else if names_assert(level, path) {
            Ok(Datum::Function("assert"@))
        } else {
            symbol_value(
                self.symbols@,
                self.symbol_guesses@,
                ctx.symbol_ctx@,
                level,
                path,
                final_pass,
            )
        }
    }

    /// Answers the evaluator's question for a variable.
    ///
    /// `$` and `pc` are the address of the position, `assert` is the handle of the built-in
    /// function; every other name is looked up among the symbols. Nothing is reported but the
    /// misaligned position of a program counter that has no address.
    pub fn eval_var(
        &self,
        ctx: &Context,
        info: &EvalVariableInfo,
        report: &mut Report,
        final_pass: bool,
    ) -> (r: Result<Value, bool>)
        requires
            self.valid_ctx(ctx),
        ensures
            match (r, self.variable_value(ctx, info.hierarchy_level, names(info.hierarchy@), final_pass)) {
                (Ok(value), Ok(datum)) => value@ == datum,
                (Err(mine), Err(reported)) => mine == reported,
                _ => false,
            },
            final(report)@ == if r == Err::<Value, bool>(true) {
                old(report)@.with_error(
                    misaligned_text((8 - ctx.bit_offset % 8) as nat),
                    Some(info.span@),
                )
            } else {
                old(report)@
            },
    {
        if info.hierarchy_level == 0 && info.hierarchy.len() == 1 {
            let name = &info.hierarchy[0];
            assert(names(info.hierarchy@)[0] == name@);
            if *name == String::from_str("$") || *name == String::from_str("pc") {
                return match self.get_addr(report, ctx, &info.span) {
                    Err(_) => Err(true),
                    Ok(addr) => Ok(Value::make_integer(addr)),
                };
            }
            if *name == String::from_str("assert") {
                return Ok(Value::make_function("assert"));
            }
        }
        match self.symbols.get(&ctx.symbol_ctx, info.hierarchy_level, &info.hierarchy) {
            Some(symbol) => Ok(symbol.value.clone()),
            None => {
                if !final_pass {
                    match self.symbol_guesses.get(
                        &ctx.symbol_ctx,
                        info.hierarchy_level,
                        &info.hierarchy,
                    ) {
                        Some(symbol) => Ok(symbol.value.clone()),
                        None => Ok(Value::make_integer(BigInt::from_usize(0))),
                    }
                } else {
                    Err(false)
                }
            },
        }
    }

    /// Looks a variable up for the evaluator and sees to it that every failure is reported
    /// once: where `eval_var` fails without having reported anything, an "unknown symbol" error
    /// is emitted at the variable.
    ///
    /// So a name that no pass has declared is zero while passes remain, and nothing is
    /// reported; in a final pass it fails with the one error "unknown symbol".
    pub fn lookup_var(
        &self,
        ctx: &Context,
        info: &EvalVariableInfo,
        report: &mut Report,
        final_pass: bool,
    ) -> (r: Result<Value, ()>)
        requires
            self.valid_ctx(ctx),
        ensures
            match self.variable_value(ctx, info.hierarchy_level, names(info.hierarchy@), final_pass) {
                Ok(datum) => {
                    &&& r.is_ok()
                    &&& r.unwrap()@ == datum
                    &&& final(report)@ == old(report)@
                },
                Err(reported) => {
                    &&& r.is_err()
                    &&& final(report)@ == old(report)@.with_error(
                        if reported {
                            misaligned_text((8 - ctx.bit_offset % 8) as nat)
                        } else {
                            "unknown symbol"@
                        },
                        Some(info.span@),
                    )
                },
            },
    {
        match self.eval_var(ctx, info, report, final_pass) {
            Ok(value) => Ok(value),
            Err(reported) => {
                if !reported {
                    report.error_span("unknown symbol", &info.span);
                }
                Err(())
            },
        }
    }

    /// Answers the evaluator's question for a call of the built-in `assert`, the only function
    /// there is: one argument `true` gives nothing; anything else is reported at the call and
    /// fails.
    pub fn eval_fn(&self, ctx: &Context, info: &EvalFunctionInfo, report: &mut Report) -> (r: Result<
        Value,
        bool,
    >)
        requires
            info.func@ == Datum::Function("assert"@),
        ensures
            match assert_outcome(data(info.args@)) {
                Ok(datum) => {
                    &&& r.is_ok()
                    &&& r.unwrap()@ == datum
                    &&& final(report)@ == old(report)@
                },
                Err(text) => {
                    &&& r == Err::<Value, bool>(true)
                    &&& final(report)@ == old(report)@.with_error(text, Some(info.span@))
                },
            },
    {
        if info.args.len() != 1 {
            report.error_span("wrong number of arguments", &info.span);
            return Err(true);
        }
        assert(data(info.args@)[0] == info.args@[0]@);
        match &info.args[0] {
            Value::Bool(value) => {
                if *value {
                    Ok(Value::Void)
                } else {
                    report.error_span("assertion failed", &info.span);
                    Err(true)
                }
            },
            _ => {
                report.error_span("wrong argument type", &info.span);
                Err(true)
            },
        }
    }
}

} // verus!
