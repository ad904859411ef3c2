use vstd::prelude::*;
use vstd::string::*;
use crate::bank::{layouts, Bank, Layout};
use crate::bigint::BigInt;
use crate::diagn::{Report, Span};
use crate::rule::{
    check_candidates, valid_candidates, Invokation, InvokationKind, Rule, Ruleset,
};
use crate::symbols::{SymbolContext, SymbolManager};
use crate::text::{decimal, push_decimal};

verus! {

/// A bank, by its position in the list of banks.
#[derive(Copy, Clone, Debug, PartialEq, Eq, Hash, Structural)]
pub struct BankRef {
    pub index: usize,
}

/// A ruleset, by its position in the list of rulesets.
#[derive(Copy, Clone, Debug, PartialEq, Eq, Hash, Structural)]
pub struct RulesetRef {
    pub index: usize,
}

/// A rule, by its ruleset and its position in it.
#[derive(Copy, Clone, Debug, PartialEq, Eq, Hash, Structural)]
pub struct RuleRef {
    pub ruleset_ref: RulesetRef,
    pub index: usize,
}

/// The position captured where something was parsed: the bit offset in the bank, the bank, and
/// the symbol cursor.
#[derive(Debug)]
pub struct Context {
    pub bit_offset: usize,
    pub bank_ref: BankRef,
    pub symbol_ctx: SymbolContext,
}

impl Clone for Context {
    fn clone(&self) -> (r: Context)
        ensures
            r.bit_offset == self.bit_offset,
            r.bank_ref == self.bank_ref,
            r.symbol_ctx@ == self.symbol_ctx@,
    {
        Context {
            bit_offset: self.bit_offset,
            bank_ref: self.bank_ref,
            symbol_ctx: self.symbol_ctx.clone(),
        }
    }
}

/// What one bank holds in a pass: the write cursor, in bits from the bank's start, and the
/// pending emissions in the order of the source.
#[derive(Debug)]
pub struct BankData<E> {
    pub bank_ref: BankRef,
    pub cur_bit_offset: usize,
    pub invokations: Vec<Invokation<E>>,
}

/// Everything one pass knows: the banks and what they hold, the symbols declared in this pass
/// and those carried over from the pass before, the rulesets, and the cursors of the parser.
#[derive(Debug)]
pub struct State<E> {
    pub banks: Vec<Bank>,
    pub bankdata: Vec<BankData<E>>,
    pub symbols: SymbolManager,
    pub symbol_guesses: SymbolManager,
    pub rulesets: Vec<Ruleset<E>>,
    pub active_rulesets: Vec<RulesetRef>,
    pub cur_bank: BankRef,
    pub cur_wordsize: usize,
}

/// The text of the error for a position that lies `bits_short` bits before the next address
/// boundary.
pub open spec fn misaligned_text(bits_short: nat) -> Seq<char> {
    "position not aligned to an address boundary ("@ + decimal(bits_short) + " "@ + (if bits_short
        > 1 {
        "bits"@
    } else {
        "bit"@
    }) + " short)"@
}

/// The text of the error for a new bank whose output region overlaps that of the bank `name`.
pub open spec fn overlap_text(name: Seq<char>) -> Seq<char> {
    "output region overlaps with bank `"@ + name + "`"@
}

/// Whether `at` is the first named bank of `banks` that a new bank with the layout `new`
/// clashes with. The bank at position 0, the default bank, is never looked at.
pub open spec fn is_first_clash(banks: Seq<Layout>, new: Layout, at: int) -> bool {
    &&& 1 <= at < banks.len()
    &&& new.clashes_with(banks[at])
    &&& forall|j: int| 1 <= j < at ==> !new.clashes_with(#[trigger] banks[j])
}

/// Whether a new bank with the layout `new` clashes with some named bank of `banks`.
pub open spec fn has_clash(banks: Seq<Layout>, new: Layout) -> bool {
    exists|j: int| 1 <= j < banks.len() && new.clashes_with(#[trigger] banks[j])
}

/// Whether `at` is the first position of `names` that holds `name`.
pub open spec fn is_first_named(names: Seq<Seq<char>>, name: Seq<char>, at: int) -> bool {
    &&& 0 <= at < names.len()
    &&& names[at] == name
    &&& forall|j: int| 0 <= j < at ==> #[trigger] names[j] != name
}

/// Whether `name` is among `names`.
pub open spec fn is_named(names: Seq<Seq<char>>, name: Seq<char>) -> bool {
    exists|j: int| 0 <= j < names.len() && #[trigger] names[j] == name
}

impl<E> State<E> {
    /// The names of the banks, in the order of their declaration.
    pub open spec fn bank_names(&self) -> Seq<Seq<char>> {
        self.banks@.map_values(|b: Bank| b.name@)
    }

    /// The names of the rulesets, in the order of their declaration.
    pub open spec fn ruleset_names(&self) -> Seq<Seq<char>> {
        self.rulesets@.map_values(|r: Ruleset<E>| r.name@)
    }

    /// Whether the state is well formed: every bank has its data, there is at least the
    /// default bank, and the current bank is one of the banks.
    pub open spec fn wf(&self) -> bool {
        &&& self.banks.len() >= 1
        &&& self.banks.len() == self.bankdata.len()
        &&& self.cur_bank.index < self.banks.len()
    }

    /// Whether a context names a bank of this state.
    pub open spec fn valid_ctx(&self, ctx: &Context) -> bool {
        ctx.bank_ref.index < self.banks.len()
    }

    /// Whether a rule reference names a rule of this state.
    pub open spec fn valid_rule(&self, rule_ref: RuleRef) -> bool {
        &&& rule_ref.ruleset_ref.index < self.rulesets.len()
        &&& rule_ref.index < self.rulesets[rule_ref.ruleset_ref.index as int].rules.len()
    }

    /// Whether an invokation can be resolved against this state: its context names a bank,
    /// the bits reserved for it end within the range of a machine word, and, for an
    /// instruction, its candidates are valid.
    pub open spec fn valid_invokation(&self, invok: &Invokation<E>) -> bool {
        &&& self.valid_ctx(&invok.ctx)
        &&& invok.ctx.bit_offset + invok.size_guess < usize::MAX
        &&& match invok.kind {
            InvokationKind::Rule(rule_invok) => valid_candidates(self.rulesets@, rule_invok.candidates),
            InvokationKind::Data(_) => true,
        }
    }

    /// Whether every invokation of a bank's data can be resolved against this state.
    pub open spec fn valid_bankdata(&self, bank: &BankData<E>) -> bool {
        forall|i: int|
            0 <= i < bank.invokations.len() ==> self.valid_invokation(#[trigger] &bank.invokations[i])
    }

    /// Whether the state is well formed and all that its banks hold can be resolved.
    pub open spec fn resolvable(&self) -> bool {
        &&& self.wf()
        &&& forall|i: int| 0 <= i < self.bankdata.len() ==> self.valid_bankdata(#[trigger] &self.bankdata[i])
    }

    /// Whether this is a state as a pass starts with, whatever it holds as symbols of the pass
    /// before: the default bank alone and empty, no symbols, no rulesets, 8-bit words.
    pub open spec fn is_fresh(&self) -> bool {
        &&& layouts(self.banks@) == seq![Layout::default_bank()]
        &&& self.bankdata.len() == 1
        &&& self.bankdata[0].bank_ref == (BankRef { index: 0 })
        &&& self.bankdata[0].cur_bit_offset == 0
        &&& self.bankdata[0].invokations.len() == 0
        &&& self.symbols@.bindings.len() == 0
        &&& self.symbols@.cursor.len() == 0
        &&& self.rulesets.len() == 0
        &&& self.active_rulesets.len() == 0
        &&& self.cur_bank == (BankRef { index: 0 })
        &&& self.cur_wordsize == 8
    }

    /// Executable form of `valid_invokation`.
    pub fn is_valid_invokation(&self, invok: &Invokation<E>) -> (r: bool)
        ensures
            r == self.valid_invokation(invok),
    {
        if invok.ctx.bank_ref.index >= self.banks.len() {
            return false;
        }
        if invok.size_guess >= usize::MAX - invok.ctx.bit_offset {
            return false;
        }
        match &invok.kind {
            InvokationKind::Rule(rule_invok) => check_candidates(
                &self.rulesets,
                &rule_invok.candidates,
            ),
            InvokationKind::Data(_) => true,
        }
    }

    /// Executable form of `resolvable`.
    pub fn is_resolvable(&self) -> (r: bool)
        ensures
            r == self.resolvable(),
    {
        if self.banks.len() < 1 || self.banks.len() != self.bankdata.len() || self.cur_bank.index
            >= self.banks.len() {
            return false;
        }
        let mut b: usize = 0;
        while b < self.bankdata.len()
            invariant
                b <= self.bankdata.len(),
                self.wf(),
                forall|i: int| 0 <= i < b ==> self.valid_bankdata(#[trigger] &self.bankdata[i]),
            decreases self.bankdata.len() - b,
        {
            let bank = &self.bankdata[b];
            let mut i: usize = 0;
            while i < bank.invokations.len()
                invariant
                    i <= bank.invokations.len(),
                    b < self.bankdata.len(),
                    *bank == self.bankdata[b as int],
                    forall|j: int|
                        0 <= j < i ==> self.valid_invokation(#[trigger] &bank.invokations[j]),
                decreases bank.invokations.len() - i,
            {
                if !self.is_valid_invokation(&bank.invokations[i]) {
                    assert(!self.valid_invokation(&self.bankdata[b as int].invokations[i as int]));
                    assert(!self.valid_bankdata(&self.bankdata[b as int]));
                    return false;
                }
                i = i + 1;
            }
            assert(self.valid_bankdata(&self.bankdata[b as int]));
            b = b + 1;
        }
        true
    }

    /// The state at the start of the first pass: fresh, with no symbols of a pass before.
    pub fn new() -> (state: State<E>)
        ensures
            state.is_fresh(),
            state.resolvable(),
            state.symbol_guesses@.bindings.len() == 0,
            state.symbol_guesses@.cursor.len() == 0,
    {
        let mut banks: Vec<Bank> = Vec::new();
        banks.push(Bank::new_default());
        let mut bankdata: Vec<BankData<E>> = Vec::new();
        bankdata.push(
            BankData { bank_ref: BankRef { index: 0 }, cur_bit_offset: 0, invokations: Vec::new() },
        );
        assert(layouts(banks@) =~= seq![banks@[0]@]);
        State {
            banks,
            bankdata,
            symbols: SymbolManager::new(),
            symbol_guesses: SymbolManager::new(),
            rulesets: Vec::new(),
            active_rulesets: Vec::new(),
            cur_bank: BankRef { index: 0 },
            cur_wordsize: 8,
        }
    }

    /// The position at which the parser stands: the write cursor of the current bank, the
    /// current bank, and the symbol cursor.
    pub fn get_ctx(&self) -> (ctx: Context)
        requires
            self.wf(),
        ensures
            ctx.bit_offset == self.bankdata[self.cur_bank.index as int].cur_bit_offset,
            ctx.bank_ref == self.cur_bank,
            ctx.symbol_ctx@ == self.symbols@.cursor,
            self.valid_ctx(&ctx),
    {
        let bit_offset = self.get_bankdata(self.cur_bank).cur_bit_offset;
        let bank_ref = self.cur_bank;
        let symbol_ctx = self.symbols.get_ctx();
        Context { bit_offset, bank_ref, symbol_ctx }
    }

    /// The address of a position: its bit offset in eighths, from the address at which its
    /// bank starts. A position that is not a multiple of 8 bits has no address; the error says
    /// how many bits are missing to the next boundary.
    pub fn get_addr(&self, report: &mut Report, ctx: &Context, span: &Span) -> (r: Result<
        BigInt,
        (),
    >)
        requires
            self.valid_ctx(ctx),
        ensures
            match r {
                Ok(addr) => {
                    &&& ctx.bit_offset % 8 == 0
                    &&& addr@.value == ctx.bit_offset / 8
                        + self.banks[ctx.bank_ref.index as int]@.addr_start.value
                    &&& addr@.size.is_none()
                    &&& final(report)@ == old(report)@
                },
                Err(_) => {
                    &&& ctx.bit_offset % 8 != 0
                    &&& final(report)@ == old(report)@.with_error(
                        misaligned_text((8 - ctx.bit_offset % 8) as nat),
                        Some(span@),
                    )
                },
            },
    {
        let bits: usize = 8;
        let bank = &self.banks[ctx.bank_ref.index];
        let excess_bits = ctx.bit_offset % bits;
        if excess_bits != 0 {
            let bits_short = bits - excess_bits;
            let mut descr = String::from_str("position not aligned to an address boundary (");
            push_decimal(&mut descr, bits_short);
            descr.append(" ");
            if bits_short > 1 {
                descr.append("bits");
            } else {
                descr.append("bit");
            }
            descr.append(" short)");
            report.error_span(descr.as_str(), span);
            return Err(());
        }
        let addr = BigInt::from_usize(ctx.bit_offset / bits).add(&bank.addr_start);
        Ok(addr)
    }

    /// Registers a bank and makes it the current one.
    ///
    /// A bank with an output offset is first held against every named bank that has one, in
    /// the order of their declaration: where its output region overlaps that of another, the
    /// bank is refused with an error at its own declaration that names the other bank, and the
    /// state stays as it was.
    pub fn create_bank(&mut self, bank: Bank, report: &mut Report) -> (r: Result<(), ()>)
        requires
            old(self).wf(),
            old(self).banks.len() < usize::MAX,
        ensures
            final(self).wf(),
            old(self).resolvable() ==> final(self).resolvable(),
            match r {
                Err(_) => {
                    &&& *final(self) == *old(self)
                    &&& exists|at: int|
                        {
                            &&& #[trigger] is_first_clash(layouts(old(self).banks@), bank@, at)
                            &&& final(report)@ == old(report)@.with_error(
                                overlap_text(old(self).banks[at].name@),
                                bank@.decl_span,
                            )
                        }
                },
                Ok(_) => {
                    &&& !has_clash(layouts(old(self).banks@), bank@)
                    &&& final(report)@ == old(report)@
                    &&& final(self).banks@ == old(self).banks@.push(bank)
                    &&& final(self).bankdata@.drop_last() == old(self).bankdata@
                    &&& final(self).bankdata@.last().bank_ref.index == old(self).banks.len()
                    &&& final(self).bankdata@.last().cur_bit_offset == 0
                    &&& final(self).bankdata@.last().invokations.len() == 0
                    &&& final(self).cur_bank.index == old(self).banks.len()
                    &&& final(self).symbols == old(self).symbols
                    &&& final(self).symbol_guesses == old(self).symbol_guesses
                    &&& final(self).rulesets == old(self).rulesets
                    &&& final(self).active_rulesets == old(self).active_rulesets
                    &&& final(self).cur_wordsize == old(self).cur_wordsize
                },
            },
    {
        let mut j: usize = 1;
        while j < self.banks.len()
            invariant
                1 <= j,
                *self == *old(self),
                *report == *old(report),
                old(self).wf(),
                old(self).banks.len() < usize::MAX,
                forall|k: int|
                    1 <= k < j && k < self.banks.len() ==> !bank@.clashes_with(
                        #[trigger] layouts(self.banks@)[k],
                    ),
            decreases self.banks.len() - j,
        {
            let other_bank = &self.banks[j];
            if bank.clashes_with(other_bank) {
                let mut descr = String::from_str("output region overlaps with bank `");
                descr.append(other_bank.name.as_str());
                descr.append("`");
                match &bank.decl_span {
                    Some(span) => {
                        report.error_span(descr.as_str(), span);
                    },
                    None => {
                        report.error(descr.as_str());
                    },
                }
                proof {
                    assert(layouts(old(self).banks@)[j as int] == other_bank@);
                    assert(is_first_clash(layouts(old(self).banks@), bank@, j as int));
                    assert(descr@ == overlap_text(old(self).banks[j as int].name@));
                }
                return Err(());
            }
            j = j + 1;
        }
        assert(!has_clash(layouts(old(self).banks@), bank@));
        let bank_ref = BankRef { index: self.banks.len() };
        self.banks.push(bank);
        self.bankdata.push(BankData { bank_ref, cur_bit_offset: 0, invokations: Vec::new() });
        self.cur_bank = bank_ref;
        proof {
            assert(self.bankdata@.drop_last() =~= old(self).bankdata@);
            if old(self).resolvable() {
                assert forall|i: int| 0 <= i < self.bankdata.len() implies self.valid_bankdata(
                    #[trigger] &self.bankdata[i],
                ) by {
                    if i < old(self).bankdata.len() {
                        assert(self.bankdata@.drop_last()[i] == self.bankdata@[i]);
                        assert(self.bankdata[i] == old(self).bankdata[i]);
                        assert(old(self).valid_bankdata(&old(self).bankdata[i]));
                        assert forall|j: int|
                            0 <= j < self.bankdata[i].invokations.len() implies self.valid_invokation(
                            #[trigger] &self.bankdata[i].invokations[j],
                        ) by {
                            assert(old(self).valid_invokation(&old(self).bankdata[i].invokations[j]));
                        }
                    }
                }
            }
        }
        Ok(())
    }

    /// The bank called `name`: the first one declared under that name. Where there is none, an
    /// "unknown bank" error is reported at `span`.
    pub fn find_bank(&self, name: &str, report: &mut Report, span: &Span) -> (r: Result<BankRef, ()>)
        ensures
            match r {
                Ok(bank_ref) => {
                    &&& is_first_named(self.bank_names(), name@, bank_ref.index as int)
                    &&& final(report)@ == old(report)@
                },
                Err(_) => {
                    &&& !is_named(self.bank_names(), name@)
                    &&& final(report)@ == old(report)@.with_error("unknown bank"@, Some(span@))
                },
            },
    {
        let wanted = String::from_str(name);
        let mut i: usize = 0;
        while i < self.banks.len()
            invariant
                i <= self.banks.len(),
                wanted@ == name@,
                forall|j: int| 0 <= j < i ==> #[trigger] self.bank_names()[j] != name@,
            decreases self.banks.len() - i,
        {
            if self.banks[i].name == wanted {
                assert(self.bank_names()[i as int] == name@);
                return Ok(BankRef { index: i });
            }
            assert(self.bank_names()[i as int] != name@);
            i = i + 1;
        }
        report.error_span("unknown bank", span);
        Err(())
    }

    /// What the bank `bank_ref` holds.
    pub fn get_bankdata(&self, bank_ref: BankRef) -> (r: &BankData<E>)
        requires
            bank_ref.index < self.bankdata.len(),
        ensures
            *r == self.bankdata[bank_ref.index as int],
    {
        &self.bankdata[bank_ref.index]
    }

    /// What the bank `bank_ref` holds, to be changed in place.
    pub fn get_bankdata_mut(&mut self, bank_ref: BankRef) -> (r: &mut BankData<E>)
        requires
            bank_ref.index < old(self).bankdata.len(),
        ensures
            *r == old(self).bankdata[bank_ref.index as int],
            final(self).bankdata@ == old(self).bankdata@.update(bank_ref.index as int, *final(r)),
            final(self).banks == old(self).banks,
            final(self).symbols == old(self).symbols,
            final(self).symbol_guesses == old(self).symbol_guesses,
            final(self).rulesets == old(self).rulesets,
            final(self).active_rulesets == old(self).active_rulesets,
            final(self).cur_bank == old(self).cur_bank,
            final(self).cur_wordsize == old(self).cur_wordsize,
    {
        &mut self.bankdata[bank_ref.index]
    }

    /// Appends a pending emission to what the current bank holds, and moves the bank's write
    /// cursor on by the bits reserved for it.
    pub fn add_invokation(&mut self, invokation: Invokation<E>)
        requires
            old(self).resolvable(),
            old(self).valid_invokation(&invokation),
            old(self).bankdata[old(self).cur_bank.index as int].cur_bit_offset
                + invokation.size_guess <= usize::MAX,
        ensures
            final(self).resolvable(),
            final(self).bankdata@ == old(self).bankdata@.update(
                old(self).cur_bank.index as int,
                final(self).bankdata[old(self).cur_bank.index as int],
            ),
            final(self).bankdata[old(self).cur_bank.index as int].invokations@ == old(
                self,
            ).bankdata[old(self).cur_bank.index as int].invokations@.push(invokation),
            final(self).bankdata[old(self).cur_bank.index as int].cur_bit_offset == old(
                self,
            ).bankdata[old(self).cur_bank.index as int].cur_bit_offset + invokation.size_guess,
            final(self).bankdata[old(self).cur_bank.index as int].bank_ref == old(
                self,
            ).bankdata[old(self).cur_bank.index as int].bank_ref,
            final(self).banks == old(self).banks,
            final(self).symbols == old(self).symbols,
            final(self).symbol_guesses == old(self).symbol_guesses,
            final(self).rulesets == old(self).rulesets,
            final(self).active_rulesets == old(self).active_rulesets,
            final(self).cur_bank == old(self).cur_bank,
            final(self).cur_wordsize == old(self).cur_wordsize,
    {
        let bank_ref = self.cur_bank;
        let size = invokation.size_guess;
        let data = self.get_bankdata_mut(bank_ref);
        data.cur_bit_offset = data.cur_bit_offset + size;
        data.invokations.push(invokation);
        proof {
            let at = old(self).cur_bank.index as int;
            assert forall|i: int| 0 <= i < self.bankdata.len() implies self.valid_bankdata(
                #[trigger] &self.bankdata[i],
            ) by {
                assert(old(self).valid_bankdata(&old(self).bankdata[i]));
                if i == at {
                    assert forall|j: int|
                        0 <= j < self.bankdata[i].invokations.len() implies self.valid_invokation(
                        #[trigger] &self.bankdata[i].invokations[j],
                    ) by {
                        if j < old(self).bankdata[i].invokations.len() {
                            assert(old(self).valid_invokation(&old(self).bankdata[i].invokations[j]));
                        }
                    }
                } else {
                    assert forall|j: int|
                        0 <= j < self.bankdata[i].invokations.len() implies self.valid_invokation(
                        #[trigger] &self.bankdata[i].invokations[j],
                    ) by {
                        assert(old(self).valid_invokation(&old(self).bankdata[i].invokations[j]));
                    }
                }
            }
        }
    }

    /// The ruleset called `name`: the first one declared under that name. Where there is none,
    /// an "unknown ruleset" error is reported at `span`.
    pub fn find_ruleset(&self, name: &str, report: &mut Report, span: &Span) -> (r: Result<
        RulesetRef,
        (),
    >)
        ensures
            match r {
                Ok(ruleset_ref) => {
                    &&& is_first_named(self.ruleset_names(), name@, ruleset_ref.index as int)
                    &&& final(report)@ == old(report)@
                },
                Err(_) => {
                    &&& !is_named(self.ruleset_names(), name@)
                    &&& final(report)@ == old(report)@.with_error("unknown ruleset"@, Some(span@))
                },
            },
    {
        let wanted = String::from_str(name);
        let mut i: usize = 0;
        while i < self.rulesets.len()
            invariant
                i <= self.rulesets.len(),
                wanted@ == name@,
                forall|j: int| 0 <= j < i ==> #[trigger] self.ruleset_names()[j] != name@,
            decreases self.rulesets.len() - i,
        {
            if self.rulesets[i].name == wanted {
                assert(self.ruleset_names()[i as int] == name@);
                return Ok(RulesetRef { index: i });
            }
            assert(self.ruleset_names()[i as int] != name@);
            i = i + 1;
        }
        report.error_span("unknown ruleset", span);
        Err(())
    }

    /// Puts the ruleset called `name` on the stack of active rulesets. Where there is no such
    /// ruleset, the stack stays as it was and an "unknown ruleset" error is reported at `span`.
    pub fn activate_ruleset(&mut self, name: &str, report: &mut Report, span: &Span) -> (r: Result<
        (),
        (),
    >)
        ensures
            final(self).banks == old(self).banks,
            final(self).bankdata == old(self).bankdata,
            final(self).symbols == old(self).symbols,
            final(self).symbol_guesses == old(self).symbol_guesses,
            final(self).rulesets == old(self).rulesets,
            final(self).cur_bank == old(self).cur_bank,
            final(self).cur_wordsize == old(self).cur_wordsize,
            match r {
                Ok(_) => exists|at: int|
                    {
                        &&& is_first_named(old(self).ruleset_names(), name@, at)
                        &&& final(self).active_rulesets@ == old(self).active_rulesets@.push(
                            RulesetRef { index: at as usize },
                        )
                        &&& final(report)@ == old(report)@
                    },
                Err(_) => {
                    &&& !is_named(old(self).ruleset_names(), name@)
                    &&& final(self).active_rulesets == old(self).active_rulesets
                    &&& final(report)@ == old(report)@.with_error("unknown ruleset"@, Some(span@))
                },
            },
    {
        match self.find_ruleset(name, report, span) {
            Ok(rg_ref) => {
                self.active_rulesets.push(rg_ref);
                assert(is_first_named(old(self).ruleset_names(), name@, rg_ref.index as int));
                Ok(())
            },
            Err(_) => Err(()),
        }
    }

    /// The rule that `rule_ref` names, if it names one.
    pub fn get_rule(&self, rule_ref: RuleRef) -> (r: Option<&Rule<E>>)
        ensures
            match r {
                Some(rule) => self.valid_rule(rule_ref)
                    && *rule == self.rulesets[rule_ref.ruleset_ref.index as int].rules[rule_ref.index as int],
                None => !self.valid_rule(rule_ref),
            },
    {
        if rule_ref.ruleset_ref.index < self.rulesets.len() && rule_ref.index
            < self.rulesets[rule_ref.ruleset_ref.index].rules.len() {
            Some(&self.rulesets[rule_ref.ruleset_ref.index].rules[rule_ref.index])
        } else {
            None
        }
    }
}

} // verus!
