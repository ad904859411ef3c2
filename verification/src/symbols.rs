use vstd::prelude::*;
use vstd::string::*;
use crate::diagn::{Report, Span};
use crate::value::{Datum, Value};

verus! {

/// What a list of names stands for.
pub open spec fn names(v: Seq<String>) -> Seq<Seq<char>> {
    v.map_values(|s: String| s@)
}

/// The names of a list with one more name.
pub proof fn lemma_names_push(v: Seq<String>, s: String)
    ensures
        names(v.push(s)) == names(v).push(s@),
{
    assert(names(v.push(s)) =~= names(v).push(s@));
}

/// A copy of a list of names.
pub fn copy_names(v: &Vec<String>, upto: usize) -> (r: Vec<String>)
    requires
        upto <= v.len(),
    ensures
        names(r@) == names(v@).take(upto as int),
{
    let mut r: Vec<String> = Vec::new();
    let mut i: usize = 0;
    assert(names(r@) =~= names(v@).take(0));
    while i < upto
        invariant
            i <= upto <= v.len(),
            names(r@) == names(v@).take(i as int),
        decreases upto - i,
    {
        let ghost before = r@;
        r.push(v[i].clone());
        proof {
            lemma_names_push(before, r@.last());
            assert(names(v@).take(i + 1) =~= names(v@).take(i as int).push(v@[i as int]@));
        }
        i = i + 1;
    }
    r
}

/// The cursor of the symbol table: the path of the scope that is open, outermost name first.
#[derive(Debug)]
pub struct SymbolContext {
    pub hierarchy: Vec<String>,
}

impl View for SymbolContext {
    type V = Seq<Seq<char>>;

    open spec fn view(&self) -> Seq<Seq<char>> {
        names(self.hierarchy@)
    }
}

impl Clone for SymbolContext {
    fn clone(&self) -> (r: SymbolContext)
        ensures
            r@ == self@,
    {
        let hierarchy = copy_names(&self.hierarchy, self.hierarchy.len());
        assert(names(self.hierarchy@).take(self.hierarchy.len() as int) == names(self.hierarchy@));
        SymbolContext { hierarchy }
    }
}

impl SymbolContext {
    /// The cursor at the outermost scope.
    pub fn new() -> (r: SymbolContext)
        ensures
            r@ == Seq::<Seq<char>>::empty(),
    {
        let r = SymbolContext { hierarchy: Vec::new() };
        assert(r@ =~= Seq::<Seq<char>>::empty());
        r
    }
}

/// A declared symbol: its fully qualified path, how many of the path's leading names came from
/// the scope it was declared in, and its value.
#[derive(Debug)]
pub struct Symbol {
    pub path: Vec<String>,
    pub hierarchy_level: usize,
    pub value: Value,
}

/// What a `Symbol` stands for.
pub struct Binding {
    pub path: Seq<Seq<char>>,
    pub hierarchy_level: usize,
    pub value: Datum,
}

impl View for Symbol {
    type V = Binding;

    open spec fn view(&self) -> Binding {
        Binding { path: names(self.path@), hierarchy_level: self.hierarchy_level, value: self.value@ }
    }
}

/// What a list of symbols stands for.
pub open spec fn bindings(v: Seq<Symbol>) -> Seq<Binding> {
    v.map_values(|s: Symbol| s@)
}

/// The fully qualified path that `path` names when it is read at `level` under the cursor `ctx`:
/// the first `level` names of the cursor, then `path`. A level deeper than the cursor names
/// nothing.
pub open spec fn qualified(ctx: Seq<Seq<char>>, level: usize, path: Seq<Seq<char>>) -> Option<
    Seq<Seq<char>>,
> {
    if level <= ctx.len() {
        Some(ctx.take(level as int) + path)
    } else {
        None
    }
}

/// Whether `at` is the first binding of `table` with the path `full`.
pub open spec fn is_first_bound(table: Seq<Binding>, full: Seq<Seq<char>>, at: int) -> bool {
    &&& 0 <= at < table.len()
    &&& table[at].path == full
    &&& forall|j: int| 0 <= j < at ==> (#[trigger] table[j]).path != full
}

/// Whether some binding of `table` has the path `full`.
pub open spec fn is_bound(table: Seq<Binding>, full: Seq<Seq<char>>) -> bool {
    exists|j: int| 0 <= j < table.len() && (#[trigger] table[j]).path == full
}

/// The position of the first binding of `table` with the path `full`, where there is one.
pub open spec fn first_bound(table: Seq<Binding>, full: Seq<Seq<char>>) -> int {
    choose|at: int| is_first_bound(table, full, at)
}

/// There is one first binding at most.
pub proof fn lemma_first_bound_unique(table: Seq<Binding>, full: Seq<Seq<char>>, at: int)
    requires
        is_first_bound(table, full, at),
    ensures
        first_bound(table, full) == at,
        is_bound(table, full),
{
    let other = first_bound(table, full);
    assert(is_first_bound(table, full, other));
    if other < at {
        assert(table[other].path != full);
    }
    if at < other {
        assert(table[at].path != full);
    }
}

/// Whether no path is bound twice.
pub open spec fn distinct_paths(table: Seq<Binding>) -> bool {
    forall|i: int, j: int|
        0 <= i < j < table.len() ==> (#[trigger] table[i]).path != (#[trigger] table[j]).path
}

/// What a `SymbolManager` stands for: the bindings in the order of their declaration, and the
/// cursor.
pub struct SymbolTable {
    pub bindings: Seq<Binding>,
    pub cursor: Seq<Seq<char>>,
}

impl SymbolTable {
    /// What `path` names when it is read at `level` under the cursor `ctx`: the first binding
    /// under the fully qualified path, if there is any.
    pub open spec fn lookup(self, ctx: Seq<Seq<char>>, level: usize, path: Seq<Seq<char>>) -> Option<
        Binding,
    > {
        match qualified(ctx, level, path) {
            Some(full) => if is_bound(self.bindings, full) {
                Some(self.bindings[first_bound(self.bindings, full)])
            } else {
                None
            },
            None => None,
        }
    }
}

/// What an optional symbol stands for.
pub open spec fn binding_of(sym: Option<&Symbol>) -> Option<Binding> {
    match sym {
        Some(s) => Some(s@),
        None => None,
    }
}

/// The symbols declared in one pass, with the cursor that follows the scopes of the source.
#[derive(Debug)]
pub struct SymbolManager {
    pub symbols: Vec<Symbol>,
    pub cur_ctx: SymbolContext,
}

impl View for SymbolManager {
    type V = SymbolTable;

    open spec fn view(&self) -> SymbolTable {
        SymbolTable { bindings: bindings(self.symbols@), cursor: self.cur_ctx@ }
    }
}

/// Whether the symbol's path is the first `level` names of `ctx` followed by `path`.
pub fn path_is(sym: &Symbol, ctx: &SymbolContext, level: usize, path: &Vec<String>) -> (r: bool)
    requires
        level <= ctx.hierarchy.len(),
    ensures
        r == (Some(sym@.path) == qualified(ctx@, level, names(path@))),
{
    let ghost full = ctx@.take(level as int) + names(path@);
    if sym.path.len() < level || sym.path.len() - level != path.len() {
        assert(sym@.path.len() != full.len());
        return false;
    }
    let mut i: usize = 0;
    while i < level
        invariant
            i <= level <= ctx.hierarchy.len(),
            sym.path.len() == level + path.len(),
            full == ctx@.take(level as int) + names(path@),
            forall|j: int| 0 <= j < i ==> sym@.path[j] == full[j],
        decreases level - i,
    {
        if sym.path[i] != ctx.hierarchy[i] {
            assert(sym@.path[i as int] != full[i as int]);
            return false;
        }
        i = i + 1;
    }
    let mut k: usize = 0;
    while k < path.len()
        invariant
            k <= path.len(),
            level <= ctx.hierarchy.len(),
            sym.path.len() == level + path.len(),
            full == ctx@.take(level as int) + names(path@),
            forall|j: int| 0 <= j < level + k ==> sym@.path[j] == full[j],
        decreases path.len() - k,
    {
        if sym.path[level + k] != path[k] {
            assert(sym@.path[level + k] != full[level + k]);
            return false;
        }
        k = k + 1;
    }
    assert(sym@.path =~= full);
    true
}

impl SymbolManager {
    /// A table without symbols, with the cursor at the outermost scope.
    pub fn new() -> (r: SymbolManager)
        ensures
            r@.bindings == Seq::<Binding>::empty(),
            r@.cursor == Seq::<Seq<char>>::empty(),
    {
        let r = SymbolManager { symbols: Vec::new(), cur_ctx: SymbolContext::new() };
        assert(r@.bindings =~= Seq::<Binding>::empty());
        r
    }

    /// The cursor as it stands.
    pub fn get_ctx(&self) -> (r: SymbolContext)
        ensures
            r@ == self@.cursor,
    {
        self.cur_ctx.clone()
    }

    /// The symbol that `hierarchy` names when it is read at `hierarchy_level` under the cursor
    /// `ctx`: the first one declared under that fully qualified path, if there is any.
    pub fn get(&self, ctx: &SymbolContext, hierarchy_level: usize, hierarchy: &Vec<String>) -> (r:
        Option<&Symbol>)
        ensures
            binding_of(r) == self@.lookup(ctx@, hierarchy_level, names(hierarchy@)),
    {
        if hierarchy_level > ctx.hierarchy.len() {
            return None;
        }
        let ghost full = ctx@.take(hierarchy_level as int) + names(hierarchy@);
        let mut i: usize = 0;
        while i < self.symbols.len()
            invariant
                i <= self.symbols.len(),
                hierarchy_level <= ctx.hierarchy.len(),
                full == ctx@.take(hierarchy_level as int) + names(hierarchy@),
                forall|j: int| 0 <= j < i ==> (#[trigger] self@.bindings[j]).path != full,
            decreases self.symbols.len() - i,
        {
            if path_is(&self.symbols[i], ctx, hierarchy_level, hierarchy) {
                proof {
                    assert(self@.bindings[i as int].path == full);
                    lemma_first_bound_unique(self@.bindings, full, i as int);
                }
                return Some(&self.symbols[i]);
            }
            assert(self@.bindings[i as int].path != full);
            i = i + 1;
        }
        None
    }

    /// Declares `name` at `hierarchy_level` under the cursor, with the given value, and moves
    /// the cursor to the new symbol.
    ///
    /// A level deeper than the cursor is refused with "symbol declaration skips a nesting
    /// level", a path that is bound already with "duplicate symbol"; the table is then left as
    /// it was.
    pub fn create(
        &mut self,
        name: &str,
        hierarchy_level: usize,
        value: Value,
        report: &mut Report,
        span: &Span,
    ) -> (r: Result<(), ()>)
        ensures
            match qualified(old(self)@.cursor, hierarchy_level, seq![name@]) {
                None => {
                    &&& r.is_err()
                    &&& final(self)@ == old(self)@
                    &&& final(report)@ == old(report)@.with_error(
                        "symbol declaration skips a nesting level"@,
                        Some(span@),
                    )
                },
                Some(full) => if is_bound(old(self)@.bindings, full) {
                    &&& r.is_err()
                    &&& final(self)@ == old(self)@
                    &&& final(report)@ == old(report)@.with_error("duplicate symbol"@, Some(span@))
                } else {
                    &&& r.is_ok()
                    &&& final(self)@.cursor == full
                    &&& final(self)@.bindings == old(self)@.bindings.push(
                        Binding { path: full, hierarchy_level, value: value@ },
                    )
                    &&& final(report)@ == old(report)@
                },
            },
            distinct_paths(old(self)@.bindings) ==> distinct_paths(final(self)@.bindings),
    {
        if hierarchy_level > self.cur_ctx.hierarchy.len() {
            report.error_span("symbol declaration skips a nesting level", span);
            return Err(());
        }
        let mut single: Vec<String> = Vec::new();
        single.push(String::from_str(name));
        assert(names(single@) =~= seq![name@]);
        let ghost full = self@.cursor.take(hierarchy_level as int) + seq![name@];
        if self.get(&self.cur_ctx, hierarchy_level, &single).is_some() {
            report.error_span("duplicate symbol", span);
            return Err(());
        }
        let mut path = copy_names(&self.cur_ctx.hierarchy, hierarchy_level);
        let ghost before = path@;
        path.push(String::from_str(name));
        proof {
            lemma_names_push(before, path@.last());
            assert(names(path@) =~= full);
        }
        let cursor = copy_names(&path, path.len());
        assert(names(path@).take(path.len() as int) == names(path@));
        let ghost table = self.symbols@;
        self.symbols.push(Symbol { path, hierarchy_level, value });
        self.cur_ctx = SymbolContext { hierarchy: cursor };
        proof {
            assert(bindings(self.symbols@) =~= bindings(table).push(
                Binding { path: full, hierarchy_level, value: value@ },
            ));
            if distinct_paths(bindings(table)) {
                assert forall|i: int, j: int| 0 <= i < j < self@.bindings.len() implies (
                #[trigger] self@.bindings[i]).path != (#[trigger] self@.bindings[j]).path by {
                    if j == table.len() {
                        assert(bindings(table)[i].path != full);
                    } else {
                        assert(bindings(table)[i].path != bindings(table)[j].path);
                    }
                }
            }
        }
        Ok(())
    }
}

} // verus!
