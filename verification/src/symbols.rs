use vstd::prelude::*;
use vstd::hash_map::StringHashMap;
use vstd::string::StringSliceAdditionalSpecFns;
use crate::ast::{
    Spanned, Script, Command, Symbol, Identifier, QualifiedIdentifier, Sort, SortedVar, VarBinding,
    MatchCase, AttributeValue, Attribute, Term, SExpr, DatatypeDec, ConstructorDec, SelectorDec, FunDef,
};
use crate::span::{Span, span_contains};

verus! {

broadcast use vstd::hash_map::group_hash_map_axioms;

/// A symbol definition in the document.
#[derive(Debug, Clone)]
pub struct SymbolDef {
    pub name: String,
    pub kind: SymbolKind,
    pub def_span: Span,
    /// Span of just the name token.
    pub name_span: Span,
    /// Push/pop stack depth at definition site.
    pub stack_depth: u32,
    /// End of lexical scope for local variables (None = global/command-level).
    pub scope_end: Option<u32>,
    /// Start of the scope of a `let`-bound name, its body: `let` binds in
    /// parallel, so the right-hand sides do not see it (None = visible from
    /// its name on).
    pub scope_start: Option<u32>,
}

#[derive(Debug, Clone, Copy, PartialEq, Eq, Structural)]
pub enum SymbolKind {
    Function,
    Constant,
    Sort,
    Datatype,
    Constructor,
    Selector,
    Variable,
}

/// What a definition says, its name taken as text.
pub struct DefView {
    pub name: Seq<char>,
    pub kind: SymbolKind,
    pub def_span: Span,
    pub name_span: Span,
    pub stack_depth: u32,
    pub scope_end: Option<u32>,
    pub scope_start: Option<u32>,
}

impl View for SymbolDef {
    type V = DefView;

    open spec fn view(&self) -> DefView {
        DefView {
            name: self.name@,
            kind: self.kind,
            def_span: self.def_span,
            name_span: self.name_span,
            stack_depth: self.stack_depth,
            scope_end: self.scope_end,
            scope_start: self.scope_start,
        }
    }
}

/// The definitions of a document, grouped by name; each group keeps its
/// definitions in the order they were added.
pub struct Definitions {
    slots: StringHashMap<usize>,
    groups: Vec<Vec<SymbolDef>>,
}

impl Definitions {
    #[verifier::type_invariant]
    spec fn inv(self) -> bool {
        &&& forall|k: Seq<char>| #[trigger]
            self.slots@.contains_key(k) ==> self.slots@[k] < self.groups@.len()
        &&& forall|k1: Seq<char>, k2: Seq<char>|
            #[trigger] self.slots@.contains_key(k1) && #[trigger] self.slots@.contains_key(k2) && k1
                != k2 ==> self.slots@[k1] != self.slots@[k2]
        &&& forall|g: int, j: int|
            0 <= g < self.groups@.len() && 0 <= j < self.groups@[g]@.len() ==> {
                let n = (#[trigger] self.groups@[g]@[j]).name@;
                self.slots@.contains_key(n) && self.slots@[n] == g
            }
        &&& forall|g: int| 0 <= g < self.groups@.len() ==> (#[trigger] self.groups@[g])@.len() > 0
    }

    /// The definitions of each name, in the order they were added.
    pub closed spec fn view(self) -> Map<Seq<char>, Seq<DefView>> {
        Map::new(
            |k: Seq<char>| self.slots@.contains_key(k),
            |k: Seq<char>| self.groups@[self.slots@[k] as int]@.map_values(|d: SymbolDef| d@),
        )
    }

    pub fn new() -> (res: Self)
        ensures
            res.view() == Map::<Seq<char>, Seq<DefView>>::empty(),
    {
        let res = Definitions { slots: StringHashMap::new(), groups: Vec::new() };
        proof {
            assert(res.view() =~= Map::<Seq<char>, Seq<DefView>>::empty());
        }
        res
    }

    /// Returns true if some definition has this name.
    pub fn contains_key(&self, name: &str) -> (res: bool)
        ensures
            res == self.view().contains_key(name@),
    {
        self.slots.contains_key(name)
    }

    /// Returns true if there is no definition at all.
    pub fn is_empty(&self) -> (res: bool)
        ensures
            res == (self.view() == Map::<Seq<char>, Seq<DefView>>::empty()),
    {
        proof { use_type_invariant(self); }
        if self.groups.len() == 0 {
            proof {
                assert(self.view() =~= Map::<Seq<char>, Seq<DefView>>::empty());
            }
            true
        } else {
            proof {
                let n = self.groups@[0]@[0].name@;
                assert(self.view().contains_key(n));
            }
            false
        }
    }

    /// The definitions of a name, in the order they were added; each of them
    /// has that name.
    pub fn get(&self, name: &str) -> (res: Option<&Vec<SymbolDef>>)
        ensures
            match res {
                Some(v) => self.view().contains_key(name@) && v@.map_values(|d: SymbolDef| d@)
                    == self.view()[name@] && v@.len() > 0 && forall|j: int|
                    0 <= j < v@.len() ==> (#[trigger] v@[j]).name@ == name@,
                None => !self.view().contains_key(name@),
            },
    {
        proof { use_type_invariant(self); }
        match self.slots.get(name) {
            Some(i) => {
                proof {
                    let g = *i as int;
                    assert forall|j: int| 0 <= j < self.groups@[g]@.len() implies (
                    #[trigger] self.groups@[g]@[j]).name@ == name@ by {
                        let n = self.groups@[g]@[j].name@;
                        if n != name@ {
                            assert(self.slots@[n] != self.slots@[name@]);
                        }
                    }
                }
                Some(&self.groups[*i])
            },
            None => None,
        }
    }

    /// A definition whose name covers `offset`: its name and its position among
    /// the definitions of that name.
    pub fn name_at(&self, offset: u32) -> (res: Option<(String, usize)>)
        ensures
            match res {
                Some((n, k)) => self.view().contains_key(n@) && k < self.view()[n@].len()
                    && self.view()[n@][k as int].name_span.contains(offset as int),
                None => forall|n: Seq<char>, k: int|
                    #[trigger] self.view().contains_key(n) && 0 <= k < self.view()[n].len()
                        ==> !(#[trigger] self.view()[n][k]).name_span.contains(offset as int),
            },
    {
        proof { use_type_invariant(self); }
        let mut g: usize = 0;
        while g < self.groups.len()
            invariant
                g <= self.groups@.len(),
                forall|h: int, j: int|
                    0 <= h < g && 0 <= j < self.groups@[h]@.len() ==> !(#[trigger] self.groups@[h]@[j]).name_span.contains(offset as int),
            decreases self.groups@.len() - g,
        {
            let group = &self.groups[g];
            let mut j: usize = 0;
            while j < group.len()
                invariant
                    g < self.groups@.len(),
                    *group == self.groups@[g as int],
                    j <= group@.len(),
                    forall|h: int, i: int|
                        0 <= h < g && 0 <= i < self.groups@[h]@.len() ==> !(#[trigger] self.groups@[h]@[i]).name_span.contains(offset as int),
                    forall|i: int| 0 <= i < j ==> !(#[trigger] group@[i]).name_span.contains(offset as int),
                decreases group@.len() - j,
            {
                let d = &group[j];
                if span_contains(d.name_span, offset) {
                    proof {
                        use_type_invariant(self);
                        let n = d.name@;
                        assert(self.slots@.contains_key(n) && self.slots@[n] == g);
                        assert(self.view()[n][j as int] == d@);
                    }
                    return Some((d.name.clone(), j));
                }
                j = j + 1;
            }
            g = g + 1;
        }
        proof {
            use_type_invariant(self);
            assert forall|n: Seq<char>, k: int|
                #[trigger] self.view().contains_key(n) && 0 <= k < self.view()[n].len()
                    implies !(#[trigger] self.view()[n][k]).name_span.contains(offset as int) by {
                let h = self.slots@[n] as int;
                assert(self.view()[n][k] == self.groups@[h]@[k]@);
            }
        }
        None
    }

    /// Appends a definition to the group of its name.
    pub fn add(&mut self, def: SymbolDef)
        ensures
            final(self).view() == add_def_view(old(self).view(), def@),
    {
        proof { use_type_invariant(&*self); }
        let name = def.name.clone();
        let found = match self.slots.get(name.as_str()) {
            Some(i) => Some(*i),
            None => None,
        };
        let mut taken = Definitions::new();
        std::mem::swap(&mut taken, self);
        proof { use_type_invariant(&taken); }
        let Definitions { slots: mut slots, groups: mut groups } = taken;
        let ghost old_groups = groups@;
        match found {
            Some(i) => {
                let ghost dv = def@;
                groups[i].push(def);
                proof {
                    let nv = Definitions { slots, groups };
                    let ov = *old(self);
                    assert(slots@[name@] == i);
                    assert(groups@[i as int]@ == old_groups[i as int]@.push(def));
                    assert(groups@[i as int]@.map_values(|d: SymbolDef| d@) =~= old_groups[
                        i as int]@.map_values(|d: SymbolDef| d@).push(dv));
                    assert forall|k: Seq<char>| slots@.contains_key(k) && k != name@ implies
                        groups@[slots@[k] as int] == old_groups[slots@[k] as int] by {}
                    assert(nv.view() =~= add_def_view(ov.view(), dv));
                    assert forall|g: int, j: int|
                        0 <= g < groups@.len() && 0 <= j < groups@[g]@.len() implies {
                            let n = (#[trigger] groups@[g]@[j]).name@;
                            slots@.contains_key(n) && slots@[n] == g
                        } by {
                        if g != i {
                            assert(groups@[g] == old_groups[g]);
                        } else if j < old_groups[g]@.len() {
                            assert(groups@[g]@[j] == old_groups[g]@[j]);
                        }
                    }
                }
            },
            None => {
                let ghost dv = def@;
                let ghost old_slots = slots@;
                let n = groups.len();
                let mut v: Vec<SymbolDef> = Vec::new();
                v.push(def);
                groups.push(v);
                slots.insert(name, n);
                proof {
                    let nv = Definitions { slots, groups };
                    let ov = *old(self);
                    assert(groups@[n as int]@.map_values(|d: SymbolDef| d@) =~= Seq::<
                        DefView,
                    >::empty().push(dv));
                    assert forall|k: Seq<char>| old_slots.contains_key(k) implies groups@[slots@[
                        k] as int] == old_groups[old_slots[k] as int] by {}
                    assert(nv.view() =~= add_def_view(ov.view(), dv));
                }
            },
        }
        *self = Definitions { slots, groups };
    }
}

/// The grouped definitions after adding `d`.
pub open spec fn add_def_view(m: Map<Seq<char>, Seq<DefView>>, d: DefView) -> Map<
    Seq<char>,
    Seq<DefView>,
> {
    let group = if m.contains_key(d.name) {
        m[d.name]
    } else {
        Seq::empty()
    };
    m.insert(d.name, group.push(d))
}

/// The grouped definitions after adding each of `ds` in turn.
pub open spec fn add_defs_view(m: Map<Seq<char>, Seq<DefView>>, ds: Seq<DefView>) -> Map<
    Seq<char>,
    Seq<DefView>,
>
    decreases ds.len(),
{
    if ds.len() == 0 {
        m
    } else {
        add_def_view(add_defs_view(m, ds.drop_last()), ds.last())
    }
}


/// A reference (use) of a symbol.
#[derive(Debug, Clone)]
pub struct SymbolRef {
    pub name: String,
    pub span: Span,
    /// Push/pop stack depth at reference site.
    pub stack_depth: u32,
}

/// What a reference says, its name taken as text.
pub struct RefView {
    pub name: Seq<char>,
    pub span: Span,
    pub stack_depth: u32,
}

impl View for SymbolRef {
    type V = RefView;

    open spec fn view(&self) -> RefView {
        RefView { name: self.name@, span: self.span, stack_depth: self.stack_depth }
    }
}

/// A push/pop pair for navigation.
#[derive(Debug, Clone, Copy, PartialEq, Eq, Structural)]
pub struct PushPopPair {
    pub push_span: Span,
    pub pop_span: Option<Span>,
    pub depth: u32,
}

/// Info about a top-level command (for outline/folding).
#[derive(Debug, Clone)]
pub struct CommandInfo {
    pub kind: CommandInfoKind,
    pub name: Option<String>,
    pub span: Span,
    pub stack_depth: u32,
}

/// What a command entry says, its name taken as text.
pub struct InfoView {
    pub kind: CommandInfoKind,
    pub name: Option<Seq<char>>,
    pub span: Span,
    pub stack_depth: u32,
}

impl View for CommandInfo {
    type V = InfoView;

    open spec fn view(&self) -> InfoView {
        InfoView {
            kind: self.kind,
            name: match self.name {
                Some(n) => Some(n@),
                None => None,
            },
            span: self.span,
            stack_depth: self.stack_depth,
        }
    }
}

#[derive(Debug, Clone, Copy, PartialEq, Eq, Structural)]
pub enum CommandInfoKind {
    SetLogic,
    DeclareSort,
    DefineSort,
    DeclareFun,
    DeclareConst,
    DefineFun,
    DefineFunRec,
    DeclareDatatype,
    DeclareDatatypes,
    Assert,
    CheckSat,
    Push,
    Pop,
    Other,
}

/// Per-document symbol index.
pub struct SymbolIndex {
    /// All definitions, keyed by name.
    pub definitions: Definitions,
    /// All references/uses.
    pub references: Vec<SymbolRef>,
    /// Push/pop stack for navigation.
    pub push_pop_pairs: Vec<PushPopPair>,
    /// All top-level command spans for folding.
    pub command_spans: Vec<CommandInfo>,
}

impl Default for SymbolIndex {
    fn default() -> (res: Self)
        ensures
            res.definitions.view() == Map::<Seq<char>, Seq<DefView>>::empty(),
            res.references@.len() == 0,
            res.push_pop_pairs@.len() == 0,
            res.command_spans@.len() == 0,
    {
        SymbolIndex {
            definitions: Definitions::new(),
            references: Vec::new(),
            push_pop_pairs: Vec::new(),
            command_spans: Vec::new(),
        }
    }
}

impl SymbolIndex {
    /// The references of the index, as views.
    pub open spec fn refs(self) -> Seq<RefView> {
        self.references@.map_values(|r: SymbolRef| r@)
    }

    /// The command entries of the index, as views.
    pub open spec fn infos(self) -> Seq<InfoView> {
        self.command_spans@.map_values(|c: CommandInfo| c@)
    }
}

// ---------------------------------------------------------------------------
// What an index holds: the definitions and references of each AST node
// ---------------------------------------------------------------------------

pub open spec fn ref_of(sym: Symbol, span: Span, depth: u32) -> RefView {
    RefView { name: sym.name@, span, stack_depth: depth }
}

pub open spec fn def_of(
    sym: Symbol,
    name_span: Span,
    def_span: Span,
    kind: SymbolKind,
    depth: u32,
    scope_end: Option<u32>,
) -> DefView {
    scoped_def_of(sym, name_span, def_span, kind, depth, None, scope_end)
}

/// A definition whose scope may start later than its name.
pub open spec fn scoped_def_of(
    sym: Symbol,
    name_span: Span,
    def_span: Span,
    kind: SymbolKind,
    depth: u32,
    scope_start: Option<u32>,
    scope_end: Option<u32>,
) -> DefView {
    DefView { name: sym.name@, kind, def_span, name_span, stack_depth: depth, scope_end, scope_start }
}

/// The head symbol of an identifier.
pub open spec fn head_symbol(id: Identifier) -> Symbol {
    match id {
        Identifier::Simple(sym) => sym,
        Identifier::Indexed(sym, _) => sym,
    }
}

/// A sort refers to its head symbol (over its whole span), then to the
/// symbols of its parameters.
pub open spec fn sort_refs(s: Spanned<Sort>, d: u32) -> Seq<RefView>
    decreases s,
{
    match s.node {
        Sort::Simple(id) => seq![ref_of(head_symbol(id), s.span, d)],
        Sort::Parameterized(id, params) => seq![ref_of(head_symbol(id), s.span, d)] + sorts_refs(
            params@,
            d,
        ),
    }
}

pub open spec fn sorts_refs(ss: Seq<Spanned<Sort>>, d: u32) -> Seq<RefView>
    decreases ss,
{
    if ss.len() == 0 {
        Seq::empty()
    } else {
        sorts_refs(ss.drop_last(), d) + sort_refs(ss.last(), d)
    }
}

/// A qualified identifier refers to its symbol when it is a simple one, then to
/// the symbols of its `as` sort.
pub open spec fn qi_refs(qi: QualifiedIdentifier, d: u32) -> Seq<RefView> {
    match qi {
        QualifiedIdentifier::Simple(id) => match id.node {
            Identifier::Simple(sym) => seq![ref_of(sym, id.span, d)],
            _ => Seq::empty(),
        },
        QualifiedIdentifier::As(id, sort) => match id.node {
            Identifier::Simple(sym) => seq![ref_of(sym, id.span, d)] + sort_refs(sort, d),
            _ => sort_refs(sort, d),
        },
    }
}

/// An s-expression refers to every symbol in it.
pub open spec fn sexpr_refs(e: Spanned<SExpr>, d: u32) -> Seq<RefView>
    decreases e,
{
    match e.node {
        SExpr::Symbol(sym) => seq![ref_of(sym, e.span, d)],
        SExpr::List(items) => sexprs_refs(items@, d),
        _ => Seq::empty(),
    }
}

pub open spec fn sexprs_refs(es: Seq<Spanned<SExpr>>, d: u32) -> Seq<RefView>
    decreases es,
{
    if es.len() == 0 {
        Seq::empty()
    } else {
        sexprs_refs(es.drop_last(), d) + sexpr_refs(es.last(), d)
    }
}

/// Whether an attribute's keyword is `:pattern` or `:no-pattern`.
pub open spec fn is_pattern_keyword(kw: Seq<char>) -> bool {
    kw == ":pattern"@ || kw == ":no-pattern"@
}

/// An attribute refers to the symbols of its value when it is a `:pattern` or
/// `:no-pattern` whose value is a list.
pub open spec fn attr_refs(a: Attribute, d: u32) -> Seq<RefView> {
    if is_pattern_keyword(a.keyword.node@) {
        match a.value {
            Some(v) => match v.node {
                AttributeValue::SExpr(items) => sexprs_refs(items@, d),
                _ => Seq::empty(),
            },
            None => Seq::empty(),
        }
    } else {
        Seq::empty()
    }
}

pub open spec fn attrs_refs(attrs: Seq<Attribute>, d: u32) -> Seq<RefView>
    decreases attrs.len(),
{
    if attrs.len() == 0 {
        Seq::empty()
    } else {
        attrs_refs(attrs.drop_last(), d) + attr_refs(attrs.last(), d)
    }
}

/// The sort references of bound variables.
pub open spec fn vars_sort_refs(vs: Seq<Spanned<SortedVar>>, d: u32) -> Seq<RefView>
    decreases vs.len(),
{
    if vs.len() == 0 {
        Seq::empty()
    } else {
        vars_sort_refs(vs.drop_last(), d) + sort_refs(vs.last().node.sort, d)
    }
}

/// The bound variables as definitions, scoped to `scope_end`.
pub open spec fn vars_defs(vs: Seq<Spanned<SortedVar>>, d: u32, scope_end: u32) -> Seq<DefView>
    decreases vs.len(),
{
    if vs.len() == 0 {
        Seq::empty()
    } else {
        let v = vs.last();
        vars_defs(vs.drop_last(), d, scope_end).push(
            def_of(v.node.name.node, v.node.name.span, v.span, SymbolKind::Variable, d, Some(scope_end)),
        )
    }
}

/// Let-bound names as definitions, scoped from `scope_start` (the body) to
/// `scope_end`.
pub open spec fn bindings_defs(bs: Seq<Spanned<VarBinding>>, d: u32, scope_start: u32, scope_end: u32) -> Seq<
    DefView,
>
    decreases bs.len(),
{
    if bs.len() == 0 {
        Seq::empty()
    } else {
        let b = bs.last();
        bindings_defs(bs.drop_last(), d, scope_start, scope_end).push(
            scoped_def_of(
                b.node.name.node,
                b.node.name.span,
                b.span,
                SymbolKind::Variable,
                d,
                Some(scope_start),
                Some(scope_end),
            ),
        )
    }
}

/// The references of a term, in reading order: the right-hand sides of a `let`
/// before its body, the sorts of bound variables before the body, the body of
/// an annotation before its `:pattern`s.
pub open spec fn term_refs(t: Spanned<Term>, d: u32) -> Seq<RefView>
    decreases t,
{
    match t.node {
        Term::Constant(_) => Seq::empty(),
        Term::QualifiedIdentifier(qi) => qi_refs(qi, d),
        Term::Application(f, args) => qi_refs(f.node, d) + terms_refs(args@, d),
        Term::Let(bs, body) => binding_values_refs(bs@, d) + term_refs(*body, d),
        Term::Forall(vs, body) => vars_sort_refs(vs@, d) + term_refs(*body, d),
        Term::Exists(vs, body) => vars_sort_refs(vs@, d) + term_refs(*body, d),
        Term::Lambda(vs, body) => vars_sort_refs(vs@, d) + term_refs(*body, d),
        Term::Match(scrutinee, cases) => term_refs(*scrutinee, d) + cases_refs(cases@, d),
        Term::Annotated(inner, attrs) => term_refs(*inner, d) + attrs_refs(attrs@, d),
    }
}

pub open spec fn terms_refs(ts: Seq<Spanned<Term>>, d: u32) -> Seq<RefView>
    decreases ts,
{
    if ts.len() == 0 {
        Seq::empty()
    } else {
        terms_refs(ts.drop_last(), d) + term_refs(ts.last(), d)
    }
}

pub open spec fn binding_values_refs(bs: Seq<Spanned<VarBinding>>, d: u32) -> Seq<RefView>
    decreases bs,
{
    if bs.len() == 0 {
        Seq::empty()
    } else {
        binding_values_refs(bs.drop_last(), d) + term_refs(bs.last().node.value, d)
    }
}

pub open spec fn cases_refs(cs: Seq<Spanned<MatchCase>>, d: u32) -> Seq<RefView>
    decreases cs,
{
    if cs.len() == 0 {
        Seq::empty()
    } else {
        cases_refs(cs.drop_last(), d) + term_refs(cs.last().node.body, d)
    }
}

/// The local definitions of a term, in reading order: those inside the
/// right-hand sides of a `let`, then its bound names, then those of its body.
pub open spec fn term_defs(t: Spanned<Term>, d: u32) -> Seq<DefView>
    decreases t,
{
    match t.node {
        Term::Constant(_) => Seq::empty(),
        Term::QualifiedIdentifier(_) => Seq::empty(),
        Term::Application(_, args) => terms_defs(args@, d),
        Term::Let(bs, body) => binding_values_defs(bs@, d) + bindings_defs(bs@, d, body.span.start, body.span.end)
            + term_defs(*body, d),
        Term::Forall(vs, body) => vars_defs(vs@, d, body.span.end) + term_defs(*body, d),
        Term::Exists(vs, body) => vars_defs(vs@, d, body.span.end) + term_defs(*body, d),
        Term::Lambda(vs, body) => vars_defs(vs@, d, body.span.end) + term_defs(*body, d),
        Term::Match(scrutinee, cases) => term_defs(*scrutinee, d) + cases_defs(cases@, d),
        Term::Annotated(inner, _) => term_defs(*inner, d),
    }
}

pub open spec fn terms_defs(ts: Seq<Spanned<Term>>, d: u32) -> Seq<DefView>
    decreases ts,
{
    if ts.len() == 0 {
        Seq::empty()
    } else {
        terms_defs(ts.drop_last(), d) + term_defs(ts.last(), d)
    }
}

pub open spec fn binding_values_defs(bs: Seq<Spanned<VarBinding>>, d: u32) -> Seq<DefView>
    decreases bs,
{
    if bs.len() == 0 {
        Seq::empty()
    } else {
        binding_values_defs(bs.drop_last(), d) + term_defs(bs.last().node.value, d)
    }
}

pub open spec fn cases_defs(cs: Seq<Spanned<MatchCase>>, d: u32) -> Seq<DefView>
    decreases cs,
{
    if cs.len() == 0 {
        Seq::empty()
    } else {
        cases_defs(cs.drop_last(), d) + term_defs(cs.last().node.body, d)
    }
}

/// Every reference of `rs` is at push depth `d`.
pub open spec fn refs_at_depth(rs: Seq<RefView>, d: u32) -> bool {
    forall|i: int| 0 <= i < rs.len() ==> (#[trigger] rs[i]).stack_depth == d
}

/// Every definition of `ds` is a variable with a scope end, at push depth `d`.
pub open spec fn scoped_vars_at_depth(ds: Seq<DefView>, d: u32) -> bool {
    forall|i: int|
        0 <= i < ds.len() ==> (#[trigger] ds[i]).stack_depth == d && ds[i].kind == SymbolKind::Variable
            && ds[i].scope_end is Some
}

proof fn lemma_refs_concat(a: Seq<RefView>, b: Seq<RefView>, d: u32)
    requires
        refs_at_depth(a, d),
        refs_at_depth(b, d),
    ensures
        refs_at_depth(a + b, d),
{
    assert forall|i: int| 0 <= i < (a + b).len() implies (#[trigger] (a + b)[i]).stack_depth == d by {
        if i < a.len() {
            assert((a + b)[i] == a[i]);
        } else {
            assert((a + b)[i] == b[i - a.len()]);
        }
    }
}

proof fn lemma_defs_concat(a: Seq<DefView>, b: Seq<DefView>, d: u32)
    requires
        scoped_vars_at_depth(a, d),
        scoped_vars_at_depth(b, d),
    ensures
        scoped_vars_at_depth(a + b, d),
{
    assert forall|i: int| 0 <= i < (a + b).len() implies (#[trigger] (a + b)[i]).stack_depth == d && (a
        + b)[i].kind == SymbolKind::Variable && (a + b)[i].scope_end is Some by {
        if i < a.len() {
            assert((a + b)[i] == a[i]);
        } else {
            assert((a + b)[i] == b[i - a.len()]);
        }
    }
}

proof fn lemma_sort_refs_depth(s: Spanned<Sort>, d: u32)
    ensures
        refs_at_depth(sort_refs(s, d), d),
    decreases s,
{
    match s.node {
        Sort::Simple(_) => {},
        Sort::Parameterized(id, params) => {
            lemma_sorts_refs_depth(params@, d);
            lemma_refs_concat(seq![ref_of(head_symbol(id), s.span, d)], sorts_refs(params@, d), d);
        },
    }
}

proof fn lemma_sorts_refs_depth(ss: Seq<Spanned<Sort>>, d: u32)
    ensures
        refs_at_depth(sorts_refs(ss, d), d),
    decreases ss,
{
    if ss.len() > 0 {
        lemma_sorts_refs_depth(ss.drop_last(), d);
        lemma_sort_refs_depth(ss.last(), d);
        lemma_refs_concat(sorts_refs(ss.drop_last(), d), sort_refs(ss.last(), d), d);
    }
}

proof fn lemma_qi_refs_depth(qi: QualifiedIdentifier, d: u32)
    ensures
        refs_at_depth(qi_refs(qi, d), d),
{
    match qi {
        QualifiedIdentifier::Simple(_) => {},
        QualifiedIdentifier::As(id, sort) => {
            lemma_sort_refs_depth(sort, d);
            match id.node {
                Identifier::Simple(sym) => lemma_refs_concat(seq![ref_of(sym, id.span, d)], sort_refs(sort, d), d),
                _ => {},
            }
        },
    }
}

proof fn lemma_sexpr_refs_depth(e: Spanned<SExpr>, d: u32)
    ensures
        refs_at_depth(sexpr_refs(e, d), d),
    decreases e,
{
    match e.node {
        SExpr::List(items) => lemma_sexprs_refs_depth(items@, d),
        _ => {},
    }
}

proof fn lemma_sexprs_refs_depth(es: Seq<Spanned<SExpr>>, d: u32)
    ensures
        refs_at_depth(sexprs_refs(es, d), d),
    decreases es,
{
    if es.len() > 0 {
        lemma_sexprs_refs_depth(es.drop_last(), d);
        lemma_sexpr_refs_depth(es.last(), d);
        lemma_refs_concat(sexprs_refs(es.drop_last(), d), sexpr_refs(es.last(), d), d);
    }
}

proof fn lemma_attrs_refs_depth(attrs: Seq<Attribute>, d: u32)
    ensures
        refs_at_depth(attrs_refs(attrs, d), d),
    decreases attrs.len(),
{
    if attrs.len() > 0 {
        lemma_attrs_refs_depth(attrs.drop_last(), d);
        let a = attrs.last();
        if let Some(v) = a.value {
            if let AttributeValue::SExpr(items) = v.node {
                lemma_sexprs_refs_depth(items@, d);
            }
        }
        lemma_refs_concat(attrs_refs(attrs.drop_last(), d), attr_refs(a, d), d);
    }
}

proof fn lemma_vars_depth(vs: Seq<Spanned<SortedVar>>, d: u32, scope_end: u32)
    ensures
        refs_at_depth(vars_sort_refs(vs, d), d),
        scoped_vars_at_depth(vars_defs(vs, d, scope_end), d),
    decreases vs.len(),
{
    if vs.len() > 0 {
        lemma_vars_depth(vs.drop_last(), d, scope_end);
        lemma_sort_refs_depth(vs.last().node.sort, d);
        lemma_refs_concat(vars_sort_refs(vs.drop_last(), d), sort_refs(vs.last().node.sort, d), d);
    }
}

proof fn lemma_bindings_defs_depth(bs: Seq<Spanned<VarBinding>>, d: u32, scope_start: u32, scope_end: u32)
    ensures
        scoped_vars_at_depth(bindings_defs(bs, d, scope_start, scope_end), d),
    decreases bs.len(),
{
    if bs.len() > 0 {
        lemma_bindings_defs_depth(bs.drop_last(), d, scope_start, scope_end);
    }
}

/// The walk over a term adds references and definitions at the depth it is
/// given, and its definitions are bound variables with a scope.
pub proof fn law_term_walk_entries(t: Spanned<Term>, d: u32)
    ensures
        refs_at_depth(term_refs(t, d), d),
        scoped_vars_at_depth(term_defs(t, d), d),
    decreases t,
{
    match t.node {
        Term::Constant(_) => {},
        Term::QualifiedIdentifier(qi) => lemma_qi_refs_depth(qi, d),
        Term::Application(f, args) => {
            lemma_qi_refs_depth(f.node, d);
            lemma_terms_walk_entries(args@, d);
            lemma_refs_concat(qi_refs(f.node, d), terms_refs(args@, d), d);
        },
        Term::Let(bs, body) => {
            lemma_bindings_walk_entries(bs@, d);
            lemma_bindings_defs_depth(bs@, d, body.span.start, body.span.end);
            law_term_walk_entries(*body, d);
            lemma_refs_concat(binding_values_refs(bs@, d), term_refs(*body, d), d);
            lemma_defs_concat(
                binding_values_defs(bs@, d),
                bindings_defs(bs@, d, body.span.start, body.span.end),
                d,
            );
            lemma_defs_concat(
                binding_values_defs(bs@, d) + bindings_defs(bs@, d, body.span.start, body.span.end),
                term_defs(*body, d),
                d,
            );
        },
        Term::Forall(vs, body) => {
            lemma_vars_depth(vs@, d, body.span.end);
            law_term_walk_entries(*body, d);
            lemma_refs_concat(vars_sort_refs(vs@, d), term_refs(*body, d), d);
            lemma_defs_concat(vars_defs(vs@, d, body.span.end), term_defs(*body, d), d);
        },
        Term::Exists(vs, body) => {
            lemma_vars_depth(vs@, d, body.span.end);
            law_term_walk_entries(*body, d);
            lemma_refs_concat(vars_sort_refs(vs@, d), term_refs(*body, d), d);
            lemma_defs_concat(vars_defs(vs@, d, body.span.end), term_defs(*body, d), d);
        },
        Term::Lambda(vs, body) => {
            lemma_vars_depth(vs@, d, body.span.end);
            law_term_walk_entries(*body, d);
            lemma_refs_concat(vars_sort_refs(vs@, d), term_refs(*body, d), d);
            lemma_defs_concat(vars_defs(vs@, d, body.span.end), term_defs(*body, d), d);
        },
        Term::Match(scrutinee, cases) => {
            law_term_walk_entries(*scrutinee, d);
            lemma_cases_walk_entries(cases@, d);
            lemma_refs_concat(term_refs(*scrutinee, d), cases_refs(cases@, d), d);
            lemma_defs_concat(term_defs(*scrutinee, d), cases_defs(cases@, d), d);
        },
        Term::Annotated(inner, attrs) => {
            law_term_walk_entries(*inner, d);
            lemma_attrs_refs_depth(attrs@, d);
            lemma_refs_concat(term_refs(*inner, d), attrs_refs(attrs@, d), d);
        },
    }
}

proof fn lemma_terms_walk_entries(ts: Seq<Spanned<Term>>, d: u32)
    ensures
        refs_at_depth(terms_refs(ts, d), d),
        scoped_vars_at_depth(terms_defs(ts, d), d),
    decreases ts,
{
    if ts.len() > 0 {
        lemma_terms_walk_entries(ts.drop_last(), d);
        law_term_walk_entries(ts.last(), d);
        lemma_refs_concat(terms_refs(ts.drop_last(), d), term_refs(ts.last(), d), d);
        lemma_defs_concat(terms_defs(ts.drop_last(), d), term_defs(ts.last(), d), d);
    }
}

proof fn lemma_bindings_walk_entries(bs: Seq<Spanned<VarBinding>>, d: u32)
    ensures
        refs_at_depth(binding_values_refs(bs, d), d),
        scoped_vars_at_depth(binding_values_defs(bs, d), d),
    decreases bs,
{
    if bs.len() > 0 {
        lemma_bindings_walk_entries(bs.drop_last(), d);
        law_term_walk_entries(bs.last().node.value, d);
        lemma_refs_concat(binding_values_refs(bs.drop_last(), d), term_refs(bs.last().node.value, d), d);
        lemma_defs_concat(binding_values_defs(bs.drop_last(), d), term_defs(bs.last().node.value, d), d);
    }
}

proof fn lemma_cases_walk_entries(cs: Seq<Spanned<MatchCase>>, d: u32)
    ensures
        refs_at_depth(cases_refs(cs, d), d),
        scoped_vars_at_depth(cases_defs(cs, d), d),
    decreases cs,
{
    if cs.len() > 0 {
        lemma_cases_walk_entries(cs.drop_last(), d);
        law_term_walk_entries(cs.last().node.body, d);
        lemma_refs_concat(cases_refs(cs.drop_last(), d), term_refs(cs.last().node.body, d), d);
        lemma_defs_concat(cases_defs(cs.drop_last(), d), term_defs(cs.last().node.body, d), d);
    }
}

/// Adding definitions in two runs is adding them in one.
pub proof fn lemma_add_defs_append(m: Map<Seq<char>, Seq<DefView>>, a: Seq<DefView>, b: Seq<DefView>)
    ensures
        add_defs_view(m, a + b) == add_defs_view(add_defs_view(m, a), b),
    decreases b.len(),
{
    if b.len() == 0 {
        assert(a + b =~= a);
    } else {
        lemma_add_defs_append(m, a, b.drop_last());
        assert((a + b).drop_last() =~= a + b.drop_last());
        assert((a + b).last() == b.last());
    }
}


// ---------------------------------------------------------------------------
// Walking the AST
// ---------------------------------------------------------------------------

/// `after` is `before` with `refs` appended to its references and `defs` added
/// to its definitions, the rest unchanged.
pub open spec fn extended(
    before: SymbolIndex,
    after: SymbolIndex,
    defs: Seq<DefView>,
    refs: Seq<RefView>,
) -> bool {
    &&& after.definitions.view() == add_defs_view(before.definitions.view(), defs)
    &&& after.refs() == before.refs() + refs
    &&& after.push_pop_pairs@ == before.push_pop_pairs@
    &&& after.command_spans@ == before.command_spans@
}

proof fn lemma_extended_trans(
    a: SymbolIndex,
    b: SymbolIndex,
    c: SymbolIndex,
    d1: Seq<DefView>,
    r1: Seq<RefView>,
    d2: Seq<DefView>,
    r2: Seq<RefView>,
)
    requires
        extended(a, b, d1, r1),
        extended(b, c, d2, r2),
    ensures
        extended(a, c, d1 + d2, r1 + r2),
{
    lemma_add_defs_append(a.definitions.view(), d1, d2);
    assert(a.refs() + r1 + r2 =~= a.refs() + (r1 + r2));
}

proof fn lemma_extended_refl(a: SymbolIndex)
    ensures
        extended(a, a, Seq::empty(), Seq::empty()),
{
    assert(a.refs() + Seq::<RefView>::empty() =~= a.refs());
}

fn push_ref(index: &mut SymbolIndex, sym: &Symbol, span: Span, stack_depth: u32)
    ensures
        extended(*old(index), *final(index), Seq::empty(), seq![ref_of(*sym, span, stack_depth)]),
{
    index.references.push(SymbolRef { name: sym.name.clone(), span, stack_depth });
    proof {
        assert(index.refs() =~= old(index).refs() + seq![ref_of(*sym, span, stack_depth)]);
    }
}

fn add_def(
    index: &mut SymbolIndex,
    sym: &Symbol,
    name_span: Span,
    def_span: Span,
    kind: SymbolKind,
    stack_depth: u32,
)
    ensures
        extended(
            *old(index),
            *final(index),
            seq![def_of(*sym, name_span, def_span, kind, stack_depth, None)],
            Seq::empty(),
        ),
{
    add_def_scoped(index, sym, name_span, def_span, kind, stack_depth, None, None)
}

fn add_def_scoped(
    index: &mut SymbolIndex,
    sym: &Symbol,
    name_span: Span,
    def_span: Span,
    kind: SymbolKind,
    stack_depth: u32,
    scope_start: Option<u32>,
    scope_end: Option<u32>,
)
    ensures
        extended(
            *old(index),
            *final(index),
            seq![scoped_def_of(*sym, name_span, def_span, kind, stack_depth, scope_start, scope_end)],
            Seq::empty(),
        ),
{
    let def = SymbolDef {
        name: sym.name.clone(),
        kind,
        def_span,
        name_span,
        stack_depth,
        scope_end,
        scope_start,
    };
    index.definitions.add(def);
    proof {
        let ds = seq![scoped_def_of(*sym, name_span, def_span, kind, stack_depth, scope_start, scope_end)];
        assert(ds.drop_last() =~= Seq::<DefView>::empty());
        assert(add_defs_view(old(index).definitions.view(), Seq::<DefView>::empty())
            == old(index).definitions.view());
        assert(add_defs_view(old(index).definitions.view(), ds) == add_def_view(
            old(index).definitions.view(),
            ds[0],
        ));
        assert(index.refs() =~= old(index).refs() + Seq::<RefView>::empty());
    }
}

/// Collect sort references from a sort node.
fn collect_sort_refs(index: &mut SymbolIndex, sort: &Spanned<Sort>, stack_depth: u32)
    ensures
        extended(*old(index), *final(index), Seq::empty(), sort_refs(*sort, stack_depth)),
    decreases sort,
{
    match &sort.node {
        Sort::Simple(Identifier::Simple(sym)) => {
            push_ref(index, sym, sort.span, stack_depth);
        },
        Sort::Simple(Identifier::Indexed(sym, _)) => {
            // e.g., (_ BitVec 8) — add ref for the head symbol
            push_ref(index, sym, sort.span, stack_depth);
        },
        Sort::Parameterized(ident, params) => {
            // Add ref for the head sort identifier
            match ident {
                Identifier::Simple(sym) => {
                    push_ref(index, sym, sort.span, stack_depth);
                },
                Identifier::Indexed(sym, _) => {
                    push_ref(index, sym, sort.span, stack_depth);
                },
            }
            let ghost start = *index;
            let ghost head = seq![ref_of(head_symbol(*ident), sort.span, stack_depth)];
            proof {
                assert forall|j: int| 0 <= j < params.len() implies decreases_to!(sort => params[j]) by {
                    assert(decreases_to!(params => params[j]));
                }
            }
            let mut i: usize = 0;
            while i < params.len()
                invariant
                    forall|j: int| 0 <= j < params.len() ==> decreases_to!(sort => params[j]),
                    extended(*old(index), start, Seq::empty(), head),
                    i <= params@.len(),
                    extended(start, *index, Seq::empty(), sorts_refs(params@.take(i as int), stack_depth)),
                decreases params@.len() - i,
            {
                let ghost mid = *index;
                proof {
                    assert(decreases_to!(sort => params[i as int]));
                }
                collect_sort_refs(index, &params[i], stack_depth);
                proof {
                    lemma_extended_trans(
                        start,
                        mid,
                        *index,
                        Seq::empty(),
                        sorts_refs(params@.take(i as int), stack_depth),
                        Seq::empty(),
                        sort_refs(params@[i as int], stack_depth),
                    );
                    assert(params@.take(i + 1).drop_last() =~= params@.take(i as int));
                    assert(Seq::<DefView>::empty() + Seq::<DefView>::empty() =~= Seq::<DefView>::empty());
                }
                i = i + 1;
            }
            proof {
                assert(params@.take(params@.len() as int) =~= params@);
                lemma_extended_trans(
                    *old(index),
                    start,
                    *index,
                    Seq::empty(),
                    head,
                    Seq::empty(),
                    sorts_refs(params@, stack_depth),
                );
                assert(Seq::<DefView>::empty() + Seq::<DefView>::empty() =~= Seq::<DefView>::empty());
            }
        },
    }
}


proof fn lemma_empty_concat<A>(a: Seq<A>)
    ensures
        Seq::<A>::empty() + a == a,
        a + Seq::<A>::empty() == a,
{
    assert(Seq::<A>::empty() + a =~= a);
    assert(a + Seq::<A>::empty() =~= a);
}

/// Whether two texts are the same.
fn same_text(a: &str, b: &str) -> (res: bool)
    ensures
        res == (a@ == b@),
{
    let x = a.as_bytes();
    let y = b.as_bytes();
    proof {
        vstd::utf8::encode_utf8_decode_utf8(a@);
        vstd::utf8::encode_utf8_decode_utf8(b@);
    }
    if x.len() != y.len() {
        return false;
    }
    let mut i: usize = 0;
    while i < x.len()
        invariant
            x@ == a.spec_bytes(),
            y@ == b.spec_bytes(),
            x@.len() == y@.len(),
            i <= x@.len(),
            forall|k: int| 0 <= k < i ==> x@[k] == y@[k],
        decreases x@.len() - i,
    {
        if x[i] != y[i] {
            return false;
        }
        i = i + 1;
    }
    proof {
        assert(x@ =~= y@);
    }
    true
}

fn collect_qi_ref(index: &mut SymbolIndex, qi: &QualifiedIdentifier, stack_depth: u32)
    ensures
        extended(*old(index), *final(index), Seq::empty(), qi_refs(*qi, stack_depth)),
{
    match qi {
        QualifiedIdentifier::Simple(ident) => {
            if let Identifier::Simple(sym) = &ident.node {
                push_ref(index, sym, ident.span, stack_depth);
            } else {
                proof { lemma_extended_refl(*index); }
            }
        },
        QualifiedIdentifier::As(ident, sort) => {
            let ghost start = *index;
            if let Identifier::Simple(sym) = &ident.node {
                push_ref(index, sym, ident.span, stack_depth);
            } else {
                proof { lemma_extended_refl(*index); }
            }
            let ghost mid = *index;
            collect_sort_refs(index, sort, stack_depth);
            proof {
                lemma_extended_trans(
                    start,
                    mid,
                    *index,
                    Seq::empty(),
                    qi_refs(QualifiedIdentifier::Simple(*ident), stack_depth),
                    Seq::empty(),
                    sort_refs(*sort, stack_depth),
                );
                lemma_empty_concat(Seq::<DefView>::empty());
                lemma_empty_concat(sort_refs(*sort, stack_depth));
            }
        },
    }
}

/// Collect symbol references from s-expressions (for Unknown commands).
fn collect_sexpr_refs(index: &mut SymbolIndex, sexpr: &Spanned<SExpr>, stack_depth: u32)
    ensures
        extended(*old(index), *final(index), Seq::empty(), sexpr_refs(*sexpr, stack_depth)),
    decreases sexpr,
{
    match &sexpr.node {
        SExpr::Symbol(sym) => {
            push_ref(index, sym, sexpr.span, stack_depth);
        },
        SExpr::List(items) => {
            proof {
                assert forall|j: int| 0 <= j < items.len() implies decreases_to!(sexpr => items[j]) by {
                    assert(decreases_to!(items => items[j]));
                }
            }
            collect_sexprs_refs(index, items, stack_depth);
        },
        _ => {
            proof { lemma_extended_refl(*index); }
        },
    }
}

fn collect_sexprs_refs(index: &mut SymbolIndex, items: &Vec<Spanned<SExpr>>, stack_depth: u32)
    ensures
        extended(*old(index), *final(index), Seq::empty(), sexprs_refs(items@, stack_depth)),
    decreases items,
{
    let ghost start = *index;
    proof { lemma_extended_refl(*index); }
    let mut i: usize = 0;
    while i < items.len()
        invariant
            start == *old(index),
            i <= items@.len(),
            extended(start, *index, Seq::empty(), sexprs_refs(items@.take(i as int), stack_depth)),
        decreases items@.len() - i,
    {
        let ghost mid = *index;
        proof {
            assert(decreases_to!(items => items[i as int]));
        }
        collect_sexpr_refs(index, &items[i], stack_depth);
        proof {
            lemma_extended_trans(
                start,
                mid,
                *index,
                Seq::empty(),
                sexprs_refs(items@.take(i as int), stack_depth),
                Seq::empty(),
                sexpr_refs(items@[i as int], stack_depth),
            );
            assert(items@.take(i + 1).drop_last() =~= items@.take(i as int));
            lemma_empty_concat(Seq::<DefView>::empty());
        }
        i = i + 1;
    }
    proof {
        assert(items@.take(items@.len() as int) =~= items@);
    }
}

/// Collect refs from attribute values (for :pattern/:no-pattern).
fn collect_attr_value_refs(index: &mut SymbolIndex, val: &AttributeValue, stack_depth: u32)
    ensures
        extended(
            *old(index),
            *final(index),
            Seq::empty(),
            match *val {
                AttributeValue::SExpr(items) => sexprs_refs(items@, stack_depth),
                _ => Seq::empty(),
            },
        ),
{
    match val {
        AttributeValue::SExpr(items) => {
            collect_sexprs_refs(index, items, stack_depth);
        },
        AttributeValue::Symbol(_sym) => {
            // We don't have a span for the symbol in AttributeValue::Symbol,
            // so we can't add a precise ref here. Skip.
            proof { lemma_extended_refl(*index); }
        },
        _ => {
            proof { lemma_extended_refl(*index); }
        },
    }
}


/// Collect symbol references (and local definitions) within a term.
fn collect_term_refs(index: &mut SymbolIndex, term: &Spanned<Term>, stack_depth: u32)
    ensures
        extended(
            *old(index),
            *final(index),
            term_defs(*term, stack_depth),
            term_refs(*term, stack_depth),
        ),
    decreases term,
{
    let ghost start = *index;
    match &term.node {
        Term::QualifiedIdentifier(qi) => {
            collect_qi_ref(index, qi, stack_depth);
        },
        Term::Application(func, args) => {
            collect_qi_ref(index, &func.node, stack_depth);
            let ghost mid = *index;
            collect_terms_refs(index, args, stack_depth);
            proof {
                lemma_extended_trans(
                    start,
                    mid,
                    *index,
                    Seq::empty(),
                    qi_refs(func.node, stack_depth),
                    terms_defs(args@, stack_depth),
                    terms_refs(args@, stack_depth),
                );
                lemma_empty_concat(terms_defs(args@, stack_depth));
            }
        },
        Term::Let(bindings, body) => {
            // SMT-LIB let has simultaneous binding: RHSs don't see each other.
            // Phase 1: collect refs in all RHS values
            proof {
                assert forall|j: int| 0 <= j < bindings.len() implies decreases_to!(term => bindings[j].node.value) by {
                    assert(decreases_to!(bindings => bindings[j]));
                }
            }
            collect_binding_values(index, bindings, stack_depth);
            let ghost m1 = *index;
            // Phase 2: add let-bound variable definitions (scoped to body end)
            let body_start = body.span.start;
            let body_end = body.span.end;
            add_binding_defs(index, bindings, stack_depth, body_start, body_end);
            let ghost m2 = *index;
            // Phase 3: collect refs in the body
            collect_term_refs(index, body, stack_depth);
            proof {
                let vd = binding_values_defs(bindings@, stack_depth);
                let vr = binding_values_refs(bindings@, stack_depth);
                let bd = bindings_defs(bindings@, stack_depth, body_start, body_end);
                lemma_extended_trans(start, m1, m2, vd, vr, bd, Seq::empty());
                lemma_extended_trans(
                    start,
                    m2,
                    *index,
                    vd + bd,
                    vr + Seq::empty(),
                    term_defs(**body, stack_depth),
                    term_refs(**body, stack_depth),
                );
                lemma_empty_concat(vr);
            }
        },
        Term::Forall(vars, body) | Term::Exists(vars, body) | Term::Lambda(vars, body) => {
            let body_end = body.span.end;
            add_var_defs(index, vars, stack_depth, body_end);
            let ghost mid = *index;
            collect_term_refs(index, body, stack_depth);
            proof {
                lemma_extended_trans(
                    start,
                    mid,
                    *index,
                    vars_defs(vars@, stack_depth, body_end),
                    vars_sort_refs(vars@, stack_depth),
                    term_defs(**body, stack_depth),
                    term_refs(**body, stack_depth),
                );
            }
        },
        Term::Match(scrutinee, cases) => {
            collect_term_refs(index, scrutinee, stack_depth);
            let ghost mid = *index;
            proof {
                assert forall|j: int| 0 <= j < cases.len() implies decreases_to!(term => cases[j].node.body) by {
                    assert(decreases_to!(cases => cases[j]));
                }
            }
            collect_cases_refs(index, cases, stack_depth);
            proof {
                lemma_extended_trans(
                    start,
                    mid,
                    *index,
                    term_defs(**scrutinee, stack_depth),
                    term_refs(**scrutinee, stack_depth),
                    cases_defs(cases@, stack_depth),
                    cases_refs(cases@, stack_depth),
                );
            }
        },
        Term::Annotated(inner, attrs) => {
            collect_term_refs(index, inner, stack_depth);
            let ghost mid = *index;
            // Walk :pattern and :no-pattern attribute values for refs
            collect_pattern_refs(index, attrs, stack_depth);
            proof {
                lemma_extended_trans(
                    start,
                    mid,
                    *index,
                    term_defs(**inner, stack_depth),
                    term_refs(**inner, stack_depth),
                    Seq::empty(),
                    attrs_refs(attrs@, stack_depth),
                );
                lemma_empty_concat(term_defs(**inner, stack_depth));
            }
        },
        Term::Constant(_) => {
            proof { lemma_extended_refl(*index); }
        },
    }
}

fn collect_terms_refs(index: &mut SymbolIndex, ts: &Vec<Spanned<Term>>, stack_depth: u32)
    ensures
        extended(*old(index), *final(index), terms_defs(ts@, stack_depth), terms_refs(ts@, stack_depth)),
    decreases ts,
{
    let ghost start = *index;
    proof { lemma_extended_refl(*index); }
    let mut i: usize = 0;
    while i < ts.len()
        invariant
            start == *old(index),
            i <= ts@.len(),
            extended(
                start,
                *index,
                terms_defs(ts@.take(i as int), stack_depth),
                terms_refs(ts@.take(i as int), stack_depth),
            ),
        decreases ts@.len() - i,
    {
        let ghost mid = *index;
        proof {
            assert(decreases_to!(ts => ts[i as int]));
        }
        collect_term_refs(index, &ts[i], stack_depth);
        proof {
            lemma_extended_trans(
                start,
                mid,
                *index,
                terms_defs(ts@.take(i as int), stack_depth),
                terms_refs(ts@.take(i as int), stack_depth),
                term_defs(ts@[i as int], stack_depth),
                term_refs(ts@[i as int], stack_depth),
            );
            assert(ts@.take(i + 1).drop_last() =~= ts@.take(i as int));
        }
        i = i + 1;
    }
    proof {
        assert(ts@.take(ts@.len() as int) =~= ts@);
    }
}

fn collect_binding_values(index: &mut SymbolIndex, bs: &Vec<Spanned<VarBinding>>, stack_depth: u32)
    ensures
        extended(
            *old(index),
            *final(index),
            binding_values_defs(bs@, stack_depth),
            binding_values_refs(bs@, stack_depth),
        ),
    decreases bs,
{
    let ghost start = *index;
    proof { lemma_extended_refl(*index); }
    let mut i: usize = 0;
    while i < bs.len()
        invariant
            start == *old(index),
            i <= bs@.len(),
            extended(
                start,
                *index,
                binding_values_defs(bs@.take(i as int), stack_depth),
                binding_values_refs(bs@.take(i as int), stack_depth),
            ),
        decreases bs@.len() - i,
    {
        let ghost mid = *index;
        proof {
            assert(decreases_to!(bs => bs[i as int]));
        }
        collect_term_refs(index, &bs[i].node.value, stack_depth);
        proof {
            lemma_extended_trans(
                start,
                mid,
                *index,
                binding_values_defs(bs@.take(i as int), stack_depth),
                binding_values_refs(bs@.take(i as int), stack_depth),
                term_defs(bs@[i as int].node.value, stack_depth),
                term_refs(bs@[i as int].node.value, stack_depth),
            );
            assert(bs@.take(i + 1).drop_last() =~= bs@.take(i as int));
        }
        i = i + 1;
    }
    proof {
        assert(bs@.take(bs@.len() as int) =~= bs@);
    }
}

fn collect_cases_refs(index: &mut SymbolIndex, cs: &Vec<Spanned<MatchCase>>, stack_depth: u32)
    ensures
        extended(*old(index), *final(index), cases_defs(cs@, stack_depth), cases_refs(cs@, stack_depth)),
    decreases cs,
{
    let ghost start = *index;
    proof { lemma_extended_refl(*index); }
    let mut i: usize = 0;
    while i < cs.len()
        invariant
            start == *old(index),
            i <= cs@.len(),
            extended(
                start,
                *index,
                cases_defs(cs@.take(i as int), stack_depth),
                cases_refs(cs@.take(i as int), stack_depth),
            ),
        decreases cs@.len() - i,
    {
        let ghost mid = *index;
        proof {
            assert(decreases_to!(cs => cs[i as int]));
        }
        collect_term_refs(index, &cs[i].node.body, stack_depth);
        proof {
            lemma_extended_trans(
                start,
                mid,
                *index,
                cases_defs(cs@.take(i as int), stack_depth),
                cases_refs(cs@.take(i as int), stack_depth),
                term_defs(cs@[i as int].node.body, stack_depth),
                term_refs(cs@[i as int].node.body, stack_depth),
            );
            assert(cs@.take(i + 1).drop_last() =~= cs@.take(i as int));
        }
        i = i + 1;
    }
    proof {
        assert(cs@.take(cs@.len() as int) =~= cs@);
    }
}

fn add_binding_defs(
    index: &mut SymbolIndex,
    bs: &Vec<Spanned<VarBinding>>,
    stack_depth: u32,
    scope_start: u32,
    scope_end: u32,
)
    ensures
        extended(*old(index), *final(index), bindings_defs(bs@, stack_depth, scope_start, scope_end), Seq::empty()),
{
    let ghost start = *index;
    proof { lemma_extended_refl(*index); }
    let mut i: usize = 0;
    while i < bs.len()
        invariant
            start == *old(index),
            i <= bs@.len(),
            extended(start, *index, bindings_defs(bs@.take(i as int), stack_depth, scope_start, scope_end), Seq::empty()),
        decreases bs@.len() - i,
    {
        let ghost mid = *index;
        let binding = &bs[i];
        add_def_scoped(
            index,
            &binding.node.name.node,
            binding.node.name.span,
            binding.span,
            SymbolKind::Variable,
            stack_depth,
            Some(scope_start),
            Some(scope_end),
        );
        proof {
            let d = scoped_def_of(
                binding.node.name.node,
                binding.node.name.span,
                binding.span,
                SymbolKind::Variable,
                stack_depth,
                Some(scope_start),
                Some(scope_end),
            );
            lemma_extended_trans(
                start,
                mid,
                *index,
                bindings_defs(bs@.take(i as int), stack_depth, scope_start, scope_end),
                Seq::empty(),
                seq![d],
                Seq::empty(),
            );
            assert(bs@.take(i + 1).drop_last() =~= bs@.take(i as int));
            assert(bindings_defs(
                bs@.take(i as int),
                stack_depth,
                scope_start,
                scope_end,
            ) + seq![d] =~= bindings_defs(bs@.take(i as int), stack_depth, scope_start, scope_end).push(d));
            lemma_empty_concat(Seq::<RefView>::empty());
        }
        i = i + 1;
    }
    proof {
        assert(bs@.take(bs@.len() as int) =~= bs@);
    }
}

fn add_var_defs(index: &mut SymbolIndex, vs: &Vec<Spanned<SortedVar>>, stack_depth: u32, scope_end: u32)
    ensures
        extended(
            *old(index),
            *final(index),
            vars_defs(vs@, stack_depth, scope_end),
            vars_sort_refs(vs@, stack_depth),
        ),
{
    let ghost start = *index;
    proof { lemma_extended_refl(*index); }
    let mut i: usize = 0;
    while i < vs.len()
        invariant
            start == *old(index),
            i <= vs@.len(),
            extended(
                start,
                *index,
                vars_defs(vs@.take(i as int), stack_depth, scope_end),
                vars_sort_refs(vs@.take(i as int), stack_depth),
            ),
        decreases vs@.len() - i,
    {
        let ghost mid = *index;
        let var = &vs[i];
        add_def_scoped(
            index,
            &var.node.name.node,
            var.node.name.span,
            var.span,
            SymbolKind::Variable,
            stack_depth,
            None,
            Some(scope_end),
        );
        let ghost mid2 = *index;
        collect_sort_refs(index, &var.node.sort, stack_depth);
        proof {
            let d = def_of(
                var.node.name.node,
                var.node.name.span,
                var.span,
                SymbolKind::Variable,
                stack_depth,
                Some(scope_end),
            );
            let pd = vars_defs(vs@.take(i as int), stack_depth, scope_end);
            let pr = vars_sort_refs(vs@.take(i as int), stack_depth);
            lemma_extended_trans(
                mid,
                mid2,
                *index,
                seq![d],
                Seq::empty(),
                Seq::empty(),
                sort_refs(var.node.sort, stack_depth),
            );
            lemma_empty_concat(seq![d]);
            lemma_empty_concat(sort_refs(var.node.sort, stack_depth));
            lemma_extended_trans(start, mid, *index, pd, pr, seq![d], sort_refs(var.node.sort, stack_depth));
            assert(vs@.take(i + 1).drop_last() =~= vs@.take(i as int));
            assert(pd + seq![d] =~= pd.push(d));
        }
        i = i + 1;
    }
    proof {
        assert(vs@.take(vs@.len() as int) =~= vs@);
    }
}

fn collect_pattern_refs(index: &mut SymbolIndex, attrs: &Vec<Attribute>, stack_depth: u32)
    ensures
        extended(*old(index), *final(index), Seq::empty(), attrs_refs(attrs@, stack_depth)),
{
    let ghost start = *index;
    proof { lemma_extended_refl(*index); }
    let mut i: usize = 0;
    while i < attrs.len()
        invariant
            start == *old(index),
            i <= attrs@.len(),
            extended(start, *index, Seq::empty(), attrs_refs(attrs@.take(i as int), stack_depth)),
        decreases attrs@.len() - i,
    {
        let ghost mid = *index;
        let attr = &attrs[i];
        let kw = attr.keyword.node.as_str();
        if same_text(kw, ":pattern") || same_text(kw, ":no-pattern") {
            proof {
                reveal_strlit(":pattern");
                reveal_strlit(":no-pattern");
            }
            match &attr.value {
                Some(val) => {
                    collect_attr_value_refs(index, &val.node, stack_depth);
                },
                None => {
                    proof { lemma_extended_refl(*index); }
                },
            }
        } else {
            proof { lemma_extended_refl(*index); }
        }
        proof {
            lemma_extended_trans(
                start,
                mid,
                *index,
                Seq::empty(),
                attrs_refs(attrs@.take(i as int), stack_depth),
                Seq::empty(),
                attr_refs(attrs@[i as int], stack_depth),
            );
            assert(attrs@.take(i + 1).drop_last() =~= attrs@.take(i as int));
            lemma_empty_concat(Seq::<DefView>::empty());
        }
        i = i + 1;
    }
    proof {
        assert(attrs@.take(attrs@.len() as int) =~= attrs@);
    }
}


// ---------------------------------------------------------------------------
// What an index holds: the contribution of each command
// ---------------------------------------------------------------------------

pub open spec fn selectors_defs(ss: Seq<SelectorDec>, d: u32) -> Seq<DefView>
    decreases ss.len(),
{
    if ss.len() == 0 {
        Seq::empty()
    } else {
        let sel = ss.last();
        selectors_defs(ss.drop_last(), d).push(
            def_of(sel.name.node, sel.name.span, sel.name.span, SymbolKind::Selector, d, None),
        )
    }
}

pub open spec fn selectors_refs(ss: Seq<SelectorDec>, d: u32) -> Seq<RefView>
    decreases ss.len(),
{
    if ss.len() == 0 {
        Seq::empty()
    } else {
        selectors_refs(ss.drop_last(), d) + sort_refs(ss.last().sort, d)
    }
}

/// Each constructor is defined, then each of its selectors.
pub open spec fn ctors_defs(cs: Seq<Spanned<ConstructorDec>>, d: u32) -> Seq<DefView>
    decreases cs.len(),
{
    if cs.len() == 0 {
        Seq::empty()
    } else {
        let c = cs.last();
        ctors_defs(cs.drop_last(), d) + seq![
            def_of(c.node.name.node, c.node.name.span, c.span, SymbolKind::Constructor, d, None),
        ] + selectors_defs(c.node.selectors@, d)
    }
}

pub open spec fn ctors_refs(cs: Seq<Spanned<ConstructorDec>>, d: u32) -> Seq<RefView>
    decreases cs.len(),
{
    if cs.len() == 0 {
        Seq::empty()
    } else {
        ctors_refs(cs.drop_last(), d) + selectors_refs(cs.last().node.selectors@, d)
    }
}

pub open spec fn decs_defs(ds: Seq<Spanned<DatatypeDec>>, d: u32) -> Seq<DefView>
    decreases ds.len(),
{
    if ds.len() == 0 {
        Seq::empty()
    } else {
        decs_defs(ds.drop_last(), d) + ctors_defs(ds.last().node.constructors@, d)
    }
}

pub open spec fn decs_refs(ds: Seq<Spanned<DatatypeDec>>, d: u32) -> Seq<RefView>
    decreases ds.len(),
{
    if ds.len() == 0 {
        Seq::empty()
    } else {
        decs_refs(ds.drop_last(), d) + ctors_refs(ds.last().node.constructors@, d)
    }
}

/// The declared names of `declare-datatypes`, each defined over the whole
/// command.
pub open spec fn sort_decs_defs(sds: Seq<(Spanned<Symbol>, u64)>, span: Span, d: u32) -> Seq<DefView>
    decreases sds.len(),
{
    if sds.len() == 0 {
        Seq::empty()
    } else {
        let name = sds.last().0;
        sort_decs_defs(sds.drop_last(), span, d).push(
            def_of(name.node, name.span, span, SymbolKind::Datatype, d, None),
        )
    }
}

/// A function definition: the function over the whole command, then its
/// parameters scoped to the end of the body, then the body's local definitions.
pub open spec fn fun_def_defs(def: FunDef, span: Span, d: u32) -> Seq<DefView> {
    seq![def_of(def.name.node, def.name.span, span, SymbolKind::Function, d, None)] + vars_defs(
        def.params@,
        d,
        def.body.span.end,
    ) + term_defs(def.body, d)
}

pub open spec fn fun_def_refs(def: FunDef, d: u32) -> Seq<RefView> {
    vars_sort_refs(def.params@, d) + sort_refs(def.result_sort, d) + term_refs(def.body, d)
}

pub open spec fn fun_defs_defs(defs: Seq<FunDef>, span: Span, d: u32) -> Seq<DefView>
    decreases defs.len(),
{
    if defs.len() == 0 {
        Seq::empty()
    } else {
        fun_defs_defs(defs.drop_last(), span, d) + fun_def_defs(defs.last(), span, d)
    }
}

pub open spec fn fun_defs_refs(defs: Seq<FunDef>, d: u32) -> Seq<RefView>
    decreases defs.len(),
{
    if defs.len() == 0 {
        Seq::empty()
    } else {
        fun_defs_refs(defs.drop_last(), d) + fun_def_refs(defs.last(), d)
    }
}

/// The definitions a command (other than `push` and `pop`) makes.
pub open spec fn command_defs(cmd: Spanned<Command>, d: u32) -> Seq<DefView> {
    let span = cmd.span;
    match cmd.node {
        Command::DeclareSort(name, _) => seq![def_of(name.node, name.span, span, SymbolKind::Sort, d, None)],
        Command::DefineSort(
            name,
            _,
            _,
        ) => seq![def_of(name.node, name.span, span, SymbolKind::Sort, d, None)],
        Command::DeclareFun(
            name,
            _,
            _,
        ) => seq![def_of(name.node, name.span, span, SymbolKind::Function, d, None)],
        Command::DeclareConst(
            name,
            _,
        ) => seq![def_of(name.node, name.span, span, SymbolKind::Constant, d, None)],
        Command::DefineFun(def) => fun_def_defs(def, span, d),
        Command::DefineFunRec(def) => fun_def_defs(def, span, d),
        Command::DefineFunsRec(defs) => fun_defs_defs(defs@, span, d),
        Command::DeclareDatatype(name, dec) => seq![
            def_of(name.node, name.span, span, SymbolKind::Datatype, d, None),
        ] + ctors_defs(dec.node.constructors@, d),
        Command::DeclareDatatypes(sds, decs) => sort_decs_defs(sds@, span, d) + decs_defs(decs@, d),
        Command::Assert(t) => term_defs(t, d),
        _ => Seq::empty(),
    }
}

/// The references a command (other than `push` and `pop`) makes.
pub open spec fn command_refs(cmd: Spanned<Command>, d: u32) -> Seq<RefView> {
    match cmd.node {
        Command::DefineSort(_, _, body) => sort_refs(body, d),
        Command::DeclareFun(_, params, result) => sorts_refs(params@, d) + sort_refs(result, d),
        Command::DeclareConst(_, sort) => sort_refs(sort, d),
        Command::DefineFun(def) => fun_def_refs(def, d),
        Command::DefineFunRec(def) => fun_def_refs(def, d),
        Command::DefineFunsRec(defs) => fun_defs_refs(defs@, d),
        Command::DeclareDatatype(_, dec) => ctors_refs(dec.node.constructors@, d),
        Command::DeclareDatatypes(_, decs) => decs_refs(decs@, d),
        Command::Assert(t) => term_refs(t, d),
        Command::Unknown(_, args) => sexprs_refs(args@, d),
        _ => Seq::empty(),
    }
}

pub open spec fn info(kind: CommandInfoKind, name: Option<Seq<char>>, span: Span, d: u32) -> InfoView {
    InfoView { kind, name, span, stack_depth: d }
}

/// The outline entry of a command (other than `push` and `pop`).
pub open spec fn command_info(cmd: Spanned<Command>, d: u32) -> InfoView {
    let span = cmd.span;
    match cmd.node {
        Command::SetLogic(sym) => info(CommandInfoKind::SetLogic, Some(sym.node.name@), span, d),
        Command::DeclareSort(name, _) => info(CommandInfoKind::DeclareSort, Some(name.node.name@), span, d),
        Command::DefineSort(name, _, _) => info(CommandInfoKind::DefineSort, Some(name.node.name@), span, d),
        Command::DeclareFun(name, _, _) => info(CommandInfoKind::DeclareFun, Some(name.node.name@), span, d),
        Command::DeclareConst(name, _) => info(CommandInfoKind::DeclareConst, Some(name.node.name@), span, d),
        Command::DefineFun(def) => info(CommandInfoKind::DefineFun, Some(def.name.node.name@), span, d),
        Command::DefineFunRec(def) => info(CommandInfoKind::DefineFunRec, Some(def.name.node.name@), span, d),
        Command::DefineFunsRec(defs) => info(
            CommandInfoKind::DefineFun,
            if defs@.len() > 0 { Some(defs@[0].name.node.name@) } else { None },
            span,
            d,
        ),
        Command::DeclareDatatype(
            name,
            _,
        ) => info(CommandInfoKind::DeclareDatatype, Some(name.node.name@), span, d),
        Command::DeclareDatatypes(sds, _) => info(
            CommandInfoKind::DeclareDatatypes,
            if sds@.len() > 0 { Some(sds@[0].0.node.name@) } else { None },
            span,
            d,
        ),
        Command::Assert(_) => info(CommandInfoKind::Assert, None, span, d),
        Command::CheckSat => info(CommandInfoKind::CheckSat, None, span, d),
        Command::CheckSatAssuming(_) => info(CommandInfoKind::CheckSat, None, span, d),
        _ => info(CommandInfoKind::Other, None, span, d),
    }
}

/// The state of indexing after some commands: what the index holds so far, the
/// current push/pop depth, and the stack of open pushes (span and depth).
#[verifier::ext_equal]
pub struct BuildState {
    pub defs: Map<Seq<char>, Seq<DefView>>,
    pub refs: Seq<RefView>,
    pub pairs: Seq<PushPopPair>,
    pub infos: Seq<InfoView>,
    pub depth: u32,
    pub stack: Seq<(Span, u32)>,
}

/// The depth one below `d`, wrapping at 0.
pub open spec fn depth_below(d: int) -> u32 {
    if d == 0 {
        u32::MAX
    } else {
        (d - 1) as u32
    }
}

/// `(push n)` opens `n` levels (as many as the depth counter can take), each
/// remembered with the depth it opened at.
pub open spec fn push_step(st: BuildState, span: Span, n: u64) -> BuildState {
    let k: int = if n <= u32::MAX - st.depth { n as int } else { u32::MAX - st.depth };
    let depth = st.depth + k;
    BuildState {
        defs: st.defs,
        refs: st.refs,
        pairs: st.pairs,
        infos: st.infos.push(info(CommandInfoKind::Push, None, span, depth_below(depth))),
        depth: depth as u32,
        stack: st.stack + Seq::new(k as nat, |j: int| (span, (st.depth + j) as u32)),
    }
}

/// `(pop n)` closes up to `n` open levels, innermost first; each closed level
/// becomes a pair of its push and this pop.
pub open spec fn pop_step(st: BuildState, span: Span, n: u64) -> BuildState {
    let len = st.stack.len() as int;
    let k: int = if n <= len { n as int } else { len };
    let depth: int = if st.depth >= k { st.depth - k } else { 0 };
    BuildState {
        defs: st.defs,
        refs: st.refs,
        pairs: st.pairs + Seq::new(
            k as nat,
            |j: int|
                PushPopPair {
                    push_span: st.stack[len - 1 - j].0,
                    pop_span: Some(span),
                    depth: st.stack[len - 1 - j].1,
                },
        ),
        infos: st.infos.push(info(CommandInfoKind::Pop, None, span, depth as u32)),
        depth: depth as u32,
        stack: st.stack.take(len - k),
    }
}

pub open spec fn build_step(st: BuildState, cmd: Spanned<Command>) -> BuildState {
    match cmd.node {
        Command::Push(n) => push_step(st, cmd.span, n),
        Command::Pop(n) => pop_step(st, cmd.span, n),
        _ => BuildState {
            defs: add_defs_view(st.defs, command_defs(cmd, st.depth)),
            refs: st.refs + command_refs(cmd, st.depth),
            pairs: st.pairs,
            infos: st.infos.push(command_info(cmd, st.depth)),
            depth: st.depth,
            stack: st.stack,
        },
    }
}

pub open spec fn initial_state() -> BuildState {
    BuildState {
        defs: Map::empty(),
        refs: Seq::empty(),
        pairs: Seq::empty(),
        infos: Seq::empty(),
        depth: 0,
        stack: Seq::empty(),
    }
}

/// The state after indexing `cmds` in order.
pub open spec fn build_fold(cmds: Seq<Spanned<Command>>) -> BuildState
    decreases cmds.len(),
{
    if cmds.len() == 0 {
        initial_state()
    } else {
        build_step(build_fold(cmds.drop_last()), cmds.last())
    }
}

/// The pushes still open at the end, as pairs without a pop, outermost first.
pub open spec fn unmatched_pairs(stack: Seq<(Span, u32)>) -> Seq<PushPopPair> {
    Seq::new(stack.len(), |j: int| PushPopPair { push_span: stack[j].0, pop_span: None, depth: stack[j].1 })
}

/// The index of a script.
pub open spec fn indexes(index: SymbolIndex, script: Script) -> bool {
    let st = build_fold(script.commands@);
    &&& index.definitions.view() == st.defs
    &&& index.refs() == st.refs
    &&& index.infos() == st.infos
    &&& index.push_pop_pairs@ == st.pairs + unmatched_pairs(st.stack)
}


// ---------------------------------------------------------------------------
// Building the index
// ---------------------------------------------------------------------------

/// The indexing state held by an index, a depth counter and a push stack.
pub open spec fn state_of(index: SymbolIndex, depth: u32, stack: Seq<(Span, u32)>) -> BuildState {
    BuildState {
        defs: index.definitions.view(),
        refs: index.refs(),
        pairs: index.push_pop_pairs@,
        infos: index.infos(),
        depth,
        stack,
    }
}

/// Build a symbol index from a parsed script.
pub fn build_index(script: &Script) -> (index: SymbolIndex)
    ensures
        indexes(index, *script),
{
    let mut index = SymbolIndex::default();
    let mut stack_depth: u32 = 0;
    let mut push_stack: Vec<(Span, u32)> = Vec::new();
    proof {
        assert(index.refs() =~= Seq::<RefView>::empty());
        assert(index.infos() =~= Seq::<InfoView>::empty());
        assert(script.commands@.take(0) =~= Seq::<Spanned<Command>>::empty());
        assert(state_of(index, stack_depth, push_stack@) =~= initial_state());
    }
    let mut i: usize = 0;
    while i < script.commands.len()
        invariant
            i <= script.commands@.len(),
            state_of(index, stack_depth, push_stack@) == build_fold(script.commands@.take(i as int)),
        decreases script.commands@.len() - i,
    {
        index_command(&mut index, &script.commands[i], &mut stack_depth, &mut push_stack);
        proof {
            assert(script.commands@.take(i + 1).drop_last() =~= script.commands@.take(i as int));
        }
        i = i + 1;
    }
    proof {
        assert(script.commands@.take(script.commands@.len() as int) =~= script.commands@);
    }
    let ghost st = build_fold(script.commands@);
    // Any unmatched pushes
    let mut j: usize = 0;
    while j < push_stack.len()
        invariant
            st == build_fold(script.commands@),
            push_stack@ == st.stack,
            j <= push_stack@.len(),
            index.definitions.view() == st.defs,
            index.refs() == st.refs,
            index.infos() == st.infos,
            index.push_pop_pairs@ == st.pairs + unmatched_pairs(st.stack).take(j as int),
        decreases push_stack@.len() - j,
    {
        let (push_span, depth) = push_stack[j];
        index.push_pop_pairs.push(PushPopPair { push_span, pop_span: None, depth });
        proof {
            assert(unmatched_pairs(st.stack).take(j + 1) =~= unmatched_pairs(st.stack).take(
                j as int,
            ).push(PushPopPair { push_span, pop_span: None, depth }));
        }
        j = j + 1;
    }
    proof {
        assert(unmatched_pairs(st.stack).take(push_stack@.len() as int) =~= unmatched_pairs(st.stack));
    }
    index
}

/// Index one command: its definitions, references and outline entry, or the
/// stack change of a push or pop.
fn index_command(
    index: &mut SymbolIndex,
    cmd: &Spanned<Command>,
    stack_depth: &mut u32,
    push_stack: &mut Vec<(Span, u32)>,
)
    ensures
        state_of(*final(index), *final(stack_depth), final(push_stack)@) == build_step(
            state_of(*old(index), *old(stack_depth), old(push_stack)@),
            *cmd,
        ),
{
    let span = cmd.span;
    match &cmd.node {
        Command::Push(n) => {
            index_push(index, span, *n, stack_depth, push_stack);
        },
        Command::Pop(n) => {
            index_pop(index, span, *n, stack_depth, push_stack);
        },
        _ => {
            let d = *stack_depth;
            index_contents(index, cmd, d);
            let ghost mid = *index;
            let entry = command_info_of(cmd, d);
            index.command_spans.push(entry);
            proof {
                assert(index.refs() =~= mid.refs());
                assert(index.infos() =~= mid.infos().push(command_info(*cmd, d)));
                assert(state_of(*index, *stack_depth, push_stack@) =~= build_step(
                    state_of(*old(index), *old(stack_depth), old(push_stack)@),
                    *cmd,
                ));
            }
        },
    }
}

fn index_push(
    index: &mut SymbolIndex,
    span: Span,
    n: u64,
    stack_depth: &mut u32,
    push_stack: &mut Vec<(Span, u32)>,
)
    ensures
        state_of(*final(index), *final(stack_depth), final(push_stack)@) == push_step(
            state_of(*old(index), *old(stack_depth), old(push_stack)@),
            span,
            n,
        ),
{
    let ghost d0 = *stack_depth;
    let ghost s0 = push_stack@;
    let mut i: u64 = 0;
    while i < n
        invariant_except_break
            i <= n,
        invariant
            *stack_depth == d0 + i,
            push_stack@ == s0 + Seq::new(i as nat, |j: int| (span, (d0 + j) as u32)),
        ensures
            i == (if n <= u32::MAX - d0 { n as int } else { u32::MAX - d0 }),
        decreases n - i,
    {
        if *stack_depth == u32::MAX {
            break;
        }
        push_stack.push((span, *stack_depth));
        proof {
            assert(s0 + Seq::new((i + 1) as nat, |j: int| (span, (d0 + j) as u32)) =~= (s0
                + Seq::new(i as nat, |j: int| (span, (d0 + j) as u32))).push((span, (d0 + i) as u32)));
        }
        *stack_depth = *stack_depth + 1;
        i = i + 1;
    }
    // `(push 0)` leaves the depth unchanged; its entry then records the depth
    // below it, wrapping at 0.
    let entry_depth = if *stack_depth == 0 {
        u32::MAX
    } else {
        *stack_depth - 1
    };
    let ghost mid = *index;
    index.command_spans.push(
        CommandInfo { kind: CommandInfoKind::Push, name: None, span, stack_depth: entry_depth },
    );
    proof {
        assert(index.refs() =~= mid.refs());
        assert(index.infos() =~= old(index).infos().push(
            info(CommandInfoKind::Push, None, span, depth_below(*stack_depth as int)),
        ));
        assert(state_of(*index, *stack_depth, push_stack@) =~= push_step(
            state_of(*old(index), *old(stack_depth), old(push_stack)@),
            span,
            n,
        ));
    }
}

fn index_pop(
    index: &mut SymbolIndex,
    span: Span,
    n: u64,
    stack_depth: &mut u32,
    push_stack: &mut Vec<(Span, u32)>,
)
    ensures
        state_of(*final(index), *final(stack_depth), final(push_stack)@) == pop_step(
            state_of(*old(index), *old(stack_depth), old(push_stack)@),
            span,
            n,
        ),
{
    let ghost d0 = *stack_depth;
    let ghost s0 = push_stack@;
    let ghost p0 = index.push_pop_pairs@;
    let ghost len0 = s0.len() as int;
    let ghost f = |j: int|
        PushPopPair {
            push_span: s0[len0 - 1 - j].0,
            pop_span: Some(span),
            depth: s0[len0 - 1 - j].1,
        };
    let mut i: u64 = 0;
    while i < n
        invariant_except_break
            i <= n,
        invariant
            len0 == s0.len(),
            forall|j: int| #[trigger] f(j) == (PushPopPair {
                push_span: s0[len0 - 1 - j].0,
                pop_span: Some(span),
                depth: s0[len0 - 1 - j].1,
            }),
            i <= len0,
            push_stack@ == s0.take(len0 - i),
            index.push_pop_pairs@ == p0 + Seq::new(i as nat, f),
            index.definitions.view() == old(index).definitions.view(),
            index.references@ == old(index).references@,
            index.command_spans@ == old(index).command_spans@,
            *stack_depth == (if d0 >= i { d0 - i } else { 0 }),
        ensures
            i == (if n <= len0 { n as int } else { len0 }),
            push_stack@ == s0.take(len0 - i),
            index.push_pop_pairs@ == p0 + Seq::new(i as nat, f),
            index.definitions.view() == old(index).definitions.view(),
            index.references@ == old(index).references@,
            index.command_spans@ == old(index).command_spans@,
            *stack_depth == (if d0 >= i { d0 - i } else { 0 }),
        decreases n - i,
    {
        match push_stack.pop() {
            Some(entry) => {
                let (push_span, depth) = entry;
                proof {
                    assert(entry == s0[len0 - 1 - i]);
                    assert(p0 + Seq::new((i + 1) as nat, f) =~= (p0 + Seq::new(i as nat, f)).push(
                        f(i as int),
                    ));
                    assert(s0.take(len0 - i).drop_last() =~= s0.take(len0 - (i + 1)));
                }
                index.push_pop_pairs.push(PushPopPair { push_span, pop_span: Some(span), depth });
                *stack_depth = if *stack_depth > 0 {
                    *stack_depth - 1
                } else {
                    0
                };
            },
            None => {
                break;
            },
        }
        i = i + 1;
    }
    let d = *stack_depth;
    index.command_spans.push(
        CommandInfo { kind: CommandInfoKind::Pop, name: None, span, stack_depth: d },
    );
    proof {
        assert(index.refs() =~= old(index).refs());
        assert(index.infos() =~= old(index).infos().push(info(CommandInfoKind::Pop, None, span, d)));
        let st = state_of(*old(index), *old(stack_depth), old(push_stack)@);
        assert(Seq::new(i as nat, f) =~= Seq::new(
            i as nat,
            |j: int|
                PushPopPair {
                    push_span: st.stack[st.stack.len() - 1 - j].0,
                    pop_span: Some(span),
                    depth: st.stack[st.stack.len() - 1 - j].1,
                },
        ));
        assert(state_of(*index, *stack_depth, push_stack@) =~= pop_step(st, span, n));
    }
}

/// The outline entry of a command (other than `push` and `pop`).
fn command_info_of(cmd: &Spanned<Command>, stack_depth: u32) -> (res: CommandInfo)
    ensures
        res@ == command_info(*cmd, stack_depth),
{
    let span = cmd.span;
    let (kind, name) = match &cmd.node {
        Command::SetLogic(sym) => (CommandInfoKind::SetLogic, Some(sym.node.name.clone())),
        Command::DeclareSort(name, _) => (CommandInfoKind::DeclareSort, Some(name.node.name.clone())),
        Command::DefineSort(name, _, _) => (CommandInfoKind::DefineSort, Some(name.node.name.clone())),
        Command::DeclareFun(name, _, _) => (CommandInfoKind::DeclareFun, Some(name.node.name.clone())),
        Command::DeclareConst(name, _) => (CommandInfoKind::DeclareConst, Some(name.node.name.clone())),
        Command::DefineFun(def) => (CommandInfoKind::DefineFun, Some(def.name.node.name.clone())),
        Command::DefineFunRec(def) => (CommandInfoKind::DefineFunRec, Some(def.name.node.name.clone())),
        Command::DefineFunsRec(defs) => (
            CommandInfoKind::DefineFun,
            if defs.len() > 0 {
                Some(defs[0].name.node.name.clone())
            } else {
                None
            },
        ),
        Command::DeclareDatatype(name, _) => (
            CommandInfoKind::DeclareDatatype,
            Some(name.node.name.clone()),
        ),
        Command::DeclareDatatypes(sort_decs, _) => (
            CommandInfoKind::DeclareDatatypes,
            if sort_decs.len() > 0 {
                Some(sort_decs[0].0.node.name.clone())
            } else {
                None
            },
        ),
        Command::Assert(_) => (CommandInfoKind::Assert, None),
        Command::CheckSat | Command::CheckSatAssuming(_) => (CommandInfoKind::CheckSat, None),
        _ => (CommandInfoKind::Other, None),
    };
    CommandInfo { kind, name, span, stack_depth }
}

/// Index the definitions and references of a command (other than `push` and
/// `pop`).
fn index_contents(index: &mut SymbolIndex, cmd: &Spanned<Command>, d: u32)
    ensures
        extended(*old(index), *final(index), command_defs(*cmd, d), command_refs(*cmd, d)),
{
    let span = cmd.span;
    let ghost start = *index;
    match &cmd.node {
        Command::DeclareSort(name, _arity) => {
            add_def(index, &name.node, name.span, span, SymbolKind::Sort, d);
        },
        Command::DefineSort(name, _params, sort_body) => {
            add_def(index, &name.node, name.span, span, SymbolKind::Sort, d);
            let ghost mid = *index;
            collect_sort_refs(index, sort_body, d);
            proof {
                let d1 = seq![def_of(name.node, name.span, span, SymbolKind::Sort, d, None)];
                lemma_extended_trans(
                    start,
                    mid,
                    *index,
                    d1,
                    Seq::empty(),
                    Seq::empty(),
                    sort_refs(*sort_body, d),
                );
                lemma_empty_concat(d1);
                lemma_empty_concat(sort_refs(*sort_body, d));
            }
        },
        Command::DeclareFun(name, params, result) => {
            add_def(index, &name.node, name.span, span, SymbolKind::Function, d);
            let ghost m1 = *index;
            collect_sorts_refs(index, params, d);
            let ghost m2 = *index;
            collect_sort_refs(index, result, d);
            proof {
                let d1 = seq![def_of(name.node, name.span, span, SymbolKind::Function, d, None)];
                lemma_extended_trans(start, m1, m2, d1, Seq::empty(), Seq::empty(), sorts_refs(params@, d));
                lemma_extended_trans(
                    start,
                    m2,
                    *index,
                    d1 + Seq::empty(),
                    Seq::empty() + sorts_refs(params@, d),
                    Seq::empty(),
                    sort_refs(*result, d),
                );
                lemma_empty_concat(d1);
                lemma_empty_concat(sorts_refs(params@, d));
            }
        },
        Command::DeclareConst(name, sort) => {
            add_def(index, &name.node, name.span, span, SymbolKind::Constant, d);
            let ghost mid = *index;
            collect_sort_refs(index, sort, d);
            proof {
                let d1 = seq![def_of(name.node, name.span, span, SymbolKind::Constant, d, None)];
                lemma_extended_trans(start, mid, *index, d1, Seq::empty(), Seq::empty(), sort_refs(*sort, d));
                lemma_empty_concat(d1);
                lemma_empty_concat(sort_refs(*sort, d));
            }
        },
        Command::DefineFun(def) => {
            index_fun_def(index, def, span, d);
        },
        Command::DefineFunRec(def) => {
            index_fun_def(index, def, span, d);
        },
        Command::DefineFunsRec(defs) => {
            index_fun_defs(index, defs, span, d);
        },
        Command::DeclareDatatype(name, dec) => {
            add_def(index, &name.node, name.span, span, SymbolKind::Datatype, d);
            let ghost mid = *index;
            index_datatype_dec(index, dec, d);
            proof {
                let d1 = seq![def_of(name.node, name.span, span, SymbolKind::Datatype, d, None)];
                lemma_extended_trans(
                    start,
                    mid,
                    *index,
                    d1,
                    Seq::empty(),
                    ctors_defs(dec.node.constructors@, d),
                    ctors_refs(dec.node.constructors@, d),
                );
                lemma_empty_concat(ctors_refs(dec.node.constructors@, d));
            }
        },
        Command::DeclareDatatypes(sort_decs, decs) => {
            add_sort_decs(index, sort_decs, span, d);
            let ghost mid = *index;
            index_datatype_decs(index, decs, d);
            proof {
                lemma_extended_trans(
                    start,
                    mid,
                    *index,
                    sort_decs_defs(sort_decs@, span, d),
                    Seq::empty(),
                    decs_defs(decs@, d),
                    decs_refs(decs@, d),
                );
                lemma_empty_concat(decs_refs(decs@, d));
            }
        },
        Command::Assert(term) => {
            collect_term_refs(index, term, d);
        },
        Command::Unknown(_name, args) => {
            // Collect symbol references from s-expressions in unknown commands
            collect_sexprs_refs(index, args, d);
        },
        _ => {
            proof { lemma_extended_refl(*index); }
        },
    }
}

fn collect_sorts_refs(index: &mut SymbolIndex, ss: &Vec<Spanned<Sort>>, d: u32)
    ensures
        extended(*old(index), *final(index), Seq::empty(), sorts_refs(ss@, d)),
{
    let ghost start = *index;
    proof { lemma_extended_refl(*index); }
    let mut i: usize = 0;
    while i < ss.len()
        invariant
            start == *old(index),
            i <= ss@.len(),
            extended(start, *index, Seq::empty(), sorts_refs(ss@.take(i as int), d)),
        decreases ss@.len() - i,
    {
        let ghost mid = *index;
        collect_sort_refs(index, &ss[i], d);
        proof {
            lemma_extended_trans(
                start,
                mid,
                *index,
                Seq::empty(),
                sorts_refs(ss@.take(i as int), d),
                Seq::empty(),
                sort_refs(ss@[i as int], d),
            );
            assert(ss@.take(i + 1).drop_last() =~= ss@.take(i as int));
            lemma_empty_concat(Seq::<DefView>::empty());
        }
        i = i + 1;
    }
    proof {
        assert(ss@.take(ss@.len() as int) =~= ss@);
    }
}

fn index_fun_def(index: &mut SymbolIndex, def: &FunDef, span: Span, d: u32)
    ensures
        extended(*old(index), *final(index), fun_def_defs(*def, span, d), fun_def_refs(*def, d)),
{
    let ghost start = *index;
    add_def(index, &def.name.node, def.name.span, span, SymbolKind::Function, d);
    let ghost m1 = *index;
    // Index parameters as local variables (scoped to body end)
    let body_end = def.body.span.end;
    add_var_defs(index, &def.params, d, body_end);
    let ghost m2 = *index;
    collect_sort_refs(index, &def.result_sort, d);
    let ghost m3 = *index;
    // Collect references in the body
    collect_term_refs(index, &def.body, d);
    proof {
        let d1 = seq![def_of(def.name.node, def.name.span, span, SymbolKind::Function, d, None)];
        let vd = vars_defs(def.params@, d, body_end);
        let vr = vars_sort_refs(def.params@, d);
        let sr = sort_refs(def.result_sort, d);
        lemma_extended_trans(start, m1, m2, d1, Seq::empty(), vd, vr);
        lemma_extended_trans(start, m2, m3, d1 + vd, Seq::empty() + vr, Seq::empty(), sr);
        lemma_extended_trans(
            start,
            m3,
            *index,
            d1 + vd + Seq::empty(),
            Seq::empty() + vr + sr,
            term_defs(def.body, d),
            term_refs(def.body, d),
        );
        lemma_empty_concat(d1 + vd);
        lemma_empty_concat(vr);
    }
}

fn index_fun_defs(index: &mut SymbolIndex, defs: &Vec<FunDef>, span: Span, d: u32)
    ensures
        extended(*old(index), *final(index), fun_defs_defs(defs@, span, d), fun_defs_refs(defs@, d)),
{
    let ghost start = *index;
    proof { lemma_extended_refl(*index); }
    let mut i: usize = 0;
    while i < defs.len()
        invariant
            start == *old(index),
            i <= defs@.len(),
            extended(
                start,
                *index,
                fun_defs_defs(defs@.take(i as int), span, d),
                fun_defs_refs(defs@.take(i as int), d),
            ),
        decreases defs@.len() - i,
    {
        let ghost mid = *index;
        index_fun_def(index, &defs[i], span, d);
        proof {
            lemma_extended_trans(
                start,
                mid,
                *index,
                fun_defs_defs(defs@.take(i as int), span, d),
                fun_defs_refs(defs@.take(i as int), d),
                fun_def_defs(defs@[i as int], span, d),
                fun_def_refs(defs@[i as int], d),
            );
            assert(defs@.take(i + 1).drop_last() =~= defs@.take(i as int));
        }
        i = i + 1;
    }
    proof {
        assert(defs@.take(defs@.len() as int) =~= defs@);
    }
}

fn add_sort_decs(index: &mut SymbolIndex, sds: &Vec<(Spanned<Symbol>, u64)>, span: Span, d: u32)
    ensures
        extended(*old(index), *final(index), sort_decs_defs(sds@, span, d), Seq::empty()),
{
    let ghost start = *index;
    proof { lemma_extended_refl(*index); }
    let mut i: usize = 0;
    while i < sds.len()
        invariant
            start == *old(index),
            i <= sds@.len(),
            extended(start, *index, sort_decs_defs(sds@.take(i as int), span, d), Seq::empty()),
        decreases sds@.len() - i,
    {
        let ghost mid = *index;
        let name = &sds[i].0;
        add_def(index, &name.node, name.span, span, SymbolKind::Datatype, d);
        proof {
            let d1 = def_of(name.node, name.span, span, SymbolKind::Datatype, d, None);
            let pd = sort_decs_defs(sds@.take(i as int), span, d);
            lemma_extended_trans(start, mid, *index, pd, Seq::empty(), seq![d1], Seq::empty());
            assert(sds@.take(i + 1).drop_last() =~= sds@.take(i as int));
            assert(pd + seq![d1] =~= pd.push(d1));
            lemma_empty_concat(Seq::<RefView>::empty());
        }
        i = i + 1;
    }
    proof {
        assert(sds@.take(sds@.len() as int) =~= sds@);
    }
}

fn index_datatype_decs(index: &mut SymbolIndex, decs: &Vec<Spanned<DatatypeDec>>, d: u32)
    ensures
        extended(*old(index), *final(index), decs_defs(decs@, d), decs_refs(decs@, d)),
{
    let ghost start = *index;
    proof { lemma_extended_refl(*index); }
    let mut i: usize = 0;
    while i < decs.len()
        invariant
            start == *old(index),
            i <= decs@.len(),
            extended(start, *index, decs_defs(decs@.take(i as int), d), decs_refs(decs@.take(i as int), d)),
        decreases decs@.len() - i,
    {
        let ghost mid = *index;
        index_datatype_dec(index, &decs[i], d);
        proof {
            lemma_extended_trans(
                start,
                mid,
                *index,
                decs_defs(decs@.take(i as int), d),
                decs_refs(decs@.take(i as int), d),
                ctors_defs(decs@[i as int].node.constructors@, d),
                ctors_refs(decs@[i as int].node.constructors@, d),
            );
            assert(decs@.take(i + 1).drop_last() =~= decs@.take(i as int));
        }
        i = i + 1;
    }
    proof {
        assert(decs@.take(decs@.len() as int) =~= decs@);
    }
}

fn index_datatype_dec(index: &mut SymbolIndex, dec: &Spanned<DatatypeDec>, d: u32)
    ensures
        extended(
            *old(index),
            *final(index),
            ctors_defs(dec.node.constructors@, d),
            ctors_refs(dec.node.constructors@, d),
        ),
{
    let cs = &dec.node.constructors;
    let ghost start = *index;
    proof { lemma_extended_refl(*index); }
    let mut i: usize = 0;
    while i < cs.len()
        invariant
            start == *old(index),
            i <= cs@.len(),
            extended(start, *index, ctors_defs(cs@.take(i as int), d), ctors_refs(cs@.take(i as int), d)),
        decreases cs@.len() - i,
    {
        let ghost mid = *index;
        let ctor = &cs[i];
        add_def(index, &ctor.node.name.node, ctor.node.name.span, ctor.span, SymbolKind::Constructor, d);
        let ghost mid2 = *index;
        index_selectors(index, &ctor.node.selectors, d);
        proof {
            let c = cs@[i as int];
            let d1 = seq![def_of(
                c.node.name.node,
                c.node.name.span,
                c.span,
                SymbolKind::Constructor,
                d,
                None,
            )];
            let pd = ctors_defs(cs@.take(i as int), d);
            let pr = ctors_refs(cs@.take(i as int), d);
            let sd = selectors_defs(c.node.selectors@, d);
            let sr = selectors_refs(c.node.selectors@, d);
            lemma_extended_trans(start, mid, mid2, pd, pr, d1, Seq::empty());
            lemma_extended_trans(start, mid2, *index, pd + d1, pr + Seq::empty(), sd, sr);
            lemma_empty_concat(pr);
            assert(cs@.take(i + 1).drop_last() =~= cs@.take(i as int));
            assert(pd + d1 + sd =~= pd + (d1 + sd));
        }
        i = i + 1;
    }
    proof {
        assert(cs@.take(cs@.len() as int) =~= cs@);
    }
}

fn index_selectors(index: &mut SymbolIndex, ss: &Vec<SelectorDec>, d: u32)
    ensures
        extended(*old(index), *final(index), selectors_defs(ss@, d), selectors_refs(ss@, d)),
{
    let ghost start = *index;
    proof { lemma_extended_refl(*index); }
    let mut i: usize = 0;
    while i < ss.len()
        invariant
            start == *old(index),
            i <= ss@.len(),
            extended(
                start,
                *index,
                selectors_defs(ss@.take(i as int), d),
                selectors_refs(ss@.take(i as int), d),
            ),
        decreases ss@.len() - i,
    {
        let ghost mid = *index;
        let sel = &ss[i];
        add_def(index, &sel.name.node, sel.name.span, sel.name.span, SymbolKind::Selector, d);
        let ghost mid2 = *index;
        collect_sort_refs(index, &sel.sort, d);
        proof {
            let e = ss@[i as int];
            let d1 = def_of(e.name.node, e.name.span, e.name.span, SymbolKind::Selector, d, None);
            let pd = selectors_defs(ss@.take(i as int), d);
            let pr = selectors_refs(ss@.take(i as int), d);
            lemma_extended_trans(start, mid, mid2, pd, pr, seq![d1], Seq::empty());
            lemma_extended_trans(
                start,
                mid2,
                *index,
                pd + seq![d1],
                pr + Seq::empty(),
                Seq::empty(),
                sort_refs(e.sort, d),
            );
            lemma_empty_concat(pr);
            lemma_empty_concat(pd + seq![d1]);
            assert(ss@.take(i + 1).drop_last() =~= ss@.take(i as int));
            assert(pd + seq![d1] =~= pd.push(d1));
        }
        i = i + 1;
    }
    proof {
        assert(ss@.take(ss@.len() as int) =~= ss@);
    }
}


// ---------------------------------------------------------------------------
// Lookups
// ---------------------------------------------------------------------------

/// A definition can be what a reference at `offset`, at push depth `ref_depth`,
/// means: its name comes before the offset, it is not pushed deeper than the
/// reference, and when it is local the offset lies within its scope (for a
/// `let`-bound name, the `let`'s body).
pub open spec fn visible_at(d: DefView, offset: u32, ref_depth: u32) -> bool {
    &&& d.name_span.start < offset
    &&& d.stack_depth <= ref_depth
    &&& match d.scope_end {
        Some(end) => offset <= end,
        None => true,
    }
    &&& match d.scope_start {
        Some(start) => start <= offset,
        None => true,
    }
}

/// Position `i` of `g` holds the definition that a reference resolves to: the
/// visible one whose name starts last (the later one of equals), or the first
/// definition when none is visible.
pub open spec fn resolves_to(g: Seq<DefView>, offset: u32, ref_depth: u32, i: int) -> bool {
    &&& 0 <= i < g.len()
    &&& if exists|j: int| 0 <= j < g.len() && visible_at(#[trigger] g[j], offset, ref_depth) {
        &&& visible_at(g[i], offset, ref_depth)
        &&& forall|j: int|
            0 <= j < g.len() && visible_at(#[trigger] g[j], offset, ref_depth) ==> g[j].name_span.start
                <= g[i].name_span.start
        &&& forall|j: int|
            i < j < g.len() && visible_at(#[trigger] g[j], offset, ref_depth) ==> g[j].name_span.start
                < g[i].name_span.start
    } else {
        i == 0
    }
}

/// Position `i` of `refs` holds the reference found at `offset`: the smallest
/// span containing the offset (the earlier one of equals).
pub open spec fn smallest_at(refs: Seq<RefView>, offset: u32, i: int) -> bool {
    &&& 0 <= i < refs.len()
    &&& refs[i].span.contains(offset as int)
    &&& forall|j: int|
        0 <= j < refs.len() && (#[trigger] refs[j]).span.contains(offset as int) ==> refs[i].span.end
            - refs[i].span.start <= refs[j].span.end - refs[j].span.start
    &&& forall|j: int|
        0 <= j < i && (#[trigger] refs[j]).span.contains(offset as int) ==> refs[i].span.end
            - refs[i].span.start < refs[j].span.end - refs[j].span.start
}

/// Among the first `n` definitions of `g`, the visible one whose name starts
/// last (the later one of equals), if any.
pub open spec fn best_visible(g: Seq<DefView>, offset: u32, ref_depth: u32, n: int) -> Option<int>
    decreases n,
{
    if n <= 0 {
        None
    } else {
        let prev = best_visible(g, offset, ref_depth, n - 1);
        if visible_at(g[n - 1], offset, ref_depth) {
            match prev {
                Some(b) => if g[n - 1].name_span.start >= g[b].name_span.start {
                    Some(n - 1)
                } else {
                    Some(b)
                },
                None => Some(n - 1),
            }
        } else {
            prev
        }
    }
}

/// The position of the definition a reference resolves to: the best visible
/// one, else the first.
pub open spec fn resolved_slot(g: Seq<DefView>, offset: u32, ref_depth: u32) -> Option<usize> {
    match best_visible(g, offset, ref_depth, g.len() as int) {
        Some(b) => Some(b as usize),
        None => if g.len() > 0 {
            Some(0usize)
        } else {
            None
        },
    }
}

pub open spec fn slot_int(s: Option<usize>) -> Option<int> {
    match s {
        Some(b) => Some(b as int),
        None => None,
    }
}

/// Among the first `n` references, the one with the smallest span containing
/// `offset` (the earlier one of equals), if any.
pub open spec fn smallest_ref(refs: Seq<RefView>, offset: u32, n: int) -> Option<int>
    decreases n,
{
    if n <= 0 {
        None
    } else {
        let prev = smallest_ref(refs, offset, n - 1);
        let r = refs[n - 1];
        if r.span.contains(offset as int) {
            match prev {
                Some(b) => if r.span.end - r.span.start < refs[b].span.end - refs[b].span.start {
                    Some(n - 1)
                } else {
                    Some(b)
                },
                None => Some(n - 1),
            }
        } else {
            prev
        }
    }
}

impl SymbolIndex {
    /// Find the reference at the given byte offset.
    pub fn ref_at(&self, offset: u32) -> (res: Option<&SymbolRef>)
        ensures
            res is Some <==> smallest_ref(self.refs(), offset, self.refs().len() as int) is Some,
            res matches Some(r) ==> r@ == self.refs()[smallest_ref(
                self.refs(),
                offset,
                self.refs().len() as int,
            )->0],
            match res {
                Some(r) => exists|i: int| smallest_at(
                    self.refs(),
                    offset,
                    i,
                ) && r@ == #[trigger] self.refs()[i],
                None => forall|j: int|
                    0 <= j < self.refs().len() ==> !(#[trigger] self.refs()[j]).span.contains(
                        offset as int,
                    ),
            },
    {
        match self.ref_slot(offset) {
            Some(b) => {
                proof {
                    assert(self.references@[b as int]@ == self.refs()[b as int]);
                }
                Some(&self.references[b])
            },
            None => None,
        }
    }

    /// The position of the reference at the given byte offset: the one with the
    /// smallest span containing it (the earlier one of equals).
    pub fn ref_slot(&self, offset: u32) -> (res: Option<usize>)
        ensures
            slot_int(res) == smallest_ref(self.refs(), offset, self.refs().len() as int),
            match res {
                Some(b) => smallest_at(self.refs(), offset, b as int),
                None => forall|j: int|
                    0 <= j < self.refs().len() ==> !(#[trigger] self.refs()[j]).span.contains(
                        offset as int,
                    ),
            },
    {
        // Prefer the smallest (most specific) span containing the offset.
        let refs = &self.references;
        let mut best: Option<usize> = None;
        let mut i: usize = 0;
        while i < refs.len()
            invariant
                i <= refs@.len(),
                refs@ == self.references@,
                slot_int(best) == smallest_ref(self.refs(), offset, i as int),
                match best {
                    Some(b) => smallest_at(self.refs().take(i as int), offset, b as int),
                    None => forall|j: int|
                        0 <= j < i ==> !(#[trigger] self.refs()[j]).span.contains(offset as int),
                },
            decreases refs@.len() - i,
        {
            let r = &refs[i];
            proof {
                assert(self.refs()[i as int] == r@);
                assert(self.refs().take(i + 1) =~= self.refs().take(i as int).push(r@));
            }
            if span_contains(r.span, offset) {
                match best {
                    Some(b) => {
                        let rb = &refs[b];
                        if r.span.end - r.span.start < rb.span.end - rb.span.start {
                            best = Some(i);
                        }
                    },
                    None => {
                        best = Some(i);
                    },
                }
            }
            i = i + 1;
        }
        proof {
            assert(self.refs().take(refs@.len() as int) =~= self.refs());
        }
        best
    }

    /// Resolve a symbol name at the given offset to its best definition.
    /// Respects both push/pop scoping and lexical scoping.
    pub fn resolve(&self, name: &str, offset: u32, ref_depth: u32) -> (res: Option<&SymbolDef>)
        ensures
            match res {
                Some(d) => self.definitions.view().contains_key(name@) && exists|i: int|
                    resolves_to(self.definitions.view()[name@], offset, ref_depth, i) && d@
                        == #[trigger] self.definitions.view()[name@][i],
                None => !self.definitions.view().contains_key(name@)
                    || self.definitions.view()[name@].len() == 0,
            },
    {
        let slot = self.resolve_slot(name, offset, ref_depth)?;
        let defs = self.definitions.get(name).unwrap();
        proof {
            assert(defs@[slot as int]@ == self.definitions.view()[name@][slot as int]);
        }
        Some(&defs[slot])
    }

    /// The position, within the definitions of `name`, of the definition that a
    /// reference at `offset` and push depth `ref_depth` resolves to.
    pub fn resolve_slot(&self, name: &str, offset: u32, ref_depth: u32) -> (res: Option<usize>)
        ensures
            res == (if self.definitions.view().contains_key(name@) {
                resolved_slot(self.definitions.view()[name@], offset, ref_depth)
            } else {
                None
            }),
            res matches Some(i) ==> resolves_to(self.definitions.view()[name@], offset, ref_depth, i as int),
    {
        let defs = self.definitions.get(name)?;
        let ghost g = self.definitions.view()[name@];
        // Pick the best definition:
        // 1. Must be defined before the reference offset
        // 2. Stack depth must be ≤ ref depth (push/pop scoping)
        // 3. If scoped (local var), offset must be within scope
        // 4. Prefer the latest matching definition
        let mut best: Option<usize> = None;
        let mut i: usize = 0;
        while i < defs.len()
            invariant
                i <= defs@.len(),
                defs@.map_values(|d: SymbolDef| d@) == g,
                slot_int(best) == best_visible(g, offset, ref_depth, i as int),
                match best {
                    Some(b) => resolves_to(g.take(i as int), offset, ref_depth, b as int)
                        && visible_at(g[b as int], offset, ref_depth),
                    None => forall|j: int|
                        0 <= j < i ==> !visible_at(#[trigger] g[j], offset, ref_depth),
                },
            decreases defs@.len() - i,
        {
            let d = &defs[i];
            proof {
                assert(g[i as int] == d@);
                assert(g.take(i + 1) =~= g.take(i as int).push(d@));
            }
            let in_scope = match d.scope_end {
                Some(end) => offset <= end,
                None => true,
            } && match d.scope_start {
                Some(start) => start <= offset,
                None => true,
            };
            if d.name_span.start < offset && d.stack_depth <= ref_depth && in_scope {
                match best {
                    Some(b) => {
                        if d.name_span.start >= defs[b].name_span.start {
                            best = Some(i);
                        }
                    },
                    None => {
                        best = Some(i);
                    },
                }
            }
            proof {
                match best {
                    Some(b) => {
                        assert(visible_at(g.take(i + 1)[b as int], offset, ref_depth));
                    },
                    None => {},
                }
            }
            i = i + 1;
        }
        proof {
            assert(g.take(defs@.len() as int) =~= g);
        }
        // Fall back to any definition with the name
        match best {
            Some(b) => {
                proof {
                    assert(resolves_to(g, offset, ref_depth, b as int));
                }
                Some(b)
            },
            None => {
                if defs.len() > 0 {
                    proof {
                        assert(resolves_to(g, offset, ref_depth, 0));
                    }
                    Some(0)
                } else {
                    None
                }
            },
        }
    }
}


// ---------------------------------------------------------------------------
// Navigation
// ---------------------------------------------------------------------------

/// The jump that push/pop navigation makes from `offset`, looking at the pairs
/// from `i` on: from a push to its pop, or from a pop to its push, the first
/// pair that applies deciding.
pub open spec fn pair_jump(pairs: Seq<PushPopPair>, offset: u32, i: int) -> Option<Span>
    decreases pairs.len() - i,
{
    if i < 0 || i >= pairs.len() {
        None
    } else {
        let p = pairs[i];
        if p.push_span.contains(offset as int) && p.pop_span is Some {
            p.pop_span
        } else if p.pop_span is Some && p.pop_span->0.contains(offset as int) {
            Some(p.push_span)
        } else {
            pair_jump(pairs, offset, i + 1)
        }
    }
}

/// The definition (its position among those of the reference's name) that a
/// reference resolves to.
pub open spec fn resolution(index: SymbolIndex, r: RefView) -> Option<usize> {
    if index.definitions.view().contains_key(r.name) {
        resolved_slot(index.definitions.view()[r.name], r.span.start, r.stack_depth)
    } else {
        None
    }
}

/// Where go-to-definition at `offset` leads: the other end of a push/pop pair,
/// else the name of the definition that the reference under the cursor
/// resolves to.
pub open spec fn definition_target(index: SymbolIndex, offset: u32) -> Option<Span> {
    match pair_jump(index.push_pop_pairs@, offset, 0) {
        Some(s) => Some(s),
        None => match smallest_ref(index.refs(), offset, index.refs().len() as int) {
            Some(i) => match resolution(index, index.refs()[i]) {
                Some(k) => Some(index.definitions.view()[index.refs()[i].name][k as int].name_span),
                None => None,
            },
            None => None,
        },
    }
}

/// The spans of the references among `refs` that have the name `name` and
/// resolve to `slot`.
pub open spec fn resolving_spans(
    index: SymbolIndex,
    name: Seq<char>,
    slot: Option<usize>,
    refs: Seq<RefView>,
) -> Seq<Span>
    decreases refs.len(),
{
    if refs.len() == 0 {
        Seq::empty()
    } else {
        let r = refs.last();
        resolving_spans(index, name, slot, refs.drop_last()) + if r.name == name && resolution(
            index,
            r,
        ) == slot {
            seq![r.span]
        } else {
            Seq::empty()
        }
    }
}

/// The locations find-references lists for the definition `slot` of `name`:
/// its own name when asked for, then every reference that resolves to it.
pub open spec fn reference_list(
    index: SymbolIndex,
    name: Seq<char>,
    slot: Option<usize>,
    include_declaration: bool,
) -> Seq<Span> {
    let decl = match slot {
        Some(k) => if include_declaration && index.definitions.view().contains_key(name) && k
            < index.definitions.view()[name].len() {
            seq![index.definitions.view()[name][k as int].name_span]
        } else {
            Seq::empty()
        },
        None => Seq::empty(),
    };
    decl + resolving_spans(index, name, slot, index.refs())
}

/// A list of locations, or nothing when it is empty.
pub open spec fn non_empty(res: Option<Vec<Span>>, spans: Seq<Span>) -> bool {
    match res {
        Some(v) => spans.len() > 0 && v@ == spans,
        None => spans.len() == 0,
    }
}

impl SymbolIndex {
    /// Go-to-definition at a byte offset: on a push, the matching pop; on a pop,
    /// the matching push; on a symbol, the name of the definition it resolves to.
    pub fn definition_span(&self, offset: u32) -> (res: Option<Span>)
        ensures
            res == definition_target(*self, offset),
    {
        // Check if cursor is on a push — jump to matching pop, or on a pop —
        // jump to matching push
        let pairs = &self.push_pop_pairs;
        let mut i: usize = 0;
        while i < pairs.len()
            invariant
                i <= pairs@.len(),
                pairs@ == self.push_pop_pairs@,
                pair_jump(pairs@, offset, 0) == pair_jump(pairs@, offset, i as int),
            decreases pairs@.len() - i,
        {
            let pair = pairs[i];
            if span_contains(pair.push_span, offset) {
                if let Some(pop_span) = pair.pop_span {
                    return Some(pop_span);
                }
            }
            if let Some(pop_span) = pair.pop_span {
                if span_contains(pop_span, offset) {
                    return Some(pair.push_span);
                }
            }
            i = i + 1;
        }
        // Find the symbol under cursor from references, and the definition it
        // resolves to
        let r = match self.ref_slot(offset) {
            Some(b) => &self.references[b],
            None => return None,
        };
        let slot = match self.resolve_slot(r.name.as_str(), r.span.start, r.stack_depth) {
            Some(k) => k,
            None => return None,
        };
        let defs = self.definitions.get(r.name.as_str()).unwrap();
        proof {
            assert(defs@[slot as int]@ == self.definitions.view()[r.name@][slot as int]);
        }
        Some(defs[slot].name_span)
    }

    /// Find-references at a byte offset: the symbol under the cursor (a
    /// reference, else the name of a definition) picks one definition; the
    /// result lists that definition's name when `include_declaration` holds,
    /// then every reference that resolves to it; nothing when that list is empty.
    pub fn reference_spans(&self, offset: u32, include_declaration: bool) -> (res: Option<Vec<Span>>)
        ensures
            match smallest_ref(self.refs(), offset, self.refs().len() as int) {
                Some(i) => non_empty(
                    res,
                    reference_list(
                        *self,
                        self.refs()[i].name,
                        resolution(*self, self.refs()[i]),
                        include_declaration,
                    ),
                ),
                None => {
                    ||| (res is None && forall|n: Seq<char>, k: int|
                        #[trigger] self.definitions.view().contains_key(n) && 0 <= k
                            < self.definitions.view()[n].len() ==> !(
                        #[trigger] self.definitions.view()[n][k]).name_span.contains(offset as int))
                    ||| exists|n: Seq<char>, k: usize|
                        #[trigger] self.definitions.view().contains_key(n) && k
                            < self.definitions.view()[n].len() && (
                        #[trigger] self.definitions.view()[n][k as int]).name_span.contains(
                            offset as int,
                        ) && non_empty(res, reference_list(*self, n, Some(k), include_declaration))
                },
            },
    {
        // Find the symbol under cursor (could be at a def or a ref site)
        let (name, slot) = match self.ref_slot(offset) {
            Some(b) => {
                let r = &self.references[b];
                proof {
                    assert(r@ == self.refs()[b as int]);
                }
                (r.name.clone(), self.resolve_slot(r.name.as_str(), r.span.start, r.stack_depth))
            },
            None => match self.definitions.name_at(offset) {
                Some((n, k)) => (n, Some(k)),
                None => return None,
            },
        };
        let mut spans: Vec<Span> = Vec::new();
        // Include the definition site if requested
        if include_declaration {
            if let Some(k) = slot {
                if let Some(defs) = self.definitions.get(name.as_str()) {
                    if k < defs.len() {
                        proof {
                            assert(defs@[k as int]@ == self.definitions.view()[name@][k as int]);
                        }
                        spans.push(defs[k].name_span);
                    }
                }
            }
        }
        let ghost decl = spans@;
        proof {
            assert(decl =~= reference_list(
                *self,
                name@,
                slot,
                include_declaration,
            ).take(decl.len() as int)) by {
                assert(reference_list(
                    *self,
                    name@,
                    slot,
                    include_declaration,
                ) =~= decl + resolving_spans(*self, name@, slot, self.refs()));
            }
        }
        // Include all references that resolve to the same definition
        let refs = &self.references;
        let mut i: usize = 0;
        while i < refs.len()
            invariant
                i <= refs@.len(),
                refs@ == self.references@,
                spans@ == decl + resolving_spans(*self, name@, slot, self.refs().take(i as int)),
            decreases refs@.len() - i,
        {
            let r = &refs[i];
            proof {
                assert(self.refs()[i as int] == r@);
                assert(self.refs().take(i + 1).drop_last() =~= self.refs().take(i as int));
                assert(self.refs().take(i + 1).last() == r@);
            }
            let same = if same_text(r.name.as_str(), name.as_str()) {
                match self.resolve_slot(r.name.as_str(), r.span.start, r.stack_depth) {
                    Some(k) => match slot {
                        Some(k2) => k == k2,
                        None => false,
                    },
                    None => slot.is_none(),
                }
            } else {
                false
            };
            if same {
                spans.push(r.span);
            }
            proof {
                let rs = resolving_spans(*self, name@, slot, self.refs().take(i as int));
                if same {
                    assert(decl + rs + seq![r.span] =~= decl + (rs + seq![r.span]));
                } else {
                    assert(decl + rs =~= decl + (rs + Seq::<Span>::empty()));
                }
            }
            i = i + 1;
        }
        proof {
            assert(self.refs().take(refs@.len() as int) =~= self.refs());
        }
        if spans.len() == 0 {
            None
        } else {
            Some(spans)
        }
    }
}


// ---------------------------------------------------------------------------
// Laws
// ---------------------------------------------------------------------------

/// Indexing keeps the push/pop depth equal to the number of pushes still open,
/// and the open push at position `j` (outermost first) was opened at depth `j`.
pub proof fn law_depth_counts_open_pushes(cmds: Seq<Spanned<Command>>)
    ensures
        build_fold(cmds).depth == build_fold(cmds).stack.len(),
        forall|j: int|
            0 <= j < build_fold(cmds).stack.len() ==> (#[trigger] build_fold(cmds).stack[j]).1 == j,
    decreases cmds.len(),
{
    if cmds.len() > 0 {
        law_depth_counts_open_pushes(cmds.drop_last());
    }
}

/// Indexing records one outline entry per command, in order: each spans its
/// command; a `push` or `pop` gives an entry of that kind and no name; any
/// other command gives its own entry at the push depth reached before it.
pub proof fn law_one_entry_per_command(cmds: Seq<Spanned<Command>>)
    ensures
        build_fold(cmds).infos.len() == cmds.len(),
        forall|i: int| 0 <= i < cmds.len() ==> (#[trigger] build_fold(cmds).infos[i]).span == cmds[i].span,
        forall|i: int|
            0 <= i < cmds.len() ==> match (#[trigger] cmds[i]).node {
                Command::Push(_) => build_fold(cmds).infos[i].kind == CommandInfoKind::Push
                    && build_fold(cmds).infos[i].name is None,
                Command::Pop(_) => build_fold(cmds).infos[i].kind == CommandInfoKind::Pop
                    && build_fold(cmds).infos[i].name is None,
                _ => build_fold(cmds).infos[i] == command_info(cmds[i], build_fold(cmds.take(i)).depth),
            },
    decreases cmds.len(),
{
    if cmds.len() > 0 {
        let prev = cmds.drop_last();
        law_one_entry_per_command(prev);
        let all = build_fold(cmds).infos;
        let before = build_fold(prev).infos;
        assert(all == before.push(all.last()));
        assert(cmds.take(cmds.len() - 1) =~= prev);
        assert forall|i: int| 0 <= i < cmds.len() - 1 implies cmds.take(i) =~= prev.take(i) && cmds[i]
            == prev[i] by {}
        assert forall|i: int| 0 <= i < cmds.len() implies (#[trigger] build_fold(cmds).infos[i]).span
            == cmds[i].span by {
            if i < cmds.len() - 1 {
                assert(all[i] == before[i]);
            }
        }
        assert forall|i: int| 0 <= i < cmds.len() implies match (#[trigger] cmds[i]).node {
            Command::Push(_) => build_fold(cmds).infos[i].kind == CommandInfoKind::Push
                && build_fold(cmds).infos[i].name is None,
            Command::Pop(_) => build_fold(cmds).infos[i].kind == CommandInfoKind::Pop
                && build_fold(cmds).infos[i].name is None,
            _ => build_fold(cmds).infos[i] == command_info(cmds[i], build_fold(cmds.take(i)).depth),
        } by {
            if i < cmds.len() - 1 {
                assert(all[i] == before[i]);
                assert(cmds.take(i) =~= prev.take(i));
            }
        }
    }
}

/// The levels that the `push` commands of `cmds` ask to open, in all.
pub open spec fn push_total(cmds: Seq<Spanned<Command>>) -> int
    decreases cmds.len(),
{
    if cmds.len() == 0 {
        0
    } else {
        push_total(cmds.drop_last()) + match cmds.last().node {
            Command::Push(n) => n as int,
            _ => 0,
        }
    }
}

/// While the pushes fit the depth counter, every level opened is a pair or
/// still open: pairs and open pushes together number the levels pushed, and
/// the depth is the number still open.
proof fn lemma_levels_accounted(cmds: Seq<Spanned<Command>>)
    requires
        push_total(cmds) <= u32::MAX,
    ensures
        build_fold(cmds).pairs.len() + build_fold(cmds).stack.len() == push_total(cmds),
        build_fold(cmds).depth == build_fold(cmds).stack.len(),
    decreases cmds.len(),
{
    if cmds.len() > 0 {
        let prev = cmds.drop_last();
        assert(push_total(prev) <= push_total(cmds));
        lemma_levels_accounted(prev);
    }
}

/// While the pushes of a script fit the depth counter, its index has one
/// push/pop pair per level pushed, and as many of them are still open (have no
/// pop) as the push depth reached at the end.
pub proof fn law_one_pair_per_level_pushed(index: SymbolIndex, script: Script)
    requires
        indexes(index, script),
        push_total(script.commands@) <= u32::MAX,
    ensures
        index.push_pop_pairs@.len() == push_total(script.commands@),
        ({
            let st = build_fold(script.commands@);
            &&& forall|j: int|
                0 <= j < index.push_pop_pairs@.len() ==> ((#[trigger] index.push_pop_pairs@[j]).pop_span is None
                    <==> j >= index.push_pop_pairs@.len() - st.depth)
        }),
{
    let st = build_fold(script.commands@);
    lemma_levels_accounted(script.commands@);
    lemma_pairs_closed(script.commands@);
}

/// The pairs that indexing makes as it goes all have a pop.
proof fn lemma_pairs_closed(cmds: Seq<Spanned<Command>>)
    ensures
        forall|j: int| 0 <= j < build_fold(cmds).pairs.len() ==> (#[trigger] build_fold(cmds).pairs[j]).pop_span is Some,
    decreases cmds.len(),
{
    if cmds.len() > 0 {
        let prev = cmds.drop_last();
        lemma_pairs_closed(prev);
        let before = build_fold(prev).pairs;
        let after = build_fold(cmds).pairs;
        assert forall|j: int| 0 <= j < after.len() implies (#[trigger] after[j]).pop_span is Some by {
            if j < before.len() {
                assert(after[j] == before[j]);
            }
        }
    }
}

/// Every push/pop pair of an index records the depth its push opened at: a
/// closed pair the depth below the pushes still open when it closed, an open
/// one its position among the pushes left open.
pub proof fn law_open_pairs_at_their_depth(index: SymbolIndex, script: Script)
    requires
        indexes(index, script),
    ensures
        ({
            let st = build_fold(script.commands@);
            let open = index.push_pop_pairs@.len() - st.stack.len();
            &&& 0 <= open
            &&& forall|j: int|
                open <= j < index.push_pop_pairs@.len() ==> {
                    &&& (#[trigger] index.push_pop_pairs@[j]).pop_span is None
                    &&& index.push_pop_pairs@[j].depth == j - open
                }
        }),
{
    law_depth_counts_open_pushes(script.commands@);
}

/// Find-references is scope-aware: the spans it lists for a definition come
/// from references of that name that resolve to that very definition, and
/// every such reference is listed.
pub proof fn law_references_resolve_to_definition(
    index: SymbolIndex,
    name: Seq<char>,
    slot: Option<usize>,
    refs: Seq<RefView>,
)
    ensures
        forall|k: int|
            #![trigger resolving_spans(index, name, slot, refs)[k]]
            0 <= k < resolving_spans(index, name, slot, refs).len() ==> exists|j: int|
                0 <= j < refs.len() && (#[trigger] refs[j]).span == resolving_spans(
                    index,
                    name,
                    slot,
                    refs,
                )[k] && refs[j].name == name && resolution(index, refs[j]) == slot,
        forall|j: int|
            0 <= j < refs.len() && (#[trigger] refs[j]).name == name && resolution(index, refs[j])
                == slot ==> resolving_spans(index, name, slot, refs).contains(refs[j].span),
    decreases refs.len(),
{
    if refs.len() > 0 {
        let rest = refs.drop_last();
        law_references_resolve_to_definition(index, name, slot, rest);
        let prev = resolving_spans(index, name, slot, rest);
        let cur = resolving_spans(index, name, slot, refs);
        assert forall|k: int| #![trigger cur[k]] 0 <= k < cur.len() implies exists|j: int|
            0 <= j < refs.len() && (#[trigger] refs[j]).span == cur[k] && refs[j].name == name
                && resolution(index, refs[j]) == slot by {
            if k < prev.len() {
                let j = choose|j: int|
                    0 <= j < rest.len() && (#[trigger] rest[j]).span == prev[k] && rest[j].name
                        == name && resolution(index, rest[j]) == slot;
                assert(refs[j] == rest[j]);
            } else {
                assert(refs[refs.len() - 1] == refs.last());
            }
        }
        assert forall|j: int|
            0 <= j < refs.len() && (#[trigger] refs[j]).name == name && resolution(index, refs[j])
                == slot implies cur.contains(refs[j].span) by {
            if j < rest.len() {
                assert(rest[j] == refs[j]);
                let k = choose|k: int| 0 <= k < prev.len() && prev[k] == refs[j].span;
                assert(cur[k] == prev[k]);
            } else {
                assert(cur[prev.len() as int] == refs.last().span);
            }
        }
    }
}

/// Every definition of `ds` is at push depth `d`.
pub open spec fn defs_at_depth(ds: Seq<DefView>, d: u32) -> bool {
    forall|i: int| 0 <= i < ds.len() ==> (#[trigger] ds[i]).stack_depth == d
}

proof fn lemma_defs_depth_concat(a: Seq<DefView>, b: Seq<DefView>, d: u32)
    requires
        defs_at_depth(a, d),
        defs_at_depth(b, d),
    ensures
        defs_at_depth(a + b, d),
{
    assert forall|i: int| 0 <= i < (a + b).len() implies (#[trigger] (a + b)[i]).stack_depth == d by {
        if i < a.len() {
            assert((a + b)[i] == a[i]);
        } else {
            assert((a + b)[i] == b[i - a.len()]);
        }
    }
}

proof fn lemma_selectors_depth(ss: Seq<SelectorDec>, d: u32)
    ensures
        defs_at_depth(selectors_defs(ss, d), d),
        refs_at_depth(selectors_refs(ss, d), d),
    decreases ss.len(),
{
    if ss.len() > 0 {
        lemma_selectors_depth(ss.drop_last(), d);
        lemma_sort_refs_depth(ss.last().sort, d);
        lemma_refs_concat(selectors_refs(ss.drop_last(), d), sort_refs(ss.last().sort, d), d);
        let prev = selectors_defs(ss.drop_last(), d);
        let all = selectors_defs(ss, d);
        assert forall|i: int| 0 <= i < all.len() implies (#[trigger] all[i]).stack_depth == d by {
            if i < prev.len() {
                assert(all[i] == prev[i]);
            }
        }
    }
}

proof fn lemma_ctors_depth(cs: Seq<Spanned<ConstructorDec>>, d: u32)
    ensures
        defs_at_depth(ctors_defs(cs, d), d),
        refs_at_depth(ctors_refs(cs, d), d),
    decreases cs.len(),
{
    if cs.len() > 0 {
        let c = cs.last();
        lemma_ctors_depth(cs.drop_last(), d);
        lemma_selectors_depth(c.node.selectors@, d);
        let one = seq![def_of(c.node.name.node, c.node.name.span, c.span, SymbolKind::Constructor, d, None)];
        lemma_defs_depth_concat(ctors_defs(cs.drop_last(), d), one, d);
        lemma_defs_depth_concat(ctors_defs(cs.drop_last(), d) + one, selectors_defs(c.node.selectors@, d), d);
        lemma_refs_concat(ctors_refs(cs.drop_last(), d), selectors_refs(c.node.selectors@, d), d);
    }
}

proof fn lemma_decs_depth(ds: Seq<Spanned<DatatypeDec>>, d: u32)
    ensures
        defs_at_depth(decs_defs(ds, d), d),
        refs_at_depth(decs_refs(ds, d), d),
    decreases ds.len(),
{
    if ds.len() > 0 {
        lemma_decs_depth(ds.drop_last(), d);
        lemma_ctors_depth(ds.last().node.constructors@, d);
        lemma_defs_depth_concat(decs_defs(ds.drop_last(), d), ctors_defs(ds.last().node.constructors@, d), d);
        lemma_refs_concat(decs_refs(ds.drop_last(), d), ctors_refs(ds.last().node.constructors@, d), d);
    }
}

proof fn lemma_sort_decs_depth(sds: Seq<(Spanned<Symbol>, u64)>, span: Span, d: u32)
    ensures
        defs_at_depth(sort_decs_defs(sds, span, d), d),
    decreases sds.len(),
{
    if sds.len() > 0 {
        lemma_sort_decs_depth(sds.drop_last(), span, d);
        let prev = sort_decs_defs(sds.drop_last(), span, d);
        let all = sort_decs_defs(sds, span, d);
        assert forall|i: int| 0 <= i < all.len() implies (#[trigger] all[i]).stack_depth == d by {
            if i < prev.len() {
                assert(all[i] == prev[i]);
            }
        }
    }
}

proof fn lemma_fun_def_depth(def: FunDef, span: Span, d: u32)
    ensures
        defs_at_depth(fun_def_defs(def, span, d), d),
        refs_at_depth(fun_def_refs(def, d), d),
{
    lemma_vars_depth(def.params@, d, def.body.span.end);
    law_term_walk_entries(def.body, d);
    lemma_sort_refs_depth(def.result_sort, d);
    let one = seq![def_of(def.name.node, def.name.span, span, SymbolKind::Function, d, None)];
    let vars = vars_defs(def.params@, d, def.body.span.end);
    assert(defs_at_depth(vars, d));
    assert(defs_at_depth(term_defs(def.body, d), d));
    lemma_defs_depth_concat(one, vars, d);
    lemma_defs_depth_concat(one + vars, term_defs(def.body, d), d);
    lemma_refs_concat(vars_sort_refs(def.params@, d), sort_refs(def.result_sort, d), d);
    lemma_refs_concat(vars_sort_refs(def.params@, d) + sort_refs(def.result_sort, d), term_refs(def.body, d), d);
}

proof fn lemma_fun_defs_depth(defs: Seq<FunDef>, span: Span, d: u32)
    ensures
        defs_at_depth(fun_defs_defs(defs, span, d), d),
        refs_at_depth(fun_defs_refs(defs, d), d),
    decreases defs.len(),
{
    if defs.len() > 0 {
        lemma_fun_defs_depth(defs.drop_last(), span, d);
        lemma_fun_def_depth(defs.last(), span, d);
        lemma_defs_depth_concat(fun_defs_defs(defs.drop_last(), span, d), fun_def_defs(defs.last(), span, d), d);
        lemma_refs_concat(fun_defs_refs(defs.drop_last(), d), fun_def_refs(defs.last(), d), d);
    }
}

/// The definitions and references of a command are all at the push depth it
/// is indexed at.
proof fn lemma_command_entries_depth(cmd: Spanned<Command>, d: u32)
    ensures
        defs_at_depth(command_defs(cmd, d), d),
        refs_at_depth(command_refs(cmd, d), d),
{
    let span = cmd.span;
    match cmd.node {
        Command::DefineSort(_, _, body) => lemma_sort_refs_depth(body, d),
        Command::DeclareFun(_, params, result) => {
            lemma_sorts_refs_depth(params@, d);
            lemma_sort_refs_depth(result, d);
            lemma_refs_concat(sorts_refs(params@, d), sort_refs(result, d), d);
        },
        Command::DeclareConst(_, sort) => lemma_sort_refs_depth(sort, d),
        Command::DefineFun(def) => lemma_fun_def_depth(def, span, d),
        Command::DefineFunRec(def) => lemma_fun_def_depth(def, span, d),
        Command::DefineFunsRec(defs) => lemma_fun_defs_depth(defs@, span, d),
        Command::DeclareDatatype(name, dec) => {
            lemma_ctors_depth(dec.node.constructors@, d);
            lemma_defs_depth_concat(
                seq![def_of(name.node, name.span, span, SymbolKind::Datatype, d, None)],
                ctors_defs(dec.node.constructors@, d),
                d,
            );
        },
        Command::DeclareDatatypes(sds, decs) => {
            lemma_sort_decs_depth(sds@, span, d);
            lemma_decs_depth(decs@, d);
            lemma_defs_depth_concat(sort_decs_defs(sds@, span, d), decs_defs(decs@, d), d);
        },
        Command::Assert(t) => {
            law_term_walk_entries(t, d);
            assert(defs_at_depth(term_defs(t, d), d));
        },
        Command::Unknown(_, args) => lemma_sexprs_refs_depth(args@, d),
        _ => {},
    }
}

/// The push depth that indexing has reached before command `i`.
pub open spec fn depth_before(cmds: Seq<Spanned<Command>>, i: int) -> u32 {
    build_fold(cmds.take(i)).depth
}

/// Indexing command `i` of a script adds its definitions and its references,
/// all at the push depth reached before it; a `push` or `pop` adds neither.
pub proof fn law_entries_at_command_depth(cmds: Seq<Spanned<Command>>, i: int)
    requires
        0 <= i < cmds.len(),
    ensures
        ({
            let before = build_fold(cmds.take(i));
            let after = build_fold(cmds.take(i + 1));
            let d = depth_before(cmds, i);
            match cmds[i].node {
                Command::Push(_) | Command::Pop(_) => after.refs == before.refs && after.defs == before.defs,
                _ => {
                    &&& after.refs == before.refs + command_refs(cmds[i], d)
                    &&& after.defs == add_defs_view(before.defs, command_defs(cmds[i], d))
                    &&& refs_at_depth(command_refs(cmds[i], d), d)
                    &&& defs_at_depth(command_defs(cmds[i], d), d)
                },
            }
        }),
{
    assert(cmds.take(i + 1).drop_last() =~= cmds.take(i));
    assert(cmds.take(i + 1).last() == cmds[i]);
    lemma_command_entries_depth(cmds[i], depth_before(cmds, i));
}

/// The symbol at the head of a sort: `S` for `S`, `(_ BitVec 8)` or `(Array S S)`.
pub open spec fn sort_head(s: Spanned<Sort>) -> Symbol {
    match s.node {
        Sort::Simple(id) => head_symbol(id),
        Sort::Parameterized(id, _) => head_symbol(id),
    }
}

/// What indexing records before command `j` stays, unchanged, at the front of
/// what it records for the whole script.
proof fn lemma_refs_prefix(cmds: Seq<Spanned<Command>>, j: int)
    requires
        0 <= j <= cmds.len(),
    ensures
        build_fold(cmds.take(j)).refs.len() <= build_fold(cmds).refs.len(),
        build_fold(cmds).refs.take(build_fold(cmds.take(j)).refs.len() as int) == build_fold(cmds.take(j)).refs,
    decreases cmds.len(),
{
    if j == cmds.len() {
        assert(cmds.take(j) =~= cmds);
        assert(build_fold(cmds).refs.take(build_fold(cmds).refs.len() as int) =~= build_fold(cmds).refs);
    } else {
        let prev = cmds.drop_last();
        lemma_refs_prefix(prev, j);
        assert(prev.take(j) =~= cmds.take(j));
        let a = build_fold(prev).refs;
        let b = build_fold(cmds).refs;
        let n = build_fold(cmds.take(j)).refs.len() as int;
        assert(b.take(a.len() as int) =~= a);
        assert(b.take(n) =~= a.take(n));
    }
}

/// The sorts of `ss` each give a reference to their head symbol, over the
/// sort's span.
proof fn lemma_sorts_refs_heads(ss: Seq<Spanned<Sort>>, d: u32)
    ensures
        forall|k: int|
            0 <= k < ss.len() ==> sorts_refs(ss, d).contains(
                RefView { name: sort_head(#[trigger] ss[k]).name@, span: ss[k].span, stack_depth: d },
            ),
    decreases ss.len(),
{
    if ss.len() > 0 {
        let prev = ss.drop_last();
        lemma_sorts_refs_heads(prev, d);
        let all = sorts_refs(ss, d);
        let a = sorts_refs(prev, d);
        let last = sort_refs(ss.last(), d);
        assert forall|k: int| 0 <= k < ss.len() implies all.contains(
            RefView { name: sort_head(#[trigger] ss[k]).name@, span: ss[k].span, stack_depth: d },
        ) by {
            if k < prev.len() {
                assert(ss[k] == prev[k]);
                let r = RefView { name: sort_head(ss[k]).name@, span: ss[k].span, stack_depth: d };
                let m = choose|m: int| 0 <= m < a.len() && a[m] == r;
                assert(all[m] == a[m]);
            } else {
                assert(last[0] == RefView { name: sort_head(ss[k]).name@, span: ss[k].span, stack_depth: d });
                assert(all[a.len() as int] == last[0]);
            }
        }
    }
}

/// Indexing a `define-sort` refers, at the push depth reached before it, to the
/// head symbol of the sort it defines (over the body's span) and to the head
/// symbol of each parameter sort of that body (over that sort's span).
pub proof fn law_define_sort_body_referenced(index: SymbolIndex, script: Script, i: int)
    requires
        indexes(index, script),
        0 <= i < script.commands@.len(),
        script.commands@[i].node is DefineSort,
    ensures
        ({
            let d = depth_before(script.commands@, i);
            match script.commands@[i].node {
                Command::DefineSort(_, _, body) => {
                    &&& index.refs().contains(
                        RefView { name: sort_head(body).name@, span: body.span, stack_depth: d },
                    )
                    &&& body.node matches Sort::Parameterized(_, ps) ==> forall|k: int|
                        0 <= k < ps@.len() ==> index.refs().contains(
                            RefView { name: sort_head(#[trigger] ps@[k]).name@, span: ps@[k].span, stack_depth: d },
                        )
                },
                _ => true,
            }
        }),
{
    let cmds = script.commands@;
    let d = depth_before(cmds, i);
    law_entries_at_command_depth(cmds, i);
    lemma_refs_prefix(cmds, i + 1);
    let before = build_fold(cmds.take(i)).refs;
    let after = build_fold(cmds.take(i + 1)).refs;
    let all = build_fold(cmds).refs;
    match cmds[i].node {
        Command::DefineSort(_, _, body) => {
            let own = sort_refs(body, d);
            assert(after == before + own);
            let r0 = RefView { name: sort_head(body).name@, span: body.span, stack_depth: d };
            assert(own[0] == r0);
            assert(after[before.len() as int] == r0);
            assert(all[before.len() as int] == after[before.len() as int]);
            if let Sort::Parameterized(id, ps) = body.node {
                lemma_sorts_refs_heads(ps@, d);
                assert(own == seq![r0] + sorts_refs(ps@, d));
                assert forall|k: int| 0 <= k < ps@.len() implies all.contains(
                    RefView { name: sort_head(#[trigger] ps@[k]).name@, span: ps@[k].span, stack_depth: d },
                ) by {
                    let r = RefView { name: sort_head(ps@[k]).name@, span: ps@[k].span, stack_depth: d };
                    let rest = sorts_refs(ps@, d);
                    let m = choose|m: int| 0 <= m < rest.len() && rest[m] == r;
                    assert(own[m + 1] == rest[m]);
                    assert(after[before.len() + 1 + m] == own[m + 1]);
                    assert(all[before.len() + 1 + m] == after[before.len() + 1 + m]);
                }
            }
        },
        _ => {},
    }
}

/// No push/pop pair before position `j` is claimed by `offset`: none with a
/// pop has its push or its pop over the offset.
pub open spec fn no_pair_claims_before(pairs: Seq<PushPopPair>, offset: u32, j: int) -> bool {
    forall|k: int|
        0 <= k < j ==> !((#[trigger] pairs[k]).pop_span is Some && (pairs[k].push_span.contains(offset as int)
            || pairs[k].pop_span->0.contains(offset as int)))
}

proof fn lemma_pair_jump_first(pairs: Seq<PushPopPair>, offset: u32, i: int, j: int)
    requires
        0 <= i <= j < pairs.len(),
        no_pair_claims_before(pairs, offset, j),
    ensures
        pair_jump(pairs, offset, i) == pair_jump(pairs, offset, j),
    decreases j - i,
{
    if i < j {
        lemma_pair_jump_first(pairs, offset, i + 1, j);
    }
}

/// Go-to-definition on the pop of a matched push/pop pair, at any depth, leads
/// to that pair's push, when no earlier pair is claimed by the offset and the
/// offset is not on the pair's own push.
pub proof fn law_pop_leads_to_its_push(index: SymbolIndex, offset: u32, j: int)
    requires
        0 <= j < index.push_pop_pairs@.len(),
        index.push_pop_pairs@[j].pop_span is Some,
        index.push_pop_pairs@[j].pop_span->0.contains(offset as int),
        !index.push_pop_pairs@[j].push_span.contains(offset as int),
        no_pair_claims_before(index.push_pop_pairs@, offset, j),
    ensures
        definition_target(index, offset) == Some(index.push_pop_pairs@[j].push_span),
{
    lemma_pair_jump_first(index.push_pop_pairs@, offset, 0, j);
}

/// Go-to-definition on the push of a matched push/pop pair, at any depth, leads
/// to that pair's pop, when no earlier pair is claimed by the offset.
pub proof fn law_push_leads_to_its_pop(index: SymbolIndex, offset: u32, j: int)
    requires
        0 <= j < index.push_pop_pairs@.len(),
        index.push_pop_pairs@[j].pop_span is Some,
        index.push_pop_pairs@[j].push_span.contains(offset as int),
        no_pair_claims_before(index.push_pop_pairs@, offset, j),
    ensures
        definition_target(index, offset) == index.push_pop_pairs@[j].pop_span,
{
    lemma_pair_jump_first(index.push_pop_pairs@, offset, 0, j);
}

} // verus!
