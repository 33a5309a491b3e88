use vstd::prelude::*;
use crate::scoping::entered;
use crate::position::{pos_lt, strictly_inside, Position, Range};

verus! {

/// A declared symbol: its name, the range of its whole declaration, its
/// declared type if one was written, the ranges where it is used, and the
/// arena index of the AST node that declares it (its identity for edits).
#[derive(Debug, Clone)]
pub struct Symbol {
    pub name: String,
    pub def_position: Range,
    pub type_: Option<String>,
    pub usages: Vec<Range>,
    pub node_id: usize,
}

/// The mathematical value of a `Symbol`.
pub ghost struct SymbolView {
    pub name: Seq<char>,
    pub def_position: Range,
    pub type_: Option<Seq<char>>,
    pub usages: Seq<Range>,
    pub node_id: nat,
}

impl View for Symbol {
    type V = SymbolView;

    open spec fn view(&self) -> SymbolView {
        SymbolView {
            name: self.name@,
            def_position: self.def_position,
            type_: match self.type_ {
                Some(t) => Some(t@),
                None => None,
            },
            usages: self.usages@,
            node_id: self.node_id as nat,
        }
    }
}

pub open spec fn syms_view(v: Seq<Symbol>) -> Seq<SymbolView> {
    v.map_values(|s: Symbol| s@)
}

/// The symbols whose declaration ends strictly before `p`.
pub open spec fn declared_before(s: Seq<SymbolView>, p: Position) -> Seq<SymbolView> {
    s.filter(|x: SymbolView| pos_lt(x.def_position.end, p))
}

/// A copy of a vector of plain values.
pub(crate) fn copy_vec<T: Copy>(v: &Vec<T>) -> (r: Vec<T>)
    ensures
        r@ == v@,
{
    let mut r: Vec<T> = Vec::new();
    let mut i: usize = 0;
    while i < v.len()
        invariant
            i <= v.len(),
            r@ == v@.take(i as int),
        decreases v.len() - i,
    {
        r.push(v[i]);
        i = i + 1;
        assert(r@ =~= v@.take(i as int));
    }
    assert(v@.take(i as int) =~= v@);
    r
}

impl Symbol {
    pub fn new(name: String, def_position: Range, type_: Option<String>, node_id: usize) -> (r: Symbol)
        ensures
            r@ == (SymbolView {
                name: name@,
                def_position,
                type_: match type_ {
                    Some(t) => Some(t@),
                    None => None,
                },
                usages: Seq::empty(),
                node_id: node_id as nat,
            }),
    {
        let r = Symbol { name, def_position, type_, usages: Vec::new() , node_id };
        assert(r@.usages =~= Seq::<Range>::empty());
        r
    }

    pub fn get_name(&self) -> (r: String)
        ensures
            r@ == self@.name,
    {
        self.name.clone()
    }

    pub fn get_def_position(&self) -> (r: Range)
        ensures
            r == self@.def_position,
    {
        self.def_position
    }

    pub fn get_node_id(&self) -> (r: usize)
        ensures
            r == self@.node_id,
    {
        self.node_id
    }

    pub fn get_usages(&self) -> (r: Vec<Range>)
        ensures
            r@ == self@.usages,
    {
        copy_vec(&self.usages)
    }

    pub fn get_type(&self) -> (r: Option<String>)
        ensures
            r.is_some() == self@.type_.is_some(),
            r.is_some() ==> r.unwrap()@ == self@.type_.unwrap(),
    {
        match &self.type_ {
            Some(t) => Some(t.clone()),
            None => None,
        }
    }

    /// A copy of this symbol.
    pub fn duplicate(&self) -> (r: Symbol)
        ensures
            r@ == self@,
    {
        let type_ = match &self.type_ {
            Some(t) => Some(t.clone()),
            None => None,
        };
        Symbol {
            name: self.name.clone(),
            def_position: self.def_position,
            type_,
            usages: copy_vec(&self.usages),
            node_id: self.node_id,
        }
    }
}

/// The symbols of one scope, grouped by category, each group in declaration order.
#[derive(Debug, Clone)]
pub struct Symbols {
    pub types: Vec<Symbol>,
    pub constants: Vec<Symbol>,
    pub variables: Vec<Symbol>,
    pub functions: Vec<Symbol>,
}

/// The mathematical value of a `Symbols`.
pub ghost struct SymbolsView {
    pub types: Seq<SymbolView>,
    pub constants: Seq<SymbolView>,
    pub variables: Seq<SymbolView>,
    pub functions: Seq<SymbolView>,
}

/// Category numbers: 0 types, 1 constants, 2 variables, 3 functions.
pub open spec fn is_category(k: int) -> bool {
    0 <= k < 4
}

impl SymbolsView {
    pub open spec fn empty() -> SymbolsView {
        SymbolsView {
            types: Seq::empty(),
            constants: Seq::empty(),
            variables: Seq::empty(),
            functions: Seq::empty(),
        }
    }

    /// The group of category `k`.
    pub open spec fn cat(self, k: int) -> Seq<SymbolView> {
        if k == 0 {
            self.types
        } else if k == 1 {
            self.constants
        } else if k == 2 {
            self.variables
        } else {
            self.functions
        }
    }
}

impl View for Symbols {
    type V = SymbolsView;

    open spec fn view(&self) -> SymbolsView {
        SymbolsView {
            types: syms_view(self.types@),
            constants: syms_view(self.constants@),
            variables: syms_view(self.variables@),
            functions: syms_view(self.functions@),
        }
    }
}

fn keep_declared_before(v: &Vec<Symbol>, p: Position) -> (r: Vec<Symbol>)
    ensures
        syms_view(r@) == declared_before(syms_view(v@), p),
{
    let mut r: Vec<Symbol> = Vec::new();
    let mut i: usize = 0;
    while i < v.len()
        invariant
            i <= v.len(),
            syms_view(r@) == declared_before(syms_view(v@.take(i as int)), p),
        decreases v.len() - i,
    {
        let ghost before = r@;
        let ghost sv = syms_view(v@.take(i + 1));
        assert(sv.drop_last() =~= syms_view(v@.take(i as int)));
        assert(sv.last() == v@[i as int]@);
        assert(sv.len() == i + 1);
        if v[i].def_position.end.before(&p) {
            let x = v[i].duplicate();
            r.push(x);
            assert(syms_view(r@) =~= syms_view(before).push(x@));
        }
        assert(declared_before(sv, p) == declared_before(sv.drop_last(), p) + (if pos_lt(sv.last().def_position.end, p) { seq![sv.last()] } else { Seq::empty() })) by {
            reveal_with_fuel(Seq::filter, 1);
            assert(declared_before(sv.drop_last(), p).push(sv.last()) =~= declared_before(sv.drop_last(), p) + seq![sv.last()]);
            assert(declared_before(sv.drop_last(), p) =~= declared_before(sv.drop_last(), p) + Seq::empty());
        }
        i = i + 1;
    }
    assert(v@.take(i as int) =~= v@);
    r
}

fn copy_symbols(v: &Vec<Symbol>) -> (r: Vec<Symbol>)
    ensures
        syms_view(r@) == syms_view(v@),
{
    let mut r: Vec<Symbol> = Vec::new();
    let mut i: usize = 0;
    while i < v.len()
        invariant
            i <= v.len(),
            syms_view(r@) == syms_view(v@.take(i as int)),
        decreases v.len() - i,
    {
        let ghost before = r@;
        let x = v[i].duplicate();
        r.push(x);
        assert(syms_view(r@) =~= syms_view(before).push(x@));
        assert(syms_view(v@.take(i + 1)) =~= syms_view(v@.take(i as int)).push(v@[i as int]@));
        i = i + 1;
    }
    assert(v@.take(i as int) =~= v@);
    r
}

impl Symbols {
    pub fn new() -> (r: Symbols)
        ensures
            r@ == SymbolsView::empty(),
    {
        let r = Symbols { types: Vec::new(), constants: Vec::new(), variables: Vec::new(), functions: Vec::new() };
        assert(r@.types =~= Seq::<SymbolView>::empty());
        assert(r@.constants =~= Seq::<SymbolView>::empty());
        assert(r@.variables =~= Seq::<SymbolView>::empty());
        assert(r@.functions =~= Seq::<SymbolView>::empty());
        r
    }

    /// A copy of these symbols.
    pub fn duplicate(&self) -> (r: Symbols)
        ensures
            r@ == self@,
    {
        Symbols {
            types: copy_symbols(&self.types),
            constants: copy_symbols(&self.constants),
            variables: copy_symbols(&self.variables),
            functions: copy_symbols(&self.functions),
        }
    }

    /// Keeps, in each category, only the symbols declared strictly before `position`.
    pub fn position_filter(&mut self, position: Position)
        ensures
            forall|k: int| is_category(k) ==> #[trigger] final(self)@.cat(k) == declared_before(old(self)@.cat(k), position),
    {
        self.types = keep_declared_before(&self.types, position);
        self.constants = keep_declared_before(&self.constants, position);
        self.variables = keep_declared_before(&self.variables, position);
        self.functions = keep_declared_before(&self.functions, position);
    }

    /// Appends to each category the symbols of `other` declared strictly before `position`.
    pub fn add(&mut self, other: Symbols, position: Position)
        ensures
            forall|k: int| is_category(k) ==> #[trigger] final(self)@.cat(k) == old(self)@.cat(k) + declared_before(other@.cat(k), position),
    {
        let ghost orig = other@;
        let mut other = other;
        other.position_filter(position);
        let ghost o = other@;
        let ghost s = self@;
        self.types.append(&mut other.types);
        self.constants.append(&mut other.constants);
        self.variables.append(&mut other.variables);
        self.functions.append(&mut other.functions);
        assert(self@.types =~= s.types + o.types);
        assert(self@.constants =~= s.constants + o.constants);
        assert(self@.variables =~= s.variables + o.variables);
        assert(self@.functions =~= s.functions + o.functions);
        assert forall|k: int| is_category(k) implies #[trigger] self@.cat(k) == s.cat(k) + declared_before(orig.cat(k), position) by {
            assert(o.cat(k) == declared_before(orig.cat(k), position));
        }
    }
}

/// The symbols declared directly in one scope, the scope's range, and the
/// arena indices of its nearest nested scopes in source order.
#[derive(Debug, Clone)]
pub struct ScopeSymbolTable {
    pub range: Range,
    pub symbols: Symbols,
    pub errors: Vec<SymbolError>,
    pub children: Vec<usize>,
}

/// A declaration-shaped node that could not be put into a category.
#[derive(Debug, Clone, Copy, PartialEq, Eq, Structural)]
pub struct SymbolError {
    pub node_id: usize,
    pub range: Range,
}

/// The scope tree of one AST snapshot. Scopes live in one arena; a scope's
/// nested scopes stand before it, so the root is the last one.
#[derive(Debug, Clone)]
pub struct SymbolTable {
    pub scopes: Vec<ScopeSymbolTable>,
    pub root_id: Option<usize>,
}

/// A scope as a mathematical tree.
pub ghost struct ScopeTree {
    pub range: Range,
    pub symbols: SymbolsView,
    pub errors: Seq<SymbolError>,
    pub children: Seq<ScopeTree>,
}

/// Every nested scope of every scope stands before it in the arena.
pub open spec fn scopes_wf(t: Seq<ScopeSymbolTable>) -> bool {
    forall|i: int, j: int|
        0 <= i < t.len() && 0 <= j < t[i].children@.len() ==> #[trigger] t[i].children@[j] < i
}

/// The tree of scopes rooted at arena index `i`.
pub open spec fn tree_of(t: Seq<ScopeSymbolTable>, i: int) -> ScopeTree
    decreases i, 1int, 0int when scopes_wf(t) && 0 <= i < t.len()
{
    ScopeTree {
        range: t[i].range,
        symbols: t[i].symbols@,
        errors: t[i].errors@,
        children: trees_of(t, t[i].children@, i),
    }
}

/// The trees of the scopes at the given arena indices, each below `bound`.
pub open spec fn trees_of(t: Seq<ScopeSymbolTable>, kids: Seq<usize>, bound: int) -> Seq<ScopeTree>
    decreases bound, 0int, kids.len() when scopes_wf(t) && bound <= t.len() && (forall|j: int| 0 <= j < kids.len() ==> #[trigger] kids[j] < bound)
{
    if kids.len() == 0 {
        Seq::empty()
    } else {
        trees_of(t, kids.drop_last(), bound).push(tree_of(t, kids.last() as int))
    }
}

/// Child `j` is the first child whose range strictly contains `p`.
pub open spec fn is_first_inside(ch: Seq<ScopeTree>, p: Position, j: int) -> bool {
    &&& 0 <= j < ch.len()
    &&& strictly_inside(ch[j].range, p)
    &&& forall|i: int| 0 <= i < j ==> !strictly_inside(#[trigger] ch[i].range, p)
}

/// The first child whose range strictly contains `p`, if any.
pub open spec fn first_inside(ch: Seq<ScopeTree>, p: Position) -> Option<int> {
    if exists|j: int| is_first_inside(ch, p, j) {
        Some(choose|j: int| is_first_inside(ch, p, j))
    } else {
        None
    }
}

/// The symbols of category `k` that the descent below `tr` towards `p` adds:
/// at each step, those of the entered scope declared before `p`.
pub open spec fn visible_below(tr: ScopeTree, p: Position, k: int) -> Seq<SymbolView>
    decreases tr,
{
    match first_inside(tr.children, p) {
        Some(j) => if 0 <= j < tr.children.len() {
            declared_before(tr.children[j].symbols.cat(k), p) + visible_below(tr.children[j], p, k)
        } else {
            Seq::empty()
        },
        None => Seq::empty(),
    }
}

/// The symbols of category `k` visible at `p` in the scope tree `tr`: all of
/// the root's, then those that the descent adds.
pub open spec fn visible_at(tr: ScopeTree, p: Position, k: int) -> Seq<SymbolView> {
    tr.symbols.cat(k) + visible_below(tr, p, k)
}

pub(crate) proof fn lemma_tree_children(t: Seq<ScopeSymbolTable>, i: int)
    requires
        scopes_wf(t),
        0 <= i < t.len(),
    ensures
        tree_of(t, i).children.len() == t[i].children@.len(),
        forall|j: int| 0 <= j < t[i].children@.len() ==> #[trigger] tree_of(t, i).children[j] == tree_of(t, t[i].children@[j] as int),
        tree_of(t, i).range == t[i].range,
        tree_of(t, i).symbols == t[i].symbols@,
        tree_of(t, i).errors == t[i].errors@,
{
    lemma_trees_of(t, t[i].children@, i);
}

pub(crate) proof fn lemma_trees_of(t: Seq<ScopeSymbolTable>, kids: Seq<usize>, bound: int)
    requires
        scopes_wf(t),
        bound <= t.len(),
        forall|j: int| 0 <= j < kids.len() ==> #[trigger] kids[j] < bound,
    ensures
        trees_of(t, kids, bound).len() == kids.len(),
        forall|j: int| 0 <= j < kids.len() ==> #[trigger] trees_of(t, kids, bound)[j] == tree_of(t, kids[j] as int),
    decreases kids.len(),
{
    if kids.len() > 0 {
        lemma_trees_of(t, kids.drop_last(), bound);
    }
}

/// Growing the arena leaves the trees of the scopes already in it unchanged.
pub(crate) proof fn lemma_tree_frame(t1: Seq<ScopeSymbolTable>, t2: Seq<ScopeSymbolTable>, i: int)
    requires
        scopes_wf(t1),
        scopes_wf(t2),
        t1.len() <= t2.len(),
        t2.take(t1.len() as int) == t1,
        0 <= i < t1.len(),
    ensures
        tree_of(t2, i) == tree_of(t1, i),
    decreases i,
{
    assert(t2[i] == t1[i]);
    lemma_tree_children(t1, i);
    lemma_tree_children(t2, i);
    assert forall|j: int| 0 <= j < t1[i].children@.len() implies #[trigger] tree_of(t2, i).children[j] == tree_of(t1, i).children[j] by {
        lemma_tree_frame(t1, t2, t1[i].children@[j] as int);
    }
    assert(tree_of(t2, i).children =~= tree_of(t1, i).children);
}

/// Position-based lookups on a scope tree.
pub trait SymbolTableActions {
    spec fn actions_wf(&self) -> bool;

    /// The root scope's symbols, when there is a root.
    spec fn top_level(&self) -> Option<SymbolsView>;

    /// The symbols of category `k` visible at `p`, when there is a root.
    spec fn visible_in(&self, p: Position, k: int) -> Option<Seq<SymbolView>>;

    /// The symbol that `name` resolves to at `p`.
    spec fn resolved_in(&self, name: Seq<char>, p: Position) -> Option<SymbolView>;

    fn get_symbols_in_scope(&self, position: Position) -> (r: Option<Symbols>)
        requires
            self.actions_wf(),
        ensures
            r.is_some() == self.visible_in(position, 0).is_some(),
            r.is_some() ==> forall|k: int| is_category(k) ==> self.visible_in(position, k) == Some(#[trigger] r.unwrap()@.cat(k)),
    ;

    fn get_top_level_symbols(&self) -> (r: Option<Symbols>)
        requires
            self.actions_wf(),
        ensures
            r.is_some() == self.top_level().is_some(),
            r.is_some() ==> self.top_level() == Some(r.unwrap()@),
    ;

    fn get_symbol_at_pos(&self, symbol: String, position: Position) -> (r: Option<Symbol>)
        requires
            self.actions_wf(),
        ensures
            match self.resolved_in(symbol@, position) {
                Some(x) => r.is_some() && r.unwrap()@ == x,
                None => r.is_none(),
            },
    ;
}

impl SymbolTableActions for SymbolTable {
    open spec fn actions_wf(&self) -> bool {
        self.wf()
    }

    open spec fn top_level(&self) -> Option<SymbolsView> {
        match self.tree() {
            Some(tr) => Some(tr.symbols),
            None => None,
        }
    }

    open spec fn visible_in(&self, p: Position, k: int) -> Option<Seq<SymbolView>> {
        match self.tree() {
            Some(tr) => Some(visible_at(tr, p, k)),
            None => None,
        }
    }

    open spec fn resolved_in(&self, name: Seq<char>, p: Position) -> Option<SymbolView> {
        match self.tree() {
            Some(tr) => resolve_at(tr, p, name),
            None => None,
        }
    }

    fn get_symbols_in_scope(&self, position: Position) -> (r: Option<Symbols>) {
        SymbolTable::get_symbols_in_scope(self, position)
    }

    fn get_top_level_symbols(&self) -> (r: Option<Symbols>) {
        SymbolTable::get_top_level_symbols(self)
    }

    fn get_symbol_at_pos(&self, symbol: String, position: Position) -> (r: Option<Symbol>) {
        SymbolTable::get_symbol_at_pos(self, symbol, position)
    }
}

/// The last symbol named `name` in `s`: the nearest declaration, since
/// deeper scopes come later in a visible list.
pub open spec fn last_named(s: Seq<SymbolView>, name: Seq<char>) -> Option<SymbolView>
    decreases s.len(),
{
    if s.len() == 0 {
        None
    } else if s.last().name == name {
        Some(s.last())
    } else {
        last_named(s.drop_last(), name)
    }
}

/// Resolves a name among visible symbols. Categories are tried in the order
/// variables, constants, functions, types; within one, the nearest wins.
pub open spec fn resolve(v: SymbolsView, name: Seq<char>) -> Option<SymbolView> {
    if last_named(v.variables, name).is_some() {
        last_named(v.variables, name)
    } else if last_named(v.constants, name).is_some() {
        last_named(v.constants, name)
    } else if last_named(v.functions, name).is_some() {
        last_named(v.functions, name)
    } else {
        last_named(v.types, name)
    }
}

/// The symbols of `s` declared before `p`, in every category.
pub open spec fn before_view(s: SymbolsView, p: Position) -> SymbolsView {
    SymbolsView {
        types: declared_before(s.types, p),
        constants: declared_before(s.constants, p),
        variables: declared_before(s.variables, p),
        functions: declared_before(s.functions, p),
    }
}

/// Resolves a name in the entered scopes `es`, innermost first, each among
/// its symbols declared before `p`.
pub open spec fn resolve_chain(es: Seq<ScopeTree>, p: Position, name: Seq<char>) -> Option<SymbolView>
    decreases es.len(),
{
    if es.len() == 0 {
        None
    } else {
        match resolve(before_view(es.last().symbols, p), name) {
            Some(x) => Some(x),
            None => resolve_chain(es.drop_last(), p, name),
        }
    }
}

/// The declaration that `name` refers to at `p`: the nearest one, searching
/// the entered scopes from the innermost out and then the root scope.
pub open spec fn resolve_at(tr: ScopeTree, p: Position, name: Seq<char>) -> Option<SymbolView> {
    match resolve_chain(entered(tr, p), p, name) {
        Some(x) => Some(x),
        None => resolve(tr.symbols, name),
    }
}

fn resolve_in(symbols: &Symbols, name: &String) -> (r: Option<Symbol>)
    ensures
        match resolve(symbols@, name@) {
            Some(x) => r.is_some() && r.unwrap()@ == x,
            None => r.is_none(),
        },
{
    if let Some(s) = find_last_named(&symbols.variables, name) {
        return Some(s.duplicate());
    }
    if let Some(s) = find_last_named(&symbols.constants, name) {
        return Some(s.duplicate());
    }
    if let Some(s) = find_last_named(&symbols.functions, name) {
        return Some(s.duplicate());
    }
    match find_last_named(&symbols.types, name) {
        Some(s) => Some(s.duplicate()),
        None => None,
    }
}

fn find_last_named<'a>(v: &'a Vec<Symbol>, name: &String) -> (r: Option<&'a Symbol>)
    ensures
        match last_named(syms_view(v@), name@) {
            Some(x) => r.is_some() && r.unwrap()@ == x,
            None => r.is_none(),
        },
{
    let mut i: usize = v.len();
    assert(v@.take(i as int) =~= v@);
    while i > 0
        invariant
            i <= v.len(),
            last_named(syms_view(v@), name@) == last_named(syms_view(v@.take(i as int)), name@),
        decreases i,
    {
        assert(syms_view(v@.take(i as int)).drop_last() =~= syms_view(v@.take(i - 1)));
        if v[i - 1].name == *name {
            return Some(&v[i - 1]);
        }
        i = i - 1;
    }
    None
}

/// `x`, renamed to `name` when it is the symbol declared by node `id`.
pub open spec fn renamed(x: SymbolView, id: nat, name: Seq<char>) -> SymbolView {
    if x.node_id == id {
        SymbolView { name, ..x }
    } else {
        x
    }
}

pub open spec fn renamed_all(s: Seq<SymbolView>, id: nat, name: Seq<char>) -> Seq<SymbolView> {
    s.map_values(|x: SymbolView| renamed(x, id, name))
}

fn renamed_copy(v: &Vec<Symbol>, id: usize, name: &String) -> (r: Vec<Symbol>)
    ensures
        syms_view(r@) == renamed_all(syms_view(v@), id as nat, name@),
{
    let mut r: Vec<Symbol> = Vec::new();
    let mut j: usize = 0;
    while j < v.len()
        invariant
            j <= v.len(),
            r@.len() == j,
            forall|x: int| 0 <= x < j ==> #[trigger] r@[x]@ == renamed(v@[x]@, id as nat, name@),
        decreases v.len() - j,
    {
        let mut s = v[j].duplicate();
        if s.node_id == id {
            s = Symbol {
                name: name.clone(),
                def_position: s.def_position,
                type_: s.type_,
                usages: s.usages,
                node_id: s.node_id,
            };
        }
        r.push(s);
        j = j + 1;
    }
    assert(syms_view(r@) =~= renamed_all(syms_view(v@), id as nat, name@));
    r
}

impl SymbolTable {
    /// Renames, in every scope and category, the symbol declared by AST node
    /// `symbol_id`; everything else stays as it was.
    pub fn rename_symbol(&mut self, symbol_id: usize, new_name: String)
        ensures
            final(self).root_id == old(self).root_id,
            final(self).scopes@.len() == old(self).scopes@.len(),
            forall|i: int| 0 <= i < old(self).scopes@.len() ==> {
                &&& (#[trigger] final(self).scopes@[i]).range == old(self).scopes@[i].range
                &&& final(self).scopes@[i].children@ == old(self).scopes@[i].children@
                &&& final(self).scopes@[i].errors@ == old(self).scopes@[i].errors@
                &&& forall|k: int| is_category(k) ==> #[trigger] final(self).scopes@[i].symbols@.cat(k) == renamed_all(old(self).scopes@[i].symbols@.cat(k), symbol_id as nat, new_name@)
            },
    {
        let ghost orig = self.scopes@;
        let mut i: usize = 0;
        while i < self.scopes.len()
            invariant
                i <= self.scopes.len(),
                self.scopes@.len() == orig.len(),
                self.root_id == old(self).root_id,
                orig == old(self).scopes@,
                forall|x: int| 0 <= x < self.scopes@.len() ==> {
                    &&& (#[trigger] self.scopes@[x]).range == orig[x].range
                    &&& self.scopes@[x].children@ == orig[x].children@
                    &&& self.scopes@[x].errors@ == orig[x].errors@
                },
                forall|x: int, k: int| 0 <= x < i && is_category(k) ==> #[trigger] self.scopes@[x].symbols@.cat(k) == renamed_all(orig[x].symbols@.cat(k), symbol_id as nat, new_name@),
                forall|x: int| i <= x < self.scopes@.len() ==> #[trigger] self.scopes@[x].symbols@ == orig[x].symbols@,
            decreases self.scopes.len() - i,
        {
            let scope = &self.scopes[i];
            let symbols = Symbols {
                types: renamed_copy(&scope.symbols.types, symbol_id, &new_name),
                constants: renamed_copy(&scope.symbols.constants, symbol_id, &new_name),
                variables: renamed_copy(&scope.symbols.variables, symbol_id, &new_name),
                functions: renamed_copy(&scope.symbols.functions, symbol_id, &new_name),
            };
            let updated = ScopeSymbolTable {
                range: scope.range,
                symbols,
                errors: copy_vec(&scope.errors),
                children: copy_vec(&scope.children),
            };
            let ghost u = updated;
            assert(scope.symbols@ == orig[i as int].symbols@);
            assert(u.symbols@.types == renamed_all(orig[i as int].symbols@.types, symbol_id as nat, new_name@));
            self.scopes[i] = updated;
            assert(self.scopes@[i as int] == u);
            assert forall|k: int| is_category(k) implies #[trigger] self.scopes@[i as int].symbols@.cat(k) == renamed_all(orig[i as int].symbols@.cat(k), symbol_id as nat, new_name@) by {}
            i = i + 1;
        }
    }

    pub open spec fn wf(&self) -> bool {
        &&& scopes_wf(self.scopes@)
        &&& match self.root_id {
            Some(r) => r < self.scopes@.len(),
            None => true,
        }
    }

    /// Whether the table is well formed: the root lies in the arena and
    /// every nested scope stands before its parent.
    pub fn is_wf(&self) -> (r: bool)
        ensures
            r == self.wf(),
    {
        if let Some(root) = self.root_id {
            if root >= self.scopes.len() {
                return false;
            }
        }
        let mut i: usize = 0;
        while i < self.scopes.len()
            invariant
                i <= self.scopes@.len(),
                forall|a: int, b: int| 0 <= a < i && 0 <= b < self.scopes@[a].children@.len() ==> #[trigger] self.scopes@[a].children@[b] < a,
                match self.root_id {
                    Some(r) => r < self.scopes@.len(),
                    None => true,
                },
            decreases self.scopes.len() - i,
        {
            let kids = &self.scopes[i].children;
            let mut j: usize = 0;
            while j < kids.len()
                invariant
                    i < self.scopes@.len(),
                    kids@ == self.scopes@[i as int].children@,
                    j <= kids@.len(),
                    forall|b: int| 0 <= b < j ==> #[trigger] kids@[b] < i,
                decreases kids.len() - j,
            {
                if kids[j] >= i {
                    return false;
                }
                j = j + 1;
            }
            i = i + 1;
        }
        true
    }

    /// The whole scope tree, if the table has a root.
    pub open spec fn tree(&self) -> Option<ScopeTree> {
        match self.root_id {
            Some(r) => Some(tree_of(self.scopes@, r as int)),
            None => None,
        }
    }

    /// The root scope's own symbols, unfiltered: the outline of the whole file.
    pub fn get_top_level_symbols(&self) -> (r: Option<Symbols>)
        requires
            self.wf(),
        ensures
            match self.tree() {
                Some(tr) => r.is_some() && r.unwrap()@ == tr.symbols,
                None => r.is_none(),
            },
    {
        match self.root_id {
            Some(root) => {
                proof { lemma_tree_children(self.scopes@, root as int); }
                Some(self.scopes[root].symbols.duplicate())
            },
            None => None,
        }
    }

    /// The arena indices of the scopes entered on the way down to
    /// `position`, outermost first.
    fn entered_scopes(&self, position: Position) -> (r: Vec<usize>)
        requires
            self.wf(),
            self.root_id.is_some(),
        ensures
            r@.len() == entered(self.tree().unwrap(), position).len(),
            forall|x: int| 0 <= x < r@.len() ==> #[trigger] r@[x] < self.scopes@.len(),
            forall|x: int| 0 <= x < r@.len() ==> tree_of(self.scopes@, #[trigger] r@[x] as int) == entered(self.tree().unwrap(), position)[x],
    {
        let root = self.root_id.unwrap();
        let ghost t = self.scopes@;
        let ghost whole = tree_of(t, root as int);
        let mut chain: Vec<usize> = Vec::new();
        let mut current: usize = root;
        let mut descending = true;
        while descending
            invariant
                t == self.scopes@,
                self.wf(),
                current < t.len(),
                whole == tree_of(t, root as int),
                forall|x: int| 0 <= x < chain@.len() ==> #[trigger] chain@[x] < t.len(),
                entered(whole, position).len() == chain@.len() + entered(tree_of(t, current as int), position).len(),
                forall|x: int| 0 <= x < chain@.len() ==> tree_of(t, #[trigger] chain@[x] as int) == entered(whole, position)[x],
                forall|x: int| 0 <= x < entered(tree_of(t, current as int), position).len() ==> #[trigger] entered(tree_of(t, current as int), position)[x] == entered(whole, position)[chain@.len() + x],
                !descending ==> first_inside(tree_of(t, current as int).children, position).is_none(),
            decreases current + (if descending { 1int } else { 0int }),
        {
            proof { lemma_tree_children(t, current as int); }
            let ghost tr = tree_of(t, current as int);
            let kids = &self.scopes[current].children;
            let mut j: usize = 0;
            let mut found = false;
            while j < kids.len() && !found
                invariant
                    t == self.scopes@,
                    self.wf(),
                    current < t.len(),
                    tr == tree_of(t, current as int),
                    kids@ == t[current as int].children@,
                    tr.children.len() == kids@.len(),
                    forall|x: int| 0 <= x < kids@.len() ==> #[trigger] tr.children[x] == tree_of(t, kids@[x] as int),
                    j <= kids.len(),
                    found ==> j >= 1 && is_first_inside(tr.children, position, j - 1),
                    !found ==> forall|i: int| 0 <= i < j ==> !strictly_inside(#[trigger] tr.children[i].range, position),
                decreases kids.len() - j + (if found { 0int } else { 1int }),
            {
                proof { lemma_tree_children(t, kids@[j as int] as int); }
                if self.scopes[kids[j]].range.strictly_contains(&position) {
                    found = true;
                }
                j = j + 1;
            }
            if found {
                let next = kids[j - 1];
                let ghost sel = j - 1;
                proof {
                    assert(is_first_inside(tr.children, position, sel as int));
                    let c = choose|x: int| is_first_inside(tr.children, position, x);
                    assert(c == sel as int) by {
                        if c < sel { assert(!strictly_inside(tr.children[c].range, position)); }
                        if sel < c { assert(!strictly_inside(tr.children[sel as int].range, position)); }
                    }
                    assert(entered(tr, position) == seq![tree_of(t, next as int)] + entered(tree_of(t, next as int), position));
                    assert(entered(tr, position)[0] == tree_of(t, next as int));
                }
                let ghost len0 = chain@.len();
                chain.push(next);
                proof {
                    assert forall|x: int| 0 <= x < entered(tree_of(t, next as int), position).len() implies #[trigger] entered(tree_of(t, next as int), position)[x] == entered(whole, position)[chain@.len() + x] by {
                        assert(entered(tr, position)[x + 1] == entered(tree_of(t, next as int), position)[x]);
                    }
                    assert(tree_of(t, chain@[len0 as int] as int) == entered(whole, position)[len0 as int]) by {
                        assert(entered(tr, position)[0] == entered(whole, position)[len0 as int + 0int]);
                    }
                }
                current = next;
            } else {
                descending = false;
                proof {
                    assert(!(exists|x: int| is_first_inside(tr.children, position, x)));
                }
            }
        }
        chain
    }

    /// The symbol that `symbol` names at `position`: the nearest declaration
    /// of that name, searched from the innermost entered scope (among its
    /// symbols declared before `position`) out to the root; within one scope
    /// categories are tried in the order of `resolve`.
    pub fn get_symbol_at_pos(&self, symbol: String, position: Position) -> (r: Option<Symbol>)
        requires
            self.wf(),
        ensures
            match self.tree() {
                Some(tr) => match resolve_at(tr, position, symbol@) {
                    Some(x) => r.is_some() && r.unwrap()@ == x,
                    None => r.is_none(),
                },
                None => r.is_none(),
            },
    {
        let root = match self.root_id {
            Some(root) => root,
            None => {
                return None;
            },
        };
        let ghost tr = self.tree().unwrap();
        let ghost es = entered(tr, position);
        let chain = self.entered_scopes(position);
        let mut i: usize = chain.len();
        assert(es.take(i as int) =~= es);
        while i > 0
            invariant
                self.wf(),
                self.root_id == Some(root),
                tr == tree_of(self.scopes@, root as int),
                es == entered(tr, position),
                i <= chain@.len(),
                chain@.len() == es.len(),
                forall|x: int| 0 <= x < chain@.len() ==> #[trigger] chain@[x] < self.scopes@.len(),
                forall|x: int| 0 <= x < chain@.len() ==> tree_of(self.scopes@, #[trigger] chain@[x] as int) == es[x],
                resolve_chain(es, position, symbol@) == resolve_chain(es.take(i as int), position, symbol@),
            decreases i,
        {
            let idx = chain[i - 1];
            proof { lemma_tree_children(self.scopes@, idx as int); }
            let mut visible = self.scopes[idx].symbols.duplicate();
            visible.position_filter(position);
            assert(visible@ == before_view(es[i - 1].symbols, position)) by {
                assert(visible@.cat(0) == declared_before(es[i - 1].symbols.cat(0), position));
                assert(visible@.cat(1) == declared_before(es[i - 1].symbols.cat(1), position));
                assert(visible@.cat(2) == declared_before(es[i - 1].symbols.cat(2), position));
                assert(visible@.cat(3) == declared_before(es[i - 1].symbols.cat(3), position));
            }
            assert(es.take(i as int).drop_last() =~= es.take(i - 1));
            assert(es.take(i as int).last() == es[i - 1]);
            assert(es.take(i as int).len() == i);
            assert(resolve_chain(es.take(i as int), position, symbol@) == match resolve(before_view(es[i - 1].symbols, position), symbol@) {
                Some(x) => Some(x),
                None => resolve_chain(es.take(i - 1), position, symbol@),
            });
            let found = resolve_in(&visible, &symbol);
            if found.is_some() {
                assert(resolve_chain(es, position, symbol@) == resolve(visible@, symbol@));
                return found;
            }
            i = i - 1;
        }
        proof { lemma_tree_children(self.scopes@, root as int); }
        resolve_in(&self.scopes[root].symbols, &symbol)
    }

    /// The symbols visible at `position`: all of the root scope's, then, for
    /// each scope entered on the way down to the innermost scope that holds
    /// `position`, that scope's symbols declared before `position`.
    pub fn get_symbols_in_scope(&self, position: Position) -> (r: Option<Symbols>)
        requires
            self.wf(),
        ensures
            match self.tree() {
                Some(tr) => r.is_some() && forall|k: int| is_category(k) ==> #[trigger] r.unwrap()@.cat(k) == visible_at(tr, position, k),
                None => r.is_none(),
            },
    {
        let root = match self.root_id {
            Some(root) => root,
            None => {
                return None;
            },
        };
        let ghost t = self.scopes@;
        let ghost whole = tree_of(t, root as int);
        proof { lemma_tree_children(t, root as int); }
        let mut symbols = self.scopes[root].symbols.duplicate();
        let mut current: usize = root;
        let mut descending = true;
        assert forall|k: int| is_category(k) implies #[trigger] symbols@.cat(k) + visible_below(tree_of(t, current as int), position, k) == visible_at(whole, position, k) by {}
        while descending
            invariant
                t == self.scopes@,
                self.wf(),
                current < t.len(),
                whole == tree_of(t, root as int),
                forall|k: int| is_category(k) ==> #[trigger] symbols@.cat(k) + visible_below(tree_of(t, current as int), position, k) == visible_at(whole, position, k),
                !descending ==> first_inside(tree_of(t, current as int).children, position).is_none(),
            decreases current + (if descending { 1int } else { 0int }),
        {
            proof { lemma_tree_children(t, current as int); }
            let ghost tr = tree_of(t, current as int);
            let kids = &self.scopes[current].children;
            let mut j: usize = 0;
            let mut found = false;
            while j < kids.len() && !found
                invariant
                    t == self.scopes@,
                    self.wf(),
                    current < t.len(),
                    tr == tree_of(t, current as int),
                    kids@ == t[current as int].children@,
                    tr.children.len() == kids@.len(),
                    forall|x: int| 0 <= x < kids@.len() ==> #[trigger] tr.children[x] == tree_of(t, kids@[x] as int),
                    j <= kids.len(),
                    found ==> j >= 1 && is_first_inside(tr.children, position, j - 1),
                    !found ==> forall|i: int| 0 <= i < j ==> !strictly_inside(#[trigger] tr.children[i].range, position),
                decreases kids.len() - j + (if found { 0int } else { 1int }),
            {
                proof { lemma_tree_children(t, kids@[j as int] as int); }
                if self.scopes[kids[j]].range.strictly_contains(&position) {
                    found = true;
                }
                j = j + 1;
            }
            if found {
                let next = kids[j - 1];
                let ghost sel = j - 1;
                proof {
                    assert(is_first_inside(tr.children, position, sel as int));
                    let c = choose|x: int| is_first_inside(tr.children, position, x);
                    assert(c == sel as int) by {
                        if c < sel { assert(!strictly_inside(tr.children[c].range, position)); }
                        if sel < c { assert(!strictly_inside(tr.children[sel as int].range, position)); }
                    }
                    lemma_tree_children(t, next as int);
                }
                let ghost before = symbols@;
                symbols.add(self.scopes[next].symbols.duplicate(), position);
                assert forall|k: int| is_category(k) implies #[trigger] symbols@.cat(k) + visible_below(tree_of(t, next as int), position, k) == visible_at(whole, position, k) by {
                    assert(visible_below(tr, position, k) == declared_before(tree_of(t, next as int).symbols.cat(k), position) + visible_below(tree_of(t, next as int), position, k));
                    assert(before.cat(k) + visible_below(tr, position, k) == visible_at(whole, position, k));
                    assert(symbols@.cat(k) == before.cat(k) + declared_before(tree_of(t, next as int).symbols.cat(k), position));
                    vstd::seq_lib::lemma_concat_associative(before.cat(k), declared_before(tree_of(t, next as int).symbols.cat(k), position), visible_below(tree_of(t, next as int), position, k));
                }
                current = next;
            } else {
                descending = false;
                proof {
                    assert(!(exists|x: int| is_first_inside(tr.children, position, x)));
                }
            }
        }
        assert forall|k: int| is_category(k) implies #[trigger] symbols@.cat(k) == visible_at(whole, position, k) by {
            assert(visible_below(tree_of(t, current as int), position, k) == Seq::<SymbolView>::empty());
            assert(symbols@.cat(k) + Seq::<SymbolView>::empty() =~= symbols@.cat(k));
        }
        Some(symbols)
    }
}

} // verus!
