use vstd::prelude::*;
use crate::usages::indexed_tree;
use crate::ast::{arena_wf, Ast, KindView, Node, NodeKind};
use crate::language_def::{init_kinds, init_pairs_view, kinds_view, scope_kinds, LanguageDefinition};
use crate::symbol_table::{
    lemma_tree_children, lemma_tree_frame, scopes_wf, tree_of, ScopeSymbolTable, ScopeTree, Symbol, SymbolError,
    SymbolTable, SymbolView, Symbols, SymbolsView, syms_view,
};

verus! {

/// The category that the first pair for `kind` declares, if any.
pub open spec fn init_category(init: Seq<(KindView, Seq<char>)>, kind: KindView) -> Option<Seq<char>>
    decreases init.len(),
{
    if init.len() == 0 {
        None
    } else if init[0].0 == kind {
        Some(init[0].1)
    } else {
        init_category(init.drop_first(), kind)
    }
}

/// The category number of a category name: types, constants, variables, functions.
pub open spec fn category_index(c: Seq<char>) -> Option<int> {
    if c == "type"@ {
        Some(0)
    } else if c == "constant"@ {
        Some(1)
    } else if c == "variable"@ {
        Some(2)
    } else if c == "function"@ {
        Some(3)
    } else {
        None
    }
}

pub open spec fn is_type_kind(k: KindView) -> bool {
    k == KindView::Type || k == KindView::Node("Type"@)
}

/// The first of `kids` whose node satisfies `pred`.
pub open spec fn first_child_where(nodes: Seq<Node>, kids: Seq<usize>, types: bool) -> Option<int>
    decreases kids.len(),
{
    if kids.len() == 0 {
        None
    } else if wanted_kind(nodes[kids[0] as int].kind@, types) {
        Some(kids[0] as int)
    } else {
        first_child_where(nodes, kids.drop_first(), types)
    }
}

/// A type node when `types` holds, else a name node.
pub open spec fn wanted_kind(k: KindView, types: bool) -> bool {
    if types {
        is_type_kind(k)
    } else {
        k == KindView::Name
    }
}

/// What classifying node `c` gives.
pub ghost enum Classified {
    /// `c` does not declare anything.
    NotDeclaration,
    /// `c` is declaration-shaped but cannot be put into a category.
    Unclassified,
    /// `c` declares this symbol in category `k`.
    Declared(int, SymbolView),
}

pub open spec fn classify(nodes: Seq<Node>, c: int, init: Seq<(KindView, Seq<char>)>) -> Classified {
    match init_category(init, nodes[c].kind@) {
        None => Classified::NotDeclaration,
        Some(cat) => match (category_index(cat), first_child_where(nodes, nodes[c].children@, false)) {
            (Some(k), Some(nm)) => Classified::Declared(k, SymbolView {
                name: nodes[nm].content@,
                def_position: nodes[c].range,
                type_: match first_child_where(nodes, nodes[c].children@, true) {
                    Some(ty) => Some(nodes[ty].content@),
                    None => None,
                },
                usages: Seq::empty(),
                node_id: c as nat,
            }),
            _ => Classified::Unclassified,
        },
    }
}

pub open spec fn push_cat(s: SymbolsView, k: int, x: SymbolView) -> SymbolsView {
    if k == 0 {
        SymbolsView { types: s.types.push(x), ..s }
    } else if k == 1 {
        SymbolsView { constants: s.constants.push(x), ..s }
    } else if k == 2 {
        SymbolsView { variables: s.variables.push(x), ..s }
    } else {
        SymbolsView { functions: s.functions.push(x), ..s }
    }
}

/// The symbols declared by the first `m` children of `n`, and the
/// declaration-shaped ones among them that could not be classified.
pub open spec fn scope_decls(nodes: Seq<Node>, n: int, init: Seq<(KindView, Seq<char>)>, m: int) -> (SymbolsView, Seq<SymbolError>)
    decreases m,
{
    if m <= 0 {
        (SymbolsView::empty(), Seq::empty())
    } else {
        let prev = scope_decls(nodes, n, init, m - 1);
        let c = nodes[n].children@[m - 1] as int;
        match classify(nodes, c, init) {
            Classified::NotDeclaration => prev,
            Classified::Unclassified => (prev.0, prev.1.push(SymbolError { node_id: c as usize, range: nodes[c].range })),
            Classified::Declared(k, x) => (push_cat(prev.0, k, x), prev.1),
        }
    }
}

/// The scope tree that node `n` opens.
pub open spec fn build_tree(nodes: Seq<Node>, n: int, sk: Seq<KindView>, init: Seq<(KindView, Seq<char>)>) -> ScopeTree
    decreases nodes.len() - n, 1int, 0int when arena_wf(nodes) && 0 <= n < nodes.len()
{
    let d = scope_decls(nodes, n, init, nodes[n].children@.len() as int);
    ScopeTree {
        range: nodes[n].range,
        symbols: d.0,
        errors: d.1,
        children: sub_scopes(nodes, n, sk, init, nodes[n].children@.len() as int),
    }
}

/// The nearest scopes nested in the first `m` children of `n`, in source order.
pub open spec fn sub_scopes(nodes: Seq<Node>, n: int, sk: Seq<KindView>, init: Seq<(KindView, Seq<char>)>, m: int) -> Seq<ScopeTree>
    decreases nodes.len() - n, 0int, m when arena_wf(nodes) && 0 <= n < nodes.len() && m <= nodes[n].children@.len()
{
    if m <= 0 {
        Seq::empty()
    } else {
        let prev = sub_scopes(nodes, n, sk, init, m - 1);
        let c = nodes[n].children@[m - 1] as int;
        if sk.contains(nodes[c].kind@) {
            prev.push(build_tree(nodes, c, sk, init))
        } else {
            prev + sub_scopes(nodes, c, sk, init, nodes[c].children@.len() as int)
        }
    }
}

/// How many scopes the scope tree that node `n` opens holds, itself included.
pub open spec fn scope_count(nodes: Seq<Node>, n: int, sk: Seq<KindView>) -> nat
    decreases nodes.len() - n, 1int, 0int when arena_wf(nodes) && 0 <= n < nodes.len()
{
    1 + nested_scope_count(nodes, n, sk, nodes[n].children@.len() as int)
}

/// How many scopes the nearest scopes nested in the first `m` children of `n` hold.
pub open spec fn nested_scope_count(nodes: Seq<Node>, n: int, sk: Seq<KindView>, m: int) -> nat
    decreases nodes.len() - n, 0int, m when arena_wf(nodes) && 0 <= n < nodes.len() && m <= nodes[n].children@.len()
{
    if m <= 0 {
        0
    } else {
        let c = nodes[n].children@[m - 1] as int;
        nested_scope_count(nodes, n, sk, m - 1) + if sk.contains(nodes[c].kind@) {
            scope_count(nodes, c, sk)
        } else {
            nested_scope_count(nodes, c, sk, nodes[c].children@.len() as int)
        }
    }
}

/// The symbol that node `c` declares, when it declares one.
pub open spec fn declared_symbol(nodes: Seq<Node>, c: int, init: Seq<(KindView, Seq<char>)>) -> SymbolView {
    match classify(nodes, c, init) {
        Classified::Declared(_, x) => x,
        _ => arbitrary(),
    }
}

/// A file outline: when every direct child of a scope node declares a symbol
/// of category `k`, that scope's group `k` holds exactly those symbols, in
/// declaration order, and its other groups are empty.
pub proof fn lemma_outline_in_declaration_order(nodes: Seq<Node>, n: int, sk: Seq<KindView>, init: Seq<(KindView, Seq<char>)>, k: int)
    requires
        arena_wf(nodes),
        0 <= n < nodes.len(),
        0 <= k < 4,
        forall|i: int| 0 <= i < nodes[n].children@.len() ==> (#[trigger] classify(nodes, nodes[n].children@[i] as int, init) matches Classified::Declared(kk, _) && kk == k),
    ensures
        ({
            let cats = build_tree(nodes, n, sk, init).symbols;
            let kids = nodes[n].children@;
            &&& cats.cat(k).len() == kids.len()
            &&& forall|i: int| 0 <= i < kids.len() ==> #[trigger] cats.cat(k)[i] == declared_symbol(nodes, kids[i] as int, init)
            &&& forall|k2: int| 0 <= k2 < 4 && k2 != k ==> #[trigger] cats.cat(k2).len() == 0
        }),
{
    lemma_outline_prefix(nodes, n, init, k, nodes[n].children@.len() as int);
}

proof fn lemma_outline_prefix(nodes: Seq<Node>, n: int, init: Seq<(KindView, Seq<char>)>, k: int, m: int)
    requires
        arena_wf(nodes),
        0 <= n < nodes.len(),
        0 <= k < 4,
        0 <= m <= nodes[n].children@.len(),
        forall|i: int| 0 <= i < nodes[n].children@.len() ==> (#[trigger] classify(nodes, nodes[n].children@[i] as int, init) matches Classified::Declared(kk, _) && kk == k),
    ensures
        ({
            let cats = scope_decls(nodes, n, init, m).0;
            let kids = nodes[n].children@;
            &&& cats.cat(k).len() == m
            &&& forall|i: int| 0 <= i < m ==> #[trigger] cats.cat(k)[i] == declared_symbol(nodes, kids[i] as int, init)
            &&& forall|k2: int| 0 <= k2 < 4 && k2 != k ==> #[trigger] cats.cat(k2).len() == 0
        }),
    decreases m,
{
    if m > 0 {
        lemma_outline_prefix(nodes, n, init, k, m - 1);
        let c = nodes[n].children@[m - 1] as int;
        assert(classify(nodes, c, init) matches Classified::Declared(kk, _) && kk == k);
        let prev = scope_decls(nodes, n, init, m - 1).0;
        let x = declared_symbol(nodes, c, init);
        let cats = scope_decls(nodes, n, init, m).0;
        assert(cats == push_cat(prev, k, x));
        assert(cats.cat(k) == prev.cat(k).push(x));
        assert forall|k2: int| 0 <= k2 < 4 && k2 != k implies #[trigger] cats.cat(k2).len() == 0 by {
            assert(cats.cat(k2) == prev.cat(k2));
        }
        assert forall|i: int| 0 <= i < m implies #[trigger] cats.cat(k)[i] == declared_symbol(nodes, nodes[n].children@[i] as int, init) by {
            if i < m - 1 {
                assert(cats.cat(k)[i] == prev.cat(k)[i]);
            }
        }
    }
}

/// The category that node `c` declares into, or -1.
pub open spec fn decl_category(nodes: Seq<Node>, c: int, init: Seq<(KindView, Seq<char>)>) -> int {
    match classify(nodes, c, init) {
        Classified::Declared(k, _) => k,
        _ => -1,
    }
}

/// How many of the first `i` children of `n` declare into category `k`.
pub open spec fn rank(nodes: Seq<Node>, n: int, init: Seq<(KindView, Seq<char>)>, k: int, i: int) -> nat
    decreases i,
{
    if i <= 0 {
        0
    } else {
        rank(nodes, n, init, k, i - 1) + if decl_category(nodes, nodes[n].children@[i - 1] as int, init) == k {
            1nat
        } else {
            0nat
        }
    }
}

pub(crate) proof fn lemma_mixed_prefix(nodes: Seq<Node>, n: int, init: Seq<(KindView, Seq<char>)>, m: int)
    requires
        arena_wf(nodes),
        0 <= n < nodes.len(),
        0 <= m <= nodes[n].children@.len(),
        forall|i: int| 0 <= i < nodes[n].children@.len() ==> (#[trigger] classify(nodes, nodes[n].children@[i] as int, init) is Declared),
    ensures
        ({
            let cats = scope_decls(nodes, n, init, m).0;
            let kids = nodes[n].children@;
            &&& forall|k: int| 0 <= k < 4 ==> #[trigger] cats.cat(k).len() == rank(nodes, n, init, k, m)
            &&& rank(nodes, n, init, 0, m) + rank(nodes, n, init, 1, m) + rank(nodes, n, init, 2, m) + rank(nodes, n, init, 3, m) == m
            &&& forall|i: int| 0 <= i < m ==> #[trigger] cats.cat(decl_category(nodes, kids[i] as int, init))[rank(nodes, n, init, decl_category(nodes, kids[i] as int, init), i) as int] == declared_symbol(nodes, kids[i] as int, init)
        }),
    decreases m,
{
    if m > 0 {
        lemma_mixed_prefix(nodes, n, init, m - 1);
        let kids = nodes[n].children@;
        let c = kids[m - 1] as int;
        assert(classify(nodes, c, init) is Declared);
        let kc = decl_category(nodes, c, init);
        assert(0 <= kc < 4) by {
            let cat = init_category(init, nodes[c].kind@).unwrap();
            assert(category_index(cat) is Some);
        }
        let prev = scope_decls(nodes, n, init, m - 1).0;
        let x = declared_symbol(nodes, c, init);
        let cats = scope_decls(nodes, n, init, m).0;
        assert(cats == push_cat(prev, kc, x));
        assert forall|k: int| 0 <= k < 4 implies #[trigger] cats.cat(k) == if k == kc { prev.cat(k).push(x) } else { prev.cat(k) } by {}
        assert forall|i: int| 0 <= i < m implies #[trigger] cats.cat(decl_category(nodes, kids[i] as int, init))[rank(nodes, n, init, decl_category(nodes, kids[i] as int, init), i) as int] == declared_symbol(nodes, kids[i] as int, init) by {
            let ki = decl_category(nodes, kids[i] as int, init);
            if i < m - 1 {
                assert(classify(nodes, kids[i] as int, init) is Declared);
                assert(0 <= ki < 4) by {
                    let cat = init_category(init, nodes[kids[i] as int].kind@).unwrap();
                    assert(category_index(cat) is Some);
                }
                lemma_rank_monotone(nodes, n, init, ki, i + 1, m - 1);
                assert(rank(nodes, n, init, ki, i) < rank(nodes, n, init, ki, i + 1));
            }
        }
    }
}

pub(crate) proof fn lemma_rank_monotone(nodes: Seq<Node>, n: int, init: Seq<(KindView, Seq<char>)>, k: int, a: int, b: int)
    requires
        a <= b,
    ensures
        rank(nodes, n, init, k, a) <= rank(nodes, n, init, k, b),
    decreases b - a,
{
    if a < b {
        lemma_rank_monotone(nodes, n, init, k, a, b - 1);
    }
}

fn find_category<'a>(init: &'a Vec<(NodeKind, String)>, kind: &NodeKind) -> (r: Option<&'a String>)
    ensures
        match init_category(init_pairs_view(init@), kind@) {
            Some(c) => r.is_some() && r.unwrap()@ == c,
            None => r.is_none(),
        },
{
    let ghost v = init_pairs_view(init@);
    let mut i: usize = 0;
    assert(v.skip(0) =~= v);
    while i < init.len()
        invariant
            i <= init.len(),
            v == init_pairs_view(init@),
            init_category(v, kind@) == init_category(v.skip(i as int), kind@),
        decreases init.len() - i,
    {
        assert(v.skip(i as int).drop_first() =~= v.skip(i + 1));
        if init[i].0 == *kind {
            return Some(&init[i].1);
        }
        i = i + 1;
    }
    None
}

fn category_of(c: &String) -> (r: Option<usize>)
    ensures
        match category_index(c@) {
            Some(k) => r == Some(k as usize),
            None => r.is_none(),
        },
{
    if *c == String::from_str("type") {
        Some(0)
    } else if *c == String::from_str("constant") {
        Some(1)
    } else if *c == String::from_str("variable") {
        Some(2)
    } else if *c == String::from_str("function") {
        Some(3)
    } else {
        None
    }
}

fn has_wanted_kind(k: &NodeKind, types: bool) -> (r: bool)
    ensures
        r == wanted_kind(k@, types),
{
    match k {
        NodeKind::Name => !types,
        NodeKind::Type => types,
        NodeKind::Node(s) => types && *s == String::from_str("Type"),
        NodeKind::Root => false,
    }
}

fn find_child(ast: &Ast, c: usize, types: bool) -> (r: Option<usize>)
    requires
        ast.wf(),
        c < ast.nodes@.len(),
    ensures
        match first_child_where(ast.nodes@, ast.nodes@[c as int].children@, types) {
            Some(x) => r.is_some() && r.unwrap() as int == x && c < x < ast.nodes@.len(),
            None => r.is_none(),
        },
{
    let kids = &ast.nodes[c].children;
    let mut i: usize = 0;
    assert(kids@.skip(0) =~= kids@);
    while i < kids.len()
        invariant
            ast.wf(),
            c < ast.nodes@.len(),
            kids@ == ast.nodes@[c as int].children@,
            i <= kids.len(),
            first_child_where(ast.nodes@, kids@, types) == first_child_where(ast.nodes@, kids@.skip(i as int), types),
        decreases kids.len() - i,
    {
        assert(kids@.skip(i as int).drop_first() =~= kids@.skip(i + 1));
        let x = kids[i];
        assert(c < x < ast.nodes@.len());
        if has_wanted_kind(&ast.nodes[x].kind, types) {
            return Some(x);
        }
        i = i + 1;
    }
    None
}

/// Adds the classification of node `c` to a scope's symbols and errors.
fn classify_into(ast: &Ast, c: usize, init: &Vec<(NodeKind, String)>, symbols: &mut Symbols, errors: &mut Vec<SymbolError>)
    requires
        ast.wf(),
        c < ast.nodes@.len(),
    ensures
        match classify(ast.nodes@, c as int, init_pairs_view(init@)) {
            Classified::NotDeclaration => final(symbols)@ == old(symbols)@ && final(errors)@ == old(errors)@,
            Classified::Unclassified => final(symbols)@ == old(symbols)@ && final(errors)@ == old(errors)@.push(SymbolError { node_id: c, range: ast.nodes@[c as int].range }),
            Classified::Declared(k, x) => final(symbols)@ == push_cat(old(symbols)@, k, x) && final(errors)@ == old(errors)@,
        },
{
    let node = &ast.nodes[c];
    let cat = match find_category(init, &node.kind) {
        Some(cat) => cat,
        None => {
            return;
        },
    };
    let k = category_of(cat);
    let nm = find_child(ast, c, false);
    if k.is_none() || nm.is_none() {
        errors.push(SymbolError { node_id: c, range: node.range });
        return;
    }
    let k = k.unwrap();
    let nm = nm.unwrap();
    let type_ = match find_child(ast, c, true) {
        Some(ty) => Some(ast.nodes[ty].content.clone()),
        None => None,
    };
    let sym = Symbol::new(ast.nodes[nm].content.clone(), node.range, type_, c);
    let ghost before = symbols@;
    let ghost old_symbols = *symbols;
    if k == 0 {
        symbols.types.push(sym);
        assert(syms_view(symbols.types@) =~= syms_view(old_symbols.types@).push(sym@));
    } else if k == 1 {
        symbols.constants.push(sym);
        assert(syms_view(symbols.constants@) =~= syms_view(old_symbols.constants@).push(sym@));
    } else if k == 2 {
        symbols.variables.push(sym);
        assert(syms_view(symbols.variables@) =~= syms_view(old_symbols.variables@).push(sym@));
    } else {
        symbols.functions.push(sym);
        assert(syms_view(symbols.functions@) =~= syms_view(old_symbols.functions@).push(sym@));
    }
    assert(symbols@ == push_cat(before, k as int, sym@));
    assert(classify(ast.nodes@, c as int, init_pairs_view(init@)) == Classified::Declared(k as int, sym@));
}

fn is_scope_kind(sk: &Vec<NodeKind>, k: &NodeKind) -> (r: bool)
    ensures
        r == kinds_view(sk@).contains(k@),
{
    let mut i: usize = 0;
    while i < sk.len()
        invariant
            i <= sk.len(),
            forall|j: int| 0 <= j < i ==> kinds_view(sk@)[j] != k@,
        decreases sk.len() - i,
    {
        if sk[i] == *k {
            assert(kinds_view(sk@)[i as int] == k@);
            return true;
        }
        i = i + 1;
    }
    false
}

impl SymbolTable {
    /// Builds the symbol table of `ast`: the root and every node of a
    /// scope-opening kind get a scope, holding the declarations among the
    /// node's direct children, by category and in source order; then every
    /// reference is recorded with the declaration it resolves to.
    pub fn new(ast: &Ast, language: &LanguageDefinition) -> (r: SymbolTable)
        requires
            ast.wf(),
        ensures
            r.wf(),
            r.tree() == Some(indexed_tree(ast.nodes@, ast.root_id as int, scope_kinds(language.ast_rules@), init_kinds(language.ast_rules@))),
    {
        let sk = language.get_scope_nodes();
        let init = language.get_symbol_init_nodes();
        let mut table = SymbolTable::build(ast, &sk, &init);
        table.record_usages(ast);
        table
    }

    /// Builds the scope tree of `ast`, without references, for the given scope-opening kinds and
    /// (declaring kind, category) pairs.
    pub fn build(ast: &Ast, scope_kinds: &Vec<NodeKind>, init_nodes: &Vec<(NodeKind, String)>) -> (r: SymbolTable)
        requires
            ast.wf(),
        ensures
            r.wf(),
            r.tree() == Some(build_tree(ast.nodes@, ast.root_id as int, kinds_view(scope_kinds@), init_pairs_view(init_nodes@))),
            r.scopes@.len() == scope_count(ast.nodes@, ast.root_id as int, kinds_view(scope_kinds@)),
    {
        let mut table = SymbolTable { scopes: Vec::new(), root_id: None };
        let root = table.parse_scope(ast, ast.root_id, scope_kinds, init_nodes);
        table.root_id = Some(root);
        table
    }

    fn parse_scope(&mut self, ast: &Ast, n: usize, sk: &Vec<NodeKind>, init: &Vec<(NodeKind, String)>) -> (r: usize)
        requires
            ast.wf(),
            n < ast.nodes@.len(),
            scopes_wf(old(self).scopes@),
        ensures
            scopes_wf(final(self).scopes@),
            final(self).scopes@.len() == old(self).scopes@.len() + scope_count(ast.nodes@, n as int, kinds_view(sk@)),
            final(self).scopes@.take(old(self).scopes@.len() as int) == old(self).scopes@,
            r == final(self).scopes@.len() - 1,
            tree_of(final(self).scopes@, r as int) == build_tree(ast.nodes@, n as int, kinds_view(sk@), init_pairs_view(init@)),
            final(self).root_id == old(self).root_id,
        decreases ast.nodes@.len() - n, 1int, 0int,
    {
        let mut symbols = Symbols::new();
        let mut errors: Vec<SymbolError> = Vec::new();
        let mut i: usize = 0;
        let m = ast.nodes[n].children.len();
        while i < m
            invariant
                ast.wf(),
                n < ast.nodes@.len(),
                m == ast.nodes@[n as int].children@.len(),
                i <= m,
                (symbols@, errors@) == scope_decls(ast.nodes@, n as int, init_pairs_view(init@), i as int),
            decreases m - i,
        {
            let c = ast.nodes[n].children[i];
            classify_into(ast, c, init, &mut symbols, &mut errors);
            i = i + 1;
        }
        let mut kids: Vec<usize> = Vec::new();
        self.collect_subscopes(ast, n, sk, init, &mut kids);
        let ghost before = self.scopes@;
        let range = ast.nodes[n].range;
        self.scopes.push(ScopeSymbolTable { range, symbols, errors, children: kids });
        let r = self.scopes.len() - 1;
        proof {
            let t = self.scopes@;
            assert(t.take(before.len() as int) =~= before);
            assert forall|a: int, b: int| 0 <= a < t.len() && 0 <= b < t[a].children@.len() implies #[trigger] t[a].children@[b] < a by {
                if a < before.len() {
                    assert(t[a] == before[a]);
                }
            }
            lemma_tree_children(t, r as int);
            let sub = sub_scopes(ast.nodes@, n as int, kinds_view(sk@), init_pairs_view(init@), m as int);
            assert(kids@.len() == sub.len());
            assert forall|x: int| 0 <= x < kids@.len() implies tree_of(t, r as int).children[x] == sub[x] by {
                assert(kids@[0 + x] == kids@[x]);
                lemma_tree_frame(before, t, kids@[x] as int);
            }
            assert(tree_of(t, r as int).children =~= sub_scopes(ast.nodes@, n as int, kinds_view(sk@), init_pairs_view(init@), m as int));
        }
        r
    }

    fn collect_subscopes(&mut self, ast: &Ast, n: usize, sk: &Vec<NodeKind>, init: &Vec<(NodeKind, String)>, kids: &mut Vec<usize>)
        requires
            ast.wf(),
            n < ast.nodes@.len(),
            scopes_wf(old(self).scopes@),
            forall|x: int| 0 <= x < old(kids)@.len() ==> #[trigger] old(kids)@[x] < old(self).scopes@.len(),
        ensures
            scopes_wf(final(self).scopes@),
            final(self).scopes@.len() == old(self).scopes@.len() + nested_scope_count(ast.nodes@, n as int, kinds_view(sk@), ast.nodes@[n as int].children@.len() as int),
            final(self).scopes@.take(old(self).scopes@.len() as int) == old(self).scopes@,
            final(self).root_id == old(self).root_id,
            forall|x: int| 0 <= x < final(kids)@.len() ==> #[trigger] final(kids)@[x] < final(self).scopes@.len(),
            ({
                let sub = sub_scopes(ast.nodes@, n as int, kinds_view(sk@), init_pairs_view(init@), ast.nodes@[n as int].children@.len() as int);
                &&& final(kids)@.len() == old(kids)@.len() + sub.len()
                &&& final(kids)@.take(old(kids)@.len() as int) == old(kids)@
                &&& forall|x: int| 0 <= x < sub.len() ==> tree_of(final(self).scopes@, #[trigger] final(kids)@[old(kids)@.len() + x] as int) == sub[x]
            }),
        decreases ast.nodes@.len() - n, 0int, 0int,
    {
        let ghost skv = kinds_view(sk@);
        let ghost iv = init_pairs_view(init@);
        let ghost k0 = kids@.len();
        let m = ast.nodes[n].children.len();
        let mut i: usize = 0;
        assert(kids@.take(k0 as int) =~= kids@);
        while i < m
            invariant
                ast.wf(),
                n < ast.nodes@.len(),
                m == ast.nodes@[n as int].children@.len(),
                i <= m,
                scopes_wf(self.scopes@),
                self.scopes@.len() == old(self).scopes@.len() + nested_scope_count(ast.nodes@, n as int, skv, i as int),
                self.scopes@.take(old(self).scopes@.len() as int) == old(self).scopes@,
                self.root_id == old(self).root_id,
                forall|x: int| 0 <= x < kids@.len() ==> #[trigger] kids@[x] < self.scopes@.len(),
                kids@.len() == k0 + sub_scopes(ast.nodes@, n as int, skv, iv, i as int).len(),
                kids@.take(k0 as int) == old(kids)@,
                k0 == old(kids)@.len(),
                skv == kinds_view(sk@),
                iv == init_pairs_view(init@),
                forall|x: int| 0 <= x < sub_scopes(ast.nodes@, n as int, skv, iv, i as int).len() ==> tree_of(self.scopes@, #[trigger] kids@[k0 + x] as int) == sub_scopes(ast.nodes@, n as int, skv, iv, i as int)[x],
            decreases m - i,
        {
            let c = ast.nodes[n].children[i];
            let ghost prev_sub = sub_scopes(ast.nodes@, n as int, skv, iv, i as int);
            let ghost t0 = self.scopes@;
            let ghost kids0 = kids@;
            if is_scope_kind(sk, &ast.nodes[c].kind) {
                let idx = self.parse_scope(ast, c, sk, init);
                kids.push(idx);
                proof {
                    assert forall|x: int| 0 <= x < prev_sub.len() implies tree_of(self.scopes@, #[trigger] kids@[k0 + x] as int) == prev_sub[x] by {
                        assert(kids@[k0 + x] == kids0[k0 + x]);
                        lemma_tree_frame(t0, self.scopes@, kids0[k0 + x] as int);
                    }
                    assert(self.scopes@.take(old(self).scopes@.len() as int) =~= t0.take(old(self).scopes@.len() as int));
                    assert(kids@.take(k0 as int) =~= kids0.take(k0 as int));
                    let new_sub = sub_scopes(ast.nodes@, n as int, skv, iv, i + 1);
                    assert(new_sub == prev_sub.push(build_tree(ast.nodes@, c as int, skv, iv)));
                    assert(kids@[k0 + prev_sub.len() as int] == idx);
                }
            } else {
                self.collect_subscopes(ast, c, sk, init, kids);
                proof {
                    assert forall|x: int| 0 <= x < prev_sub.len() implies tree_of(self.scopes@, #[trigger] kids@[k0 + x] as int) == prev_sub[x] by {
                        assert(kids@.take(kids0.len() as int)[k0 + x] == kids0[k0 + x]);
                        lemma_tree_frame(t0, self.scopes@, kids0[k0 + x] as int);
                    }
                    assert(self.scopes@.take(old(self).scopes@.len() as int) =~= t0.take(old(self).scopes@.len() as int));
                    assert(kids@.take(k0 as int) =~= kids@.take(kids0.len() as int).take(k0 as int));
                    let sub_c = sub_scopes(ast.nodes@, c as int, skv, iv, ast.nodes@[c as int].children@.len() as int);
                    let new_sub = sub_scopes(ast.nodes@, n as int, skv, iv, i + 1);
                    assert(new_sub == prev_sub + sub_c);
                    assert forall|x: int| 0 <= x < new_sub.len() implies tree_of(self.scopes@, #[trigger] kids@[k0 + x] as int) == new_sub[x] by {
                        if x >= prev_sub.len() {
                            let y = x - prev_sub.len();
                            assert(kids@[kids0.len() + y] == kids@[k0 + x]);
                        } else {
                            assert(kids@.take(kids0.len() as int)[k0 + x] == kids0[k0 + x]);
                            lemma_tree_frame(t0, self.scopes@, kids0[k0 + x] as int);
                        }
                    }
                }
            }
            i = i + 1;
        }
    }
}

} // verus!
