use vstd::prelude::*;
use crate::ast::{arena_wf, Ast, KindView, Node};
use crate::builder::{build_tree, category_index, classify, decl_category, declared_symbol, init_category, lemma_mixed_prefix, lemma_rank_monotone, rank, scope_decls};
use crate::position::Range;
use crate::symbol_table::{
    lemma_tree_children, resolve_at, scopes_wf, syms_view, tree_of,
    ScopeSymbolTable, ScopeTree, Symbol, SymbolTable, SymbolView, Symbols,
    SymbolsView,
};

verus! {

/// A resolved reference: the AST node id of the declaration it refers to,
/// and the range of the reference.
pub type Link = (usize, Range);

/// The references among the first `m` AST nodes, each resolved at its start
/// against the scope tree; unresolved ones are left out.
pub open spec fn usage_links(tr: ScopeTree, nodes: Seq<Node>, m: int) -> Seq<Link>
    decreases m,
{
    if m <= 0 {
        Seq::empty()
    } else {
        let prev = usage_links(tr, nodes, m - 1);
        let u = nodes[m - 1];
        if u.usage {
            match resolve_at(tr, u.range.start, u.content@) {
                Some(x) => prev.push((x.node_id as usize, u.range)),
                None => prev,
            }
        } else {
            prev
        }
    }
}

/// The scope tree of a file with every reference recorded: the tree that
/// the scope-opening kinds `sk` and declaring pairs `init` give, with each
/// reference of the AST resolved against it.
pub open spec fn indexed_tree(nodes: Seq<Node>, root: int, sk: Seq<KindView>, init: Seq<(KindView, Seq<char>)>) -> ScopeTree {
    let bt = build_tree(nodes, root, sk, init);
    tree_with_usages(bt, usage_links(bt, nodes, nodes.len() as int))
}

/// The outline of a file whose root holds only declarations: the root scope
/// of the table that `SymbolTable::new` builds holds exactly one symbol per
/// declaration, no other, each in its category in declaration order, with
/// the declaration's name, range and node id.
pub proof fn lemma_file_outline(nodes: Seq<Node>, root: int, sk: Seq<KindView>, init: Seq<(KindView, Seq<char>)>)
    requires
        arena_wf(nodes),
        0 <= root < nodes.len(),
        forall|i: int| 0 <= i < nodes[root].children@.len() ==> (#[trigger] classify(nodes, nodes[root].children@[i] as int, init) is Declared),
    ensures
        ({
            let cats = indexed_tree(nodes, root, sk, init).symbols;
            let kids = nodes[root].children@;
            &&& cats.types.len() + cats.constants.len() + cats.variables.len() + cats.functions.len() == kids.len()
            &&& forall|i: int| #![trigger nodes[root].children@[i]] 0 <= i < kids.len() ==> {
                let k = decl_category(nodes, kids[i] as int, init);
                let y = cats.cat(k)[rank(nodes, root, init, k, i) as int];
                let d = declared_symbol(nodes, kids[i] as int, init);
                &&& 0 <= k < 4
                &&& rank(nodes, root, init, k, i) < cats.cat(k).len()
                &&& y.name == d.name
                &&& y.def_position == d.def_position
                &&& y.node_id == kids[i] as nat
                &&& d.node_id == kids[i] as nat
            }
        }),
{
    let m = nodes[root].children@.len() as int;
    lemma_mixed_prefix(nodes, root, init, m);
    let bt = build_tree(nodes, root, sk, init);
    let links = usage_links(bt, nodes, nodes.len() as int);
    let cats = indexed_tree(nodes, root, sk, init).symbols;
    assert(bt.symbols == scope_decls(nodes, root, init, m).0);
    assert(cats == symbols_with_usages(bt.symbols, links));
    assert forall|k: int| 0 <= k < 4 implies #[trigger] cats.cat(k) == all_with_usages(bt.symbols.cat(k), links) by {}
    assert(cats.cat(0).len() == rank(nodes, root, init, 0, m));
    assert(cats.cat(1).len() == rank(nodes, root, init, 1, m));
    assert(cats.cat(2).len() == rank(nodes, root, init, 2, m));
    assert(cats.cat(3).len() == rank(nodes, root, init, 3, m));
    let kids = nodes[root].children@;
    assert forall|i: int| #![trigger nodes[root].children@[i]] 0 <= i < kids.len() implies {
        let k = decl_category(nodes, kids[i] as int, init);
        let y = cats.cat(k)[rank(nodes, root, init, k, i) as int];
        let d = declared_symbol(nodes, kids[i] as int, init);
        &&& 0 <= k < 4
        &&& rank(nodes, root, init, k, i) < cats.cat(k).len()
        &&& y.name == d.name
        &&& y.def_position == d.def_position
        &&& y.node_id == kids[i] as nat
        &&& d.node_id == kids[i] as nat
    } by {
        let c = kids[i] as int;
        let k = decl_category(nodes, c, init);
        assert(classify(nodes, c, init) is Declared);
        assert(0 <= k < 4) by {
            let cat = init_category(init, nodes[c].kind@).unwrap();
            assert(category_index(cat) is Some);
        }
        lemma_rank_monotone(nodes, root, init, k, i + 1, m);
        assert(rank(nodes, root, init, k, i) < rank(nodes, root, init, k, i + 1));
    }
}

/// The ranges of the links to declaration `id`, in order.
pub open spec fn ranges_for(links: Seq<Link>, id: nat) -> Seq<Range>
    decreases links.len(),
{
    if links.len() == 0 {
        Seq::empty()
    } else if links.last().0 as nat == id {
        ranges_for(links.drop_last(), id).push(links.last().1)
    } else {
        ranges_for(links.drop_last(), id)
    }
}

pub open spec fn with_usages(x: SymbolView, links: Seq<Link>) -> SymbolView {
    SymbolView { usages: x.usages + ranges_for(links, x.node_id), ..x }
}

pub open spec fn all_with_usages(s: Seq<SymbolView>, links: Seq<Link>) -> Seq<SymbolView> {
    s.map_values(|x: SymbolView| with_usages(x, links))
}

pub open spec fn symbols_with_usages(s: SymbolsView, links: Seq<Link>) -> SymbolsView {
    SymbolsView {
        types: all_with_usages(s.types, links),
        constants: all_with_usages(s.constants, links),
        variables: all_with_usages(s.variables, links),
        functions: all_with_usages(s.functions, links),
    }
}

/// The scope tree with every declaration's references appended to its usages.
pub open spec fn tree_with_usages(tr: ScopeTree, links: Seq<Link>) -> ScopeTree
    decreases tr,
{
    ScopeTree {
        range: tr.range,
        symbols: symbols_with_usages(tr.symbols, links),
        errors: tr.errors,
        children: Seq::new(tr.children.len(), |i: int| if 0 <= i < tr.children.len() {
            tree_with_usages(tr.children[i], links)
        } else {
            tr
        }),
    }
}

proof fn lemma_tree_usages(t0: Seq<ScopeSymbolTable>, t1: Seq<ScopeSymbolTable>, links: Seq<Link>, i: int)
    requires
        scopes_wf(t0),
        scopes_wf(t1),
        t0.len() == t1.len(),
        forall|x: int| 0 <= x < t0.len() ==> {
            &&& (#[trigger] t1[x]).range == t0[x].range
            &&& t1[x].children@ == t0[x].children@
            &&& t1[x].errors@ == t0[x].errors@
            &&& t1[x].symbols@ == symbols_with_usages(t0[x].symbols@, links)
        },
        0 <= i < t0.len(),
    ensures
        tree_of(t1, i) == tree_with_usages(tree_of(t0, i), links),
    decreases i,
{
    lemma_tree_children(t0, i);
    lemma_tree_children(t1, i);
    let a = tree_of(t1, i);
    let b = tree_with_usages(tree_of(t0, i), links);
    assert forall|j: int| 0 <= j < a.children.len() implies #[trigger] a.children[j] == b.children[j] by {
        lemma_tree_usages(t0, t1, links, t0[i].children@[j] as int);
    }
    assert(a.children =~= b.children);
}

fn symbols_with_links(v: &Vec<Symbol>, links: &Vec<Link>) -> (r: Vec<Symbol>)
    ensures
        syms_view(r@) == all_with_usages(syms_view(v@), links@),
{
    let mut r: Vec<Symbol> = Vec::new();
    let mut i: usize = 0;
    while i < v.len()
        invariant
            i <= v.len(),
            r@.len() == i,
            forall|x: int| 0 <= x < i ==> #[trigger] r@[x]@ == with_usages(v@[x]@, links@),
        decreases v.len() - i,
    {
        let s = v[i].duplicate();
        let mut usages = s.usages;
        let mut j: usize = 0;
        assert(links@.take(0) =~= Seq::<Link>::empty());
        assert(usages@ =~= v@[i as int]@.usages + ranges_for(links@.take(0), s.node_id as nat));
        while j < links.len()
            invariant
                j <= links.len(),
                usages@ == v@[i as int]@.usages + ranges_for(links@.take(j as int), s.node_id as nat),
            decreases links.len() - j,
        {
            assert(links@.take(j + 1).drop_last() =~= links@.take(j as int));
            let ghost before = usages@;
            if links[j].0 == s.node_id {
                usages.push(links[j].1);
                assert(usages@ =~= before.push(links@[j as int].1));
            }
            j = j + 1;
        }
        assert(links@.take(j as int) =~= links@);
        r.push(Symbol { name: s.name, def_position: s.def_position, type_: s.type_, usages, node_id: s.node_id });
        i = i + 1;
    }
    assert(syms_view(r@) =~= all_with_usages(syms_view(v@), links@));
    r
}

impl SymbolTable {
    fn collect_links(&self, ast: &Ast) -> (r: Vec<Link>)
        requires
            self.wf(),
            self.root_id.is_some(),
        ensures
            r@ == usage_links(self.tree().unwrap(), ast.nodes@, ast.nodes@.len() as int),
    {
        let ghost tr = self.tree().unwrap();
        let mut r: Vec<Link> = Vec::new();
        let mut i: usize = 0;
        while i < ast.nodes.len()
            invariant
                self.wf(),
                self.root_id.is_some(),
                tr == self.tree().unwrap(),
                i <= ast.nodes@.len(),
                r@ == usage_links(tr, ast.nodes@, i as int),
            decreases ast.nodes.len() - i,
        {
            let u = &ast.nodes[i];
            if u.usage {
                match SymbolTable::get_symbol_at_pos(self, u.content.clone(), u.range.start) {
                    Some(s) => {
                        r.push((s.node_id, u.range));
                    },
                    None => {},
                }
            }
            i = i + 1;
        }
        r
    }

    /// Resolves every reference node of `ast` at its start position and
    /// appends its range to the usages of the declaration it resolves to.
    pub fn record_usages(&mut self, ast: &Ast)
        requires
            old(self).wf(),
        ensures
            final(self).wf(),
            final(self).root_id == old(self).root_id,
            match old(self).tree() {
                Some(tr) => final(self).tree() == Some(tree_with_usages(tr, usage_links(tr, ast.nodes@, ast.nodes@.len() as int))),
                None => final(self).tree().is_none(),
            },
    {
        if self.root_id.is_none() {
            return;
        }
        let links = self.collect_links(ast);
        let ghost orig = self.scopes@;
        let mut i: usize = 0;
        while i < self.scopes.len()
            invariant
                i <= self.scopes.len(),
                self.scopes@.len() == orig.len(),
                self.root_id == old(self).root_id,
                orig == old(self).scopes@,
                forall|x: int| 0 <= x < self.scopes@.len() ==> {
                    &&& (#[trigger] self.scopes@[x]).range == orig[x].range
                    &&& self.scopes@[x].children@ == orig[x].children@
                    &&& self.scopes@[x].errors@ == orig[x].errors@
                },
                forall|x: int| 0 <= x < i ==> #[trigger] self.scopes@[x].symbols@ == symbols_with_usages(orig[x].symbols@, links@),
                forall|x: int| i <= x < self.scopes@.len() ==> #[trigger] self.scopes@[x].symbols@ == orig[x].symbols@,
            decreases self.scopes.len() - i,
        {
            let scope = &self.scopes[i];
            let symbols = Symbols {
                types: symbols_with_links(&scope.symbols.types, &links),
                constants: symbols_with_links(&scope.symbols.constants, &links),
                variables: symbols_with_links(&scope.symbols.variables, &links),
                functions: symbols_with_links(&scope.symbols.functions, &links),
            };
            let updated = ScopeSymbolTable {
                range: scope.range,
                symbols,
                errors: crate::symbol_table::copy_vec(&scope.errors),
                children: crate::symbol_table::copy_vec(&scope.children),
            };
            let ghost u = updated;
            assert(scope.symbols@ == orig[i as int].symbols@);
            self.scopes[i] = updated;
            assert(self.scopes@[i as int] == u);
            i = i + 1;
        }
        proof {
            let t = self.scopes@;
            assert forall|a: int, b: int| 0 <= a < t.len() && 0 <= b < t[a].children@.len() implies #[trigger] t[a].children@[b] < a by {
                assert(t[a].children@ == orig[a].children@);
            }
            lemma_tree_usages(orig, t, links@, self.root_id.unwrap() as int);
        }
    }
}

} // verus!
