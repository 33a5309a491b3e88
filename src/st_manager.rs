use vstd::prelude::*;
use crate::ast::{Ast, NodeKind};
use crate::usages::indexed_tree;
use crate::language_def::{init_kinds, init_pairs_view, kinds_view, scope_kinds, LanguageDefinition};
use crate::position::Position;
use crate::symbol_table::{
    is_category, renamed_all, resolve_at, visible_at, ScopeTree, Symbol, SymbolTable,
    Symbols, SymbolView,
};

verus! {

/// An edit applied directly to a symbol table.
#[derive(Debug, Clone)]
pub enum SymbolTableEdit {
    /// Renames the symbol declared by AST node `symbol_id`.
    Rename { symbol_id: usize, new_name: String },
}

/// Changing a symbol table: an edit in place, or a rebuild from a fresh AST.
pub trait SymbolTableEditor: Sized {
    spec fn editor_wf(&self) -> bool;

    /// The table holds exactly what a build from `ast` gives.
    spec fn built_from(&self, ast: Ast) -> bool;

    /// `self` builds with the same rule set as `other`.
    spec fn same_rule_set(&self, other: Self) -> bool;

    /// `self` is `before` with `edit` applied.
    spec fn edited(&self, before: Self, edit: SymbolTableEdit) -> bool;

    fn new_edit(&mut self, edit: SymbolTableEdit)
        requires
            old(self).editor_wf(),
        ensures
            final(self).edited(*old(self), edit),
    ;

    fn update(&mut self, ast: &Ast)
        requires
            old(self).editor_wf(),
            ast.wf(),
        ensures
            final(self).editor_wf(),
            final(self).built_from(*ast),
            final(self).same_rule_set(*old(self)),
    ;
}

/// Position-based lookups in a symbol table.
pub trait SymbolTableQuery {
    spec fn query_wf(&self) -> bool;

    /// The symbols of category `k` visible at `p`, when the table has a root.
    spec fn visible(&self, p: Position, k: int) -> Option<Seq<SymbolView>>;

    /// The symbol that `name` resolves to at `p`.
    spec fn resolved(&self, name: Seq<char>, p: Position) -> Option<SymbolView>;

    fn get_symbols_at_pos(&self, position: Position) -> (r: Option<Symbols>)
        requires
            self.query_wf(),
        ensures
            r.is_some() == self.visible(position, 0).is_some(),
            r.is_some() ==> forall|k: int| is_category(k) ==> self.visible(position, k) == Some(#[trigger] r.unwrap()@.cat(k)),
    ;

    fn get_symbol_at_pos(&self, name: String, position: Position) -> (r: Option<Symbol>)
        requires
            self.query_wf(),
        ensures
            match self.resolved(name@, position) {
                Some(x) => r.is_some() && r.unwrap()@ == x,
                None => r.is_none(),
            },
    ;
}

/// Owns the symbol table of one file together with the scope-opening and
/// declaring kinds of the rule set it was built with.
#[derive(Debug, Clone)]
pub struct SymbolTableManager {
    pub symbol_table: SymbolTable,
    pub scope_kinds: Vec<NodeKind>,
    pub init_nodes: Vec<(NodeKind, String)>,
}

impl SymbolTableManager {
    /// The table's scope tree, if it has a root.
    pub open spec fn tree(&self) -> Option<ScopeTree> {
        self.symbol_table.tree()
    }

    pub fn new(ast: &Ast, language: &LanguageDefinition) -> (r: SymbolTableManager)
        requires
            ast.wf(),
        ensures
            r.editor_wf(),
            r.built_from(*ast),
            kinds_view(r.scope_kinds@) == scope_kinds(language.ast_rules@),
            init_pairs_view(r.init_nodes@) == init_kinds(language.ast_rules@),
    {
        let scope_kinds = language.get_scope_nodes();
        let init_nodes = language.get_symbol_init_nodes();
        let mut symbol_table = SymbolTable::build(ast, &scope_kinds, &init_nodes);
        symbol_table.record_usages(ast);
        SymbolTableManager { symbol_table, scope_kinds, init_nodes }
    }
}

impl SymbolTableEditor for SymbolTableManager {
    open spec fn editor_wf(&self) -> bool {
        self.symbol_table.wf()
    }

    open spec fn built_from(&self, ast: Ast) -> bool {
        self.tree() == Some(indexed_tree(ast.nodes@, ast.root_id as int, kinds_view(self.scope_kinds@), init_pairs_view(self.init_nodes@)))
    }

    open spec fn same_rule_set(&self, other: SymbolTableManager) -> bool {
        &&& self.scope_kinds@ == other.scope_kinds@
        &&& self.init_nodes@ == other.init_nodes@
    }

    open spec fn edited(&self, before: SymbolTableManager, edit: SymbolTableEdit) -> bool {
        match edit {
            SymbolTableEdit::Rename { symbol_id, new_name } => {
                let t = self.symbol_table.scopes@;
                let o = before.symbol_table.scopes@;
                &&& self.scope_kinds == before.scope_kinds
                &&& self.init_nodes == before.init_nodes
                &&& self.symbol_table.root_id == before.symbol_table.root_id
                &&& t.len() == o.len()
                &&& forall|i: int| 0 <= i < o.len() ==> {
                    &&& (#[trigger] t[i]).range == o[i].range
                    &&& t[i].children@ == o[i].children@
                    &&& t[i].errors@ == o[i].errors@
                    &&& forall|k: int| is_category(k) ==> #[trigger] t[i].symbols@.cat(k) == renamed_all(o[i].symbols@.cat(k), symbol_id as nat, new_name@)
                }
            },
        }
    }

    fn new_edit(&mut self, edit: SymbolTableEdit) {
        match edit {
            SymbolTableEdit::Rename { symbol_id, new_name } => {
                self.symbol_table.rename_symbol(symbol_id, new_name);
            },
        }
    }

    fn update(&mut self, ast: &Ast) {
        let mut symbol_table = SymbolTable::build(ast, &self.scope_kinds, &self.init_nodes);
        symbol_table.record_usages(ast);
        self.symbol_table = symbol_table;
    }
}

impl SymbolTableQuery for SymbolTableManager {
    open spec fn query_wf(&self) -> bool {
        self.symbol_table.wf()
    }

    open spec fn visible(&self, p: Position, k: int) -> Option<Seq<SymbolView>> {
        match self.tree() {
            Some(tr) => Some(visible_at(tr, p, k)),
            None => None,
        }
    }

    open spec fn resolved(&self, name: Seq<char>, p: Position) -> Option<SymbolView> {
        match self.tree() {
            Some(tr) => resolve_at(tr, p, name),
            None => None,
        }
    }

    fn get_symbols_at_pos(&self, position: Position) -> (r: Option<Symbols>) {
        self.symbol_table.get_symbols_in_scope(position)
    }

    fn get_symbol_at_pos(&self, name: String, position: Position) -> (r: Option<Symbol>) {
        self.symbol_table.get_symbol_at_pos(name, position)
    }
}

/// Updating twice from the same AST answers every position query as the
/// first update did.
pub proof fn lemma_update_idempotent(m0: SymbolTableManager, m1: SymbolTableManager, m2: SymbolTableManager, ast: Ast, p: Position, k: int, name: Seq<char>)
    requires
        m1.built_from(ast),
        m1.same_rule_set(m0),
        m2.built_from(ast),
        m2.same_rule_set(m1),
    ensures
        m2.visible(p, k) == m1.visible(p, k),
        m2.resolved(name, p) == m1.resolved(name, p),
{
    lemma_rebuild_same_answers(m1, m2, ast, p, k, name);
}

/// Rebuilding is deterministic: two managers built from the same AST with the
/// same rule set answer every position query alike.
pub proof fn lemma_rebuild_same_answers(m1: SymbolTableManager, m2: SymbolTableManager, ast: Ast, p: Position, k: int, name: Seq<char>)
    requires
        m1.built_from(ast),
        m2.built_from(ast),
        kinds_view(m1.scope_kinds@) == kinds_view(m2.scope_kinds@),
        init_pairs_view(m1.init_nodes@) == init_pairs_view(m2.init_nodes@),
    ensures
        m1.visible(p, k) == m2.visible(p, k),
        m1.resolved(name, p) == m2.resolved(name, p),
{
}

} // verus!
