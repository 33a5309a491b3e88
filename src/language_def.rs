use vstd::prelude::*;
use crate::ast::{KindView, NodeKind};

verus! {

/// How a declared symbol is presented to the editor in a completion list.
#[derive(Debug, Clone, Copy, PartialEq, Eq, Structural)]
pub enum SymbolCompletionType {
    Text,
    Method,
    Function,
    Constructor,
    Field,
    Variable,
    Class,
    Interface,
    Module,
    Property,
    Unit,
    Value,
    Enum,
    Keyword,
    Snippet,
    Color,
    File,
    Reference,
    Folder,
    EnumMember,
    Constant,
    Struct,
    Event,
    Operator,
    TypeParameter,
}

/// The completion-item-kind number that the editor protocol gives each presentation.
pub open spec fn completion_code(t: SymbolCompletionType) -> i32 {
    match t {
        SymbolCompletionType::Text => 1,
        SymbolCompletionType::Method => 2,
        SymbolCompletionType::Function => 3,
        SymbolCompletionType::Constructor => 4,
        SymbolCompletionType::Field => 5,
        SymbolCompletionType::Variable => 6,
        SymbolCompletionType::Class => 7,
        SymbolCompletionType::Interface => 8,
        SymbolCompletionType::Module => 9,
        SymbolCompletionType::Property => 10,
        SymbolCompletionType::Unit => 11,
        SymbolCompletionType::Value => 12,
        SymbolCompletionType::Enum => 13,
        SymbolCompletionType::Keyword => 14,
        SymbolCompletionType::Snippet => 15,
        SymbolCompletionType::Color => 16,
        SymbolCompletionType::File => 17,
        SymbolCompletionType::Reference => 18,
        SymbolCompletionType::Folder => 19,
        SymbolCompletionType::EnumMember => 20,
        SymbolCompletionType::Constant => 21,
        SymbolCompletionType::Struct => 22,
        SymbolCompletionType::Event => 23,
        SymbolCompletionType::Operator => 24,
        SymbolCompletionType::TypeParameter => 25,
    }
}

impl SymbolCompletionType {
    /// The protocol's completion-item-kind number for this presentation.
    pub fn get_completion_kind(&self) -> (r: i32)
        ensures
            r == completion_code(*self),
            1 <= r <= 25,
    {
        match self {
            SymbolCompletionType::Text => 1,
            SymbolCompletionType::Method => 2,
            SymbolCompletionType::Function => 3,
            SymbolCompletionType::Constructor => 4,
            SymbolCompletionType::Field => 5,
            SymbolCompletionType::Variable => 6,
            SymbolCompletionType::Class => 7,
            SymbolCompletionType::Interface => 8,
            SymbolCompletionType::Module => 9,
            SymbolCompletionType::Property => 10,
            SymbolCompletionType::Unit => 11,
            SymbolCompletionType::Value => 12,
            SymbolCompletionType::Enum => 13,
            SymbolCompletionType::Keyword => 14,
            SymbolCompletionType::Snippet => 15,
            SymbolCompletionType::Color => 16,
            SymbolCompletionType::File => 17,
            SymbolCompletionType::Reference => 18,
            SymbolCompletionType::Folder => 19,
            SymbolCompletionType::EnumMember => 20,
            SymbolCompletionType::Constant => 21,
            SymbolCompletionType::Struct => 22,
            SymbolCompletionType::Event => 23,
            SymbolCompletionType::Operator => 24,
            SymbolCompletionType::TypeParameter => 25,
        }
    }
}

/// One mapping from a syntax-tree shape to an AST node.
#[derive(Debug)]
pub struct Rule {
    pub name: String,
    pub symbol: Symbol,
    pub is_scope: bool,
    pub children: Vec<Multiplicity>,
}

/// How many matches of a child the rule expects.
#[derive(Debug)]
pub enum Multiplicity {
    One(Child),
    Maybe(Child),
    Many(Child),
}

/// An expected child: where to find it, and how to translate each match.
#[derive(Debug)]
pub struct Child {
    pub query: TreesitterNodeQuery,
    pub rule: DirectOrRule,
    pub symbol_usage: bool,
}

/// A query against the syntax tree, run from one node.
#[derive(Debug)]
pub enum TreesitterNodeQuery {
    /// Runs each query in turn on every match of the one before.
    Path(Vec<TreesitterNodeQuery>),
    /// The immediate children of the given syntactic kind.
    Kind(String),
    /// The immediate children that sit under the given grammar field.
    Field(String),
}

/// How a match is translated: into a terminal node of the given kind, or by
/// the rule of the given name.
#[derive(Debug, Clone)]
pub enum DirectOrRule {
    Direct(NodeKind),
    Rule(String),
}

/// The symbol role of a rule's node: it declares a symbol of a category, it
/// refers to one, or neither.
#[derive(Debug, Clone)]
pub enum Symbol {
    Init(String),
    Usage,
    NotSymbol,
}

/// A whole rule set.
#[derive(Debug)]
pub struct LanguageDefinition {
    pub symbol_types: Vec<(String, SymbolCompletionType)>,
    pub ast_rules: Vec<Rule>,
}

/// The index of the first rule named `name`, if any.
pub open spec fn first_rule(rules: Seq<Rule>, name: Seq<char>) -> Option<int>
    decreases rules.len(),
{
    if rules.len() == 0 {
        None
    } else {
        match first_rule(rules.drop_last(), name) {
            Some(i) => Some(i),
            None => if rules.last().name@ == name {
                Some(rules.len() - 1)
            } else {
                None
            },
        }
    }
}

/// The kinds of the nodes that open a scope, in rule order.
pub open spec fn scope_kinds(rules: Seq<Rule>) -> Seq<KindView>
    decreases rules.len(),
{
    if rules.len() == 0 {
        Seq::empty()
    } else {
        let prev = scope_kinds(rules.drop_last());
        if rules.last().is_scope {
            prev.push(KindView::Node(rules.last().name@))
        } else {
            prev
        }
    }
}

/// The declaring kinds, each with the category it declares, in rule order.
pub open spec fn init_kinds(rules: Seq<Rule>) -> Seq<(KindView, Seq<char>)>
    decreases rules.len(),
{
    if rules.len() == 0 {
        Seq::empty()
    } else {
        let prev = init_kinds(rules.drop_last());
        match rules.last().symbol {
            Symbol::Init(c) => prev.push((KindView::Node(rules.last().name@), c@)),
            _ => prev,
        }
    }
}

pub open spec fn kinds_view(v: Seq<NodeKind>) -> Seq<KindView> {
    v.map_values(|k: NodeKind| k@)
}

pub open spec fn init_pairs_view(v: Seq<(NodeKind, String)>) -> Seq<(KindView, Seq<char>)> {
    v.map_values(|p: (NodeKind, String)| (p.0@, p.1@))
}

impl LanguageDefinition {
    /// The first rule with the given name; `None` marks a dangling rule reference.
    pub fn rule_with_name(&self, name: &str) -> (r: Option<&Rule>)
        ensures
            match first_rule(self.ast_rules@, name@) {
                Some(i) => r == Some(&self.ast_rules@[i]),
                None => r.is_none(),
            },
    {
        let wanted = name.to_owned();
        let mut i: usize = 0;
        while i < self.ast_rules.len()
            invariant
                i <= self.ast_rules.len(),
                wanted@ == name@,
                first_rule(self.ast_rules@.take(i as int), name@).is_none(),
            decreases self.ast_rules.len() - i,
        {
            assert(self.ast_rules@.take(i + 1).drop_last() =~= self.ast_rules@.take(i as int));
            if self.ast_rules[i].name == wanted {
                proof { lemma_first_rule_prefix(self.ast_rules@, name@, i as int + 1); }
                return Some(&self.ast_rules[i]);
            }
            i = i + 1;
        }
        assert(self.ast_rules@.take(i as int) =~= self.ast_rules@);
        None
    }

    /// The kinds of the AST nodes that open a new lexical scope.
    pub fn get_scope_nodes(&self) -> (r: Vec<NodeKind>)
        ensures
            kinds_view(r@) == scope_kinds(self.ast_rules@),
    {
        let mut r: Vec<NodeKind> = Vec::new();
        let mut i: usize = 0;
        while i < self.ast_rules.len()
            invariant
                i <= self.ast_rules.len(),
                kinds_view(r@) == scope_kinds(self.ast_rules@.take(i as int)),
            decreases self.ast_rules.len() - i,
        {
            assert(self.ast_rules@.take(i + 1).drop_last() =~= self.ast_rules@.take(i as int));
            let rule = &self.ast_rules[i];
            if rule.is_scope {
                let k = NodeKind::Node(rule.name.clone());
                let ghost before = r@;
                r.push(k);
                assert(kinds_view(r@) =~= kinds_view(before).push(k@));
            }
            i = i + 1;
        }
        assert(self.ast_rules@.take(i as int) =~= self.ast_rules@);
        r
    }

    /// The declaring node kinds, each paired with the category it declares.
    pub fn get_symbol_init_nodes(&self) -> (r: Vec<(NodeKind, String)>)
        ensures
            init_pairs_view(r@) == init_kinds(self.ast_rules@),
    {
        let mut r: Vec<(NodeKind, String)> = Vec::new();
        let mut i: usize = 0;
        while i < self.ast_rules.len()
            invariant
                i <= self.ast_rules.len(),
                init_pairs_view(r@) == init_kinds(self.ast_rules@.take(i as int)),
            decreases self.ast_rules.len() - i,
        {
            assert(self.ast_rules@.take(i + 1).drop_last() =~= self.ast_rules@.take(i as int));
            let rule = &self.ast_rules[i];
            match &rule.symbol {
                Symbol::Init(c) => {
                    let p = (NodeKind::Node(rule.name.clone()), c.clone());
                    let ghost before = r@;
                    r.push(p);
                    assert(init_pairs_view(r@) =~= init_pairs_view(before).push((p.0@, p.1@)));
                },
                _ => {},
            }
            i = i + 1;
        }
        assert(self.ast_rules@.take(i as int) =~= self.ast_rules@);
        r
    }
}

proof fn lemma_first_rule_prefix(rules: Seq<Rule>, name: Seq<char>, n: int)
    requires
        0 < n <= rules.len(),
        first_rule(rules.take(n - 1), name).is_none(),
        rules[n - 1].name@ == name,
    ensures
        first_rule(rules, name) == Some(n - 1),
    decreases rules.len(),
{
    assert(rules.take(n).drop_last() =~= rules.take(n - 1));
    if n < rules.len() {
        assert(rules.drop_last().take(n - 1) =~= rules.take(n - 1));
        assert(rules.drop_last().take(n) =~= rules.take(n));
        lemma_first_rule_prefix(rules.drop_last(), name, n);
    } else {
        assert(rules.take(n) =~= rules);
    }
}

} // verus!
