use vstd::prelude::*;
use crate::ast::{has_parent, not_a_child, slots_unique, arena_wf, ast_tree, lemma_ast_frame, lemma_ast_tree_unfold, Ast, AstTree, KindView, Node, NodeKind};
use crate::cst::{idx_view, query_matches, run_query, Cst, CstNode};
use crate::language_def::{first_rule, Child, DirectOrRule, LanguageDefinition, Multiplicity, Rule};
use crate::position::Range;

verus! {

/// A place where the syntax tree does not fit the rule set. Translation
/// drops the offending subtree, records one of these, and goes on.
#[derive(Debug, Clone)]
pub enum TranslationError {
    /// A `One` child found no match under the node at `range`.
    MissingChild { range: Range },
    /// A child refers to a rule that the rule set does not define.
    UndefinedRule { name: String, range: Range },
}

pub ghost enum ErrorView {
    MissingChild(Range),
    UndefinedRule(Seq<char>, Range),
}

impl View for TranslationError {
    type V = ErrorView;

    open spec fn view(&self) -> ErrorView {
        match self {
            TranslationError::MissingChild { range } => ErrorView::MissingChild(*range),
            TranslationError::UndefinedRule { name, range } => ErrorView::UndefinedRule(name@, *range),
        }
    }
}

pub open spec fn errors_view(v: Seq<TranslationError>) -> Seq<ErrorView> {
    v.map_values(|e: TranslationError| e@)
}

pub open spec fn mult_child(m: Multiplicity) -> Child {
    match m {
        Multiplicity::One(c) => c,
        Multiplicity::Maybe(c) => c,
        Multiplicity::Many(c) => c,
    }
}

/// The matches that a multiplicity keeps, or `None` when a required one is missing.
pub open spec fn mult_selection(m: Multiplicity, matches: Seq<int>) -> Option<Seq<int>> {
    match m {
        Multiplicity::One(_) => if matches.len() == 0 {
            None
        } else {
            Some(matches.take(1))
        },
        Multiplicity::Maybe(_) => if matches.len() == 0 {
            Some(matches)
        } else {
            Some(matches.take(1))
        },
        Multiplicity::Many(_) => Some(matches),
    }
}

/// Translates CST node `n` by `rule` into a node of the given kind and content.
pub open spec fn tr_rule(cst: Seq<CstNode>, rules: Seq<Rule>, n: int, kind: KindView, content: Seq<char>, usage: bool, rule: Rule) -> (AstTree, Seq<ErrorView>)
    decreases cst.len() - n, 3int, 0int when 0 <= n < cst.len()
{
    let out = tr_mults(cst, rules, n, rule.children@, rule.children@.len() as int);
    (AstTree { kind, range: cst[n].range, content, usage, children: out.0 }, out.1)
}

/// The children that the first `m` expected children of a rule give at node `n`.
pub open spec fn tr_mults(cst: Seq<CstNode>, rules: Seq<Rule>, n: int, ms: Seq<Multiplicity>, m: int) -> (Seq<AstTree>, Seq<ErrorView>)
    decreases cst.len() - n, 2int, m when 0 <= n < cst.len() && m <= ms.len()
{
    if m <= 0 {
        (Seq::empty(), Seq::empty())
    } else {
        let prev = tr_mults(cst, rules, n, ms, m - 1);
        let child = mult_child(ms[m - 1]);
        match mult_selection(ms[m - 1], query_matches(cst, n, child.query)) {
            None => (prev.0, prev.1.push(ErrorView::MissingChild(cst[n].range))),
            Some(sel) => {
                let out = tr_sel(cst, rules, n, child, sel, sel.len() as int);
                (prev.0 + out.0, prev.1 + out.1)
            },
        }
    }
}

/// The translations of the first `q` selected matches.
pub open spec fn tr_sel(cst: Seq<CstNode>, rules: Seq<Rule>, n: int, child: Child, sel: Seq<int>, q: int) -> (Seq<AstTree>, Seq<ErrorView>)
    decreases cst.len() - n, 1int, q when 0 <= n < cst.len() && q <= sel.len()
{
    if q <= 0 {
        (Seq::empty(), Seq::empty())
    } else {
        let prev = tr_sel(cst, rules, n, child, sel, q - 1);
        let out = tr_match(cst, rules, n, sel[q - 1], child);
        (prev.0 + out.0, prev.1 + out.1)
    }
}

/// The translation of one match `c` found below `n`.
pub open spec fn tr_match(cst: Seq<CstNode>, rules: Seq<Rule>, n: int, c: int, child: Child) -> (Seq<AstTree>, Seq<ErrorView>)
    decreases cst.len() - n, 0int, 0int when 0 <= n < cst.len()
{
    if !(n < c < cst.len()) {
        (Seq::empty(), Seq::empty())
    } else {
        match child.rule {
            DirectOrRule::Direct(k) => (seq![AstTree {
                kind: k@,
                range: cst[c].range,
                content: cst[c].text@,
                usage: child.symbol_usage,
                children: Seq::empty(),
            }], Seq::empty()),
            DirectOrRule::Rule(name) => match first_rule(rules, name@) {
                None => (Seq::empty(), seq![ErrorView::UndefinedRule(name@, cst[c].range)]),
                Some(i) => {
                    let o = tr_rule(cst, rules, c, KindView::Node(name@), cst[c].text@, child.symbol_usage, rules[i]);
                    (seq![o.0], o.1)
                },
            },
        }
    }
}

/// The AST of a whole file: a root node holding the source text, whose
/// children the rule named `Root` gives.
pub open spec fn translation(cst: Cst, rules: Seq<Rule>, source: Seq<char>) -> (AstTree, Seq<ErrorView>) {
    let root = cst.root as int;
    match first_rule(rules, "Root"@) {
        Some(i) => tr_rule(cst.nodes@, rules, root, KindView::Root, source, false, rules[i]),
        None => (AstTree { kind: KindView::Root, range: cst.nodes@[root].range, content: source, usage: false, children: Seq::empty() },
            seq![ErrorView::UndefinedRule("Root"@, cst.nodes@[root].range)]),
    }
}

/// How many AST nodes `tr_rule` gives.
pub open spec fn sz_rule(cst: Seq<CstNode>, rules: Seq<Rule>, n: int, rule: Rule) -> nat
    decreases cst.len() - n, 3int, 0int when 0 <= n < cst.len()
{
    1 + sz_mults(cst, rules, n, rule.children@, rule.children@.len() as int)
}

/// How many AST nodes `tr_mults` gives.
pub open spec fn sz_mults(cst: Seq<CstNode>, rules: Seq<Rule>, n: int, ms: Seq<Multiplicity>, m: int) -> nat
    decreases cst.len() - n, 2int, m when 0 <= n < cst.len() && m <= ms.len()
{
    if m <= 0 {
        0
    } else {
        let child = mult_child(ms[m - 1]);
        sz_mults(cst, rules, n, ms, m - 1) + match mult_selection(ms[m - 1], query_matches(cst, n, child.query)) {
            None => 0,
            Some(sel) => sz_sel(cst, rules, n, child, sel, sel.len() as int),
        }
    }
}

/// How many AST nodes `tr_sel` gives.
pub open spec fn sz_sel(cst: Seq<CstNode>, rules: Seq<Rule>, n: int, child: Child, sel: Seq<int>, q: int) -> nat
    decreases cst.len() - n, 1int, q when 0 <= n < cst.len() && q <= sel.len()
{
    if q <= 0 {
        0
    } else {
        sz_sel(cst, rules, n, child, sel, q - 1) + sz_match(cst, rules, n, sel[q - 1], child)
    }
}

/// How many AST nodes `tr_match` gives.
pub open spec fn sz_match(cst: Seq<CstNode>, rules: Seq<Rule>, n: int, c: int, child: Child) -> nat
    decreases cst.len() - n, 0int, 0int when 0 <= n < cst.len()
{
    if !(n < c < cst.len()) {
        0
    } else {
        match child.rule {
            DirectOrRule::Direct(_) => 1,
            DirectOrRule::Rule(name) => match first_rule(rules, name@) {
                None => 0,
                Some(i) => sz_rule(cst, rules, c, rules[i]),
            },
        }
    }
}

/// How many AST nodes `translation` gives.
pub open spec fn translation_size(cst: Cst, rules: Seq<Rule>) -> nat {
    match first_rule(rules, "Root"@) {
        Some(i) => sz_rule(cst.nodes@, rules, cst.root as int, rules[i]),
        None => 1,
    }
}

/// A match that refers to a rule the rule set lacks gives no AST node, only
/// one recorded diagnostic naming the rule at the match's range.
pub proof fn lemma_undefined_rule_dropped(cst: Seq<CstNode>, rules: Seq<Rule>, n: int, c: int, child: Child, name: String)
    requires
        0 <= n < c < cst.len(),
        child.rule == DirectOrRule::Rule(name),
        first_rule(rules, name@).is_none(),
    ensures
        tr_match(cst, rules, n, c, child).0.len() == 0,
        tr_match(cst, rules, n, c, child).1 == seq![ErrorView::UndefinedRule(name@, cst[c].range)],
{
}

/// Walks a syntax tree by a rule set, building the AST in one arena.
pub struct TreesitterTranslator {
    arena: Vec<Node>,
    source_code: String,
    tree: Cst,
    errors: Vec<TranslationError>,
}

/// From `a` to `b` the translator only appended: the arena grew by exactly
/// `count` nodes, the
/// indices `ka` became `kb` by adding fresh nodes whose trees are `out.0`,
/// and the errors `out.1` were recorded.
spec fn appended(a: TreesitterTranslator, b: TreesitterTranslator, ka: Seq<usize>, kb: Seq<usize>, out: (Seq<AstTree>, Seq<ErrorView>), count: nat) -> bool {
    &&& b.tree == a.tree
    &&& arena_wf(b.arena@)
    &&& b.arena@.len() == a.arena@.len() + count
    &&& forall|j: int| 0 <= j < a.arena@.len() ==> #[trigger] b.arena@[j] == a.arena@[j]
    &&& kb.len() == ka.len() + out.0.len()
    &&& kb.take(ka.len() as int) == ka
    &&& forall|x: int| ka.len() <= x < kb.len() ==> a.arena@.len() <= #[trigger] kb[x] < b.arena@.len()
    &&& forall|x: int| 0 <= x < out.0.len() ==> ast_tree(b.arena@, #[trigger] kb[ka.len() + x] as int) == out.0[x]
    &&& errors_view(b.errors@) == errors_view(a.errors@) + out.1
    &&& slots_unique(b.arena@)
    &&& forall|x: int, y: int| ka.len() <= x < y < kb.len() ==> #[trigger] kb[x] != #[trigger] kb[y]
    &&& forall|x: int| ka.len() <= x < kb.len() ==> not_a_child(b.arena@, #[trigger] kb[x] as int)
    &&& forall|j: int| a.arena@.len() <= j < b.arena@.len() ==> has_parent(b.arena@, j) || new_kid(ka, kb, j)
}

/// `j` is one of the indices that `kb` adds to `ka`.
spec fn new_kid(ka: Seq<usize>, kb: Seq<usize>, j: int) -> bool {
    exists|x: int| ka.len() <= x < kb.len() && #[trigger] kb[x] == j
}

proof fn lemma_appended_trans(
    s0: TreesitterTranslator,
    s1: TreesitterTranslator,
    s2: TreesitterTranslator,
    k0: Seq<usize>,
    k1: Seq<usize>,
    k2: Seq<usize>,
    o1: (Seq<AstTree>, Seq<ErrorView>),
    o2: (Seq<AstTree>, Seq<ErrorView>),
    c1: nat,
    c2: nat,
)
    requires
        arena_wf(s0.arena@),
        appended(s0, s1, k0, k1, o1, c1),
        appended(s1, s2, k1, k2, o2, c2),
    ensures
        appended(s0, s2, k0, k2, (o1.0 + o2.0, o1.1 + o2.1), c1 + c2),
{
    let o = (o1.0 + o2.0, o1.1 + o2.1);
    assert(k2.take(k0.len() as int) =~= k2.take(k1.len() as int).take(k0.len() as int));
    assert forall|x: int| 0 <= x < o.0.len() implies ast_tree(s2.arena@, #[trigger] k2[k0.len() + x] as int) == o.0[x] by {
        if x < o1.0.len() {
            assert(k2.take(k1.len() as int)[k0.len() + x] == k2[k0.len() + x]);
            assert(k1[k0.len() + x] == k2[k0.len() + x]);
            lemma_ast_frame(s1.arena@, s2.arena@, 0, k1[k0.len() + x] as int);
        } else {
            let y = x - o1.0.len();
            assert(k2[k1.len() + y] == k2[k0.len() + x]);
        }
    }
    assert forall|x: int| k0.len() <= x < k2.len() implies s0.arena@.len() <= #[trigger] k2[x] < s2.arena@.len() by {
        if x < k1.len() {
            assert(k2.take(k1.len() as int)[x] == k2[x]);
        }
    }
    assert(errors_view(s2.errors@) =~= errors_view(s0.errors@) + o.1);
    assert forall|x: int, y: int| k0.len() <= x < y < k2.len() implies #[trigger] k2[x] != #[trigger] k2[y] by {
        if y < k1.len() {
            assert(k2.take(k1.len() as int)[x] == k2[x]);
            assert(k2.take(k1.len() as int)[y] == k2[y]);
            assert(k1[x] != k1[y]);
        } else if x < k1.len() {
            assert(k2.take(k1.len() as int)[x] == k2[x]);
            assert(k1[x] < s1.arena@.len());
            assert(s1.arena@.len() <= k2[y]);
        }
    }
    assert forall|j: int| s0.arena@.len() <= j < s2.arena@.len() implies has_parent(s2.arena@, j) || new_kid(k0, k2, j) by {
        if j < s1.arena@.len() {
            if has_parent(s1.arena@, j) {
                let (i, z) = choose|i: int, z: int| 0 <= i < s1.arena@.len() && 0 <= z < s1.arena@[i].children@.len() && #[trigger] s1.arena@[i].children@[z] == j;
                assert(s2.arena@[i] == s1.arena@[i]);
                assert(s2.arena@[i].children@[z] == j);
            } else {
                assert(new_kid(k0, k1, j));
                let x = choose|x: int| k0.len() <= x < k1.len() && #[trigger] k1[x] == j;
                assert(k2.take(k1.len() as int)[x] == k2[x]);
                assert(k2[x] == j);
            }
        } else {
            if !has_parent(s2.arena@, j) {
                assert(new_kid(k1, k2, j));
                let x = choose|x: int| k1.len() <= x < k2.len() && #[trigger] k2[x] == j;
                assert(k2[x] == j);
            }
        }
    }
    assert forall|x: int| k0.len() <= x < k2.len() implies not_a_child(s2.arena@, #[trigger] k2[x] as int) by {
        if x < k1.len() {
            assert(k2.take(k1.len() as int)[x] == k2[x]);
            assert(not_a_child(s1.arena@, k1[x] as int));
            assert forall|i: int, z: int| 0 <= i < s2.arena@.len() && 0 <= z < s2.arena@[i].children@.len() implies #[trigger] s2.arena@[i].children@[z] != k2[x] by {
                if i < s1.arena@.len() {
                    assert(s2.arena@[i] == s1.arena@[i]);
                } else {
                    assert(i < s2.arena@[i].children@[z]);
                }
            }
        }
    }
}

proof fn lemma_push_leaf_wf(a: Seq<Node>, x: Node)
    requires
        arena_wf(a),
        x.children@.len() == 0,
    ensures
        arena_wf(a.push(x)),
        ast_tree(a.push(x), a.len() as int) == (AstTree { kind: x.kind@, range: x.range, content: x.content@, usage: x.usage, children: Seq::empty() }),
        forall|j: int| 0 <= j < a.len() ==> #[trigger] a.push(x)[j] == a[j],
        slots_unique(a) ==> slots_unique(a.push(x)),
        not_a_child(a.push(x), a.len() as int),
{
    let b = a.push(x);
    assert forall|i: int, z: int| 0 <= i < b.len() && 0 <= z < b[i].children@.len() implies #[trigger] b[i].children@[z] != a.len() by {
        assert(b[i] == a[i]);
    }
    assert forall|i: int, j: int| 0 <= i < b.len() && 0 <= j < b[i].children@.len() implies i < #[trigger] b[i].children@[j] < b.len() by {
        assert(i < a.len());
        assert(b[i] == a[i]);
    }
    lemma_ast_tree_unfold(b, a.len() as int);
    assert(ast_tree(b, a.len() as int).children =~= Seq::<AstTree>::empty());
}

proof fn lemma_appended_refl(s: TreesitterTranslator, k: Seq<usize>)
    requires
        arena_wf(s.arena@),
        slots_unique(s.arena@),
    ensures
        appended(s, s, k, k, (Seq::empty(), Seq::empty()), 0),
{
    assert(k.take(k.len() as int) =~= k);
    assert(errors_view(s.errors@) =~= errors_view(s.errors@) + Seq::<ErrorView>::empty());
}

impl TreesitterTranslator {
    /// Translates a whole file. The root node holds `source_code`; the rule
    /// named `Root` gives its children. Malformed parts are dropped and
    /// recorded in the AST's diagnostics.
    pub fn translate(source_code: String, tree: Cst, language: &LanguageDefinition) -> (r: Ast)
        requires
            tree.wf(),
        ensures
            r.wf(),
            ast_tree(r.nodes@, r.root_id as int) == translation(tree, language.ast_rules@, source_code@).0,
            r.nodes@.len() == translation_size(tree, language.ast_rules@),
            slots_unique(r.nodes@),
            not_a_child(r.nodes@, r.root_id as int),
            forall|j: int| 0 <= j < r.nodes@.len() && j != r.root_id ==> has_parent(r.nodes@, j),
            errors_view(r.diagnostics@) == translation(tree, language.ast_rules@, source_code@).1,
    {
        let mut translator = TreesitterTranslator { arena: Vec::new(), source_code, tree, errors: Vec::new() };
        assert(errors_view(translator.errors@) =~= Seq::<ErrorView>::empty());
        let root_id = translator.parse_root(language);
        Ast { nodes: translator.arena, root_id, diagnostics: translator.errors }
    }

    fn parse_root(&mut self, language: &LanguageDefinition) -> (r: usize)
        requires
            old(self).tree.wf(),
            old(self).arena@.len() == 0,
            errors_view(old(self).errors@) == Seq::<ErrorView>::empty(),
        ensures
            arena_wf(final(self).arena@),
            r < final(self).arena@.len(),
            final(self).arena@.len() == translation_size(old(self).tree, language.ast_rules@),
            slots_unique(final(self).arena@),
            not_a_child(final(self).arena@, r as int),
            forall|j: int| 0 <= j < final(self).arena@.len() && j != r ==> has_parent(final(self).arena@, j),
            ast_tree(final(self).arena@, r as int) == translation(old(self).tree, language.ast_rules@, old(self).source_code@).0,
            errors_view(final(self).errors@) == translation(old(self).tree, language.ast_rules@, old(self).source_code@).1,
    {
        let root = self.tree.root;
        let content = self.source_code.clone();
        match language.rule_with_name("Root") {
            Some(rule) => {
                let ghost s0 = *self;
                let r = self.translate_rule(language, root, NodeKind::Root, content, false, rule);
                proof {
                    let out = tr_rule(s0.tree.nodes@, language.ast_rules@, root as int, KindView::Root, s0.source_code@, false, *rule);
                    assert(seq![r][0int + 0int] == r);
                    assert(not_a_child(self.arena@, seq![r][0int + 0int] as int));
                    assert forall|j: int| 0 <= j < self.arena@.len() && j != r implies has_parent(self.arena@, j) by {
                        if !has_parent(self.arena@, j) {
                            assert(new_kid(Seq::empty(), seq![r], j));
                        }
                    }
                    assert(ast_tree(self.arena@, r as int) == out.0);
                    assert(errors_view(self.errors@) =~= out.1);
                }
                r
            },
            None => {
                let range = self.tree.nodes[root].range;
                let ghost a = self.arena@;
                let node = Node { kind: NodeKind::Root, range, content, usage: false, children: Vec::new() };
                proof { lemma_push_leaf_wf(a, node); }
                self.arena.push(node);
                let ghost e0 = self.errors@;
                let err = TranslationError::UndefinedRule { name: String::from_str("Root"), range };
                self.errors.push(err);
                assert(errors_view(self.errors@) =~= errors_view(e0).push(err@));
                assert(errors_view(self.errors@) =~= seq![ErrorView::UndefinedRule("Root"@, range)]);
                0
            },
        }
    }

    fn translate_rule(&mut self, language: &LanguageDefinition, n: usize, kind: NodeKind, content: String, usage: bool, rule: &Rule) -> (r: usize)
        requires
            old(self).tree.wf(),
            n < old(self).tree.nodes@.len(),
            arena_wf(old(self).arena@),
            slots_unique(old(self).arena@),
        ensures
            ({
                let out = tr_rule(old(self).tree.nodes@, language.ast_rules@, n as int, kind@, content@, usage, *rule);
                appended(*old(self), *final(self), Seq::empty(), seq![r], (seq![out.0], out.1), sz_rule(old(self).tree.nodes@, language.ast_rules@, n as int, *rule))
            }),
        decreases old(self).tree.nodes@.len() - n, 3int, 0int,
    {
        let ghost s0 = *self;
        let ghost cst = self.tree.nodes@;
        let ghost rules = language.ast_rules@;
        let idx = self.arena.len();
        let range = self.tree.nodes[n].range;
        let placeholder = Node { kind: kind.duplicate(), range, content: content.clone(), usage, children: Vec::new() };
        proof { lemma_push_leaf_wf(self.arena@, placeholder); }
        self.arena.push(placeholder);
        let ghost s1 = *self;
        let mut kids: Vec<usize> = Vec::new();
        let ghost k_before = kids@;
        assert(k_before.len() == 0);
        self.translate_mults(language, n, rule, &mut kids);
        let ghost s2 = *self;
        let ghost mults = tr_mults(cst, rules, n as int, rule.children@, rule.children@.len() as int);
        let node = Node { kind, range, content, usage, children: kids };
        let ghost nv = node;
        self.arena[idx] = node;
        proof {
            let t = self.arena@;
            assert(t == s2.arena@.update(idx as int, nv));
            assert(kids@.take(0) =~= Seq::<usize>::empty());
            assert forall|a: int, b: int| 0 <= a < t.len() && 0 <= b < t[a].children@.len() implies a < #[trigger] t[a].children@[b] < t.len() by {
                if a == idx {
                    assert(kids@[b] == kids@[0 + b]);
                    assert(s1.arena@.len() <= kids@[b]);
                } else {
                    assert(t[a] == s2.arena@[a]);
                }
            }
            lemma_ast_tree_unfold(t, idx as int);
            assert forall|j: int| 0 <= j < kids@.len() implies #[trigger] ast_tree(t, idx as int).children[j] == mults.0[j] by {
                assert(kids@[0 + j] == kids@[j]);
                assert forall|x: int| idx + 1 <= x < s2.arena@.len() implies #[trigger] t[x] == s2.arena@[x] by {}
                lemma_ast_frame(s2.arena@, t, idx + 1, kids@[j] as int);
            }
            assert(ast_tree(t, idx as int).children =~= mults.0);
            let out = tr_rule(cst, rules, n as int, kind@, content@, usage, *rule);
            assert(ast_tree(t, idx as int) == out.0);
            assert(seq![idx].take(0) =~= Seq::<usize>::empty());
            assert(seq![idx][0int + 0int] == idx);
            assert forall|j: int| 0 <= j < s0.arena@.len() implies #[trigger] t[j] == s0.arena@[j] by {
                assert(s1.arena@[j] == s0.arena@[j]);
            }
            assert(errors_view(self.errors@) =~= errors_view(s0.errors@) + out.1);
            assert forall|j: int| s0.arena@.len() <= j < t.len() implies has_parent(t, j) || new_kid(Seq::empty(), seq![idx], j) by {
                if j == idx {
                    assert(seq![idx][0] == j);
                } else if has_parent(s2.arena@, j) {
                    let (i, z) = choose|i: int, z: int| 0 <= i < s2.arena@.len() && 0 <= z < s2.arena@[i].children@.len() && #[trigger] s2.arena@[i].children@[z] == j;
                    assert(i != idx);
                    assert(t[i] == s2.arena@[i]);
                    assert(t[i].children@[z] == j);
                } else {
                    assert(new_kid(k_before, kids@, j));
                    let x = choose|x: int| 0 <= x < kids@.len() && #[trigger] kids@[x] == j;
                    assert(t[idx as int].children@[x] == j);
                }
            }
        }
        idx
    }

    fn translate_mults(&mut self, language: &LanguageDefinition, n: usize, rule: &Rule, kids: &mut Vec<usize>)
        requires
            old(self).tree.wf(),
            n < old(self).tree.nodes@.len(),
            arena_wf(old(self).arena@),
            slots_unique(old(self).arena@),
        ensures
            appended(*old(self), *final(self), old(kids)@, final(kids)@,
                tr_mults(old(self).tree.nodes@, language.ast_rules@, n as int, rule.children@, rule.children@.len() as int),
                sz_mults(old(self).tree.nodes@, language.ast_rules@, n as int, rule.children@, rule.children@.len() as int)),
        decreases old(self).tree.nodes@.len() - n, 2int, 0int,
    {
        let ghost s0 = *self;
        let ghost k0 = kids@;
        let ghost cst = self.tree.nodes@;
        let ghost rules = language.ast_rules@;
        proof { lemma_appended_refl(s0, k0); }
        let mut i: usize = 0;
        while i < rule.children.len()
            invariant
                cst == s0.tree.nodes@,
                rules == language.ast_rules@,
                s0.tree.wf(),
                n < cst.len(),
                arena_wf(s0.arena@),
                arena_wf(self.arena@),
                self.tree.nodes@ == cst,
                cst == old(self).tree.nodes@,
                i <= rule.children@.len(),
                appended(s0, *self, k0, kids@, tr_mults(cst, rules, n as int, rule.children@, i as int), sz_mults(cst, rules, n as int, rule.children@, i as int)),
            decreases rule.children@.len() - i,
        {
            let ghost s1 = *self;
            let ghost k1 = kids@;
            let ghost prev = tr_mults(cst, rules, n as int, rule.children@, i as int);
            let mult = &rule.children[i];
            let child = match mult {
                Multiplicity::One(c) => c,
                Multiplicity::Maybe(c) => c,
                Multiplicity::Many(c) => c,
            };
            let matches = run_query(&self.tree, n, &child.query);
            let missing = match mult {
                Multiplicity::One(_) => matches.len() == 0,
                _ => false,
            };
            if missing {
                let err = TranslationError::MissingChild { range: self.tree.nodes[n].range };
                self.errors.push(err);
                proof {
                    assert(errors_view(self.errors@) =~= errors_view(s1.errors@) + seq![err@]);
                    assert(kids@.take(k1.len() as int) =~= k1);
                    assert(appended(s1, *self, k1, kids@, (Seq::empty(), seq![err@]), 0));
                    lemma_appended_trans(s0, s1, *self, k0, k1, kids@, prev, (Seq::empty(), seq![err@]), sz_mults(cst, rules, n as int, rule.children@, i as int), 0);
                    let next = tr_mults(cst, rules, n as int, rule.children@, i + 1);
                    assert(next.0 =~= prev.0 + Seq::<AstTree>::empty());
                    assert(next.1 =~= prev.1 + seq![err@]);
                }
            } else {
                let keep_all = match mult {
                    Multiplicity::Many(_) => true,
                    _ => false,
                };
                let sel: Vec<usize> = if keep_all || matches.len() == 0 {
                    matches
                } else {
                    let mut one: Vec<usize> = Vec::new();
                    one.push(matches[0]);
                    assert(idx_view(one@) =~= idx_view(matches@).take(1));
                    one
                };
                assert(mult_selection(*mult, idx_view(matches@)) == Some(idx_view(sel@)));
                self.translate_sel(language, n, child, &sel, kids);
                proof {
                    let out = tr_sel(cst, rules, n as int, *child, idx_view(sel@), sel@.len() as int);
                    lemma_appended_trans(s0, s1, *self, k0, k1, kids@, prev, out, sz_mults(cst, rules, n as int, rule.children@, i as int), sz_sel(cst, rules, n as int, *child, idx_view(sel@), sel@.len() as int));
                }
            }
            i = i + 1;
        }
    }

    fn translate_sel(&mut self, language: &LanguageDefinition, n: usize, child: &Child, sel: &Vec<usize>, kids: &mut Vec<usize>)
        requires
            old(self).tree.wf(),
            n < old(self).tree.nodes@.len(),
            arena_wf(old(self).arena@),
            slots_unique(old(self).arena@),
        ensures
            appended(*old(self), *final(self), old(kids)@, final(kids)@,
                tr_sel(old(self).tree.nodes@, language.ast_rules@, n as int, *child, idx_view(sel@), sel@.len() as int),
                sz_sel(old(self).tree.nodes@, language.ast_rules@, n as int, *child, idx_view(sel@), sel@.len() as int)),
        decreases old(self).tree.nodes@.len() - n, 1int, 0int,
    {
        let ghost s0 = *self;
        let ghost k0 = kids@;
        let ghost cst = self.tree.nodes@;
        let ghost rules = language.ast_rules@;
        proof { lemma_appended_refl(s0, k0); }
        let mut q: usize = 0;
        while q < sel.len()
            invariant
                cst == s0.tree.nodes@,
                rules == language.ast_rules@,
                s0.tree.wf(),
                n < cst.len(),
                arena_wf(s0.arena@),
                arena_wf(self.arena@),
                self.tree.nodes@ == cst,
                cst == old(self).tree.nodes@,
                q <= sel@.len(),
                appended(s0, *self, k0, kids@, tr_sel(cst, rules, n as int, *child, idx_view(sel@), q as int), sz_sel(cst, rules, n as int, *child, idx_view(sel@), q as int)),
            decreases sel@.len() - q,
        {
            let ghost s1 = *self;
            let ghost k1 = kids@;
            self.translate_match(language, n, sel[q], child, kids);
            proof {
                let prev = tr_sel(cst, rules, n as int, *child, idx_view(sel@), q as int);
                let out = tr_match(cst, rules, n as int, sel@[q as int] as int, *child);
                lemma_appended_trans(s0, s1, *self, k0, k1, kids@, prev, out, sz_sel(cst, rules, n as int, *child, idx_view(sel@), q as int), sz_match(cst, rules, n as int, sel@[q as int] as int, *child));
            }
            q = q + 1;
        }
    }

    fn translate_match(&mut self, language: &LanguageDefinition, n: usize, c: usize, child: &Child, kids: &mut Vec<usize>)
        requires
            old(self).tree.wf(),
            n < old(self).tree.nodes@.len(),
            arena_wf(old(self).arena@),
            slots_unique(old(self).arena@),
        ensures
            appended(*old(self), *final(self), old(kids)@, final(kids)@,
                tr_match(old(self).tree.nodes@, language.ast_rules@, n as int, c as int, *child),
                sz_match(old(self).tree.nodes@, language.ast_rules@, n as int, c as int, *child)),
        decreases old(self).tree.nodes@.len() - n, 0int, 0int,
    {
        let ghost s0 = *self;
        let ghost k0 = kids@;
        proof { lemma_appended_refl(s0, k0); }
        if !(n < c && c < self.tree.nodes.len()) {
            return;
        }
        let range = self.tree.nodes[c].range;
        let text = self.tree.nodes[c].text.clone();
        match &child.rule {
            DirectOrRule::Direct(k) => {
                let idx = self.arena.len();
                let node = Node { kind: k.duplicate(), range, content: text, usage: child.symbol_usage, children: Vec::new() };
                proof { lemma_push_leaf_wf(self.arena@, node); }
                self.arena.push(node);
                kids.push(idx);
                proof {
                    assert(kids@.take(k0.len() as int) =~= k0);
                    assert(kids@[k0.len() + 0int] == idx);
                    assert(errors_view(self.errors@) =~= errors_view(s0.errors@) + Seq::<ErrorView>::empty());
                    assert forall|j: int| s0.arena@.len() <= j < self.arena@.len() implies has_parent(self.arena@, j) || new_kid(k0, kids@, j) by {
                        assert(j == idx);
                        assert(kids@[k0.len() as int] == idx);
                    }
                }
            },
            DirectOrRule::Rule(name) => {
                match language.rule_with_name(name.as_str()) {
                    None => {
                        let err = TranslationError::UndefinedRule { name: name.clone(), range };
                        self.errors.push(err);
                        proof {
                            assert(errors_view(self.errors@) =~= errors_view(s0.errors@) + seq![err@]);
                            assert(kids@.take(k0.len() as int) =~= k0);
                        }
                    },
                    Some(rule) => {
                        let idx = self.translate_rule(language, c, NodeKind::Node(name.clone()), text, child.symbol_usage, rule);
                        let ghost s1 = *self;
                        kids.push(idx);
                        proof {
                            assert(seq![idx][0int + 0int] == idx);
                            assert(kids@.take(k0.len() as int) =~= k0);
                            assert(kids@[k0.len() + 0int] == idx);
                            assert forall|j: int| s0.arena@.len() <= j < self.arena@.len() implies has_parent(self.arena@, j) || new_kid(k0, kids@, j) by {
                                if !has_parent(self.arena@, j) {
                                    assert(new_kid(Seq::empty(), seq![idx], j));
                                    assert(j == idx);
                                    assert(kids@[k0.len() as int] == idx);
                                }
                            }
                        }
                    },
                }
            },
        }
    }
}

} // verus!
