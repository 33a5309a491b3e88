use p4_lsp::ast::{Ast, NodeKind};
use p4_lsp::cst::{Cst, CstNode};
use p4_lsp::language_def::{
    Child, DirectOrRule, LanguageDefinition, Multiplicity, Rule, Symbol, TreesitterNodeQuery,
};
use p4_lsp::position::{Position, Range};
use p4_lsp::symbol_table::SymbolTable;
use p4_lsp::translator::{TranslationError, TreesitterTranslator};

fn span(a: u32, b: u32) -> Range {
    Range::new(Position::new(0, a), Position::new(0, b))
}

fn cst_node(kind: &str, field: Option<&str>, a: u32, b: u32, text: &str, children: Vec<usize>) -> CstNode {
    CstNode {
        kind: kind.to_string(),
        field: field.map(|f| f.to_string()),
        range: span(a, b),
        text: text.to_string(),
        children,
    }
}

fn child(query: TreesitterNodeQuery, rule: DirectOrRule, symbol_usage: bool) -> Child {
    Child { query, rule, symbol_usage }
}

fn kind(k: &str) -> TreesitterNodeQuery {
    TreesitterNodeQuery::Kind(k.to_string())
}

fn to_rule(name: &str) -> DirectOrRule {
    DirectOrRule::Rule(name.to_string())
}

fn rule(name: &str, symbol: Symbol, children: Vec<Multiplicity>) -> Rule {
    Rule { name: name.to_string(), symbol, is_scope: false, children }
}

const SOURCE: &str = "const int x = 5;";

fn const_cst() -> Cst {
    Cst {
        nodes: vec![
            cst_node("source_file", None, 0, 16, SOURCE, vec![1]),
            cst_node("constant_declaration", None, 0, 16, SOURCE, vec![2, 3, 4]),
            cst_node("type", Some("type"), 6, 9, "int", vec![]),
            cst_node("identifier", Some("name"), 10, 11, "x", vec![]),
            cst_node("number", Some("value"), 14, 15, "5", vec![]),
        ],
        root: 0,
    }
}

fn const_rules() -> LanguageDefinition {
    LanguageDefinition {
        symbol_types: vec![],
        ast_rules: vec![
            rule("Root", Symbol::NotSymbol, vec![Multiplicity::Many(child(kind("constant_declaration"), to_rule("ConstantDec"), false))]),
            rule(
                "ConstantDec",
                Symbol::Init("constant".to_string()),
                vec![
                    Multiplicity::One(child(kind("type"), to_rule("Type"), false)),
                    Multiplicity::One(child(TreesitterNodeQuery::Field("name".to_string()), DirectOrRule::Direct(NodeKind::Name), false)),
                ],
            ),
            rule("Type", Symbol::NotSymbol, vec![]),
        ],
    }
}

fn root_children(ast: &Ast) -> Vec<usize> {
    ast.nodes[ast.root_id].children.clone()
}

#[test]
fn constant_declaration_scenario() {
    let def = const_rules();
    let ast = TreesitterTranslator::translate(SOURCE.to_string(), const_cst(), &def);
    assert!(ast.diagnostics.is_empty());
    assert_eq!(ast.nodes.len(), 4);
    assert!(ast.is_wf());
    let root = &ast.nodes[ast.root_id];
    assert!(root.kind == NodeKind::Root);
    assert_eq!(root.content, SOURCE);
    let kids = root_children(&ast);
    assert_eq!(kids.len(), 1);
    let dec = &ast.nodes[kids[0]];
    assert!(dec.kind == NodeKind::Node("ConstantDec".to_string()));
    assert_eq!(dec.range, span(0, 16));
    assert_eq!(dec.children.len(), 2);
    let ty = &ast.nodes[dec.children[0]];
    assert!(ty.kind == NodeKind::Node("Type".to_string()));
    assert_eq!(ty.content, "int");
    let name = &ast.nodes[dec.children[1]];
    assert!(name.kind == NodeKind::Name);
    assert_eq!(name.content, "x");

    let table = SymbolTable::new(&ast, &def);
    let top = table.get_top_level_symbols().unwrap();
    assert_eq!(top.constants.len(), 1);
    assert!(top.types.is_empty() && top.variables.is_empty() && top.functions.is_empty());
    assert_eq!(top.constants[0].get_name(), "x");
    assert_eq!(top.constants[0].get_def_position(), span(0, 16));
    assert_eq!(top.constants[0].get_type(), Some("int".to_string()));
    assert_eq!(top.constants[0].get_node_id(), kids[0]);
}

#[test]
fn undefined_rule_is_recorded_and_dropped() {
    let mut def = const_rules();
    def.ast_rules[1].children[0] = Multiplicity::One(child(kind("type"), to_rule("Missing"), false));
    let ast = TreesitterTranslator::translate(SOURCE.to_string(), const_cst(), &def);
    assert_eq!(ast.diagnostics.len(), 1);
    match &ast.diagnostics[0] {
        TranslationError::UndefinedRule { name, range } => {
            assert_eq!(name, "Missing");
            assert_eq!(*range, span(6, 9));
        }
        _ => panic!("expected an undefined rule"),
    }
    let dec = &ast.nodes[root_children(&ast)[0]];
    assert_eq!(dec.children.len(), 1);
    assert!(ast.nodes[dec.children[0]].kind == NodeKind::Name);
    assert_eq!(ast.nodes.len(), 3);
}

#[test]
fn missing_one_child_keeps_parent() {
    let mut def = const_rules();
    def.ast_rules[1].children[0] = Multiplicity::One(child(kind("no_such_kind"), to_rule("Type"), false));
    let ast = TreesitterTranslator::translate(SOURCE.to_string(), const_cst(), &def);
    assert_eq!(ast.diagnostics.len(), 1);
    match &ast.diagnostics[0] {
        TranslationError::MissingChild { range } => assert_eq!(*range, span(0, 16)),
        _ => panic!("expected a missing child"),
    }
    let dec = &ast.nodes[root_children(&ast)[0]];
    assert!(dec.kind == NodeKind::Node("ConstantDec".to_string()));
    assert_eq!(dec.children.len(), 1);
}

#[test]
fn maybe_without_match_is_silent() {
    let mut def = const_rules();
    def.ast_rules[1].children.push(Multiplicity::Maybe(child(kind("initializer"), DirectOrRule::Direct(NodeKind::Type), false)));
    let ast = TreesitterTranslator::translate(SOURCE.to_string(), const_cst(), &def);
    assert!(ast.diagnostics.is_empty());
    let dec = &ast.nodes[root_children(&ast)[0]];
    assert_eq!(dec.children.len(), 2);
}

#[test]
fn maybe_and_one_take_the_first_match() {
    let mut def = const_rules();
    def.ast_rules[1].children = vec![Multiplicity::Maybe(child(
        TreesitterNodeQuery::Path(vec![]),
        DirectOrRule::Direct(NodeKind::Type),
        false,
    ))];
    def.ast_rules[0].children = vec![Multiplicity::One(child(kind("constant_declaration"), DirectOrRule::Direct(NodeKind::Name), true))];
    let ast = TreesitterTranslator::translate(SOURCE.to_string(), const_cst(), &def);
    assert!(ast.diagnostics.is_empty());
    let kids = root_children(&ast);
    assert_eq!(kids.len(), 1);
    let n = &ast.nodes[kids[0]];
    assert!(n.kind == NodeKind::Name);
    assert!(n.usage);
    assert!(n.children.is_empty());
}

#[test]
fn many_keeps_source_order() {
    let cst = Cst {
        nodes: vec![
            cst_node("source_file", None, 0, 30, "", vec![1, 2, 3]),
            cst_node("identifier", None, 0, 1, "a", vec![]),
            cst_node("comment", None, 2, 5, "//", vec![]),
            cst_node("identifier", None, 6, 7, "b", vec![]),
        ],
        root: 0,
    };
    let def = LanguageDefinition {
        symbol_types: vec![],
        ast_rules: vec![rule("Root", Symbol::NotSymbol, vec![Multiplicity::Many(child(kind("identifier"), DirectOrRule::Direct(NodeKind::Name), true))])],
    };
    let ast = TreesitterTranslator::translate("a // b".to_string(), cst, &def);
    assert_eq!(ast.nodes.len(), 3);
    let kids = root_children(&ast);
    assert_eq!(kids.len(), 2);
    assert_eq!(ast.nodes[kids[0]].content, "a");
    assert_eq!(ast.nodes[kids[1]].content, "b");
    assert!(ast.nodes[kids[0]].usage && ast.nodes[kids[1]].usage);
}

#[test]
fn missing_root_rule_gives_bare_root() {
    let def = LanguageDefinition { symbol_types: vec![], ast_rules: vec![] };
    let ast = TreesitterTranslator::translate(SOURCE.to_string(), const_cst(), &def);
    assert_eq!(ast.nodes.len(), 1);
    assert!(ast.nodes[ast.root_id].children.is_empty());
    assert_eq!(ast.nodes[ast.root_id].content, SOURCE);
    assert_eq!(ast.diagnostics.len(), 1);
    match &ast.diagnostics[0] {
        TranslationError::UndefinedRule { name, range } => {
            assert_eq!(name, "Root");
            assert_eq!(*range, span(0, 16));
        }
        _ => panic!("expected an undefined rule"),
    }
}
