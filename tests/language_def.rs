use p4_lsp::ast::NodeKind;
use p4_lsp::cst::{run_query, Cst, CstNode};
use p4_lsp::language_def::{
    Child, DirectOrRule, LanguageDefinition, Multiplicity, Rule, Symbol, SymbolCompletionType,
    TreesitterNodeQuery,
};
use p4_lsp::position::{Position, Range};

fn rule(name: &str, symbol: Symbol, is_scope: bool) -> Rule {
    Rule { name: name.to_string(), symbol, is_scope, children: vec![] }
}

fn definition() -> LanguageDefinition {
    LanguageDefinition {
        symbol_types: vec![("constant".to_string(), SymbolCompletionType::Constant)],
        ast_rules: vec![
            rule("Root", Symbol::NotSymbol, true),
            rule("ConstantDec", Symbol::Init("constant".to_string()), false),
            rule("Block", Symbol::NotSymbol, true),
            rule("VarDec", Symbol::Init("variable".to_string()), false),
            rule("Ref", Symbol::Usage, false),
            rule("Block", Symbol::Init("type".to_string()), false),
        ],
    }
}

#[test]
fn completion_kinds_follow_protocol_numbers() {
    assert_eq!(SymbolCompletionType::Text.get_completion_kind(), 1);
    assert_eq!(SymbolCompletionType::Function.get_completion_kind(), 3);
    assert_eq!(SymbolCompletionType::Variable.get_completion_kind(), 6);
    assert_eq!(SymbolCompletionType::Constant.get_completion_kind(), 21);
    assert_eq!(SymbolCompletionType::TypeParameter.get_completion_kind(), 25);
}

#[test]
fn rule_with_name_finds_first_rule() {
    let def = definition();
    let r = def.rule_with_name("Block").unwrap();
    assert!(r.is_scope);
    assert_eq!(def.rule_with_name("ConstantDec").unwrap().name, "ConstantDec");
}

#[test]
fn rule_with_name_misses_dangling_reference() {
    let def = definition();
    assert!(def.rule_with_name("Nowhere").is_none());
    assert!(def.rule_with_name("").is_none());
}

#[test]
fn scope_nodes_in_rule_order() {
    let def = definition();
    let kinds = def.get_scope_nodes();
    assert_eq!(kinds.len(), 2);
    assert!(kinds[0] == NodeKind::Node("Root".to_string()));
    assert!(kinds[1] == NodeKind::Node("Block".to_string()));
}

#[test]
fn symbol_init_nodes_pair_kind_and_category() {
    let def = definition();
    let inits = def.get_symbol_init_nodes();
    assert_eq!(inits.len(), 3);
    assert!(inits[0].0 == NodeKind::Node("ConstantDec".to_string()));
    assert_eq!(inits[0].1, "constant");
    assert!(inits[1].0 == NodeKind::Node("VarDec".to_string()));
    assert_eq!(inits[1].1, "variable");
    assert!(inits[2].0 == NodeKind::Node("Block".to_string()));
    assert_eq!(inits[2].1, "type");
}

#[test]
fn empty_definition_has_no_scopes_or_inits() {
    let def = LanguageDefinition { symbol_types: vec![], ast_rules: vec![] };
    assert!(def.get_scope_nodes().is_empty());
    assert!(def.get_symbol_init_nodes().is_empty());
    assert!(def.rule_with_name("Root").is_none());
}

#[test]
fn positions_order_by_line_then_column() {
    let a = Position::new(1, 5);
    let b = Position::new(2, 0);
    let c = Position::new(1, 6);
    assert!(a.before(&b));
    assert!(a.before(&c));
    assert!(!b.before(&a));
    assert!(!a.before(&a));
    let r = Range::new(Position::new(1, 0), Position::new(3, 0));
    assert!(r.strictly_contains(&Position::new(2, 4)));
    assert!(!r.strictly_contains(&Position::new(1, 0)));
    assert!(!r.strictly_contains(&Position::new(3, 0)));
}

fn span(a: u32, b: u32) -> Range {
    Range::new(Position::new(0, a), Position::new(0, b))
}

fn cst_node(kind: &str, field: Option<&str>, a: u32, b: u32, children: Vec<usize>) -> CstNode {
    CstNode {
        kind: kind.to_string(),
        field: field.map(|f| f.to_string()),
        range: span(a, b),
        text: String::new(),
        children,
    }
}

// 0 root: [1 decl, 4 decl]; 1 decl: [2 type(field type), 3 id(field name)];
// 4 decl: [5 type, 6 id(field name)]
fn sample_cst() -> Cst {
    Cst {
        nodes: vec![
            cst_node("source_file", None, 0, 40, vec![1, 4]),
            cst_node("decl", None, 0, 10, vec![2, 3]),
            cst_node("type", Some("type"), 0, 3, vec![]),
            cst_node("identifier", Some("name"), 4, 5, vec![]),
            cst_node("decl", None, 11, 20, vec![5, 6]),
            cst_node("type", None, 11, 14, vec![]),
            cst_node("identifier", Some("name"), 15, 16, vec![]),
        ],
        root: 0,
    }
}

#[test]
fn kind_query_matches_immediate_children() {
    let cst = sample_cst();
    let q = TreesitterNodeQuery::Kind("decl".to_string());
    assert_eq!(run_query(&cst, 0, &q), vec![1, 4]);
    let q = TreesitterNodeQuery::Kind("identifier".to_string());
    assert_eq!(run_query(&cst, 0, &q), Vec::<usize>::new());
}

#[test]
fn field_query_matches_by_field_name() {
    let cst = sample_cst();
    let q = TreesitterNodeQuery::Field("type".to_string());
    assert_eq!(run_query(&cst, 1, &q), vec![2]);
    assert_eq!(run_query(&cst, 4, &q), Vec::<usize>::new());
}

#[test]
fn path_query_composes_steps() {
    let cst = sample_cst();
    let q = TreesitterNodeQuery::Path(vec![
        TreesitterNodeQuery::Kind("decl".to_string()),
        TreesitterNodeQuery::Field("name".to_string()),
    ]);
    assert_eq!(run_query(&cst, 0, &q), vec![3, 6]);
    let nested = TreesitterNodeQuery::Path(vec![
        TreesitterNodeQuery::Path(vec![TreesitterNodeQuery::Kind("decl".to_string())]),
        TreesitterNodeQuery::Kind("type".to_string()),
    ]);
    assert_eq!(run_query(&cst, 0, &nested), vec![2, 5]);
}

#[test]
fn empty_path_matches_nothing() {
    let cst = sample_cst();
    let q = TreesitterNodeQuery::Path(vec![]);
    assert_eq!(run_query(&cst, 0, &q), Vec::<usize>::new());
}

#[test]
fn child_rule_shapes_are_plain_data() {
    let c = Child {
        query: TreesitterNodeQuery::Kind("type".to_string()),
        rule: DirectOrRule::Direct(NodeKind::Type),
        symbol_usage: false,
    };
    let m = Multiplicity::Maybe(c);
    match m {
        Multiplicity::Maybe(c) => assert!(!c.symbol_usage),
        _ => panic!("wrong multiplicity"),
    }
}
