use p4_lsp::ast::{Ast, Node, NodeKind};
use p4_lsp::language_def::{LanguageDefinition, Rule, Symbol};
use p4_lsp::position::{Position, Range};
use p4_lsp::st_manager::{SymbolTableEdit, SymbolTableEditor, SymbolTableManager, SymbolTableQuery};
use p4_lsp::symbol_table::{SymbolTable, Symbols};

fn at(line: u32, character: u32) -> Position {
    Position::new(line, character)
}

fn range(a: (u32, u32), b: (u32, u32)) -> Range {
    Range::new(at(a.0, a.1), at(b.0, b.1))
}

fn node(kind: &str, r: Range, content: &str, children: Vec<usize>) -> Node {
    let kind = match kind {
        "Root" => NodeKind::Root,
        "Name" => NodeKind::Name,
        "Type" => NodeKind::Type,
        other => NodeKind::Node(other.to_string()),
    };
    Node { kind, range: r, content: content.to_string(), usage: false, children }
}

fn rule(name: &str, symbol: Symbol, is_scope: bool) -> Rule {
    Rule { name: name.to_string(), symbol, is_scope, children: vec![] }
}

fn language() -> LanguageDefinition {
    LanguageDefinition {
        symbol_types: vec![],
        ast_rules: vec![
            rule("Block", Symbol::NotSymbol, true),
            rule("VarDec", Symbol::Init("variable".to_string()), false),
            rule("ConstDec", Symbol::Init("constant".to_string()), false),
            rule("TypeDec", Symbol::Init("type".to_string()), false),
            rule("MacroDec", Symbol::Init("macro".to_string()), false),
        ],
    }
}

fn nested_ast() -> Ast {
    let nodes = vec![
        node("Root", range((0, 0), (20, 0)), "", vec![1, 3, 11, 14, 16]),
        node("ConstDec", range((1, 0), (1, 10)), "const c1", vec![2]),
        node("Name", range((1, 6), (1, 8)), "c1", vec![]),
        node("Block", range((2, 0), (8, 0)), "{", vec![4, 6, 8]),
        node("VarDec", range((3, 0), (3, 10)), "var a", vec![5]),
        node("Name", range((3, 4), (3, 5)), "a", vec![]),
        node("VarDec", range((5, 0), (5, 10)), "var b", vec![7]),
        node("Name", range((5, 4), (5, 5)), "b", vec![]),
        node("Block", range((6, 0), (7, 0)), "{", vec![9]),
        node("VarDec", range((6, 2), (6, 8)), "var d", vec![10]),
        node("Name", range((6, 6), (6, 7)), "d", vec![]),
        node("Block", range((9, 0), (12, 0)), "{", vec![12]),
        node("VarDec", range((10, 0), (10, 5)), "var s", vec![13]),
        node("Name", range((10, 4), (10, 5)), "s", vec![]),
        node("ConstDec", range((13, 0), (13, 10)), "const c2", vec![15]),
        node("Name", range((13, 6), (13, 8)), "c2", vec![]),
        node("VarDec", range((14, 0), (14, 5)), "var a", vec![17]),
        node("Name", range((14, 4), (14, 5)), "a", vec![]),
    ];
    Ast { nodes, root_id: 0, diagnostics: vec![] }
}

fn names(v: &Symbols) -> (Vec<String>, Vec<String>, Vec<String>, Vec<String>) {
    let f = |s: &Vec<p4_lsp::symbol_table::Symbol>| s.iter().map(|x| x.get_name()).collect::<Vec<String>>();
    (f(&v.types), f(&v.constants), f(&v.variables), f(&v.functions))
}

#[test]
fn top_level_symbols_in_declaration_order() {
    let table = SymbolTable::new(&nested_ast(), &language());
    let top = table.get_top_level_symbols().unwrap();
    let (types, constants, variables, functions) = names(&top);
    assert!(types.is_empty() && functions.is_empty());
    assert_eq!(constants, vec!["c1", "c2"]);
    assert_eq!(variables, vec!["a"]);
}

#[test]
fn flat_file_outline_is_every_declaration() {
    let nodes = vec![
        node("Root", range((0, 0), (5, 0)), "", vec![1, 3, 5]),
        node("ConstDec", range((0, 0), (0, 9)), "", vec![2]),
        node("Name", range((0, 6), (0, 7)), "x", vec![]),
        node("TypeDec", range((1, 0), (1, 9)), "", vec![4]),
        node("Name", range((1, 6), (1, 7)), "T", vec![]),
        node("ConstDec", range((2, 0), (2, 9)), "", vec![6]),
        node("Name", range((2, 6), (2, 7)), "y", vec![]),
    ];
    let ast = Ast { nodes, root_id: 0, diagnostics: vec![] };
    let table = SymbolTable::new(&ast, &language());
    let (types, constants, variables, _) = names(&table.get_top_level_symbols().unwrap());
    assert_eq!(constants, vec!["x", "y"]);
    assert_eq!(types, vec!["T"]);
    assert!(variables.is_empty());
    assert_eq!(table.scopes.len(), 1);
}

#[test]
fn block_declare_before_use() {
    let table = SymbolTable::new(&nested_ast(), &language());
    let visible = table.get_symbols_in_scope(at(4, 0)).unwrap();
    let (_, _, variables, _) = names(&visible);
    assert_eq!(variables, vec!["a", "a"]);
    assert_eq!(visible.variables[1].get_node_id(), 4);
    assert!(!variables.contains(&"b".to_string()));
}

#[test]
fn root_symbols_visible_in_nested_scopes() {
    let table = SymbolTable::new(&nested_ast(), &language());
    let visible = table.get_symbols_in_scope(at(4, 0)).unwrap();
    let (_, constants, _, _) = names(&visible);
    assert_eq!(constants, vec!["c1", "c2"]);
}

#[test]
fn sibling_scope_symbols_stay_out() {
    let table = SymbolTable::new(&nested_ast(), &language());
    for p in [at(2, 1), at(4, 0), at(6, 5), at(7, 9)] {
        let (_, _, variables, _) = names(&table.get_symbols_in_scope(p).unwrap());
        assert!(!variables.contains(&"s".to_string()));
    }
    let (_, _, variables, _) = names(&table.get_symbols_in_scope(at(11, 0)).unwrap());
    assert_eq!(variables, vec!["a", "s"]);
}

#[test]
fn nested_descent_filters_each_entered_scope() {
    let table = SymbolTable::new(&nested_ast(), &language());
    let (_, _, variables, _) = names(&table.get_symbols_in_scope(at(6, 5)).unwrap());
    assert_eq!(variables, vec!["a", "a", "b"]);
    let (_, _, variables, _) = names(&table.get_symbols_in_scope(at(6, 9)).unwrap());
    assert_eq!(variables, vec!["a", "a", "b", "d"]);
}

#[test]
fn scope_boundary_is_not_inside() {
    let table = SymbolTable::new(&nested_ast(), &language());
    let (_, _, variables, _) = names(&table.get_symbols_in_scope(at(2, 0)).unwrap());
    assert_eq!(variables, vec!["a"]);
}

#[test]
fn symbol_at_pos_prefers_nearest() {
    let table = SymbolTable::new(&nested_ast(), &language());
    let s = table.get_symbol_at_pos("a".to_string(), at(4, 0)).unwrap();
    assert_eq!(s.get_node_id(), 4);
    let s = table.get_symbol_at_pos("a".to_string(), at(15, 0)).unwrap();
    assert_eq!(s.get_node_id(), 16);
    let s = table.get_symbol_at_pos("c2".to_string(), at(0, 0)).unwrap();
    assert_eq!(s.get_node_id(), 14);
    assert!(table.get_symbol_at_pos("b".to_string(), at(4, 0)).is_none());
    assert!(table.get_symbol_at_pos("nothing".to_string(), at(4, 0)).is_none());
}

#[test]
fn symbol_at_pos_prefers_variables_over_constants() {
    let nodes = vec![
        node("Root", range((0, 0), (5, 0)), "", vec![1, 3]),
        node("ConstDec", range((0, 0), (0, 9)), "", vec![2]),
        node("Name", range((0, 6), (0, 7)), "x", vec![]),
        node("VarDec", range((1, 0), (1, 9)), "", vec![4]),
        node("Name", range((1, 6), (1, 7)), "x", vec![]),
    ];
    let ast = Ast { nodes, root_id: 0, diagnostics: vec![] };
    let table = SymbolTable::new(&ast, &language());
    assert_eq!(table.get_symbol_at_pos("x".to_string(), at(3, 0)).unwrap().get_node_id(), 3);
}

#[test]
fn unclassifiable_declarations_are_local_errors() {
    let nodes = vec![
        node("Root", range((0, 0), (5, 0)), "", vec![1, 2, 4]),
        node("VarDec", range((0, 0), (0, 9)), "var", vec![]),
        node("MacroDec", range((1, 0), (1, 9)), "", vec![3]),
        node("Name", range((1, 6), (1, 7)), "m", vec![]),
        node("VarDec", range((2, 0), (2, 9)), "", vec![5]),
        node("Name", range((2, 6), (2, 7)), "ok", vec![]),
    ];
    let ast = Ast { nodes, root_id: 0, diagnostics: vec![] };
    let table = SymbolTable::new(&ast, &language());
    let root = &table.scopes[table.root_id.unwrap()];
    assert_eq!(root.errors.len(), 2);
    assert_eq!(root.errors[0].node_id, 1);
    assert_eq!(root.errors[0].range, range((0, 0), (0, 9)));
    assert_eq!(root.errors[1].node_id, 2);
    let (_, _, variables, _) = names(&table.get_top_level_symbols().unwrap());
    assert_eq!(variables, vec!["ok"]);
}

#[test]
fn update_twice_gives_same_answers() {
    let ast = nested_ast();
    let def = language();
    let mut manager = SymbolTableManager::new(&ast, &def);
    manager.update(&ast);
    let first: Vec<_> = [at(0, 0), at(4, 0), at(6, 5), at(6, 9), at(11, 0)]
        .iter()
        .map(|p| names(&manager.get_symbols_at_pos(*p).unwrap()))
        .collect();
    manager.update(&ast);
    let second: Vec<_> = [at(0, 0), at(4, 0), at(6, 5), at(6, 9), at(11, 0)]
        .iter()
        .map(|p| names(&manager.get_symbols_at_pos(*p).unwrap()))
        .collect();
    assert_eq!(first, second);
}

#[test]
fn rename_edit_renames_declaration_only() {
    let ast = nested_ast();
    let def = language();
    let mut manager = SymbolTableManager::new(&ast, &def);
    manager.new_edit(SymbolTableEdit::Rename { symbol_id: 4, new_name: "z".to_string() });
    let (_, _, variables, _) = names(&manager.get_symbols_at_pos(at(4, 0)).unwrap());
    assert_eq!(variables, vec!["a", "z"]);
    assert_eq!(manager.get_symbol_at_pos("z".to_string(), at(4, 0)).unwrap().get_node_id(), 4);
    manager.update(&ast);
    let (_, _, variables, _) = names(&manager.get_symbols_at_pos(at(4, 0)).unwrap());
    assert_eq!(variables, vec!["a", "a"]);
}

#[test]
fn position_filter_and_add() {
    let table = SymbolTable::new(&nested_ast(), &language());
    let block = table.scopes.iter().find(|s| s.range == range((2, 0), (8, 0))).unwrap();
    let mut kept = block.symbols.duplicate();
    kept.position_filter(at(5, 10));
    let (_, _, variables, _) = names(&kept);
    assert_eq!(variables, vec!["a"]);
    let mut acc = Symbols::new();
    acc.add(block.symbols.duplicate(), at(9, 0));
    let (_, _, variables, _) = names(&acc);
    assert_eq!(variables, vec!["a", "b"]);
}

#[test]
fn table_without_root_answers_nothing() {
    let table = SymbolTable { scopes: vec![], root_id: None };
    assert!(table.get_top_level_symbols().is_none());
    assert!(table.get_symbols_in_scope(at(0, 0)).is_none());
    assert!(table.get_symbol_at_pos("a".to_string(), at(0, 0)).is_none());
}

#[test]
fn references_become_usages_of_their_declaration() {
    let mut reference = node("Ref", range((3, 0), (3, 2)), "c1", vec![]);
    reference.usage = true;
    let mut unknown = node("Ref", range((4, 0), (4, 2)), "zz", vec![]);
    unknown.usage = true;
    let mut early = node("Ref", range((0, 0), (0, 1)), "v", vec![]);
    early.usage = true;
    let mut inner = node("Ref", range((6, 1), (6, 2)), "v", vec![]);
    inner.usage = true;
    let nodes = vec![
        node("Root", range((0, 0), (9, 0)), "", vec![1, 3, 4, 5, 9]),
        node("ConstDec", range((1, 0), (1, 9)), "", vec![2]),
        node("Name", range((1, 6), (1, 8)), "c1", vec![]),
        reference,
        unknown,
        node("Block", range((5, 0), (8, 0)), "{", vec![6, 8]),
        node("VarDec", range((5, 1), (5, 9)), "", vec![7]),
        node("Name", range((5, 5), (5, 6)), "v", vec![]),
        inner,
        early,
    ];
    let ast = Ast { nodes, root_id: 0, diagnostics: vec![] };
    let table = SymbolTable::new(&ast, &language());
    let top = table.get_top_level_symbols().unwrap();
    assert_eq!(top.constants[0].get_usages(), vec![range((3, 0), (3, 2))]);
    let block = table.get_symbols_in_scope(at(7, 0)).unwrap();
    assert_eq!(block.variables.len(), 1);
    assert_eq!(block.variables[0].get_usages(), vec![range((6, 1), (6, 2))]);
}

#[test]
fn nearest_declaration_wins_over_category() {
    let mut use_in_block = node("Ref", range((3, 0), (3, 1)), "x", vec![]);
    use_in_block.usage = true;
    let nodes = vec![
        node("Root", range((0, 0), (9, 0)), "", vec![1, 3]),
        node("VarDec", range((0, 0), (0, 9)), "", vec![2]),
        node("Name", range((0, 4), (0, 5)), "x", vec![]),
        node("Block", range((1, 0), (5, 0)), "{", vec![4, 6]),
        node("ConstDec", range((2, 0), (2, 9)), "", vec![5]),
        node("Name", range((2, 6), (2, 7)), "x", vec![]),
        use_in_block,
    ];
    let ast = Ast { nodes, root_id: 0, diagnostics: vec![] };
    let table = SymbolTable::new(&ast, &language());
    assert!(table.is_wf());
    assert_eq!(table.get_symbol_at_pos("x".to_string(), at(3, 0)).unwrap().get_node_id(), 4);
    assert_eq!(table.get_symbol_at_pos("x".to_string(), at(1, 5)).unwrap().get_node_id(), 1);
    assert_eq!(table.get_symbol_at_pos("x".to_string(), at(6, 0)).unwrap().get_node_id(), 1);
    let inner = table.get_symbols_in_scope(at(4, 0)).unwrap();
    assert_eq!(inner.constants[0].get_usages(), vec![range((3, 0), (3, 1))]);
    assert!(inner.variables[0].get_usages().is_empty());
}

#[test]
fn build_adds_one_scope_per_scope_node() {
    let table = SymbolTable::new(&nested_ast(), &language());
    assert_eq!(table.scopes.len(), 4);
    assert_eq!(table.root_id, Some(3));
    assert!(table.is_wf());
}
