use vstd::prelude::*;
use crate::position::{pos_lt, strictly_inside, Position, Range};
use crate::symbol_table::{
    declared_before, first_inside, is_first_inside, is_category, visible_at, visible_below, ScopeTree, SymbolView,
};

verus! {

/// The scopes that the descent towards `p` enters below `tr`, outermost first.
pub open spec fn entered(tr: ScopeTree, p: Position) -> Seq<ScopeTree>
    decreases tr,
{
    match first_inside(tr.children, p) {
        Some(j) => if 0 <= j < tr.children.len() {
            seq![tr.children[j]] + entered(tr.children[j], p)
        } else {
            Seq::empty()
        },
        None => Seq::empty(),
    }
}

proof fn lemma_declared_before_contains(s: Seq<SymbolView>, p: Position, x: SymbolView)
    ensures
        declared_before(s, p).contains(x) <==> (s.contains(x) && pos_lt(x.def_position.end, p)),
{
    let pred = |y: SymbolView| pos_lt(y.def_position.end, p);
    if declared_before(s, p).contains(x) {
        s.lemma_filter_contains_rev(pred, x);
        let i = choose|i: int| 0 <= i < s.filter(pred).len() && s.filter(pred)[i] == x;
        s.lemma_filter_pred(pred, i);
    }
    if s.contains(x) && pos_lt(x.def_position.end, p) {
        let i = choose|i: int| 0 <= i < s.len() && s[i] == x;
        s.lemma_filter_contains(pred, i);
    }
}

proof fn lemma_below_from_entered(tr: ScopeTree, p: Position, k: int, x: SymbolView)
    requires
        visible_below(tr, p, k).contains(x),
    ensures
        exists|i: int| 0 <= i < entered(tr, p).len() && (#[trigger] entered(tr, p)[i]).symbols.cat(k).contains(x) && pos_lt(x.def_position.end, p),
    decreases tr,
{
    match first_inside(tr.children, p) {
        Some(j) => {
            if 0 <= j < tr.children.len() {
                let c = tr.children[j];
                let head = declared_before(c.symbols.cat(k), p);
                let rest = visible_below(c, p, k);
                let i = choose|i: int| 0 <= i < (head + rest).len() && (head + rest)[i] == x;
                if i < head.len() {
                    assert(head[i] == x);
                    lemma_declared_before_contains(c.symbols.cat(k), p, x);
                    assert(entered(tr, p)[0] == c);
                } else {
                    assert(rest[i - head.len()] == x);
                    lemma_below_from_entered(c, p, k, x);
                    let i2 = choose|i2: int| 0 <= i2 < entered(c, p).len() && (#[trigger] entered(c, p)[i2]).symbols.cat(k).contains(x) && pos_lt(x.def_position.end, p);
                    assert(entered(tr, p)[i2 + 1] == entered(c, p)[i2]);
                }
            }
        },
        None => {},
    }
}

proof fn lemma_entered_to_below(tr: ScopeTree, p: Position, k: int, i: int, x: SymbolView)
    requires
        0 <= i < entered(tr, p).len(),
        entered(tr, p)[i].symbols.cat(k).contains(x),
        pos_lt(x.def_position.end, p),
    ensures
        visible_below(tr, p, k).contains(x),
    decreases tr,
{
    match first_inside(tr.children, p) {
        Some(j) => {
            if 0 <= j < tr.children.len() {
                let c = tr.children[j];
                let head = declared_before(c.symbols.cat(k), p);
                let rest = visible_below(c, p, k);
                if i == 0 {
                    lemma_declared_before_contains(c.symbols.cat(k), p, x);
                    let a = choose|a: int| 0 <= a < head.len() && head[a] == x;
                    assert((head + rest)[a] == x);
                } else {
                    assert(entered(c, p)[i - 1] == entered(tr, p)[i]);
                    lemma_entered_to_below(c, p, k, i - 1, x);
                    let a = choose|a: int| 0 <= a < rest.len() && rest[a] == x;
                    assert((head + rest)[head.len() + a] == x);
                }
            }
        },
        None => {},
    }
}

/// Every root-level symbol is visible at every position, whether it is
/// declared before or after that position.
pub proof fn lemma_root_symbols_visible_everywhere(tr: ScopeTree, p: Position, k: int, x: SymbolView)
    requires
        is_category(k),
        tr.symbols.cat(k).contains(x),
    ensures
        visible_at(tr, p, k).contains(x),
{
    let a = choose|a: int| 0 <= a < tr.symbols.cat(k).len() && tr.symbols.cat(k)[a] == x;
    assert(visible_at(tr, p, k)[a] == x);
}

/// Nothing is visible at `p` but the root's symbols and the symbols, declared
/// before `p`, of the scopes entered on the way down to `p`: no scope off that
/// chain contributes.
pub proof fn lemma_visible_only_from_chain(tr: ScopeTree, p: Position, k: int, x: SymbolView)
    requires
        is_category(k),
        visible_at(tr, p, k).contains(x),
    ensures
        tr.symbols.cat(k).contains(x) || exists|i: int|
            0 <= i < entered(tr, p).len() && (#[trigger] entered(tr, p)[i]).symbols.cat(k).contains(x)
                && pos_lt(x.def_position.end, p),
{
    let root = tr.symbols.cat(k);
    let rest = visible_below(tr, p, k);
    let a = choose|a: int| 0 <= a < (root + rest).len() && (root + rest)[a] == x;
    if a < root.len() {
        assert(root[a] == x);
    } else {
        assert(rest[a - root.len()] == x);
        lemma_below_from_entered(tr, p, k, x);
    }
}

/// Declare-before-use inside a block: in a scope entered on the way to `p`,
/// a symbol declared before `p` is visible there and one declared at or
/// after `p` is not (unless the root itself holds it).
pub proof fn lemma_declare_before_use(tr: ScopeTree, p: Position, k: int, i: int, a: SymbolView, b: SymbolView)
    requires
        is_category(k),
        0 <= i < entered(tr, p).len(),
        entered(tr, p)[i].symbols.cat(k).contains(a),
        pos_lt(a.def_position.end, p),
        !pos_lt(b.def_position.end, p),
        !tr.symbols.cat(k).contains(b),
    ensures
        visible_at(tr, p, k).contains(a),
        !visible_at(tr, p, k).contains(b),
{
    lemma_entered_to_below(tr, p, k, i, a);
    let root = tr.symbols.cat(k);
    let rest = visible_below(tr, p, k);
    let m = choose|m: int| 0 <= m < rest.len() && rest[m] == a;
    assert((root + rest)[root.len() + m] == a);
    if visible_at(tr, p, k).contains(b) {
        lemma_visible_only_from_chain(tr, p, k, b);
    }
}

/// No position lies strictly inside both ranges.
pub open spec fn disjoint(r1: Range, r2: Range) -> bool {
    forall|p: Position| !(#[trigger] strictly_inside(r1, p) && strictly_inside(r2, p))
}

/// Sibling scopes never overlap, at any depth.
pub open spec fn siblings_disjoint(tr: ScopeTree) -> bool
    decreases tr,
{
    &&& forall|i: int, j: int| 0 <= i < j < tr.children.len() ==> disjoint(#[trigger] tr.children[i].range, #[trigger] tr.children[j].range)
    &&& forall|i: int| 0 <= i < tr.children.len() ==> siblings_disjoint(#[trigger] tr.children[i])
}

/// The scope reached from `tr` by taking child `path[0]`, then `path[1]`, ...
pub open spec fn at_path(tr: ScopeTree, path: Seq<int>) -> Option<ScopeTree>
    decreases path.len(),
{
    if path.len() == 0 {
        Some(tr)
    } else if 0 <= path[0] < tr.children.len() {
        at_path(tr.children[path[0]], path.drop_first())
    } else {
        None
    }
}

/// Every scope that `path` passes through below `tr` strictly contains `p`.
pub open spec fn path_holds(tr: ScopeTree, path: Seq<int>, p: Position) -> bool
    decreases path.len(),
{
    if path.len() == 0 {
        true
    } else {
        &&& 0 <= path[0] < tr.children.len()
        &&& strictly_inside(tr.children[path[0]].range, p)
        &&& path_holds(tr.children[path[0]], path.drop_first(), p)
    }
}

/// With non-overlapping siblings, a scope whose ancestors all hold `p` is
/// entered on the way down to `p`.
pub proof fn lemma_path_entered(tr: ScopeTree, path: Seq<int>, p: Position)
    requires
        siblings_disjoint(tr),
        path.len() >= 1,
        path_holds(tr, path, p),
    ensures
        entered(tr, p).len() >= path.len(),
        at_path(tr, path) == Some(entered(tr, p)[path.len() - 1]),
    decreases path.len(),
{
    let j = path[0];
    let c = tr.children[j];
    assert(is_first_inside(tr.children, p, j)) by {
        assert forall|i: int| 0 <= i < j implies !strictly_inside(#[trigger] tr.children[i].range, p) by {
            assert(disjoint(tr.children[i].range, tr.children[j].range));
        }
    }
    let f = choose|x: int| is_first_inside(tr.children, p, x);
    assert(f == j) by {
        if f < j {
            assert(disjoint(tr.children[f].range, tr.children[j].range));
        }
        if j < f {
            assert(!strictly_inside(tr.children[j].range, p));
        }
    }
    assert(entered(tr, p) == seq![c] + entered(c, p));
    if path.len() > 1 {
        lemma_path_entered(c, path.drop_first(), p);
        assert(entered(tr, p)[path.len() - 1] == entered(c, p)[path.len() - 2]);
    } else {
        assert(path.drop_first().len() == 0);
        assert(at_path(c, path.drop_first()) == Some(c));
        assert(entered(tr, p)[0] == c);
    }
    assert(at_path(tr, path) == at_path(c, path.drop_first()));
}

/// Declare-before-use in a block: when sibling scopes never overlap, and
/// `p` lies inside a block and in each of its enclosing scopes, a symbol of
/// the block declared before `p` is visible at `p`, and one declared at or
/// after `p` is not (unless the root itself holds it).
pub proof fn lemma_block_declare_before_use(tr: ScopeTree, path: Seq<int>, p: Position, k: int, a: SymbolView, b: SymbolView)
    requires
        is_category(k),
        siblings_disjoint(tr),
        path.len() >= 1,
        path_holds(tr, path, p),
        at_path(tr, path).unwrap().symbols.cat(k).contains(a),
        at_path(tr, path).unwrap().symbols.cat(k).contains(b),
        pos_lt(a.def_position.end, p),
        !pos_lt(b.def_position.end, p),
        !tr.symbols.cat(k).contains(b),
    ensures
        visible_at(tr, p, k).contains(a),
        !visible_at(tr, p, k).contains(b),
{
    lemma_path_entered(tr, path, p);
    lemma_declare_before_use(tr, p, k, path.len() - 1, a, b);
}

} // verus!
