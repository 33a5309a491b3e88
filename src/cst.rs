use vstd::prelude::*;
use crate::language_def::TreesitterNodeQuery;
use crate::position::Range;

verus! {

/// One node of a concrete syntax tree, as the parser gives it: its syntactic
/// kind, the grammar field it sits under in its parent, its range, the source
/// text it covers, and the indices of its children in source order.
#[derive(Debug, Clone)]
pub struct CstNode {
    pub kind: String,
    pub field: Option<String>,
    pub range: Range,
    pub text: String,
    pub children: Vec<usize>,
}

/// A concrete syntax tree held in one arena; children stand after parents.
#[derive(Debug, Clone)]
pub struct Cst {
    pub nodes: Vec<CstNode>,
    pub root: usize,
}

impl Cst {
    pub open spec fn wf(&self) -> bool {
        &&& self.root < self.nodes@.len()
        &&& forall|i: int, j: int|
            0 <= i < self.nodes@.len() && 0 <= j < self.nodes@[i].children@.len() ==> i < #[trigger] self.nodes@[i].children@[j]
                < self.nodes@.len()
    }
}

impl Cst {
    /// Whether the arena is well formed: the root and every child index lie
    /// inside it, and every child stands after its parent.
    pub fn is_wf(&self) -> (r: bool)
        ensures
            r == self.wf(),
    {
        if self.root >= self.nodes.len() {
            return false;
        }
        let mut i: usize = 0;
        while i < self.nodes.len()
            invariant
                i <= self.nodes@.len(),
                forall|a: int, b: int| 0 <= a < i && 0 <= b < self.nodes@[a].children@.len() ==> a < #[trigger] self.nodes@[a].children@[b] < self.nodes@.len(),
            decreases self.nodes.len() - i,
        {
            let kids = &self.nodes[i].children;
            let mut j: usize = 0;
            while j < kids.len()
                invariant
                    i < self.nodes@.len(),
                    kids@ == self.nodes@[i as int].children@,
                    j <= kids@.len(),
                    forall|b: int| 0 <= b < j ==> i < #[trigger] kids@[b] < self.nodes@.len(),
                decreases kids.len() - j,
            {
                if !(i < kids[j] && kids[j] < self.nodes.len()) {
                    return false;
                }
                j = j + 1;
            }
            i = i + 1;
        }
        true
    }
}

/// Whether child `c` is selected by a kind test (`by_field` false) or a
/// field test (`by_field` true) against `name`.
pub open spec fn selects(nodes: Seq<CstNode>, c: int, name: Seq<char>, by_field: bool) -> bool {
    if by_field {
        match nodes[c].field {
            Some(f) => f@ == name,
            None => false,
        }
    } else {
        nodes[c].kind@ == name
    }
}

/// The children of node `n` that the test selects, in order.
pub open spec fn selected_children(nodes: Seq<CstNode>, n: int, name: Seq<char>, by_field: bool) -> Seq<int> {
    if 0 <= n < nodes.len() {
        nodes[n].children@.map_values(|c: usize| c as int).filter(|c: int| 0 <= c < nodes.len() && selects(nodes, c, name, by_field))
    } else {
        Seq::empty()
    }
}

/// One test applied to every node of `ns`, the matches concatenated in order.
pub open spec fn step(nodes: Seq<CstNode>, ns: Seq<int>, name: Seq<char>, by_field: bool) -> Seq<int>
    decreases ns.len(),
{
    if ns.len() == 0 {
        Seq::empty()
    } else {
        step(nodes, ns.drop_last(), name, by_field) + selected_children(nodes, ns.last(), name, by_field)
    }
}

/// Runs `steps[i..]` in turn from the nodes `ns`. A `Path` runs its own
/// queries in turn; an empty `Path` matches nothing.
pub open spec fn run_steps(nodes: Seq<CstNode>, ns: Seq<int>, steps: Seq<TreesitterNodeQuery>, i: int) -> Seq<int>
    decreases steps, steps.len() - i,
{
    if i < 0 || i >= steps.len() {
        ns
    } else {
        let next = match steps[i] {
            TreesitterNodeQuery::Kind(k) => step(nodes, ns, k@, false),
            TreesitterNodeQuery::Field(f) => step(nodes, ns, f@, true),
            TreesitterNodeQuery::Path(v) => if v@.len() == 0 {
                Seq::empty()
            } else {
                run_steps(nodes, ns, v@, 0)
            },
        };
        run_steps(nodes, next, steps, i + 1)
    }
}

/// The matches of query `q` run from node `n`.
pub open spec fn query_matches(nodes: Seq<CstNode>, n: int, q: TreesitterNodeQuery) -> Seq<int> {
    run_steps(nodes, seq![n], seq![q], 0)
}

pub open spec fn idx_view(v: Seq<usize>) -> Seq<int> {
    v.map_values(|x: usize| x as int)
}

fn selects_exec(cst: &Cst, c: usize, name: &String, by_field: bool) -> (r: bool)
    requires
        c < cst.nodes@.len(),
    ensures
        r == selects(cst.nodes@, c as int, name@, by_field),
{
    if by_field {
        match &cst.nodes[c].field {
            Some(f) => *f == *name,
            None => false,
        }
    } else {
        cst.nodes[c].kind == *name
    }
}

fn select_children(cst: &Cst, n: usize, name: &String, by_field: bool) -> (r: Vec<usize>)
    ensures
        idx_view(r@) == selected_children(cst.nodes@, n as int, name@, by_field),
{
    let ghost nodes = cst.nodes@;
    let mut r: Vec<usize> = Vec::new();
    if n >= cst.nodes.len() {
        assert(idx_view(r@) =~= Seq::<int>::empty());
        return r;
    }
    let kids = &cst.nodes[n].children;
    let ghost all = idx_view(kids@);
    let ghost pred = |c: int| 0 <= c < nodes.len() && selects(nodes, c, name@, by_field);
    let mut i: usize = 0;
    assert(idx_view(r@) =~= all.take(0).filter(pred)) by {
        reveal_with_fuel(Seq::filter, 1);
    }
    while i < kids.len()
        invariant
            nodes == cst.nodes@,
            n < nodes.len(),
            kids@ == nodes[n as int].children@,
            all == idx_view(kids@),
            pred == (|c: int| 0 <= c < nodes.len() && selects(nodes, c, name@, by_field)),
            i <= kids.len(),
            idx_view(r@) == all.take(i as int).filter(pred),
        decreases kids.len() - i,
    {
        let c = kids[i];
        let ghost before = r@;
        assert(all.take(i + 1).drop_last() =~= all.take(i as int));
        assert(all.take(i + 1).last() == c as int);
        assert(all.take(i + 1).filter(pred) == (if pred(c as int) { all.take(i as int).filter(pred).push(c as int) } else { all.take(i as int).filter(pred) })) by {
            reveal_with_fuel(Seq::filter, 1);
        }
        if c < cst.nodes.len() && selects_exec(cst, c, name, by_field) {
            r.push(c);
            assert(idx_view(r@) =~= idx_view(before).push(c as int));
        }
        i = i + 1;
    }
    assert(all.take(i as int) =~= all);
    r
}

fn step_exec(cst: &Cst, ns: &Vec<usize>, name: &String, by_field: bool) -> (r: Vec<usize>)
    ensures
        idx_view(r@) == step(cst.nodes@, idx_view(ns@), name@, by_field),
{
    let mut r: Vec<usize> = Vec::new();
    let mut j: usize = 0;
    assert(idx_view(ns@).take(0) =~= Seq::<int>::empty());
    assert(idx_view(r@) =~= Seq::<int>::empty());
    while j < ns.len()
        invariant
            j <= ns.len(),
            idx_view(r@) == step(cst.nodes@, idx_view(ns@).take(j as int), name@, by_field),
        decreases ns.len() - j,
    {
        let ghost before = r@;
        let mut sel = select_children(cst, ns[j], name, by_field);
        let ghost sv = sel@;
        r.append(&mut sel);
        assert(idx_view(ns@).take(j + 1).drop_last() =~= idx_view(ns@).take(j as int));
        assert(idx_view(r@) =~= idx_view(before) + idx_view(sv));
        j = j + 1;
    }
    assert(idx_view(ns@).take(j as int) =~= idx_view(ns@));
    r
}

fn run_steps_exec(cst: &Cst, ns: Vec<usize>, steps: &Vec<TreesitterNodeQuery>, i: usize) -> (r: Vec<usize>)
    requires
        i <= steps@.len(),
    ensures
        idx_view(r@) == run_steps(cst.nodes@, idx_view(ns@), steps@, i as int),
    decreases steps@, steps@.len() - i,
{
    if i >= steps.len() {
        return ns;
    }
    let next = match &steps[i] {
        TreesitterNodeQuery::Kind(k) => step_exec(cst, &ns, k, false),
        TreesitterNodeQuery::Field(f) => step_exec(cst, &ns, f, true),
        TreesitterNodeQuery::Path(v) => {
            if v.len() == 0 {
                let e: Vec<usize> = Vec::new();
                assert(idx_view(e@) =~= Seq::<int>::empty());
                e
            } else {
                run_steps_exec(cst, ns, v, 0)
            }
        },
    };
    run_steps_exec(cst, next, steps, i + 1)
}

/// The matches of `query` run from node `n`, in order.
pub fn run_query(cst: &Cst, n: usize, query: &TreesitterNodeQuery) -> (r: Vec<usize>)
    ensures
        idx_view(r@) == query_matches(cst.nodes@, n as int, *query),
{
    let mut ns: Vec<usize> = Vec::new();
    ns.push(n);
    assert(idx_view(ns@) =~= seq![n as int]);
    match query {
        TreesitterNodeQuery::Kind(k) => {
            let r = step_exec(cst, &ns, k, false);
            proof { lemma_single_step(cst.nodes@, seq![n as int], *query, step(cst.nodes@, seq![n as int], k@, false)); }
            r
        },
        TreesitterNodeQuery::Field(f) => {
            let r = step_exec(cst, &ns, f, true);
            proof { lemma_single_step(cst.nodes@, seq![n as int], *query, step(cst.nodes@, seq![n as int], f@, true)); }
            r
        },
        TreesitterNodeQuery::Path(v) => {
            let r = if v.len() == 0 {
                let e: Vec<usize> = Vec::new();
                assert(idx_view(e@) =~= Seq::<int>::empty());
                e
            } else {
                run_steps_exec(cst, ns, v, 0)
            };
            proof { lemma_single_step(cst.nodes@, seq![n as int], *query, idx_view(r@)); }
            r
        },
    }
}

proof fn lemma_single_step(nodes: Seq<CstNode>, ns: Seq<int>, q: TreesitterNodeQuery, next: Seq<int>)
    requires
        next == match q {
            TreesitterNodeQuery::Kind(k) => step(nodes, ns, k@, false),
            TreesitterNodeQuery::Field(f) => step(nodes, ns, f@, true),
            TreesitterNodeQuery::Path(v) => if v@.len() == 0 {
                Seq::empty()
            } else {
                run_steps(nodes, ns, v@, 0)
            },
        },
    ensures
        run_steps(nodes, ns, seq![q], 0) == next,
{
    assert(seq![q][0] == q);
    assert(run_steps(nodes, next, seq![q], 1) == next);
}

} // verus!
