use vstd::prelude::*;

use crate::brainstorm::{GraphNode, GraphSynapse, GraphXml, PortDef};
use crate::expr::{char_seqs, collect_syms, Expr, ExprView};
use crate::graph_xml::{strings_view, NodeView, XmlView};
use crate::text::{
    chars_eq, chars_of, decimal, decimal_chars, lemma_str_lt_irrefl, lemma_str_lt_total,
    lemma_str_lt_trans, push_all, slice_chars, str_is, str_lt, str_lt_chars, string_of,
    strictly_sorted,
};

verus! {

// ============================================================
// What graph.xml is made from: the graph's nodes and synapses
// ============================================================

/// A node of the nebula graph as graph.xml sees it: its id, its formula
/// (and the formula's display text), whether it is dynamic, and the symbol
/// it is solved for.
pub struct OutlineNode {
    pub id: usize,
    pub formula: Expr,
    pub formula_text: String,
    pub is_dynamic: bool,
    pub solve_target: Option<String>,
}

/// A synapse: from a symbol of one node to a symbol of another.
pub struct OutlineEdge {
    pub from_node: usize,
    pub from_symbol: String,
    pub to_node: usize,
    pub to_symbol: String,
}

/// The nodes and synapses of a nebula graph.
pub struct GraphOutline {
    pub nodes: Vec<OutlineNode>,
    pub edges: Vec<OutlineEdge>,
}

pub struct OutlineNodeView {
    pub id: usize,
    pub formula: ExprView,
    pub formula_text: Seq<char>,
    pub is_dynamic: bool,
    pub solve_target: Option<Seq<char>>,
}

pub struct EdgeView {
    pub from_node: usize,
    pub from_symbol: Seq<char>,
    pub to_node: usize,
    pub to_symbol: Seq<char>,
}

impl OutlineNode {
    pub open spec fn view(&self) -> OutlineNodeView {
        OutlineNodeView {
            id: self.id,
            formula: self.formula.view(),
            formula_text: self.formula_text@,
            is_dynamic: self.is_dynamic,
            solve_target: match self.solve_target {
                Some(t) => Some(t@),
                None => None,
            },
        }
    }
}

impl OutlineEdge {
    pub open spec fn view(&self) -> EdgeView {
        EdgeView {
            from_node: self.from_node,
            from_symbol: self.from_symbol@,
            to_node: self.to_node,
            to_symbol: self.to_symbol@,
        }
    }
}

pub open spec fn edges_view(e: Seq<OutlineEdge>) -> Seq<EdgeView> {
    Seq::new(e.len(), |i: int| e[i].view())
}

/// The symbols of node `id` that some synapse feeds.
pub open spec fn wired_in(edges: Seq<EdgeView>, id: usize) -> Set<Seq<char>> {
    Set::new(
        |s: Seq<char>|
            exists|k: int|
                0 <= k < edges.len() && #[trigger] edges[k].to_node == id && edges[k].to_symbol
                    == s,
    )
}

/// The symbols of node `id` that some synapse reads.
pub open spec fn wired_out(edges: Seq<EdgeView>, id: usize) -> Set<Seq<char>> {
    Set::new(
        |s: Seq<char>|
            exists|k: int|
                0 <= k < edges.len() && #[trigger] edges[k].from_node == id && edges[k].from_symbol
                    == s,
    )
}

/// The formula's symbols that no synapse touches.
pub open spec fn free_symbols(n: OutlineNodeView, edges: Seq<EdgeView>) -> Set<Seq<char>> {
    Set::new(
        |s: Seq<char>|
            collect_syms(n.formula).contains(s) && !wired_in(edges, n.id).contains(s)
                && !wired_out(edges, n.id).contains(s),
    )
}

/// The symbol an equation is solved for (empty when none is set).
pub open spec fn target_of(n: OutlineNodeView) -> Seq<char> {
    match n.solve_target {
        Some(t) => t,
        None => seq![],
    }
}

/// The input ports of a node: its fed symbols; then its free symbols, all
/// of them for an expression, all but the solved-for one for an equation,
/// none for a number.
pub open spec fn port_inputs(n: OutlineNodeView, edges: Seq<EdgeView>) -> Set<Seq<char>> {
    let free = free_symbols(n, edges);
    match n.formula {
        ExprView::Eq(_, _) => wired_in(edges, n.id).union(
            Set::new(|s: Seq<char>| free.contains(s) && s != target_of(n)),
        ),
        ExprView::Number(_) => wired_in(edges, n.id),
        _ => wired_in(edges, n.id).union(free),
    }
}

/// The output ports of a node: its read symbols, and for an equation the
/// solved-for symbol where it is free.
pub open spec fn port_outputs(n: OutlineNodeView, edges: Seq<EdgeView>) -> Set<Seq<char>> {
    let free = free_symbols(n, edges);
    match n.formula {
        ExprView::Eq(_, _) => wired_out(edges, n.id).union(
            Set::new(|s: Seq<char>| free.contains(s) && s == target_of(n)),
        ),
        _ => wired_out(edges, n.id),
    }
}

/// `s` lists the set `set` in increasing order.
pub open spec fn lists_sorted(s: Seq<Seq<char>>, set: Set<Seq<char>>) -> bool {
    &&& strictly_sorted(s)
    &&& forall|x: Seq<char>| #[trigger] s.contains(x) <==> set.contains(x)
}

/// `n<id>`
pub open spec fn node_name(id: usize) -> Seq<char> {
    "n"@ + decimal(id as nat)
}

/// `n<id>.<symbol>`
pub open spec fn port_name(id: usize, sym: Seq<char>) -> Seq<char> {
    node_name(id) + "."@ + sym
}

/// The node of graph.xml for a graph node: `n<id>`, `dynamic` or
/// `formula`, the formula's text, and its ports (see `port_inputs` and
/// `port_outputs`; a number with no output port gets `output`).
pub open spec fn xml_node_ok(nv: NodeView, n: OutlineNodeView, edges: Seq<EdgeView>) -> bool {
    &&& nv.id == node_name(n.id)
    &&& nv.node_type == if n.is_dynamic {
        "dynamic"@
    } else {
        "formula"@
    }
    &&& nv.formula == n.formula_text
    &&& lists_sorted(nv.inputs, port_inputs(n, edges))
    &&& if n.formula is Number && port_outputs(n, edges).is_empty() {
        nv.outputs == seq!["output"@]
    } else {
        lists_sorted(nv.outputs, port_outputs(n, edges))
    }
}

// ============================================================
// Sorted sets of texts
// ============================================================

fn contains_chars(v: &Vec<Vec<char>>, x: &[char]) -> (r: bool)
    ensures
        r == char_seqs(v@).contains(x@),
{
    let ghost s = char_seqs(v@);
    let mut i: usize = 0;
    while i < v.len()
        invariant
            i <= v@.len(),
            s == char_seqs(v@),
            forall|j: int| 0 <= j < i ==> s[j] != x@,
        decreases v@.len() - i,
    {
        if chars_eq(v[i].as_slice(), x) {
            assert(s[i as int] == x@);
            return true;
        }
        i = i + 1;
    }
    false
}

/// Adds `x` to a strictly sorted list, keeping it strictly sorted.
fn insert_unique(v: &mut Vec<Vec<char>>, x: &[char])
    requires
        strictly_sorted(char_seqs(old(v)@)),
    ensures
        strictly_sorted(char_seqs(final(v)@)),
        forall|y: Seq<char>| #[trigger] char_seqs(final(v)@).contains(y) <==> (char_seqs(
            old(v)@,
        ).contains(y) || y == x@),
{
    let ghost s = char_seqs(v@);
    let mut k: usize = 0;
    while k < v.len() && str_lt_chars(v[k].as_slice(), x)
        invariant
            k <= v@.len(),
            s == char_seqs(v@),
            forall|j: int| 0 <= j < k ==> str_lt(#[trigger] s[j], x@),
        decreases v@.len() - k,
    {
        k = k + 1;
    }
    if k < v.len() && chars_eq(v[k].as_slice(), x) {
        assert(s[k as int] == x@);
        return ;
    }
    let c = slice_chars(x, 0, x.len());
    assert(c@ =~= x@);
    v.insert(k, c);
    proof {
        let t = char_seqs(v@);
        assert(t =~= s.insert(k as int, x@));
        if k < s.len() {
            assert(!str_lt(s[k as int], x@));
            assert(s[k as int] != x@);
            lemma_str_lt_total(s[k as int], x@);
        }
        assert forall|i: int, j: int| 0 <= i < j < t.len() implies str_lt(
            #[trigger] t[i],
            #[trigger] t[j],
        ) by {
            if j < k {
                assert(t[i] == s[i] && t[j] == s[j]);
            } else if j == k {
                assert(t[j] == x@ && t[i] == s[i]);
            } else if i < k {
                assert(t[i] == s[i] && t[j] == s[j - 1]);
                if k < s.len() {
                    if j - 1 > k {
                        assert(str_lt(s[k as int], s[j - 1]));
                        lemma_str_lt_trans(x@, s[k as int], s[j - 1]);
                    }
                    lemma_str_lt_trans(s[i], x@, s[j - 1]);
                }
            } else if i == k {
                assert(t[i] == x@ && t[j] == s[j - 1]);
                if j - 1 > k {
                    assert(str_lt(s[k as int], s[j - 1]));
                    lemma_str_lt_trans(x@, s[k as int], s[j - 1]);
                }
            } else {
                assert(t[i] == s[i - 1] && t[j] == s[j - 1]);
            }
        }
        assert forall|y: Seq<char>| #[trigger] t.contains(y) <==> (s.contains(y) || y == x@) by {
            if t.contains(y) {
                let q = choose|q: int| 0 <= q < t.len() && t[q] == y;
                if q < k {
                    assert(s[q] == y);
                } else if q > k {
                    assert(s[q - 1] == y);
                }
            }
            if s.contains(y) {
                let q = choose|q: int| 0 <= q < s.len() && s[q] == y;
                if q < k {
                    assert(t[q] == y);
                } else {
                    assert(t[q + 1] == y);
                }
            }
            if y == x@ {
                assert(t[k as int] == y);
            }
        }
    }
}

fn copy_strings(v: &Vec<Vec<char>>) -> (r: Vec<String>)
    ensures
        strings_view(r@) == char_seqs(v@),
{
    let mut r: Vec<String> = Vec::new();
    let mut i: usize = 0;
    while i < v.len()
        invariant
            i <= v@.len(),
            strings_view(r@) == char_seqs(v@).take(i as int),
        decreases v@.len() - i,
    {
        let ghost r0 = strings_view(r@);
        r.push(string_of(v[i].as_slice()));
        assert(strings_view(r@) =~= r0.push(v@[i as int]@));
        assert(char_seqs(v@).take(i + 1) =~= char_seqs(v@).take(i as int).push(v@[i as int]@));
        i = i + 1;
    }
    assert(char_seqs(v@).take(i as int) =~= char_seqs(v@));
    r
}

fn name_of(id: usize) -> (r: Vec<char>)
    ensures
        r@ == node_name(id),
{
    let mut v: Vec<char> = Vec::new();
    v.push('n');
    let d = decimal_chars(id as u64);
    push_all(&mut v, d.as_slice());
    proof {
        reveal_strlit("n");
        assert(v@ =~= node_name(id));
    }
    v
}

fn port_name_of(id: usize, sym: &str) -> (r: String)
    ensures
        r@ == port_name(id, sym@),
{
    let mut v = name_of(id);
    v.push('.');
    let s = chars_of(sym);
    push_all(&mut v, s.as_slice());
    proof {
        reveal_strlit(".");
        assert(v@ =~= port_name(id, sym@));
    }
    string_of(v.as_slice())
}

/// The ports of one node, from the synapses and its formula.
fn node_ports(n: &OutlineNode, edges: &Vec<OutlineEdge>) -> (r: (Vec<Vec<char>>, Vec<Vec<char>>))
    ensures
        lists_sorted(char_seqs(r.0@), port_inputs(n.view(), edges_view(edges@))),
        lists_sorted(char_seqs(r.1@), port_outputs(n.view(), edges_view(edges@))),
{
    let ghost nv = n.view();
    let ghost ev = edges_view(edges@);
    let mut ins: Vec<Vec<char>> = Vec::new();
    let mut outs: Vec<Vec<char>> = Vec::new();
    let mut k: usize = 0;
    while k < edges.len()
        invariant
            k <= edges@.len(),
            ev == edges_view(edges@),
            strictly_sorted(char_seqs(ins@)),
            strictly_sorted(char_seqs(outs@)),
            forall|x: Seq<char>| #[trigger] char_seqs(ins@).contains(x) <==> wired_in(ev.take(k as int), n.id).contains(x),
            forall|x: Seq<char>| #[trigger] char_seqs(outs@).contains(x) <==> wired_out(ev.take(k as int), n.id).contains(x),
        decreases edges@.len() - k,
    {
        let e = &edges[k];
        let ghost tk = ev.take(k as int);
        let ghost tk1 = ev.take(k + 1);
        assert(tk1[k as int] == e.view());
        if e.to_node == n.id {
            let s = chars_of(e.to_symbol.as_str());
            insert_unique(&mut ins, s.as_slice());
        }
        if e.from_node == n.id {
            let s = chars_of(e.from_symbol.as_str());
            insert_unique(&mut outs, s.as_slice());
        }
        proof {
            assert forall|x: Seq<char>| #[trigger] wired_in(tk1, n.id).contains(x) <==> (wired_in(tk, n.id).contains(x) || (e.to_node == n.id && x == e.to_symbol@)) by {
                if wired_in(tk1, n.id).contains(x) {
                    let q = choose|q: int| 0 <= q < tk1.len() && #[trigger] tk1[q].to_node == n.id && tk1[q].to_symbol == x;
                    if q < k {
                        assert(tk[q] == tk1[q]);
                        assert(wired_in(tk, n.id).contains(x));
                    }
                }
                if wired_in(tk, n.id).contains(x) {
                    let q = choose|q: int| 0 <= q < tk.len() && #[trigger] tk[q].to_node == n.id && tk[q].to_symbol == x;
                    assert(tk1[q] == tk[q]);
                    assert(tk1[q].to_node == n.id);
                }
                if e.to_node == n.id && x == e.to_symbol@ {
                    assert(tk1[k as int].to_node == n.id);
                }
            }
            assert forall|x: Seq<char>| #[trigger] wired_out(tk1, n.id).contains(x) <==> (wired_out(tk, n.id).contains(x) || (e.from_node == n.id && x == e.from_symbol@)) by {
                if wired_out(tk1, n.id).contains(x) {
                    let q = choose|q: int| 0 <= q < tk1.len() && #[trigger] tk1[q].from_node == n.id && tk1[q].from_symbol == x;
                    if q < k {
                        assert(tk[q] == tk1[q]);
                        assert(wired_out(tk, n.id).contains(x));
                    }
                }
                if wired_out(tk, n.id).contains(x) {
                    let q = choose|q: int| 0 <= q < tk.len() && #[trigger] tk[q].from_node == n.id && tk[q].from_symbol == x;
                    assert(tk1[q] == tk[q]);
                    assert(tk1[q].from_node == n.id);
                }
                if e.from_node == n.id && x == e.from_symbol@ {
                    assert(tk1[k as int].from_node == n.id);
                }
            }
        }
        k = k + 1;
    }
    assert(ev.take(k as int) =~= ev);
    // the formula's symbols that no synapse touches
    let mut syms: Vec<Vec<char>> = Vec::new();
    n.formula.collect_symbols(&mut syms);
    assert(char_seqs(syms@) =~= collect_syms(nv.formula));
    let ghost win = char_seqs(ins@);
    let ghost wout = char_seqs(outs@);
    let mut free: Vec<Vec<char>> = Vec::new();
    let mut i: usize = 0;
    while i < syms.len()
        invariant
            i <= syms@.len(),
            win == char_seqs(ins@),
            wout == char_seqs(outs@),
            forall|x: Seq<char>| #[trigger] char_seqs(free@).contains(x) <==> (char_seqs(syms@).take(i as int).contains(x) && !win.contains(x) && !wout.contains(x)),
        decreases syms@.len() - i,
    {
        let ghost f0 = char_seqs(free@);
        let ghost t0 = char_seqs(syms@).take(i as int);
        let ghost t1 = char_seqs(syms@).take(i + 1);
        let ghost y = syms@[i as int]@;
        assert(t1 =~= t0.push(y));
        let in_ins = contains_chars(&ins, syms[i].as_slice());
        let in_outs = contains_chars(&outs, syms[i].as_slice());
        if !in_ins && !in_outs {
            let c = slice_chars(syms[i].as_slice(), 0, syms[i].len());
            assert(c@ =~= y);
            free.push(c);
            assert(char_seqs(free@) =~= f0.push(y));
        }
        proof {
            assert forall|x: Seq<char>| #[trigger] char_seqs(free@).contains(x) <==> (t1.contains(x) && !win.contains(x) && !wout.contains(x)) by {
                assert(f0.contains(x) <==> (t0.contains(x) && !win.contains(x) && !wout.contains(x)));
                assert(t1.contains(x) <==> (t0.contains(x) || x == y)) by {
                    if t1.contains(x) {
                        let q = choose|q: int| 0 <= q < t1.len() && t1[q] == x;
                        if q < i {
                            assert(t0[q] == x);
                        }
                    }
                    if t0.contains(x) {
                        let q = choose|q: int| 0 <= q < t0.len() && t0[q] == x;
                        assert(t1[q] == x);
                    }
                    if x == y {
                        assert(t1[i as int] == x);
                    }
                }
                if !in_ins && !in_outs {
                    let fr = char_seqs(free@);
                    assert(fr.contains(x) <==> (f0.contains(x) || x == y)) by {
                        if fr.contains(x) {
                            let q = choose|q: int| 0 <= q < fr.len() && fr[q] == x;
                            if q < f0.len() {
                                assert(f0[q] == x);
                            }
                        }
                        if f0.contains(x) {
                            let q = choose|q: int| 0 <= q < f0.len() && f0[q] == x;
                            assert(fr[q] == x);
                        }
                        if x == y {
                            assert(fr[f0.len() as int] == x);
                        }
                    }
                }
            }
        }
        i = i + 1;
    }
    assert(char_seqs(syms@).take(i as int) =~= char_seqs(syms@));
    let ghost fr = char_seqs(free@);
    assert forall|x: Seq<char>| fr.contains(x) <==> #[trigger] free_symbols(nv, ev).contains(x) by {}
    // place the free symbols by the formula's kind
    match &n.formula {
        Expr::Eq(_, _) => {
            let target: Vec<char> = match &n.solve_target {
                Some(t) => chars_of(t.as_str()),
                None => Vec::new(),
            };
            assert(target@ == target_of(nv));
            let mut j: usize = 0;
            while j < free.len()
                invariant
                    j <= free@.len(),
                    fr == char_seqs(free@),
                    target@ == target_of(nv),
                    strictly_sorted(char_seqs(ins@)),
                    strictly_sorted(char_seqs(outs@)),
                    forall|x: Seq<char>| #[trigger] char_seqs(ins@).contains(x) <==> (win.contains(x) || (fr.take(j as int).contains(x) && x != target@)),
                    forall|x: Seq<char>| #[trigger] char_seqs(outs@).contains(x) <==> (wout.contains(x) || (fr.take(j as int).contains(x) && x == target@)),
                decreases free@.len() - j,
            {
                let ghost t0 = fr.take(j as int);
                let ghost t1 = fr.take(j + 1);
                assert(t1 =~= t0.push(free@[j as int]@));
                if chars_eq(free[j].as_slice(), target.as_slice()) {
                    insert_unique(&mut outs, free[j].as_slice());
                } else {
                    insert_unique(&mut ins, free[j].as_slice());
                }
                proof {
                    assert forall|x: Seq<char>| t1.contains(x) <==> (t0.contains(x) || x == free@[j as int]@) by {
                        if t1.contains(x) {
                            let q = choose|q: int| 0 <= q < t1.len() && t1[q] == x;
                            if q < j {
                                assert(t0[q] == x);
                            }
                        }
                        if t0.contains(x) {
                            let q = choose|q: int| 0 <= q < t0.len() && t0[q] == x;
                            assert(t1[q] == x);
                        }
                        if x == free@[j as int]@ {
                            assert(t1[j as int] == x);
                        }
                    }
                }
                j = j + 1;
            }
            assert(fr.take(j as int) =~= fr);
        },
        Expr::Number(_) => {},
        _ => {
            let mut j: usize = 0;
            while j < free.len()
                invariant
                    j <= free@.len(),
                    fr == char_seqs(free@),
                    strictly_sorted(char_seqs(ins@)),
                    forall|x: Seq<char>| #[trigger] char_seqs(ins@).contains(x) <==> (win.contains(x) || fr.take(j as int).contains(x)),
                decreases free@.len() - j,
            {
                let ghost t0 = fr.take(j as int);
                let ghost t1 = fr.take(j + 1);
                assert(t1 =~= t0.push(free@[j as int]@));
                insert_unique(&mut ins, free[j].as_slice());
                proof {
                    assert forall|x: Seq<char>| t1.contains(x) <==> (t0.contains(x) || x == free@[j as int]@) by {
                        if t1.contains(x) {
                            let q = choose|q: int| 0 <= q < t1.len() && t1[q] == x;
                            if q < j {
                                assert(t0[q] == x);
                            }
                        }
                        if t0.contains(x) {
                            let q = choose|q: int| 0 <= q < t0.len() && t0[q] == x;
                            assert(t1[q] == x);
                        }
                        if x == free@[j as int]@ {
                            assert(t1[j as int] == x);
                        }
                    }
                }
                j = j + 1;
            }
            assert(fr.take(j as int) =~= fr);
        },
    }
    (ins, outs)
}

impl GraphXml {
    /// graph.xml for a nebula graph: one node per graph node, with ports
    /// inferred from the synapses and the formula (see `xml_node_ok`), and
    /// one synapse `n<from>.<symbol>` to `n<to>.<symbol>` per graph edge.
    pub fn from_graph(graph: &GraphOutline) -> (r: GraphXml)
        ensures
            r.view().name == "SymNebula"@,
            r.view().version == "1.0"@,
            r.view().nodes.len() == graph.nodes@.len(),
            forall|k: int|
                0 <= k < graph.nodes@.len() ==> xml_node_ok(
                    #[trigger] r.view().nodes[k],
                    graph.nodes@[k].view(),
                    edges_view(graph.edges@),
                ),
            r.view().synapses.len() == graph.edges@.len(),
            forall|k: int|
                0 <= k < graph.edges@.len() ==> #[trigger] r.view().synapses[k] == (
                    port_name(graph.edges@[k].from_node, graph.edges@[k].from_symbol@),
                    port_name(graph.edges@[k].to_node, graph.edges@[k].to_symbol@),
                ),
    {
        let ghost ev = edges_view(graph.edges@);
        let mut nodes: Vec<GraphNode> = Vec::new();
        let mut i: usize = 0;
        while i < graph.nodes.len()
            invariant
                i <= graph.nodes@.len(),
                ev == edges_view(graph.edges@),
                nodes@.len() == i,
                forall|k: int|
                    0 <= k < i ==> xml_node_ok(
                        #[trigger] nodes@[k].view(),
                        graph.nodes@[k].view(),
                        ev,
                    ),
            decreases graph.nodes@.len() - i,
        {
            let n = &graph.nodes[i];
            let (ins, outs0) = node_ports(n, &graph.edges);
            let mut outs = outs0;
            let is_number = match &n.formula {
                Expr::Number(_) => true,
                _ => false,
            };
            if is_number && outs.len() == 0 {
                outs.push(chars_of("output"));
                proof {
                    assert(port_outputs(n.view(), ev) =~= Set::<Seq<char>>::empty()) by {
                        assert forall|x: Seq<char>| !port_outputs(n.view(), ev).contains(x) by {
                            assert(!char_seqs(outs0@).contains(x));
                        }
                    }
                    assert(char_seqs(outs@) =~= seq!["output"@]);
                }
            } else {
                proof {
                    if is_number {
                        let x = char_seqs(outs@)[0];
                        assert(char_seqs(outs@).contains(x));
                        assert(port_outputs(n.view(), ev).contains(x));
                    }
                }
            }
            let id = string_of(name_of(n.id).as_slice());
            let node_type = if n.is_dynamic {
                String::from_str("dynamic")
            } else {
                String::from_str("formula")
            };
            let g = GraphNode {
                id: id,
                node_type: node_type,
                formula: n.formula_text.clone(),
                ports: PortDef { inputs: copy_strings(&ins), outputs: copy_strings(&outs) },
            };
            proof {
                reveal_strlit("dynamic");
                reveal_strlit("formula");
                assert(g.view().inputs == char_seqs(ins@));
                assert(g.view().outputs == char_seqs(outs@));
            }
            nodes.push(g);
            i = i + 1;
        }
        let mut synapses: Vec<GraphSynapse> = Vec::new();
        let mut k: usize = 0;
        while k < graph.edges.len()
            invariant
                k <= graph.edges@.len(),
                synapses@.len() == k,
                forall|q: int|
                    0 <= q < k ==> #[trigger] synapses@[q].view() == (
                        port_name(graph.edges@[q].from_node, graph.edges@[q].from_symbol@),
                        port_name(graph.edges@[q].to_node, graph.edges@[q].to_symbol@),
                    ),
            decreases graph.edges@.len() - k,
        {
            let e = &graph.edges[k];
            synapses.push(
                GraphSynapse {
                    from: port_name_of(e.from_node, e.from_symbol.as_str()),
                    to: port_name_of(e.to_node, e.to_symbol.as_str()),
                },
            );
            k = k + 1;
        }
        let r = GraphXml {
            name: String::from_str("SymNebula"),
            version: String::from_str("1.0"),
            nodes,
            synapses,
        };
        proof {
            reveal_strlit("SymNebula");
            reveal_strlit("1.0");
            assert forall|q: int| 0 <= q < graph.nodes@.len() implies xml_node_ok(
                #[trigger] r.view().nodes[q],
                graph.nodes@[q].view(),
                ev,
            ) by {
                assert(r.view().nodes[q] == r.nodes@[q].view());
            }
        }
        r
    }
}

} // verus!
