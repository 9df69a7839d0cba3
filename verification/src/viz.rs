use vstd::prelude::*;

use crate::state::NodeState;
use crate::graph_xml::strings_view;
use crate::text::{chars_of, decimal, lemma_insert_sorted, sort_strs, str_lt, str_lt_chars, decimal_chars, push_all, push_str, slice_chars, string_of, trim, trim_chars};

verus! {

// ============================================================
// Redundant outer parentheses
// ============================================================

/// The nesting depth after `s`: one up for each `(`, one down for each `)`.
pub open spec fn paren_depth(s: Seq<char>) -> int
    decreases s.len(),
{
    if s.len() == 0 {
        0
    } else {
        paren_depth(s.drop_last()) + if s.last() == '(' {
            1int
        } else if s.last() == ')' {
            -1int
        } else {
            0int
        }
    }
}

/// No prefix of `s` closes more parentheses than it opens.
pub open spec fn never_below_zero(s: Seq<char>) -> bool {
    forall|k: int| 1 <= k <= s.len() ==> paren_depth(#[trigger] s.take(k)) >= 0
}

/// The text inside the first and last characters.
pub open spec fn inner(t: Seq<char>) -> Seq<char> {
    t.subrange(1, t.len() - 1)
}

/// `t` is one pair of parentheses around a balanced text.
pub open spec fn wrapped(t: Seq<char>) -> bool {
    &&& t.len() >= 2
    &&& t[0] == '('
    &&& t.last() == ')'
    &&& never_below_zero(inner(t))
    &&& paren_depth(inner(t)) == 0
}

pub proof fn lemma_trim_len(s: Seq<char>)
    ensures
        trim(s).len() <= s.len(),
{
    lemma_trim_start_len(s);
    lemma_trim_end_len(crate::text::trim_start(s));
}

pub proof fn lemma_trim_start_len(s: Seq<char>)
    ensures
        crate::text::trim_start(s).len() <= s.len(),
    decreases s.len(),
{
    if s.len() > 0 {
        lemma_trim_start_len(s.drop_first());
    }
}

pub proof fn lemma_trim_end_len(s: Seq<char>)
    ensures
        crate::text::trim_end(s).len() <= s.len(),
    decreases s.len(),
{
    if s.len() > 0 {
        lemma_trim_end_len(s.drop_last());
    }
}

/// `s` trimmed, with each redundant pair of outer parentheses taken off
/// (and the text trimmed again inside it).
pub open spec fn strip_parens(s: Seq<char>) -> Seq<char>
    decreases s.len(),
{
    let t = trim(s);
    if wrapped(t) {
        proof {
            lemma_trim_len(s);
        }
        strip_parens(inner(t))
    } else {
        t
    }
}

/// Stripping redundant outer parentheses twice strips them once: what
/// comes out is trimmed and not wrapped in one pair.
pub proof fn lemma_strip_idempotent(s: Seq<char>)
    ensures
        strip_parens(strip_parens(s)) == strip_parens(s),
    decreases s.len(),
{
    let t = trim(s);
    lemma_trim_len(s);
    if wrapped(t) {
        lemma_strip_idempotent(inner(t));
    } else {
        crate::text::lemma_trim_idem(s);
        assert(trim(t) == t);
    }
}

fn strip_chars(s: &[char]) -> (r: Vec<char>)
    requires
        s@.len() <= i32::MAX,
    ensures
        r@ == strip_parens(s@),
    decreases s@.len(),
{
    let t = trim_chars(s);
    proof {
        lemma_trim_len(s@);
    }
    let n = t.len();
    if n >= 2 && t[0] == '(' && t[n - 1] == ')' {
        let inside = slice_chars(t.as_slice(), 1, n - 1);
        assert(inside@ == inner(t@));
        let mut depth: i32 = 0;
        let mut i: usize = 0;
        while i < inside.len()
            invariant
                i <= inside@.len(),
                inside@.len() < i32::MAX,
                inside@ == inner(t@),
                t@ == trim(s@),
                t@.len() >= 2 && t@[0] == '(' && t@.last() == ')',
                depth == paren_depth(inside@.take(i as int)),
                0 <= depth <= i,
                forall|k: int| 1 <= k <= i ==> paren_depth(#[trigger] inside@.take(k)) >= 0,
            decreases inside@.len() - i,
        {
            let c = inside[i];
            assert(inside@.take(i + 1).drop_last() =~= inside@.take(i as int));
            if c == '(' {
                depth = depth + 1;
            } else if c == ')' {
                depth = depth - 1;
            }
            if depth < 0 {
                assert(paren_depth(inside@.take(i + 1)) < 0);
                assert(!never_below_zero(inside@));
                assert(!wrapped(t@));
                assert(strip_parens(s@) == t@);
                return t;
            }
            i = i + 1;
        }
        assert(inside@.take(i as int) =~= inside@);
        if depth == 0 {
            strip_chars(inside.as_slice())
        } else {
            t
        }
    } else {
        t
    }
}

/// The expression text with its redundant outer parentheses removed:
/// trimmed, and unwrapped as long as one pair encloses all of it.
pub fn strip_outer_parens(s: &str) -> (r: String)
    requires
        s@.len() <= i32::MAX,
    ensures
        r@ == strip_parens(s@),
{
    let v = chars_of(s);
    let r = strip_chars(v.as_slice());
    string_of(r.as_slice())
}

// ============================================================
// Status marks
// ============================================================

/// The one-character mark of a state in the tick table.
pub open spec fn status_mark(s: NodeState) -> Seq<char> {
    match s {
        NodeState::Green => "G"@,
        NodeState::Yellow => "Y"@,
        NodeState::Purple => "P"@,
        NodeState::Gray => "-"@,
    }
}

/// The index of the first Green in `s`.
pub open spec fn first_green(s: Seq<NodeState>) -> Option<int>
    decreases s.len(),
{
    if s.len() == 0 {
        None
    } else if s[0] == NodeState::Green {
        Some(0)
    } else {
        match first_green(s.drop_first()) {
            Some(i) => Some(i + 1),
            None => None,
        }
    }
}

proof fn lemma_first_green(s: Seq<NodeState>)
    ensures
        match first_green(s) {
            Some(i) => 0 <= i < s.len() && s[i] == NodeState::Green && forall|j: int|
                0 <= j < i ==> s[j] != NodeState::Green,
            None => forall|j: int| 0 <= j < s.len() ==> s[j] != NodeState::Green,
        },
    decreases s.len(),
{
    if s.len() > 0 {
        let t = s.drop_first();
        lemma_first_green(t);
        assert forall|j: int| 0 < j < s.len() implies s[j] == t[j - 1] by {}
    }
}

/// One output symbol of a node and its state at each tick.
#[verifier::ext_equal]
pub struct VarView {
    pub symbol: Seq<char>,
    pub statuses: Seq<NodeState>,
}

/// One node of the table: its id, label, whether it is dynamic, its symbols.
#[verifier::ext_equal]
pub struct HistView {
    pub id: usize,
    pub label: Seq<char>,
    pub is_dynamic: bool,
    pub vars: Seq<VarView>,
}

/// The table: its nodes, the ticks recorded, and the order of node ids.
#[verifier::ext_equal]
pub struct DisplayView {
    pub nodes: Seq<HistView>,
    pub ticks: Seq<usize>,
    pub order: Seq<usize>,
}

pub open spec fn empty_display() -> DisplayView {
    DisplayView { nodes: seq![], ticks: seq![], order: seq![] }
}

/// A tick table: per node, per output symbol, the state at each tick.
pub struct TickDisplay {
    nodes: Vec<NodeHistory>,
    ticks: Vec<usize>,
    nid_order: Vec<usize>,
}

/// The states of one output symbol of a node, tick by tick.
struct VarHistory {
    symbol: Vec<char>,
    statuses: Vec<NodeState>,
}

/// The history of one node.
struct NodeHistory {
    id: usize,
    label: Vec<char>,
    is_dynamic: bool,
    vars: Vec<VarHistory>,
}

impl VarHistory {
    spec fn view(&self) -> VarView {
        VarView { symbol: self.symbol@, statuses: self.statuses@ }
    }
}

impl NodeHistory {
    spec fn view(&self) -> HistView {
        HistView {
            id: self.id,
            label: self.label@,
            is_dynamic: self.is_dynamic,
            vars: Seq::new(self.vars@.len(), |i: int| self.vars@[i].view()),
        }
    }
}

impl View for TickDisplay {
    type V = DisplayView;

    closed spec fn view(&self) -> DisplayView {
        DisplayView {
            nodes: Seq::new(self.nodes@.len(), |i: int| self.nodes@[i].view()),
            ticks: self.ticks@,
            order: self.nid_order@,
        }
    }
}

impl TickDisplay {
    /// An empty table.
    pub fn new() -> (r: Self)
        ensures
            r@ == empty_display(),
    {
        TickDisplay { nodes: Vec::new(), ticks: Vec::new(), nid_order: Vec::new() }
    }

    /// The mark of a state: `G`, `Y`, `P`, or `-` for Gray.
    pub fn status_char(state: &NodeState) -> (r: &'static str)
        ensures
            r@ == status_mark(*state),
    {
        match state {
            NodeState::Green => "G",
            NodeState::Yellow => "Y",
            NodeState::Purple => "P",
            NodeState::Gray => "-",
        }
    }

    /// The index of the first Green state, if any.
    pub fn first_green_idx(statuses: &[NodeState]) -> (r: Option<usize>)
        ensures
            match r {
                Some(i) => first_green(statuses@) == Some(i as int),
                None => first_green(statuses@) is None,
            },
            match r {
                Some(i) => i < statuses@.len() && statuses@[i as int] == NodeState::Green
                    && forall|j: int| 0 <= j < i ==> statuses@[j] != NodeState::Green,
                None => forall|j: int| 0 <= j < statuses@.len() ==> statuses@[j] != NodeState::Green,
            },
    {
        proof {
            lemma_first_green(statuses@);
        }
        let mut i: usize = 0;
        while i < statuses.len()
            invariant
                i <= statuses@.len(),
                forall|j: int| 0 <= j < i ==> statuses@[j] != NodeState::Green,
            decreases statuses@.len() - i,
        {
            if statuses[i] == NodeState::Green {
                proof {
                    lemma_first_green(statuses@);
                    match first_green(statuses@) {
                        Some(j) => {
                            if j < i {
                                assert(statuses@[j] != NodeState::Green);
                            } else if j > i {
                                assert(statuses@[i as int] != NodeState::Green);
                            }
                        },
                        None => {
                            assert(statuses@[i as int] != NodeState::Green);
                        },
                    }
                }
                return Some(i);
            }
            i = i + 1;
        }
        None
    }
}


// ============================================================
// Recording a tick
// ============================================================

/// What the table reads of one node at a tick: its id, its formula as
/// compact text, whether it is dynamic, and its state.
pub struct NodeSnapshot {
    pub id: usize,
    pub formula: String,
    pub is_dynamic: bool,
    pub state: NodeState,
}

/// A node snapshot as plain values.
#[verifier::ext_equal]
pub struct SnapView {
    pub id: usize,
    pub formula: Seq<char>,
    pub is_dynamic: bool,
    pub state: NodeState,
}

impl NodeSnapshot {
    pub open spec fn view(&self) -> SnapView {
        SnapView {
            id: self.id,
            formula: self.formula@,
            is_dynamic: self.is_dynamic,
            state: self.state,
        }
    }
}

pub open spec fn snaps_view(s: Seq<NodeSnapshot>) -> Seq<SnapView> {
    Seq::new(s.len(), |i: int| s[i].view())
}

pub open spec fn keys_view(s: Seq<(usize, String)>) -> Seq<(usize, Seq<char>)> {
    Seq::new(s.len(), |i: int| (s[i].0, s[i].1@))
}

/// The index of the first element of `s` that `p` holds of.
pub open spec fn first_where<T>(s: Seq<T>, p: spec_fn(T) -> bool) -> Option<int>
    decreases s.len(),
{
    if s.len() == 0 {
        None
    } else if p(s[0]) {
        Some(0)
    } else {
        match first_where(s.drop_first(), p) {
            Some(i) => Some(i + 1),
            None => None,
        }
    }
}

pub proof fn lemma_first_where<T>(s: Seq<T>, p: spec_fn(T) -> bool)
    ensures
        match first_where(s, p) {
            Some(i) => 0 <= i < s.len() && p(s[i]) && forall|j: int| 0 <= j < i ==> !p(s[j]),
            None => forall|j: int| 0 <= j < s.len() ==> !p(s[j]),
        },
    decreases s.len(),
{
    if s.len() > 0 {
        let t = s.drop_first();
        lemma_first_where(t, p);
        assert forall|j: int| 0 < j < s.len() implies s[j] == t[j - 1] by {}
    }
}

proof fn lemma_first_where_at<T>(s: Seq<T>, p: spec_fn(T) -> bool, i: int)
    requires
        0 <= i <= s.len(),
        forall|j: int| 0 <= j < i ==> !p(#[trigger] s[j]),
        i == s.len() || p(s[i]),
    ensures
        first_where(s, p) == if i == s.len() {
            None
        } else {
            Some(i)
        },
{
    lemma_first_where(s, p);
    match first_where(s, p) {
        Some(k) => {
            if k < i {
                assert(!p(s[k]));
            } else if k > i {
                assert(!p(s[i]));
            }
        },
        None => {
            if i < s.len() {
                assert(!p(s[i]));
            }
        },
    }
}

/// The symbols that `keys` lists for node `nid`, in order.
pub open spec fn syms_of(keys: Seq<(usize, Seq<char>)>, nid: usize) -> Seq<Seq<char>>
    decreases keys.len(),
{
    if keys.len() == 0 {
        seq![]
    } else if keys.last().0 == nid {
        syms_of(keys.drop_last(), nid).push(keys.last().1)
    } else {
        syms_of(keys.drop_last(), nid)
    }
}

/// The output symbols of node `nid`: its symbols in `keys`, sorted, or
/// `output` alone where it has none.
pub open spec fn node_outputs(keys: Seq<(usize, Seq<char>)>, nid: usize) -> Seq<Seq<char>> {
    let s = sort_strs(syms_of(keys, nid));
    if s.len() == 0 {
        seq!["output"@]
    } else {
        s
    }
}

pub open spec fn char_vecs(v: Seq<Vec<char>>) -> Seq<Seq<char>> {
    Seq::new(v.len(), |i: int| v[i]@)
}

fn node_outputs_exec(outputs: &[(usize, String)], nid: usize) -> (r: Vec<Vec<char>>)
    ensures
        char_vecs(r@) == node_outputs(keys_view(outputs@), nid),
{
    let ghost keys = keys_view(outputs@);
    let mut r: Vec<Vec<char>> = Vec::new();
    let mut i: usize = 0;
    while i < outputs.len()
        invariant
            i <= outputs@.len(),
            keys == keys_view(outputs@),
            char_vecs(r@) == sort_strs(syms_of(keys.take(i as int), nid)),
        decreases outputs@.len() - i,
    {
        proof {
            assert(keys.take(i + 1).drop_last() =~= keys.take(i as int));
            assert(keys.take(i + 1).last() == keys[i as int]);
        }
        if outputs[i].0 == nid {
            let sym = chars_of(outputs[i].1.as_str());
            let ghost s0 = char_vecs(r@);
            let mut k: usize = 0;
            while k < r.len() && !str_lt_chars(sym.as_slice(), r[k].as_slice())
                invariant
                    k <= r@.len(),
                    s0 == char_vecs(r@),
                    forall|j: int| 0 <= j < k ==> !str_lt(sym@, #[trigger] s0[j]),
                decreases r@.len() - k,
            {
                k = k + 1;
            }
            proof {
                lemma_insert_sorted(s0, sym@, k as int);
                let s1 = syms_of(keys.take(i as int), nid);
                assert(syms_of(keys.take(i + 1), nid) == s1.push(sym@));
                assert(s1.push(sym@).drop_last() =~= s1);
            }
            r.insert(k, sym);
            proof {
                assert(char_vecs(r@) =~= s0.insert(k as int, r@[k as int]@));
            }
        }
        i = i + 1;
    }
    assert(keys.take(i as int) =~= keys);
    if r.len() == 0 {
        r.push(chars_of("output"));
        assert(char_vecs(r@) =~= seq!["output"@]);
    }
    r
}


pub open spec fn snap_is(nid: usize) -> spec_fn(SnapView) -> bool {
    |s: SnapView| s.id == nid
}

pub open spec fn hist_is(nid: usize) -> spec_fn(HistView) -> bool {
    |h: HistView| h.id == nid
}

pub open spec fn var_is(sym: Seq<char>) -> spec_fn(VarView) -> bool {
    |v: VarView| v.symbol == sym
}

/// The label of a node: `n<id>:<formula>`.
pub open spec fn node_label(id: usize, formula: Seq<char>) -> Seq<char> {
    "n"@ + decimal(id as nat) + ":"@ + formula
}

pub open spec fn gray_pad(n: nat) -> Seq<NodeState> {
    Seq::new(n, |j: int| NodeState::Gray)
}

/// `state` added to the history of `sym`; a symbol seen for the first time
/// starts Gray for each tick before this one (of `nticks` so far).
pub open spec fn add_status(vars: Seq<VarView>, sym: Seq<char>, state: NodeState, nticks: nat) -> Seq<
    VarView,
> {
    match first_where(vars, var_is(sym)) {
        Some(i) => vars.update(i, VarView { statuses: vars[i].statuses.push(state), ..vars[i] }),
        None => vars.push(
            VarView { symbol: sym, statuses: gray_pad((nticks - 1) as nat).push(state) },
        ),
    }
}

pub open spec fn add_statuses(
    vars: Seq<VarView>,
    syms: Seq<Seq<char>>,
    state: NodeState,
    nticks: nat,
) -> Seq<VarView>
    decreases syms.len(),
{
    if syms.len() == 0 {
        vars
    } else {
        add_status(add_statuses(vars, syms.drop_last(), state, nticks), syms.last(), state, nticks)
    }
}

/// One node of a tick recorded: where the snapshots show node `nid`, its
/// history (made on first sight) gets its state for each output symbol.
pub open spec fn record_node(
    d: DisplayView,
    nid: usize,
    snaps: Seq<SnapView>,
    keys: Seq<(usize, Seq<char>)>,
) -> DisplayView {
    match first_where(snaps, snap_is(nid)) {
        None => d,
        Some(k) => {
            let node = snaps[k];
            let nodes1 = match first_where(d.nodes, hist_is(nid)) {
                Some(j) => d.nodes,
                None => d.nodes.push(
                    HistView {
                        id: nid,
                        label: node_label(nid, node.formula),
                        is_dynamic: node.is_dynamic,
                        vars: seq![],
                    },
                ),
            };
            let idx = match first_where(d.nodes, hist_is(nid)) {
                Some(j) => j,
                None => d.nodes.len() as int,
            };
            let h = nodes1[idx];
            DisplayView {
                nodes: nodes1.update(
                    idx,
                    HistView {
                        vars: add_statuses(h.vars, node_outputs(keys, nid), node.state, d.ticks.len()),
                        ..h
                    },
                ),
                ..d
            }
        },
    }
}

pub open spec fn record_nodes(
    d: DisplayView,
    order: Seq<usize>,
    snaps: Seq<SnapView>,
    keys: Seq<(usize, Seq<char>)>,
) -> DisplayView
    decreases order.len(),
{
    if order.len() == 0 {
        d
    } else {
        record_node(record_nodes(d, order.drop_last(), snaps, keys), order.last(), snaps, keys)
    }
}

/// A tick recorded: the tick appended; the node order taken from the first
/// snapshots; then each node, in that order.
pub open spec fn record_tick(
    d: DisplayView,
    tick: usize,
    snaps: Seq<SnapView>,
    keys: Seq<(usize, Seq<char>)>,
) -> DisplayView {
    let d1 = DisplayView { ticks: d.ticks.push(tick), ..d };
    let d2 = if d1.order.len() == 0 {
        DisplayView { order: snaps.map_values(|s: SnapView| s.id), ..d1 }
    } else {
        d1
    };
    record_nodes(d2, d2.order, snaps, keys)
}

proof fn lemma_record_nodes_frame(
    d: DisplayView,
    order: Seq<usize>,
    snaps: Seq<SnapView>,
    keys: Seq<(usize, Seq<char>)>,
)
    ensures
        record_nodes(d, order, snaps, keys).order == d.order,
        record_nodes(d, order, snaps, keys).ticks == d.ticks,
    decreases order.len(),
{
    if order.len() > 0 {
        lemma_record_nodes_frame(d, order.drop_last(), snaps, keys);
    }
}

/// Recording a tick appends it to the ticks, and the node order, once set
/// by the first snapshots, never changes.
pub proof fn lemma_record_keeps_order(
    d: DisplayView,
    tick: usize,
    snaps: Seq<SnapView>,
    keys: Seq<(usize, Seq<char>)>,
)
    ensures
        record_tick(d, tick, snaps, keys).ticks == d.ticks.push(tick),
        d.order.len() > 0 ==> record_tick(d, tick, snaps, keys).order == d.order,
        d.order.len() == 0 ==> record_tick(d, tick, snaps, keys).order == snaps.map_values(
            |s: SnapView| s.id,
        ),
{
    let d1 = DisplayView { ticks: d.ticks.push(tick), ..d };
    let d2 = if d1.order.len() == 0 {
        DisplayView { order: snaps.map_values(|s: SnapView| s.id), ..d1 }
    } else {
        d1
    };
    lemma_record_nodes_frame(d2, d2.order, snaps, keys);
}

spec fn vars_view(v: Seq<VarHistory>) -> Seq<VarView> {
    Seq::new(v.len(), |i: int| v[i].view())
}

spec fn hists_view(v: Seq<NodeHistory>) -> Seq<HistView> {
    Seq::new(v.len(), |i: int| v[i].view())
}

fn gray_statuses(n: usize) -> (r: Vec<NodeState>)
    ensures
        r@ == gray_pad(n as nat),
{
    let mut r: Vec<NodeState> = Vec::new();
    let mut i: usize = 0;
    while i < n
        invariant
            i <= n,
            r@ == gray_pad(i as nat),
        decreases n - i,
    {
        r.push(NodeState::Gray);
        i = i + 1;
        assert(r@ =~= gray_pad(i as nat));
    }
    r
}

fn add_status_exec(vars: &mut Vec<VarHistory>, sym: &[char], state: NodeState, nticks: usize)
    requires
        nticks >= 1,
    ensures
        vars_view(final(vars)@) == add_status(vars_view(old(vars)@), sym@, state, nticks as nat),
{
    let ghost v0 = vars_view(vars@);
    let mut j: usize = 0;
    while j < vars.len() && !crate::text::chars_eq(vars[j].symbol.as_slice(), sym)
        invariant
            j <= vars@.len(),
            v0 == vars_view(vars@),
            forall|k: int| 0 <= k < j ==> !(var_is(sym@))(#[trigger] v0[k]),
        decreases vars@.len() - j,
    {
        j = j + 1;
    }
    proof {
        lemma_first_where_at(v0, var_is(sym@), j as int);
    }
    if j < vars.len() {
        let mut vh = vars.remove(j);
        vh.statuses.push(state);
        vars.insert(j, vh);
        proof {
            assert(vars_view(vars@) =~= v0.update(
                j as int,
                VarView { statuses: v0[j as int].statuses.push(state), ..v0[j as int] },
            ));
        }
    } else {
        let mut statuses = gray_statuses(nticks - 1);
        statuses.push(state);
        let symbol = slice_chars(sym, 0, sym.len());
        assert(symbol@ =~= sym@);
        vars.push(VarHistory { symbol: symbol, statuses: statuses });
        proof {
            assert(vars_view(vars@) =~= v0.push(
                VarView { symbol: sym@, statuses: gray_pad((nticks - 1) as nat).push(state) },
            ));
        }
    }
}

impl NodeHistory {
    fn add_statuses_exec(&mut self, syms: &Vec<Vec<char>>, state: NodeState, nticks: usize)
        requires
            nticks >= 1,
        ensures
            final(self).id == old(self).id,
            final(self).label@ == old(self).label@,
            final(self).is_dynamic == old(self).is_dynamic,
            vars_view(final(self).vars@) == add_statuses(
                vars_view(old(self).vars@),
                char_vecs(syms@),
                state,
                nticks as nat,
            ),
    {
        let ghost v0 = vars_view(self.vars@);
        let ghost ss = char_vecs(syms@);
        let mut i: usize = 0;
        while i < syms.len()
            invariant
                i <= syms@.len(),
                nticks >= 1,
                ss == char_vecs(syms@),
                self.id == old(self).id,
                self.label@ == old(self).label@,
                self.is_dynamic == old(self).is_dynamic,
                vars_view(self.vars@) == add_statuses(v0, ss.take(i as int), state, nticks as nat),
            decreases syms@.len() - i,
        {
            add_status_exec(&mut self.vars, syms[i].as_slice(), state, nticks);
            proof {
                assert(ss.take(i + 1).drop_last() =~= ss.take(i as int));
                assert(ss.take(i + 1).last() == syms@[i as int]@);
            }
            i = i + 1;
        }
        assert(ss.take(i as int) =~= ss);
    }
}

impl TickDisplay {
    fn find_snap(nodes: &[NodeSnapshot], nid: usize) -> (r: Option<usize>)
        ensures
            match r {
                Some(k) => first_where(snaps_view(nodes@), snap_is(nid)) == Some(k as int),
                None => first_where(snaps_view(nodes@), snap_is(nid)) is None,
            },
    {
        let ghost sv = snaps_view(nodes@);
        let mut k: usize = 0;
        while k < nodes.len() && nodes[k].id != nid
            invariant
                k <= nodes@.len(),
                sv == snaps_view(nodes@),
                forall|j: int| 0 <= j < k ==> !(snap_is(nid))(#[trigger] sv[j]),
            decreases nodes@.len() - k,
        {
            k = k + 1;
        }
        proof {
            lemma_first_where_at(sv, snap_is(nid), k as int);
        }
        if k < nodes.len() {
            Some(k)
        } else {
            None
        }
    }

    fn find_hist(&self, nid: usize) -> (r: Option<usize>)
        ensures
            match r {
                Some(j) => first_where(hists_view(self.nodes@), hist_is(nid)) == Some(j as int),
                None => first_where(hists_view(self.nodes@), hist_is(nid)) is None,
            },
    {
        let ghost hv = hists_view(self.nodes@);
        let mut j: usize = 0;
        while j < self.nodes.len() && self.nodes[j].id != nid
            invariant
                j <= self.nodes@.len(),
                hv == hists_view(self.nodes@),
                forall|k: int| 0 <= k < j ==> !(hist_is(nid))(#[trigger] hv[k]),
            decreases self.nodes@.len() - j,
        {
            j = j + 1;
        }
        proof {
            lemma_first_where_at(hv, hist_is(nid), j as int);
        }
        if j < self.nodes.len() {
            Some(j)
        } else {
            None
        }
    }

    fn record_node_exec(&mut self, nid: usize, nodes: &[NodeSnapshot], outputs: &[(usize, String)])
        requires
            old(self).ticks@.len() >= 1,
        ensures
            final(self)@ == record_node(old(self)@, nid, snaps_view(nodes@), keys_view(outputs@)),
    {
        let ghost d = self@;
        assert(d.nodes == hists_view(self.nodes@));
        match TickDisplay::find_snap(nodes, nid) {
            None => {},
            Some(k) => {
                proof {
                    lemma_first_where(snaps_view(nodes@), snap_is(nid));
                }
                let snap = &nodes[k];
                let idx = match self.find_hist(nid) {
                    Some(j) => j,
                    None => {
                        let id_text = decimal_chars(nid as u64);
                        let mut label: Vec<char> = Vec::new();
                        label.push('n');
                        push_all(&mut label, id_text.as_slice());
                        label.push(':');
                        let f = chars_of(snap.formula.as_str());
                        push_all(&mut label, f.as_slice());
                        proof {
                            reveal_strlit("n");
                            reveal_strlit(":");
                            assert(label@ =~= node_label(nid, snap.formula@));
                        }
                        self.nodes.push(
                            NodeHistory {
                                id: nid,
                                label: label,
                                is_dynamic: snap.is_dynamic,
                                vars: Vec::new(),
                            },
                        );
                        proof {
                            assert(self.nodes@.last().view() =~= HistView {
                                id: nid,
                                label: node_label(nid, snap.formula@),
                                is_dynamic: snap.is_dynamic,
                                vars: seq![],
                            });
                            assert(hists_view(self.nodes@) =~= d.nodes.push(
                                HistView {
                                    id: nid,
                                    label: node_label(nid, snap.formula@),
                                    is_dynamic: snap.is_dynamic,
                                    vars: seq![],
                                },
                            ));
                        }
                        self.nodes.len() - 1
                    },
                };
                proof {
                    lemma_first_where(d.nodes, hist_is(nid));
                }
                let ghost nodes1 = hists_view(self.nodes@);
                let syms = node_outputs_exec(outputs, nid);
                let nticks = self.ticks.len();
                let mut h = self.nodes.remove(idx);
                h.add_statuses_exec(&syms, snap.state, nticks);
                self.nodes.insert(idx, h);
                proof {
                    let hv = nodes1[idx as int];
                    assert(hists_view(self.nodes@) =~= nodes1.update(
                        idx as int,
                        HistView {
                            vars: add_statuses(
                                hv.vars,
                                node_outputs(keys_view(outputs@), nid),
                                snap.state,
                                d.ticks.len(),
                            ),
                            ..hv
                        },
                    ));
                    assert(snaps_view(nodes@)[k as int] == snap.view());
                }
            },
        }
    }

    /// Records one tick: the tick number, and for each node (in the order
    /// of the first snapshots recorded) its state, once per output symbol
    /// that `outputs` (node id, symbol) lists for it, sorted, or once as
    /// `output` where it lists none.
    pub fn record(&mut self, tick: usize, nodes: &[NodeSnapshot], outputs: &[(usize, String)])
        ensures
            final(self)@ == record_tick(old(self)@, tick, snaps_view(nodes@), keys_view(outputs@)),
    {
        let ghost d = self@;
        let ghost sv = snaps_view(nodes@);
        let ghost kv = keys_view(outputs@);
        self.ticks.push(tick);
        if self.nid_order.len() == 0 {
            let mut order: Vec<usize> = Vec::new();
            let mut i: usize = 0;
            while i < nodes.len()
                invariant
                    i <= nodes@.len(),
                    sv == snaps_view(nodes@),
                    order@ == sv.take(i as int).map_values(|s: SnapView| s.id),
                decreases nodes@.len() - i,
            {
                order.push(nodes[i].id);
                proof {
                    assert(sv.take(i + 1).map_values(|s: SnapView| s.id) =~= sv.take(
                        i as int,
                    ).map_values(|s: SnapView| s.id).push(nodes@[i as int].id));
                }
                i = i + 1;
            }
            assert(sv.take(i as int) =~= sv);
            self.nid_order = order;
        }
        let ghost d2 = self@;
        assert(d2 == (if d.order.len() == 0 {
            DisplayView { order: sv.map_values(|s: SnapView| s.id), ticks: d.ticks.push(tick), ..d }
        } else {
            DisplayView { ticks: d.ticks.push(tick), ..d }
        }));
        let mut k: usize = 0;
        while k < self.nid_order.len()
            invariant
                k <= self.nid_order@.len(),
                self.nid_order@ == d2.order,
                self.ticks@ == d2.ticks,
                d2.ticks.len() >= 1,
                sv == snaps_view(nodes@),
                kv == keys_view(outputs@),
                self@ == record_nodes(d2, d2.order.take(k as int), sv, kv),
            decreases self.nid_order@.len() - k,
        {
            let nid = self.nid_order[k];
            self.record_node_exec(nid, nodes, outputs);
            proof {
                assert(d2.order.take(k + 1).drop_last() =~= d2.order.take(k as int));
                assert(d2.order.take(k + 1).last() == nid);
            }
            k = k + 1;
        }
        assert(d2.order.take(k as int) =~= d2.order);
    }
}


// ============================================================
// Rendering the table
// ============================================================

/// At most this many tick columns are shown: the last ones.
pub const MAX_COLS: usize = 12;

pub open spec fn spaces(n: nat) -> Seq<char> {
    Seq::new(n, |i: int| ' ')
}

pub open spec fn dashes(n: nat) -> Seq<char> {
    Seq::new(n, |i: int| '-')
}

/// `s` right-aligned in `w` columns (`{:>w}`): spaces before it up to
/// width `w`, nothing cut.
pub open spec fn pad_left(s: Seq<char>, w: nat) -> Seq<char> {
    if s.len() >= w {
        s
    } else {
        spaces((w - s.len()) as nat) + s
    }
}

/// The pieces joined with one space between each two.
pub open spec fn join_spaced(p: Seq<Seq<char>>) -> Seq<char>
    decreases p.len(),
{
    if p.len() == 0 {
        seq![]
    } else if p.len() == 1 {
        p[0]
    } else {
        join_spaced(p.drop_last()) + seq![' '] + p.last()
    }
}

/// The first tick column shown, of `total` ticks.
pub open spec fn window_start(total: nat) -> nat {
    if total > MAX_COLS {
        (total - MAX_COLS) as nat
    } else {
        0
    }
}

pub open spec fn header_text(d: DisplayView) -> Seq<char> {
    let start = window_start(d.ticks.len());
    let ncol = d.ticks.len() - start;
    "  "@ + pad_left("Tick →"@, 24) + "  "@ + join_spaced(
        Seq::new(ncol as nat, |i: int| pad_left(decimal(d.ticks[start + i] as nat), 5)),
    )
}

pub open spec fn rule_text(d: DisplayView) -> Seq<char> {
    let ncol = d.ticks.len() - window_start(d.ticks.len());
    "  "@ + dashes(24) + "  "@ + dashes((ncol * 6 - 1) as nat)
}

pub open spec fn label_text(h: HistView) -> Seq<char> {
    "  "@ + pad_left(h.label, 21) + if h.is_dynamic {
        " ⚡"@
    } else {
        "   "@
    }
}

/// The column, among those shown from `start`, of the first Green.
pub open spec fn visible_green(s: Seq<NodeState>, start: nat) -> Option<int> {
    match first_green(s) {
        Some(i) => if i >= start {
            Some(i - start)
        } else {
            None
        },
        None => None,
    }
}

/// One cell: the state's mark, starred where the node first turned Green.
pub open spec fn cell_text(s: NodeState, star: bool) -> Seq<char> {
    if star {
        pad_left(status_mark(s) + "*"@, 5)
    } else {
        pad_left(status_mark(s), 5)
    }
}

pub open spec fn var_cells(v: VarView, start: nat) -> Seq<Seq<char>> {
    let vis = visible_green(v.statuses, start);
    Seq::new(
        (v.statuses.len() - start) as nat,
        |i: int| cell_text(v.statuses[start + i], vis == Some(i)),
    )
}

/// In a symbol's row, shown from tick index `start`, the cell in column
/// `i` shows the state at tick index `start + i`, starred exactly when that
/// state is Green and no earlier tick of the whole history is Green: the
/// star marks the first Green where it falls, counted from the first tick
/// recorded, not from the first one shown.
pub proof fn law_star_marks_first_green(v: VarView, start: nat, i: int)
    requires
        start <= v.statuses.len(),
        0 <= i < v.statuses.len() - start,
    ensures
        var_cells(v, start).len() == v.statuses.len() - start,
        var_cells(v, start)[i] == cell_text(
            v.statuses[start + i],
            v.statuses[start + i] == NodeState::Green && forall|j: int|
                0 <= j < start + i ==> v.statuses[j] != NodeState::Green,
        ),
{
    lemma_first_green(v.statuses);
    let star = v.statuses[start + i] == NodeState::Green && forall|j: int|
        0 <= j < start + i ==> v.statuses[j] != NodeState::Green;
    let vis = visible_green(v.statuses, start);
    match first_green(v.statuses) {
        Some(g) => {
            if star {
                if g < start + i {
                    assert(v.statuses[g] != NodeState::Green);
                }
                assert(g == start + i);
            }
            if vis == Some(i) {
                assert(g == start + i);
            }
        },
        None => {
            if star {
                assert(v.statuses[start + i] != NodeState::Green);
            }
        },
    }
    assert((vis == Some(i)) == star);
}

pub open spec fn var_text(v: VarView, start: nat) -> Seq<char> {
    "    "@ + pad_left(v.symbol, 20) + "  "@ + join_spaced(var_cells(v, start))
}

/// A node's lines: its label, one line per symbol, and an empty line.
pub open spec fn node_block(h: HistView, start: nat) -> Seq<Seq<char>> {
    seq![label_text(h)] + h.vars.map_values(|v: VarView| var_text(v, start)) + seq![
        Seq::<char>::empty(),
    ]
}

pub open spec fn blocks(d: DisplayView, order: Seq<usize>, start: nat) -> Seq<Seq<char>>
    decreases order.len(),
{
    if order.len() == 0 {
        seq![]
    } else {
        blocks(d, order.drop_last(), start) + match first_where(d.nodes, hist_is(order.last())) {
            Some(j) => node_block(d.nodes[j], start),
            None => seq![],
        }
    }
}

/// The lines of the table: a header of the last ticks, a rule, then each
/// node in order; or a note that nothing was recorded.
pub open spec fn render_text(d: DisplayView) -> Seq<Seq<char>> {
    if d.ticks.len() == 0 {
        seq!["  (无记录)"@]
    } else {
        seq![header_text(d), rule_text(d)] + blocks(d, d.order, window_start(d.ticks.len()))
    }
}

/// Each symbol's history reaches the first tick shown.
pub open spec fn renderable(d: DisplayView) -> bool {
    forall|i: int, j: int|
        0 <= i < d.nodes.len() && 0 <= j < d.nodes[i].vars.len() ==> (#[trigger] d.nodes[i].vars[j]).statuses.len()
            >= window_start(d.ticks.len())
}

proof fn lemma_join_step(p: Seq<Seq<char>>, i: int)
    requires
        0 <= i < p.len(),
    ensures
        join_spaced(p.take(i + 1)) == if i == 0 {
            p[0]
        } else {
            join_spaced(p.take(i)) + seq![' '] + p[i]
        },
{
    let q = p.take(i + 1);
    assert(q.drop_last() =~= p.take(i));
    assert(q.last() == p[i]);
    if i == 0 {
        assert(q.len() == 1);
        assert(q[0] == p[0]);
    }
}

fn push_padded(out: &mut Vec<char>, s: &[char], w: usize)
    ensures
        final(out)@ == old(out)@ + pad_left(s@, w as nat),
{
    let ghost o = out@;
    if s.len() < w {
        let n = w - s.len();
        let mut i: usize = 0;
        while i < n
            invariant
                i <= n,
                out@ == o + spaces(i as nat),
            decreases n - i,
        {
            out.push(' ');
            i = i + 1;
            assert(out@ =~= o + spaces(i as nat));
        }
    }
    let ghost o2 = out@;
    push_all(out, s);
    assert(out@ =~= o + pad_left(s@, w as nat));
}

fn push_repeat(out: &mut Vec<char>, c: char, n: usize)
    ensures
        final(out)@ == old(out)@ + Seq::new(n as nat, |i: int| c),
{
    let ghost o = out@;
    let mut i: usize = 0;
    while i < n
        invariant
            i <= n,
            out@ == o + Seq::new(i as nat, |k: int| c),
        decreases n - i,
    {
        out.push(c);
        i = i + 1;
        assert(out@ =~= o + Seq::new(i as nat, |k: int| c));
    }
}

impl TickDisplay {
    fn header_chars(&self) -> (r: Vec<char>)
        requires
            self@.ticks.len() > 0,
        ensures
            r@ == header_text(self@),
    {
        let ghost d = self@;
        let total = self.ticks.len();
        let start: usize = if total > MAX_COLS {
            total - MAX_COLS
        } else {
            0
        };
        let ghost ncol = total - start;
        let ghost cells = Seq::new(
            ncol as nat,
            |i: int| pad_left(decimal(d.ticks[start + i] as nat), 5),
        );
        let mut out: Vec<char> = Vec::new();
        push_str(&mut out, "  ");
        let t = chars_of("Tick →");
        push_padded(&mut out, t.as_slice(), 24);
        push_str(&mut out, "  ");
        let ghost pre = out@;
        let mut i: usize = start;
        while i < total
            invariant
                start <= i <= total,
                total == self.ticks@.len(),
                d == self@,
                start == window_start(total as nat),
                ncol == total - start,
                cells == Seq::new(
                    ncol as nat,
                    |i: int| pad_left(decimal(d.ticks[start + i] as nat), 5),
                ),
                out@ == pre + join_spaced(cells.take(i - start)),
            decreases total - i,
        {
            proof {
                lemma_join_step(cells, i - start);
            }
            if i > start {
                out.push(' ');
            }
            let digits = decimal_chars(self.ticks[i] as u64);
            push_padded(&mut out, digits.as_slice(), 5);
            proof {
                assert(cells[i - start] == pad_left(decimal(d.ticks[i as int] as nat), 5));
                if i == start {
                    assert(join_spaced(cells.take(0)) == Seq::<char>::empty());
                }
            }
            i = i + 1;
        }
        proof {
            assert(cells.take(i - start) =~= cells);
            reveal_strlit("  ");
        }
        out
    }

    fn rule_chars(&self) -> (r: Vec<char>)
        requires
            self@.ticks.len() > 0,
        ensures
            r@ == rule_text(self@),
    {
        let total = self.ticks.len();
        let start: usize = if total > MAX_COLS {
            total - MAX_COLS
        } else {
            0
        };
        let ncol = total - start;
        let mut out: Vec<char> = Vec::new();
        push_str(&mut out, "  ");
        push_repeat(&mut out, '-', 24);
        push_str(&mut out, "  ");
        push_repeat(&mut out, '-', ncol * 6 - 1);
        out
    }

    fn var_chars(v: &VarHistory, start: usize) -> (r: Vec<char>)
        requires
            v.statuses@.len() >= start,
        ensures
            r@ == var_text(v.view(), start as nat),
    {
        let ghost vv = v.view();
        let ghost cells = var_cells(vv, start as nat);
        let vis = match TickDisplay::first_green_idx(v.statuses.as_slice()) {
            Some(g) => if g >= start {
                Some(g - start)
            } else {
                None
            },
            None => None,
        };
        assert(vis matches Some(x) ==> visible_green(vv.statuses, start as nat) == Some(x as int));
        assert(vis is None ==> visible_green(vv.statuses, start as nat) is None);
        let mut out: Vec<char> = Vec::new();
        push_str(&mut out, "    ");
        push_padded(&mut out, v.symbol.as_slice(), 20);
        push_str(&mut out, "  ");
        let ghost pre = out@;
        let n = v.statuses.len();
        let mut i: usize = start;
        while i < n
            invariant
                start <= i <= n,
                n == v.statuses@.len(),
                vv == v.view(),
                cells == var_cells(vv, start as nat),
                vis matches Some(x) ==> visible_green(vv.statuses, start as nat) == Some(x as int),
                vis is None ==> visible_green(vv.statuses, start as nat) is None,
                out@ == pre + join_spaced(cells.take(i - start)),
            decreases n - i,
        {
            proof {
                lemma_join_step(cells, i - start);
            }
            if i > start {
                out.push(' ');
            }
            let mark = TickDisplay::status_char(&v.statuses[i]);
            let mut cell: Vec<char> = Vec::new();
            push_str(&mut cell, mark);
            let star = match vis {
                Some(x) => x == i - start,
                None => false,
            };
            if star {
                cell.push('*');
            }
            push_padded(&mut out, cell.as_slice(), 5);
            proof {
                reveal_strlit("*");
                assert(star == (visible_green(vv.statuses, start as nat) == Some(i - start)));
                assert(cell@ =~= if star {
                    status_mark(vv.statuses[i as int]) + "*"@
                } else {
                    status_mark(vv.statuses[i as int])
                });
                assert(cells[i - start] == cell_text(vv.statuses[i as int], star));
                if i == start {
                    assert(join_spaced(cells.take(0)) == Seq::<char>::empty());
                }
            }
            i = i + 1;
        }
        proof {
            assert(cells.take(i - start) =~= cells);
        }
        out
    }

    fn block_lines(h: &NodeHistory, start: usize, lines: &mut Vec<String>)
        requires
            forall|j: int| 0 <= j < h.vars@.len() ==> (#[trigger] h.vars@[j]).statuses@.len() >= start,
        ensures
            strings_view(final(lines)@) == strings_view(old(lines)@) + node_block(h.view(), start as nat),
    {
        let ghost hv = h.view();
        let ghost l0 = strings_view(lines@);
        let mut label: Vec<char> = Vec::new();
        push_str(&mut label, "  ");
        push_padded(&mut label, h.label.as_slice(), 21);
        if h.is_dynamic {
            push_str(&mut label, " ⚡");
        } else {
            push_str(&mut label, "   ");
        }
        lines.push(string_of(label.as_slice()));
        proof {
            assert(strings_view(lines@) =~= l0 + seq![label_text(hv)]);
        }
        let ghost l1 = strings_view(lines@);
        let ghost vl = hv.vars.map_values(|v: VarView| var_text(v, start as nat));
        let mut j: usize = 0;
        while j < h.vars.len()
            invariant
                j <= h.vars@.len(),
                hv == h.view(),
                vl == hv.vars.map_values(|v: VarView| var_text(v, start as nat)),
                forall|k: int| 0 <= k < h.vars@.len() ==> (#[trigger] h.vars@[k]).statuses@.len() >= start,
                strings_view(lines@) == l1 + vl.take(j as int),
            decreases h.vars@.len() - j,
        {
            let line = TickDisplay::var_chars(&h.vars[j], start);
            let ghost before = strings_view(lines@);
            lines.push(string_of(line.as_slice()));
            proof {
                assert(hv.vars[j as int] == h.vars@[j as int].view());
                assert(vl.take(j + 1) =~= vl.take(j as int).push(line@));
                assert(strings_view(lines@) =~= before.push(line@));
            }
            j = j + 1;
        }
        let empty: Vec<char> = Vec::new();
        let ghost before = strings_view(lines@);
        lines.push(string_of(empty.as_slice()));
        proof {
            assert(vl.take(j as int) =~= vl);
            assert(strings_view(lines@) =~= before.push(Seq::<char>::empty()));
            assert(strings_view(lines@) =~= l0 + node_block(hv, start as nat));
        }
    }

    /// The lines of the table (what a terminal shows of it): the last
    /// `MAX_COLS` ticks as columns, then for each node its label and, per
    /// output symbol, its state marks with a `*` where it first turned Green.
    pub fn render_lines(&self) -> (r: Vec<String>)
        requires
            renderable(self@),
        ensures
            strings_view(r@) == render_text(self@),
    {
        let ghost d = self@;
        let mut lines: Vec<String> = Vec::new();
        if self.ticks.len() == 0 {
            let note = chars_of("  (无记录)");
            lines.push(string_of(note.as_slice()));
            assert(strings_view(lines@) =~= seq!["  (无记录)"@]);
            return lines;
        }
        let total = self.ticks.len();
        let start: usize = if total > MAX_COLS {
            total - MAX_COLS
        } else {
            0
        };
        let header = self.header_chars();
        lines.push(string_of(header.as_slice()));
        let rule = self.rule_chars();
        lines.push(string_of(rule.as_slice()));
        let ghost l0 = strings_view(lines@);
        assert(l0 =~= seq![header_text(d), rule_text(d)]);
        let mut k: usize = 0;
        while k < self.nid_order.len()
            invariant
                k <= self.nid_order@.len(),
                d == self@,
                start == window_start(d.ticks.len()),
                renderable(d),
                strings_view(lines@) == l0 + blocks(d, d.order.take(k as int), start as nat),
            decreases self.nid_order@.len() - k,
        {
            let nid = self.nid_order[k];
            proof {
                assert(d.order.take(k + 1).drop_last() =~= d.order.take(k as int));
                assert(d.order.take(k + 1).last() == nid);
            }
            match self.find_hist(nid) {
                Some(j) => {
                    proof {
                        lemma_first_where(d.nodes, hist_is(nid));
                        assert(d.nodes[j as int] == self.nodes@[j as int].view());
                        assert forall|x: int| 0 <= x < self.nodes@[j as int].vars@.len() implies (
                        #[trigger] self.nodes@[j as int].vars@[x]).statuses@.len() >= start by {
                            assert(d.nodes[j as int].vars[x] == self.nodes@[j as int].vars@[x].view());
                        }
                    }
                    let ghost before = strings_view(lines@);
                    TickDisplay::block_lines(&self.nodes[j], start, &mut lines);
                    proof {
                        assert(strings_view(lines@) =~= l0 + blocks(d, d.order.take(k + 1), start as nat));
                    }
                },
                None => {
                    proof {
                        assert(blocks(d, d.order.take(k + 1), start as nat) =~= blocks(d, d.order.take(k as int), start as nat));
                    }
                },
            }
            k = k + 1;
        }
        assert(d.order.take(k as int) =~= d.order);
        lines
    }
}


// ============================================================
// One-line tick summary
// ============================================================

/// How many of `s` are in state `st`.
pub open spec fn count_state(s: Seq<NodeState>, st: NodeState) -> nat
    decreases s.len(),
{
    if s.len() == 0 {
        0
    } else {
        count_state(s.drop_last(), st) + if s.last() == st {
            1nat
        } else {
            0nat
        }
    }
}

/// The summary line of a tick: the tick, a bar of one mark per node (Green
/// first, then Yellow, Purple, Gray), and the count of each.
pub open spec fn summary_text(tick: usize, s: Seq<NodeState>) -> Seq<char> {
    let g = count_state(s, NodeState::Green);
    let y = count_state(s, NodeState::Yellow);
    let p = count_state(s, NodeState::Purple);
    let r = count_state(s, NodeState::Gray);
    "  Tick "@ + pad_left(decimal(tick as nat), 2) + " | "@ + Seq::new(g, |i: int| 'G') + Seq::new(
        y,
        |i: int| 'Y',
    ) + Seq::new(p, |i: int| 'P') + Seq::new(r, |i: int| '-') + " | "@ + pad_left(
        decimal(g),
        2,
    ) + "G "@ + pad_left(decimal(y), 2) + "Y "@ + pad_left(decimal(p), 2) + "P "@ + pad_left(
        decimal(r),
        2,
    ) + "-"@
}

/// Every node is counted once: the four counts of a tick summary add up
/// to the number of nodes, so its bar has one mark per node.
pub proof fn lemma_counts_total(s: Seq<NodeState>)
    ensures
        count_state(s, NodeState::Green) + count_state(s, NodeState::Yellow) + count_state(
            s,
            NodeState::Purple,
        ) + count_state(s, NodeState::Gray) == s.len(),
    decreases s.len(),
{
    if s.len() > 0 {
        lemma_counts_total(s.drop_last());
    }
}

impl TickDisplay {
    /// The summary line of a tick for the states of its nodes (the gray
    /// count is what the other three leave).
    pub fn tick_summary(tick: usize, states: &[NodeState]) -> (r: String)
        ensures
            r@ == summary_text(tick, states@),
    {
        let ghost s = states@;
        let mut g: usize = 0;
        let mut y: usize = 0;
        let mut p: usize = 0;
        let mut i: usize = 0;
        while i < states.len()
            invariant
                i <= states@.len(),
                s == states@,
                g == count_state(s.take(i as int), NodeState::Green),
                y == count_state(s.take(i as int), NodeState::Yellow),
                p == count_state(s.take(i as int), NodeState::Purple),
                g + y + p <= i,
            decreases states@.len() - i,
        {
            proof {
                assert(s.take(i + 1).drop_last() =~= s.take(i as int));
                assert(s.take(i + 1).last() == s[i as int]);
                lemma_counts_total(s.take(i as int));
            }
            match states[i] {
                NodeState::Green => {
                    g = g + 1;
                },
                NodeState::Yellow => {
                    y = y + 1;
                },
                NodeState::Purple => {
                    p = p + 1;
                },
                NodeState::Gray => {},
            }
            i = i + 1;
        }
        proof {
            assert(s.take(i as int) =~= s);
            lemma_counts_total(s);
        }
        let gray = states.len() - g - y - p;
        let mut out: Vec<char> = Vec::new();
        push_str(&mut out, "  Tick ");
        let t = decimal_chars(tick as u64);
        push_padded(&mut out, t.as_slice(), 2);
        push_str(&mut out, " | ");
        push_repeat(&mut out, 'G', g);
        push_repeat(&mut out, 'Y', y);
        push_repeat(&mut out, 'P', p);
        push_repeat(&mut out, '-', gray);
        push_str(&mut out, " | ");
        let gd = decimal_chars(g as u64);
        push_padded(&mut out, gd.as_slice(), 2);
        push_str(&mut out, "G ");
        let yd = decimal_chars(y as u64);
        push_padded(&mut out, yd.as_slice(), 2);
        push_str(&mut out, "Y ");
        let pd = decimal_chars(p as u64);
        push_padded(&mut out, pd.as_slice(), 2);
        push_str(&mut out, "P ");
        let rd = decimal_chars(gray as u64);
        push_padded(&mut out, rd.as_slice(), 2);
        push_str(&mut out, "-");
        string_of(out.as_slice())
    }
}


impl TickDisplay {
    /// Whether the table can be rendered: every symbol's history reaches
    /// the first tick shown.
    pub fn is_renderable(&self) -> (r: bool)
        ensures
            r == renderable(self@),
    {
        let ghost d = self@;
        let total = self.ticks.len();
        let start: usize = if total > MAX_COLS {
            total - MAX_COLS
        } else {
            0
        };
        let mut i: usize = 0;
        while i < self.nodes.len()
            invariant
                i <= self.nodes@.len(),
                d == self@,
                start == window_start(d.ticks.len()),
                forall|a: int, b: int|
                    0 <= a < i && 0 <= b < d.nodes[a].vars.len() ==> (#[trigger] d.nodes[a].vars[b]).statuses.len()
                        >= start,
            decreases self.nodes@.len() - i,
        {
            let h = &self.nodes[i];
            let mut j: usize = 0;
            while j < h.vars.len()
                invariant
                    j <= h.vars@.len(),
                    i < self.nodes@.len(),
                    *h == self.nodes@[i as int],
                    d == self@,
                    start == window_start(d.ticks.len()),
                    forall|b: int| 0 <= b < j ==> (#[trigger] d.nodes[i as int].vars[b]).statuses.len() >= start,
                decreases h.vars@.len() - j,
            {
                assert(d.nodes[i as int].vars[j as int] == h.vars@[j as int].view());
                if h.vars[j].statuses.len() < start {
                    assert(d.nodes[i as int].vars[j as int].statuses.len() < window_start(d.ticks.len()));
                    return false;
                }
                j = j + 1;
            }
            i = i + 1;
        }
        true
    }
}

} // verus!
