use std::collections::HashMap;
use vstd::prelude::*;

use crate::state::NodeState;
use crate::text::{
    is_digit, is_ws, lemma_decimal_digits, lemma_lines_cons, lemma_lines_single, lemma_parse_decimal,
    lemma_trim_noop, plain_line, chars_of, decimal, decimal_chars, float_literal, has_char, has_char_exec, is_float_literal,
    lines, lines_chars, parse_u64, parse_u64_chars, push_all, push_str, slice_chars,
    starts_with, starts_with_chars, str_is, string_of, trim, trim_chars,
};

verus! {

// ============================================================
// Containers of a .brainstorm package
// ============================================================

/// clusters.json: cluster cache with its SCC blocks.
#[derive(Debug, Clone)]
pub struct ClustersJson {
    pub topology_version: u64,
    pub clusters: Vec<ClusterEntry>,
}

/// One cluster of clusters.json.
#[derive(Debug, Clone)]
pub struct ClusterEntry {
    pub id: String,
    pub nodes: Vec<String>,
    pub variables: HashMap<String, usize>,
    pub blocks: Vec<BlockEntry>,
}

/// One SCC block of a cluster.
#[derive(Debug, Clone)]
pub struct BlockEntry {
    pub id: String,
    pub vars: Vec<usize>,
}

/// Ports of a node in graph.xml.
#[derive(Debug, Clone)]
pub struct PortDef {
    pub inputs: Vec<String>,
    pub outputs: Vec<String>,
}

/// A node of graph.xml.
#[derive(Debug, Clone)]
pub struct GraphNode {
    pub id: String,
    pub node_type: String,
    pub formula: String,
    pub ports: PortDef,
}

/// A synapse of graph.xml; both ends are written `node_id.port`.
#[derive(Debug, Clone)]
pub struct GraphSynapse {
    pub from: String,
    pub to: String,
}

/// graph.xml: topology and mathematical model.
#[derive(Debug, Clone)]
pub struct GraphXml {
    pub name: String,
    pub version: String,
    pub nodes: Vec<GraphNode>,
    pub synapses: Vec<GraphSynapse>,
}

/// version.txt
#[derive(Debug, Clone)]
pub struct VersionTxt {
    pub brainstorm_version: u64,
    pub symnebula_core: String,
    pub topology_version: u64,
}

/// An entry under assets/.
#[derive(Debug, Clone)]
pub struct AssetEntry {
    pub name: String,
    pub data: Vec<u8>,
}

/// Handle on a .brainstorm file at a path.
#[derive(Debug, Clone)]
pub struct BrainstormFile {
    pub path: String,
}

impl BrainstormFile {
    /// A handle on the .brainstorm file at `path`.
    pub fn new(path: &str) -> (r: Self)
        ensures
            r.path@ == path@,
    {
        BrainstormFile { path: String::from_str(path) }
    }
}

// ============================================================
// Node state <-> status word
// ============================================================

/// The status word that state.json stores for a node state.
pub open spec fn status_word(state: NodeState) -> Seq<char> {
    match state {
        NodeState::Green => "Green"@,
        NodeState::Yellow => "Yellow"@,
        NodeState::Purple => "Purple"@,
        NodeState::Gray => "Gray"@,
    }
}

/// The node state that a status word stands for; both capitalised and
/// lower-case words are read, and `Grey` as well as `Gray`.
pub open spec fn state_of_status(s: Seq<char>) -> Option<NodeState> {
    if s == "Green"@ || s == "green"@ {
        Some(NodeState::Green)
    } else if s == "Yellow"@ || s == "yellow"@ {
        Some(NodeState::Yellow)
    } else if s == "Purple"@ || s == "purple"@ {
        Some(NodeState::Purple)
    } else if s == "Gray"@ || s == "gray"@ || s == "Grey"@ || s == "grey"@ {
        Some(NodeState::Gray)
    } else {
        None
    }
}

pub fn state_to_status(state: &NodeState) -> (r: &'static str)
    ensures
        r@ == status_word(*state),
{
    match state {
        NodeState::Green => "Green",
        NodeState::Yellow => "Yellow",
        NodeState::Purple => "Purple",
        NodeState::Gray => "Gray",
    }
}

pub fn status_to_state(s: &str) -> (r: Option<NodeState>)
    ensures
        r == state_of_status(s@),
{
    if str_is(s, "Green") || str_is(s, "green") {
        Some(NodeState::Green)
    } else if str_is(s, "Yellow") || str_is(s, "yellow") {
        Some(NodeState::Yellow)
    } else if str_is(s, "Purple") || str_is(s, "purple") {
        Some(NodeState::Purple)
    } else if str_is(s, "Gray") || str_is(s, "gray") || str_is(s, "Grey") || str_is(s, "grey") {
        Some(NodeState::Gray)
    } else {
        None
    }
}

/// Reading back the status word of a state gives that state.
pub proof fn lemma_status_roundtrip(state: NodeState)
    ensures
        state_of_status(status_word(state)) == Some(state),
{
    reveal_strlit("Green");
    reveal_strlit("green");
    reveal_strlit("Yellow");
    reveal_strlit("yellow");
    reveal_strlit("Purple");
    reveal_strlit("purple");
    reveal_strlit("Gray");
    reveal_strlit("gray");
    reveal_strlit("Grey");
    reveal_strlit("grey");
    let w = status_word(state);
    match state {
        NodeState::Green => {},
        NodeState::Yellow => {
            assert(w != "Green"@ && w != "green"@) by {
                assert(w[0] != "Green"@[0] || w.len() != 5);
            }
        },
        NodeState::Purple => {
            assert(w[0] == 'P');
            assert(w != "Green"@ && w != "green"@ && w != "Yellow"@ && w != "yellow"@);
        },
        NodeState::Gray => {
            assert(w[0] == 'G' && w[1] == 'r' && w[2] == 'a');
            assert(w.len() == 4);
            assert(w != "Green"@ && w != "green"@ && w != "Yellow"@ && w != "yellow"@ && w
                != "Purple"@ && w != "purple"@);
        },
    }
}

// ============================================================
// Formula kind
// ============================================================

/// Kind of a formula text: `eq` when it holds `=`, `constant` when it
/// reads as a number, `expr` otherwise (all after trimming).
pub open spec fn formula_kind(s: Seq<char>) -> Seq<char> {
    let t = trim(s);
    if has_char(t, '=') {
        "eq"@
    } else if float_literal(t) {
        "constant"@
    } else {
        "expr"@
    }
}

pub fn detect_formula_type(s: &str) -> (r: &'static str)
    ensures
        r@ == formula_kind(s@),
{
    let v = chars_of(s);
    let t = trim_chars(v.as_slice());
    if has_char_exec(t.as_slice(), '=') {
        "eq"
    } else if is_float_literal(t.as_slice()) {
        "constant"
    } else {
        "expr"
    }
}

// ============================================================
// XML escaping
// ============================================================

pub open spec fn escape_char(c: char) -> Seq<char> {
    if c == '&' {
        "&amp;"@
    } else if c == '<' {
        "&lt;"@
    } else if c == '>' {
        "&gt;"@
    } else if c == '"' {
        "&quot;"@
    } else if c == '\'' {
        "&apos;"@
    } else {
        seq![c]
    }
}

/// XML escaping: each of `& < > " '` becomes its entity, other characters
/// stay. (Replacing `&` first and the others after it, as the text format
/// does, gives this same result, since no entity holds a later character.)
pub open spec fn escape(s: Seq<char>) -> Seq<char>
    decreases s.len(),
{
    if s.len() == 0 {
        seq![]
    } else {
        escape(s.drop_last()) + escape_char(s.last())
    }
}

/// None of the five characters that XML escapes.
pub open spec fn xml_plain(s: Seq<char>) -> bool {
    forall|i: int|
        0 <= i < s.len() ==> {
            let c = #[trigger] s[i];
            c != '&' && c != '<' && c != '>' && c != '"' && c != '\''
        }
}

/// Escaping leaves text without special characters as it is.
pub proof fn lemma_escape_plain(s: Seq<char>)
    requires
        xml_plain(s),
    ensures
        escape(s) == s,
    decreases s.len(),
{
    if s.len() > 0 {
        let t = s.drop_last();
        assert forall|i: int| 0 <= i < t.len() implies {
            let c = #[trigger] t[i];
            c != '&' && c != '<' && c != '>' && c != '"' && c != '\''
        } by {
            assert(t[i] == s[i]);
        }
        lemma_escape_plain(t);
        assert(s[s.len() - 1] == s.last());
        assert(t.push(s.last()) =~= s);
    }
}

pub fn escape_chars(s: &[char]) -> (r: Vec<char>)
    ensures
        r@ == escape(s@),
{
    let mut out: Vec<char> = Vec::new();
    let mut i: usize = 0;
    while i < s.len()
        invariant
            i <= s@.len(),
            out@ == escape(s@.take(i as int)),
        decreases s.len() - i,
    {
        let c = s[i];
        if c == '&' {
            push_str(&mut out, "&amp;");
        } else if c == '<' {
            push_str(&mut out, "&lt;");
        } else if c == '>' {
            push_str(&mut out, "&gt;");
        } else if c == '"' {
            push_str(&mut out, "&quot;");
        } else if c == '\'' {
            push_str(&mut out, "&apos;");
        } else {
            out.push(c);
        }
        proof {
            assert(s@.take(i + 1).drop_last() =~= s@.take(i as int));
        }
        i = i + 1;
    }
    assert(s@.take(i as int) =~= s@);
    out
}

pub fn escape_xml(s: &str) -> (r: String)
    ensures
        r@ == escape(s@),
{
    let v = chars_of(s);
    let e = escape_chars(v.as_slice());
    string_of(e.as_slice())
}

// ============================================================
// version.txt
// ============================================================

pub open spec fn key_brainstorm_version() -> Seq<char> {
    "brainstorm_version="@
}

pub open spec fn key_symnebula_core() -> Seq<char> {
    "symnebula_core="@
}

pub open spec fn key_topology_version() -> Seq<char> {
    "topology_version="@
}

/// Contents of version.txt as plain values.
pub struct VersionView {
    pub brainstorm_version: u64,
    pub symnebula_core: Seq<char>,
    pub topology_version: u64,
}

impl VersionTxt {
    pub open spec fn view(&self) -> VersionView {
        VersionView {
            brainstorm_version: self.brainstorm_version,
            symnebula_core: self.symnebula_core@,
            topology_version: self.topology_version,
        }
    }
}

/// What one line of version.txt changes: a key line sets its field (a
/// version that does not read as a `u64` becomes 0), other lines change nothing.
pub open spec fn version_step(v: VersionView, line: Seq<char>) -> VersionView {
    let t = trim(line);
    if starts_with(t, key_brainstorm_version()) {
        VersionView {
            brainstorm_version: match parse_u64(t.skip(key_brainstorm_version().len() as int)) {
                Some(n) => n,
                None => 0,
            },
            ..v
        }
    } else if starts_with(t, key_symnebula_core()) {
        VersionView { symnebula_core: t.skip(key_symnebula_core().len() as int), ..v }
    } else if starts_with(t, key_topology_version()) {
        VersionView {
            topology_version: match parse_u64(t.skip(key_topology_version().len() as int)) {
                Some(n) => n,
                None => 0,
            },
            ..v
        }
    } else {
        v
    }
}

/// version.txt read line by line, from all fields empty.
pub open spec fn version_scan(ls: Seq<Seq<char>>) -> VersionView
    decreases ls.len(),
{
    if ls.len() == 0 {
        VersionView { brainstorm_version: 0, symnebula_core: seq![], topology_version: 0 }
    } else {
        version_step(version_scan(ls.drop_last()), ls.last())
    }
}

/// The text of version.txt for the given fields.
pub open spec fn version_text(v: VersionView) -> Seq<char> {
    key_brainstorm_version() + decimal(v.brainstorm_version as nat) + seq!['\n']
        + key_symnebula_core() + v.symnebula_core + seq!['\n'] + key_topology_version()
        + decimal(v.topology_version as nat)
}

impl VersionTxt {
    /// Reads version.txt. Unknown lines are skipped; this never fails.
    pub fn parse(txt: &str) -> (r: Result<Self, String>)
        ensures
            r matches Ok(v) && v.view() == version_scan(lines(txt@)),
    {
        let chars = chars_of(txt);
        let ls = lines_chars(chars.as_slice());
        let kb = chars_of("brainstorm_version=");
        let ks = chars_of("symnebula_core=");
        let kt = chars_of("topology_version=");
        let mut bv: u64 = 0;
        let mut sc: Vec<char> = Vec::new();
        let mut tv: u64 = 0;
        let ghost all = lines(txt@);
        let mut i: usize = 0;
        while i < ls.len()
            invariant
                i <= ls@.len() == all.len(),
                all == lines(txt@),
                forall|k: int| 0 <= k < ls@.len() ==> #[trigger] ls@[k]@ == all[k],
                kb@ == key_brainstorm_version(),
                ks@ == key_symnebula_core(),
                kt@ == key_topology_version(),
                (VersionView { brainstorm_version: bv, symnebula_core: sc@, topology_version: tv })
                    == version_scan(all.take(i as int)),
            decreases ls.len() - i,
        {
            let t = trim_chars(ls[i].as_slice());
            assert(t@ == trim(all[i as int]));
            if starts_with_chars(t.as_slice(), kb.as_slice()) {
                let rest = slice_chars(t.as_slice(), kb.len(), t.len());
                bv = match parse_u64_chars(rest.as_slice()) {
                    Some(n) => n,
                    None => 0,
                };
            } else if starts_with_chars(t.as_slice(), ks.as_slice()) {
                sc = slice_chars(t.as_slice(), ks.len(), t.len());
            } else if starts_with_chars(t.as_slice(), kt.as_slice()) {
                let rest = slice_chars(t.as_slice(), kt.len(), t.len());
                tv = match parse_u64_chars(rest.as_slice()) {
                    Some(n) => n,
                    None => 0,
                };
            }
            proof {
                assert(all.take(i + 1).drop_last() =~= all.take(i as int));
            }
            i = i + 1;
        }
        assert(all.take(i as int) =~= all);
        Ok(
            VersionTxt {
                brainstorm_version: bv,
                symnebula_core: string_of(sc.as_slice()),
                topology_version: tv,
            },
        )
    }

    /// The text of version.txt for this version.
    pub fn to_text(&self) -> (r: String)
        ensures
            r@ == version_text(self.view()),
    {
        let mut out: Vec<char> = Vec::new();
        push_str(&mut out, "brainstorm_version=");
        let d = decimal_chars(self.brainstorm_version);
        push_all(&mut out, d.as_slice());
        out.push('\n');
        push_str(&mut out, "symnebula_core=");
        push_str(&mut out, self.symnebula_core.as_str());
        out.push('\n');
        push_str(&mut out, "topology_version=");
        let d2 = decimal_chars(self.topology_version);
        push_all(&mut out, d2.as_slice());
        string_of(out.as_slice())
    }
}


/// A symnebula_core value that version.txt carries unchanged: one line,
/// no whitespace at its end.
pub open spec fn core_fits_line(core: Seq<char>) -> bool {
    !has_char(core, '\n') && (core.len() == 0 || !is_ws(core.last()))
}

proof fn lemma_key_line(key: Seq<char>, val: Seq<char>)
    requires
        key.len() > 0,
        !is_ws(key[0]),
        !has_char(key, '\n'),
        !has_char(val, '\n'),
        val.len() == 0 ==> !is_ws(key.last()) && key.last() != '\r',
        val.len() > 0 ==> !is_ws(val.last()) && val.last() != '\r',
    ensures
        plain_line(key + val),
        trim(key + val) == key + val,
        starts_with(key + val, key),
        (key + val).skip(key.len() as int) == val,
{
    let l = key + val;
    assert(l[0] == key[0]);
    if val.len() > 0 {
        assert(l.last() == val.last());
    } else {
        assert(l.last() == key.last());
    }
    assert(!has_char(l, '\n')) by {
        if has_char(l, '\n') {
            let i = choose|i: int| 0 <= i < l.len() && l[i] == '\n';
            if i < key.len() {
                assert(key[i] == l[i]);
            } else {
                assert(val[i - key.len()] == l[i]);
            }
        }
    }
    lemma_trim_noop(l);
    assert(l.take(key.len() as int) =~= key);
    assert(l.skip(key.len() as int) =~= val);
}

proof fn lemma_decimal_line(n: nat)
    ensures
        !has_char(decimal(n), '\n'),
        decimal(n).len() > 0,
        !is_ws(decimal(n).last()),
        decimal(n).last() != '\r',
{
    lemma_decimal_digits(n);
    let d = decimal(n);
    assert(is_digit(d[d.len() - 1]));
    if has_char(d, '\n') {
        let i = choose|i: int| 0 <= i < d.len() && d[i] == '\n';
        assert(is_digit(d[i]));
    }
}

/// Reading the text of a version.txt gives back the same version, when
/// its symnebula_core fits on one line with no whitespace at its end.
pub proof fn lemma_version_roundtrip(v: VersionView)
    requires
        core_fits_line(v.symnebula_core),
    ensures
        version_scan(lines(version_text(v))) == v,
{
    reveal_strlit("brainstorm_version=");
    reveal_strlit("symnebula_core=");
    reveal_strlit("topology_version=");
    let kb = key_brainstorm_version();
    let ks = key_symnebula_core();
    let kt = key_topology_version();
    let db = decimal(v.brainstorm_version as nat);
    let dt = decimal(v.topology_version as nat);
    lemma_decimal_line(v.brainstorm_version as nat);
    lemma_decimal_line(v.topology_version as nat);
    assert(!has_char(kb, '\n')) by {
        if has_char(kb, '\n') {
            let i = choose|i: int| 0 <= i < kb.len() && kb[i] == '\n';
        }
    }
    assert(!has_char(ks, '\n')) by {
        if has_char(ks, '\n') {
            let i = choose|i: int| 0 <= i < ks.len() && ks[i] == '\n';
        }
    }
    assert(!has_char(kt, '\n')) by {
        if has_char(kt, '\n') {
            let i = choose|i: int| 0 <= i < kt.len() && kt[i] == '\n';
        }
    }
    let l1 = kb + db;
    let l2 = ks + v.symnebula_core;
    let l3 = kt + dt;
    lemma_key_line(kb, db);
    lemma_key_line(ks, v.symnebula_core);
    lemma_key_line(kt, dt);
    let text = version_text(v);
    assert(text =~= l1 + seq!['\n'] + (l2 + seq!['\n'] + l3));
    lemma_lines_cons(l1, l2 + seq!['\n'] + l3);
    lemma_lines_cons(l2, l3);
    assert(l3.len() > 0);
    lemma_lines_single(l3);
    let ls = lines(text);
    assert(ls =~= seq![l1, l2, l3]);
    assert(ls.drop_last() =~= seq![l1, l2]);
    assert(ls.drop_last().drop_last() =~= seq![l1]);
    assert(ls.drop_last().drop_last().drop_last() =~= Seq::<Seq<char>>::empty());
    lemma_parse_decimal(v.brainstorm_version as nat);
    lemma_parse_decimal(v.topology_version as nat);
    assert(!starts_with(l2, kb)) by {
        assert(l2[0] != kb[0]);
        if starts_with(l2, kb) {
            assert(l2.take(kb.len() as int)[0] == l2[0]);
        }
    }
    assert(!starts_with(l3, kb)) by {
        assert(l3[0] != kb[0]);
        if starts_with(l3, kb) {
            assert(l3.take(kb.len() as int)[0] == l3[0]);
        }
    }
    assert(!starts_with(l3, ks)) by {
        assert(l3[0] != ks[0]);
        if starts_with(l3, ks) {
            assert(l3.take(ks.len() as int)[0] == l3[0]);
        }
    }
    let s0 = version_scan(ls.drop_last().drop_last().drop_last());
    let s1 = version_scan(ls.drop_last().drop_last());
    let s2 = version_scan(ls.drop_last());
    assert(s1 == version_step(s0, l1));
    assert(s2 == version_step(s1, l2));
    assert(version_scan(ls) == version_step(s2, l3));
}

// ============================================================
// Reusing cached clusters across ticks
// ============================================================

/// The clusters to use when a tick is loaded: the cached ones where their
/// topology version is that of the clusters just loaded (the topology has
/// not changed), else the loaded ones.
pub fn reuse_clusters(previous: Option<ClustersJson>, loaded: ClustersJson) -> (r: ClustersJson)
    ensures
        r == match previous {
            Some(p) => if p.topology_version == loaded.topology_version {
                p
            } else {
                loaded
            },
            None => loaded,
        },
{
    match previous {
        Some(p) => if p.topology_version == loaded.topology_version {
            p
        } else {
            loaded
        },
        None => loaded,
    }
}

} // verus!
