use vstd::prelude::*;

use crate::brainstorm::{escape, escape_chars, GraphNode, GraphSynapse, GraphXml, PortDef};
use crate::text::{
    chars_of, find, find_chars, join_lines, lemma_join_push, lines, push_all, push_str, lines_chars, slice_chars, split_second, split_second_chars,
    starts_with, starts_with_chars, string_of, trim, trim_chars, lemma_not_starts,
};

verus! {

// ============================================================
// graph.xml as plain values
// ============================================================

/// A node of graph.xml as plain values.
#[verifier::ext_equal]
pub struct NodeView {
    pub id: Seq<char>,
    pub node_type: Seq<char>,
    pub formula: Seq<char>,
    pub inputs: Seq<Seq<char>>,
    pub outputs: Seq<Seq<char>>,
}

/// graph.xml as plain values; a synapse is its (from, to) pair.
#[verifier::ext_equal]
pub struct XmlView {
    pub name: Seq<char>,
    pub version: Seq<char>,
    pub nodes: Seq<NodeView>,
    pub synapses: Seq<(Seq<char>, Seq<char>)>,
}

pub open spec fn strings_view(v: Seq<String>) -> Seq<Seq<char>> {
    Seq::new(v.len(), |i: int| v[i]@)
}

pub open spec fn char_vecs_view(v: Seq<Vec<char>>) -> Seq<Seq<char>> {
    Seq::new(v.len(), |i: int| v[i]@)
}

impl GraphNode {
    pub open spec fn view(&self) -> NodeView {
        NodeView {
            id: self.id@,
            node_type: self.node_type@,
            formula: self.formula@,
            inputs: strings_view(self.ports.inputs@),
            outputs: strings_view(self.ports.outputs@),
        }
    }
}

impl GraphSynapse {
    pub open spec fn view(&self) -> (Seq<char>, Seq<char>) {
        (self.from@, self.to@)
    }
}

impl GraphXml {
    pub open spec fn view(&self) -> XmlView {
        XmlView {
            name: self.name@,
            version: self.version@,
            nodes: Seq::new(self.nodes@.len(), |i: int| self.nodes@[i].view()),
            synapses: Seq::new(self.synapses@.len(), |i: int| self.synapses@[i].view()),
        }
    }
}

// ============================================================
// Reading graph.xml, line by line
// ============================================================

/// What the reader holds between lines: the document so far, and the node
/// being read (its id, type and formula), with a stack of port lists, one
/// per node opened and not yet closed.
#[verifier::ext_equal]
pub struct XmlScan {
    pub doc: XmlView,
    pub in_node: bool,
    pub cid: Seq<char>,
    pub ctype: Seq<char>,
    pub cformula: Seq<char>,
    pub in_ports: bool,
    pub ports: Seq<(Seq<Seq<char>>, Seq<Seq<char>>)>,
}

pub open spec fn lit(s: &str) -> Seq<char> {
    s@
}

/// The value of attribute `key` (as `key=`): the text after the character
/// that follows `key`, up to the next `"`.
pub open spec fn attr(t: Seq<char>, key: Seq<char>) -> Option<Seq<char>> {
    match find(t, key) {
        None => None,
        Some(s) => {
            let after = t.skip(s + key.len() + 1);
            match find(after, seq!['"']) {
                None => None,
                Some(e) => Some(after.take(e)),
            }
        },
    }
}

/// Reading attribute `key` of `t` cuts the text at a character boundary:
/// some character follows `key`, and it is a one-byte (ASCII) one.
pub open spec fn attr_safe(t: Seq<char>, key: Seq<char>) -> bool {
    match find(t, key) {
        None => true,
        Some(s) => s + key.len() < t.len() && (t[s + key.len()] as u32) < 128,
    }
}

/// A trimmed line that the reader takes without panicking.
pub open spec fn line_safe(t: Seq<char>) -> bool {
    &&& starts_with(t, lit("<nebula ")) ==> attr_safe(t, lit("name=")) && attr_safe(
        t,
        lit("version="),
    )
    &&& starts_with(t, lit("<node ")) ==> attr_safe(t, lit("id=")) && attr_safe(t, lit("type="))
}

/// graph.xml text that the reader takes without panicking.
pub open spec fn xml_safe(xml: Seq<char>) -> bool {
    forall|k: int| 0 <= k < lines(xml).len() ==> line_safe(trim(#[trigger] lines(xml)[k]))
}

pub open spec fn set_attr_name(st: XmlScan, v: Option<Seq<char>>) -> XmlScan {
    match v {
        Some(x) => XmlScan { doc: XmlView { name: x, ..st.doc }, ..st },
        None => st,
    }
}

pub open spec fn set_attr_version(st: XmlScan, v: Option<Seq<char>>) -> XmlScan {
    match v {
        Some(x) => XmlScan { doc: XmlView { version: x, ..st.doc }, ..st },
        None => st,
    }
}

/// `<nebula name=".." version="..">`
pub open spec fn header_step(st: XmlScan, t: Seq<char>) -> XmlScan {
    if starts_with(t, lit("<nebula ")) {
        set_attr_version(set_attr_name(st, attr(t, lit("name="))), attr(t, lit("version=")))
    } else {
        st
    }
}

/// `<node id=".." type="..">` opens a node: a fresh id, type, formula and port list.
pub open spec fn node_open_step(st: XmlScan, t: Seq<char>) -> XmlScan {
    if starts_with(t, lit("<node ")) {
        let id = match attr(t, lit("id=")) {
            Some(x) => x,
            None => seq![],
        };
        let ty = match attr(t, lit("type=")) {
            Some(x) => x,
            None => seq![],
        };
        XmlScan {
            in_node: true,
            cid: id,
            ctype: ty,
            cformula: seq![],
            in_ports: false,
            ports: st.ports.push((seq![], seq![])),
            ..st
        }
    } else {
        st
    }
}

/// `<formula>..</formula>` inside a node.
pub open spec fn formula_step(st: XmlScan, t: Seq<char>) -> XmlScan {
    if starts_with(t, lit("<formula>")) {
        let rest = t.skip(lit("<formula>").len() as int);
        match find(rest, lit("</formula>")) {
            Some(e) => XmlScan { cformula: rest.take(e), ..st },
            None => st,
        }
    } else {
        st
    }
}

/// The port name of a line `prefix NAME"...`.
pub open spec fn port_name(t: Seq<char>, prefix: Seq<char>) -> Option<Seq<char>> {
    if starts_with(t, prefix) {
        let rest = t.skip(prefix.len() as int);
        match find(rest, seq!['"']) {
            Some(e) => Some(rest.take(e)),
            None => None,
        }
    } else {
        None
    }
}

pub open spec fn add_input(st: XmlScan, v: Option<Seq<char>>) -> XmlScan {
    match v {
        Some(x) => if st.ports.len() > 0 {
            let last = st.ports.last();
            XmlScan { ports: st.ports.drop_last().push((last.0.push(x), last.1)), ..st }
        } else {
            st
        },
        None => st,
    }
}

pub open spec fn add_output(st: XmlScan, v: Option<Seq<char>>) -> XmlScan {
    match v {
        Some(x) => if st.ports.len() > 0 {
            let last = st.ports.last();
            XmlScan { ports: st.ports.drop_last().push((last.0, last.1.push(x))), ..st }
        } else {
            st
        },
        None => st,
    }
}

/// `<ports>`, `</ports>`, and the `<input name=".."/>` and
/// `<output name=".."/>` lines between them.
pub open spec fn ports_step(st: XmlScan, t: Seq<char>) -> XmlScan {
    let st1 = if starts_with(t, lit("<ports>")) {
        XmlScan { in_ports: true, ..st }
    } else {
        st
    };
    let st2 = if starts_with(t, lit("</ports>")) {
        XmlScan { in_ports: false, ..st1 }
    } else {
        st1
    };
    if st2.in_ports {
        add_output(
            add_input(st2, port_name(t, lit("<input name=\""))),
            port_name(t, lit("<output name=\"")),
        )
    } else {
        st2
    }
}

/// `</node>` closes the node: it is added with the ports on top of the stack.
pub open spec fn node_close_step(st: XmlScan, t: Seq<char>) -> XmlScan {
    if starts_with(t, lit("</node>")) {
        if st.ports.len() > 0 {
            let p = st.ports.last();
            let node = NodeView {
                id: st.cid,
                node_type: st.ctype,
                formula: st.cformula,
                inputs: p.0,
                outputs: p.1,
            };
            XmlScan {
                in_node: false,
                ports: st.ports.drop_last(),
                doc: XmlView { nodes: st.doc.nodes.push(node), ..st.doc },
                ..st
            }
        } else {
            XmlScan { in_node: false, ..st }
        }
    } else {
        st
    }
}

pub open spec fn in_node_step(st: XmlScan, t: Seq<char>) -> XmlScan {
    if st.in_node {
        node_close_step(ports_step(formula_step(st, t), t), t)
    } else {
        st
    }
}

/// The second `"`-separated piece of the second `key`-separated piece, or
/// nothing.
pub open spec fn synapse_end(t: Seq<char>, key: Seq<char>) -> Seq<char> {
    match split_second(t, key) {
        Some(s) => match split_second(s, seq!['"']) {
            Some(x) => x,
            None => seq![],
        },
        None => seq![],
    }
}

/// `<synapse from=".." to=".."/>`: kept when both ends are non-empty.
pub open spec fn synapse_step(st: XmlScan, t: Seq<char>) -> XmlScan {
    if starts_with(t, lit("<synapse ")) {
        let from = synapse_end(t, lit("from="));
        let to = synapse_end(t, lit("to="));
        if from.len() > 0 && to.len() > 0 {
            XmlScan { doc: XmlView { synapses: st.doc.synapses.push((from, to)), ..st.doc }, ..st }
        } else {
            st
        }
    } else {
        st
    }
}

/// What one line does to the reader (after trimming it).
pub open spec fn xml_step(st: XmlScan, line: Seq<char>) -> XmlScan {
    let t = trim(line);
    synapse_step(in_node_step(node_open_step(header_step(st, t), t), t), t)
}

pub open spec fn xml_start() -> XmlScan {
    XmlScan {
        doc: XmlView { name: lit("SymNebula"), version: lit("1.0"), nodes: seq![], synapses: seq![] },
        in_node: false,
        cid: seq![],
        ctype: seq![],
        cformula: seq![],
        in_ports: false,
        ports: seq![],
    }
}

/// The reader after the given lines, from `st`.
pub open spec fn xml_scan(st: XmlScan, ls: Seq<Seq<char>>) -> XmlScan
    decreases ls.len(),
{
    if ls.len() == 0 {
        st
    } else {
        xml_step(xml_scan(st, ls.drop_last()), ls.last())
    }
}

/// A `<node ` line starts a node from nothing: whatever the reader held
/// before it, afterwards the current id and type are the line's own `id=`
/// and `type=` attributes (empty where the line has none), the formula is
/// empty and a fresh, empty port list is on top of the stack; no id, type,
/// formula or port of an earlier node carries over.
pub proof fn law_node_line_starts_fresh(st1: XmlScan, st2: XmlScan, line: Seq<char>)
    requires
        starts_with(trim(line), lit("<node ")),
    ensures
        xml_step(st1, line).ctype == xml_step(st2, line).ctype,
        xml_step(st1, line).cid == xml_step(st2, line).cid,
        xml_step(st1, line).ctype == (match attr(trim(line), lit("type=")) {
            Some(x) => x,
            None => Seq::<char>::empty(),
        }),
        xml_step(st1, line).cid == (match attr(trim(line), lit("id=")) {
            Some(x) => x,
            None => Seq::<char>::empty(),
        }),
        xml_step(st1, line).cformula == Seq::<char>::empty(),
        xml_step(st1, line).in_node,
        !xml_step(st1, line).in_ports,
        xml_step(st1, line).ports == st1.ports.push((Seq::<Seq<char>>::empty(), Seq::<Seq<char>>::empty())),
{
    let t = trim(line);
    reveal_strlit("<node ");
    reveal_strlit("<nebula ");
    reveal_strlit("<formula>");
    reveal_strlit("</node>");
    reveal_strlit("<ports>");
    reveal_strlit("</ports>");
    assert(t[1] == 'n' && t[2] == 'o') by {
        assert(t.take(6)[1] == t[1] && t.take(6)[2] == t[2]);
    }
    lemma_not_starts(t, lit("<nebula "), 2);
    lemma_not_starts(t, lit("<formula>"), 1);
    lemma_not_starts(t, lit("</node>"), 1);
    lemma_not_starts(t, lit("<ports>"), 1);
    lemma_not_starts(t, lit("</ports>"), 1);
}

/// The document that graph.xml text reads as.
pub open spec fn read_xml(xml: Seq<char>) -> XmlView {
    xml_scan(xml_start(), lines(xml)).doc
}

// ============================================================
// The reader in executable form
// ============================================================

struct NodeChars {
    id: Vec<char>,
    node_type: Vec<char>,
    formula: Vec<char>,
    inputs: Vec<Vec<char>>,
    outputs: Vec<Vec<char>>,
}

impl NodeChars {
    spec fn view(&self) -> NodeView {
        NodeView {
            id: self.id@,
            node_type: self.node_type@,
            formula: self.formula@,
            inputs: char_vecs_view(self.inputs@),
            outputs: char_vecs_view(self.outputs@),
        }
    }
}

struct Reader {
    name: Vec<char>,
    version: Vec<char>,
    nodes: Vec<NodeChars>,
    synapses: Vec<(Vec<char>, Vec<char>)>,
    in_node: bool,
    cid: Vec<char>,
    ctype: Vec<char>,
    cformula: Vec<char>,
    in_ports: bool,
    ports: Vec<(Vec<Vec<char>>, Vec<Vec<char>>)>,
}

spec fn ports_view(p: (Vec<Vec<char>>, Vec<Vec<char>>)) -> (Seq<Seq<char>>, Seq<Seq<char>>) {
    (char_vecs_view(p.0@), char_vecs_view(p.1@))
}

impl Reader {
    spec fn view(&self) -> XmlScan {
        XmlScan {
            doc: XmlView {
                name: self.name@,
                version: self.version@,
                nodes: Seq::new(self.nodes@.len(), |i: int| self.nodes@[i].view()),
                synapses: Seq::new(
                    self.synapses@.len(),
                    |i: int| (self.synapses@[i].0@, self.synapses@[i].1@),
                ),
            },
            in_node: self.in_node,
            cid: self.cid@,
            ctype: self.ctype@,
            cformula: self.cformula@,
            in_ports: self.in_ports,
            ports: Seq::new(self.ports@.len(), |i: int| ports_view(self.ports@[i])),
        }
    }
}

/// Literal patterns of the format, as character vectors.
struct Keys {
    nebula: Vec<char>,
    name: Vec<char>,
    version: Vec<char>,
    node: Vec<char>,
    id: Vec<char>,
    ty: Vec<char>,
    formula: Vec<char>,
    formula_end: Vec<char>,
    ports: Vec<char>,
    ports_end: Vec<char>,
    input: Vec<char>,
    output: Vec<char>,
    node_end: Vec<char>,
    synapse: Vec<char>,
    from: Vec<char>,
    to: Vec<char>,
    quote: Vec<char>,
}

impl Keys {
    spec fn wf(&self) -> bool {
        &&& self.nebula@ == lit("<nebula ")
        &&& self.name@ == lit("name=")
        &&& self.version@ == lit("version=")
        &&& self.node@ == lit("<node ")
        &&& self.id@ == lit("id=")
        &&& self.ty@ == lit("type=")
        &&& self.formula@ == lit("<formula>")
        &&& self.formula_end@ == lit("</formula>")
        &&& self.ports@ == lit("<ports>")
        &&& self.ports_end@ == lit("</ports>")
        &&& self.input@ == lit("<input name=\"")
        &&& self.output@ == lit("<output name=\"")
        &&& self.node_end@ == lit("</node>")
        &&& self.synapse@ == lit("<synapse ")
        &&& self.from@ == lit("from=")
        &&& self.to@ == lit("to=")
        &&& self.quote@ == seq!['"']
    }

    fn new() -> (k: Keys)
        ensures
            k.wf(),
    {
        let k = Keys {
            nebula: chars_of("<nebula "),
            name: chars_of("name="),
            version: chars_of("version="),
            node: chars_of("<node "),
            id: chars_of("id="),
            ty: chars_of("type="),
            formula: chars_of("<formula>"),
            formula_end: chars_of("</formula>"),
            ports: chars_of("<ports>"),
            ports_end: chars_of("</ports>"),
            input: chars_of("<input name=\""),
            output: chars_of("<output name=\""),
            node_end: chars_of("</node>"),
            synapse: chars_of("<synapse "),
            from: chars_of("from="),
            to: chars_of("to="),
            quote: vec!['"'],
        };
        assert(k.quote@ =~= seq!['"']);
        k
    }
}

fn attr_exec(t: &[char], key: &[char], quote: &[char]) -> (r: Option<Vec<char>>)
    requires
        attr_safe(t@, key@),
        quote@ == seq!['"'],
    ensures
        match r {
            Some(v) => attr(t@, key@) == Some(v@),
            None => attr(t@, key@) is None,
        },
{
    match find_chars(t, key) {
        None => None,
        Some(s) => {
            assert(t@.len() == t.len());
            assert(s + key@.len() < t@.len());
            let after = slice_chars(t, s + key.len() + 1, t.len());
            match find_chars(after.as_slice(), quote) {
                None => None,
                Some(e) => {
                    proof {
                        crate::text::lemma_find_from(after@, quote@, 0);
                    }
                    Some(slice_chars(after.as_slice(), 0, e))
                },
            }
        },
    }
}

fn port_name_exec(t: &[char], prefix: &[char], quote: &[char]) -> (r: Option<Vec<char>>)
    requires
        quote@ == seq!['"'],
    ensures
        match r {
            Some(v) => port_name(t@, prefix@) == Some(v@),
            None => port_name(t@, prefix@) is None,
        },
{
    if starts_with_chars(t, prefix) {
        let rest = slice_chars(t, prefix.len(), t.len());
        match find_chars(rest.as_slice(), quote) {
            Some(e) => {
                proof {
                    crate::text::lemma_find_from(rest@, quote@, 0);
                }
                Some(slice_chars(rest.as_slice(), 0, e))
            },
            None => None,
        }
    } else {
        None
    }
}

fn synapse_end_exec(t: &[char], key: &[char], quote: &[char]) -> (r: Vec<char>)
    requires
        quote@ == seq!['"'],
    ensures
        r@ == synapse_end(t@, key@),
{
    match split_second_chars(t, key) {
        Some(s) => match split_second_chars(s.as_slice(), quote) {
            Some(x) => x,
            None => Vec::new(),
        },
        None => Vec::new(),
    }
}

proof fn lemma_push_char_vec(v: Seq<Vec<char>>, x: Vec<char>)
    ensures
        char_vecs_view(v.push(x)) == char_vecs_view(v).push(x@),
{
    assert(char_vecs_view(v.push(x)) =~= char_vecs_view(v).push(x@));
}

impl Reader {
    fn add_port(&mut self, x: Vec<char>, output: bool)
        ensures
            output ==> final(self)@ == add_output(old(self)@, Some(x@)),
            !output ==> final(self)@ == add_input(old(self)@, Some(x@)),
    {
        if self.ports.len() > 0 {
            let ghost old_ports = self.ports@;
            let (mut ins, mut outs) = self.ports.pop().unwrap();
            let ghost old_ins = ins@;
            let ghost old_outs = outs@;
            if output {
                outs.push(x);
            } else {
                ins.push(x);
            }
            proof {
                lemma_push_char_vec(old_ins, x);
                lemma_push_char_vec(old_outs, x);
            }
            self.ports.push((ins, outs));
            proof {
                let a = self@.ports;
                let b = old(self)@.ports;
                assert(old_ports.drop_last() == self.ports@.drop_last());
                if output {
                    assert(a =~= b.drop_last().push((b.last().0, b.last().1.push(x@))));
                } else {
                    assert(a =~= b.drop_last().push((b.last().0.push(x@), b.last().1)));
                }
            }
        }
    }

    fn header(&mut self, t: &[char], k: &Keys)
        requires
            k.wf(),
            line_safe(t@),
        ensures
            final(self)@ == header_step(old(self)@, t@),
    {
        if starts_with_chars(t, k.nebula.as_slice()) {
            match attr_exec(t, k.name.as_slice(), k.quote.as_slice()) {
                Some(v) => {
                    self.name = v;
                },
                None => {},
            }
            match attr_exec(t, k.version.as_slice(), k.quote.as_slice()) {
                Some(v) => {
                    self.version = v;
                },
                None => {},
            }
        }
    }

    fn node_open(&mut self, t: &[char], k: &Keys)
        requires
            k.wf(),
            line_safe(t@),
        ensures
            final(self)@ == node_open_step(old(self)@, t@),
    {
        if starts_with_chars(t, k.node.as_slice()) {
            self.in_node = true;
            self.cid = Vec::new();
            self.ctype = Vec::new();
            self.cformula = Vec::new();
            self.in_ports = false;
            match attr_exec(t, k.id.as_slice(), k.quote.as_slice()) {
                Some(v) => {
                    self.cid = v;
                },
                None => {},
            }
            match attr_exec(t, k.ty.as_slice(), k.quote.as_slice()) {
                Some(v) => {
                    self.ctype = v;
                },
                None => {},
            }
            self.ports.push((Vec::new(), Vec::new()));
            proof {
                assert(char_vecs_view(Seq::<Vec<char>>::empty()) =~= Seq::<Seq<char>>::empty());
                assert(self@.ports.last() == (Seq::<Seq<char>>::empty(), Seq::<Seq<char>>::empty()));
                assert(self@.ports =~= old(self)@.ports.push((seq![], seq![])));
                assert(self@.cformula =~= Seq::<char>::empty());
                if attr(t@, k.id@) is None {
                    assert(self@.cid =~= Seq::<char>::empty());
                }
                if attr(t@, k.ty@) is None {
                    assert(self@.ctype =~= Seq::<char>::empty());
                }
            }
        }
    }

    fn formula(&mut self, t: &[char], k: &Keys)
        requires
            k.wf(),
        ensures
            final(self)@ == formula_step(old(self)@, t@),
    {
        if starts_with_chars(t, k.formula.as_slice()) {
            let rest = slice_chars(t, k.formula.len(), t.len());
            assert(rest@ == t@.skip(lit("<formula>").len() as int));
            match find_chars(rest.as_slice(), k.formula_end.as_slice()) {
                Some(e) => {
                    proof {
                        crate::text::lemma_find_from(rest@, k.formula_end@, 0);
                    }
                    self.cformula = slice_chars(rest.as_slice(), 0, e);
                },
                None => {},
            }
        }
    }

    fn ports_line(&mut self, t: &[char], k: &Keys)
        requires
            k.wf(),
        ensures
            final(self)@ == ports_step(old(self)@, t@),
    {
        if starts_with_chars(t, k.ports.as_slice()) {
            self.in_ports = true;
        }
        if starts_with_chars(t, k.ports_end.as_slice()) {
            self.in_ports = false;
        }
        if self.in_ports {
            let ghost s4 = self@;
            match port_name_exec(t, k.input.as_slice(), k.quote.as_slice()) {
                Some(x) => self.add_port(x, false),
                None => {},
            }
            assert(self@ == add_input(s4, port_name(t@, k.input@)));
            match port_name_exec(t, k.output.as_slice(), k.quote.as_slice()) {
                Some(x) => self.add_port(x, true),
                None => {},
            }
        }
    }

    fn node_close(&mut self, t: &[char], k: &Keys)
        requires
            k.wf(),
        ensures
            final(self)@ == node_close_step(old(self)@, t@),
    {
        if starts_with_chars(t, k.node_end.as_slice()) {
            self.in_node = false;
            if self.ports.len() > 0 {
                let (ins, outs) = self.ports.pop().unwrap();
                let node = NodeChars {
                    id: self.cid.clone(),
                    node_type: self.ctype.clone(),
                    formula: self.cformula.clone(),
                    inputs: ins,
                    outputs: outs,
                };
                self.nodes.push(node);
                proof {
                    let s6 = old(self)@;
                    assert(self@.ports =~= s6.ports.drop_last());
                    assert(self@.doc.nodes =~= s6.doc.nodes.push(
                        NodeView {
                            id: s6.cid,
                            node_type: s6.ctype,
                            formula: s6.cformula,
                            inputs: s6.ports.last().0,
                            outputs: s6.ports.last().1,
                        },
                    ));
                }
            }
        }
    }

    fn synapse(&mut self, t: &[char], k: &Keys)
        requires
            k.wf(),
        ensures
            final(self)@ == synapse_step(old(self)@, t@),
    {
        if starts_with_chars(t, k.synapse.as_slice()) {
            let from = synapse_end_exec(t, k.from.as_slice(), k.quote.as_slice());
            let to = synapse_end_exec(t, k.to.as_slice(), k.quote.as_slice());
            if from.len() > 0 && to.len() > 0 {
                self.synapses.push((from, to));
                proof {
                    assert(self@.doc.synapses =~= old(self)@.doc.synapses.push((from@, to@)));
                }
            }
        }
    }

    fn step(&mut self, line: &[char], k: &Keys)
        requires
            k.wf(),
            line_safe(trim(line@)),
        ensures
            final(self)@ == xml_step(old(self)@, line@),
    {
        let tv = trim_chars(line);
        let t = tv.as_slice();
        self.header(t, k);
        self.node_open(t, k);
        if self.in_node {
            self.formula(t, k);
            self.ports_line(t, k);
            self.node_close(t, k);
        }
        self.synapse(t, k);
    }
}


fn strings_from(v: &Vec<Vec<char>>) -> (r: Vec<String>)
    ensures
        strings_view(r@) == char_vecs_view(v@),
{
    let mut r: Vec<String> = Vec::new();
    let mut i: usize = 0;
    while i < v.len()
        invariant
            i <= v@.len(),
            r@.len() == i,
            forall|j: int| 0 <= j < i ==> #[trigger] r@[j]@ == v@[j]@,
        decreases v.len() - i,
    {
        r.push(string_of(v[i].as_slice()));
        i = i + 1;
    }
    assert(strings_view(r@) =~= char_vecs_view(v@));
    r
}

fn attr_safe_exec(t: &[char], key: &[char]) -> (r: bool)
    ensures
        r == attr_safe(t@, key@),
{
    match find_chars(t, key) {
        None => true,
        Some(s) => {
            proof {
                crate::text::lemma_find_from(t@, key@, 0);
            }
            if key.len() < t.len() - s {
                (t[s + key.len()] as u32) < 128
            } else {
                false
            }
        },
    }
}

/// Whether the reader takes this graph.xml text without panicking: each
/// `<nebula ` line and each `<node ` line has a one-byte character after
/// each of its attribute keys.
pub fn xml_is_safe(xml: &str) -> (r: bool)
    ensures
        r == xml_safe(xml@),
{
    let k = Keys::new();
    let chars = chars_of(xml);
    let ls = lines_chars(chars.as_slice());
    let ghost all = lines(xml@);
    let mut i: usize = 0;
    while i < ls.len()
        invariant
            k.wf(),
            all == lines(xml@),
            i <= ls@.len() == all.len(),
            forall|j: int| 0 <= j < ls@.len() ==> #[trigger] ls@[j]@ == all[j],
            forall|j: int| 0 <= j < i ==> line_safe(trim(#[trigger] all[j])),
        decreases ls.len() - i,
    {
        let t = trim_chars(ls[i].as_slice());
        if starts_with_chars(t.as_slice(), k.nebula.as_slice()) {
            if !attr_safe_exec(t.as_slice(), k.name.as_slice()) || !attr_safe_exec(
                t.as_slice(),
                k.version.as_slice(),
            ) {
                assert(!line_safe(trim(all[i as int])));
                return false;
            }
        }
        if starts_with_chars(t.as_slice(), k.node.as_slice()) {
            if !attr_safe_exec(t.as_slice(), k.id.as_slice()) || !attr_safe_exec(
                t.as_slice(),
                k.ty.as_slice(),
            ) {
                assert(!line_safe(trim(all[i as int])));
                return false;
            }
        }
        assert(line_safe(trim(all[i as int])));
        i = i + 1;
    }
    true
}

impl GraphXml {
    /// Reads graph.xml line by line (see `xml_step`); this never fails.
    pub fn parse(xml: &str) -> (r: Result<Self, String>)
        requires
            xml_safe(xml@),
        ensures
            r matches Ok(g) && g.view() == read_xml(xml@),
    {
        let k = Keys::new();
        let chars = chars_of(xml);
        let ls = lines_chars(chars.as_slice());
        let mut rd = Reader {
            name: chars_of("SymNebula"),
            version: chars_of("1.0"),
            nodes: Vec::new(),
            synapses: Vec::new(),
            in_node: false,
            cid: Vec::new(),
            ctype: Vec::new(),
            cformula: Vec::new(),
            in_ports: false,
            ports: Vec::new(),
        };
        assert(rd@ =~= xml_start());
        let ghost all = lines(xml@);
        let mut i: usize = 0;
        while i < ls.len()
            invariant
                k.wf(),
                xml_safe(xml@),
                all == lines(xml@),
                i <= ls@.len() == all.len(),
                forall|j: int| 0 <= j < ls@.len() ==> #[trigger] ls@[j]@ == all[j],
                rd@ == xml_scan(xml_start(), all.take(i as int)),
            decreases ls.len() - i,
        {
            assert(line_safe(trim(all[i as int])));
            rd.step(ls[i].as_slice(), &k);
            proof {
                assert(all.take(i + 1).drop_last() =~= all.take(i as int));
            }
            i = i + 1;
        }
        assert(all.take(i as int) =~= all);
        let mut nodes: Vec<GraphNode> = Vec::new();
        let mut j: usize = 0;
        while j < rd.nodes.len()
            invariant
                j <= rd.nodes@.len(),
                nodes@.len() == j,
                forall|q: int| 0 <= q < j ==> #[trigger] nodes@[q].view() == rd.nodes@[q].view(),
            decreases rd.nodes.len() - j,
        {
            let n = &rd.nodes[j];
            nodes.push(
                GraphNode {
                    id: string_of(n.id.as_slice()),
                    node_type: string_of(n.node_type.as_slice()),
                    formula: string_of(n.formula.as_slice()),
                    ports: PortDef { inputs: strings_from(&n.inputs), outputs: strings_from(&n.outputs) },
                },
            );
            j = j + 1;
        }
        let mut synapses: Vec<GraphSynapse> = Vec::new();
        let mut q: usize = 0;
        while q < rd.synapses.len()
            invariant
                q <= rd.synapses@.len(),
                synapses@.len() == q,
                forall|p: int| 0 <= p < q ==> #[trigger] synapses@[p].view() == (rd.synapses@[p].0@, rd.synapses@[p].1@),
            decreases rd.synapses.len() - q,
        {
            let (f, t) = (&rd.synapses[q].0, &rd.synapses[q].1);
            synapses.push(GraphSynapse { from: string_of(f.as_slice()), to: string_of(t.as_slice()) });
            q = q + 1;
        }
        let g = GraphXml {
            name: string_of(rd.name.as_slice()),
            version: string_of(rd.version.as_slice()),
            nodes,
            synapses,
        };
        assert(g.view() =~= rd@.doc);
        Ok(g)
    }
}


// ============================================================
// Writing graph.xml
// ============================================================

pub open spec fn header_line(d: XmlView) -> Seq<char> {
    lit("<nebula name=\"") + escape(d.name) + lit("\" version=\"") + escape(d.version) + lit(
        "\">",
    )
}

pub open spec fn node_head_line(n: NodeView) -> Seq<char> {
    lit("        <node id=\"") + escape(n.id) + lit("\" type=\"") + escape(n.node_type) + lit(
        "\">",
    )
}

pub open spec fn formula_line(n: NodeView) -> Seq<char> {
    lit("            <formula>") + escape(n.formula) + lit("</formula>")
}

pub open spec fn input_line(x: Seq<char>) -> Seq<char> {
    lit("                <input name=\"") + escape(x) + lit("\"/>")
}

pub open spec fn output_line(x: Seq<char>) -> Seq<char> {
    lit("                <output name=\"") + escape(x) + lit("\"/>")
}

/// The ports block, written only for a node with some port.
pub open spec fn port_lines(n: NodeView) -> Seq<Seq<char>> {
    if n.inputs.len() > 0 || n.outputs.len() > 0 {
        seq![lit("            <ports>")] + n.inputs.map_values(|x: Seq<char>| input_line(x))
            + n.outputs.map_values(|x: Seq<char>| output_line(x)) + seq![
            lit("            </ports>"),
        ]
    } else {
        seq![]
    }
}

pub open spec fn node_lines(n: NodeView) -> Seq<Seq<char>> {
    seq![node_head_line(n), formula_line(n)] + port_lines(n) + seq![lit("        </node>")]
}

pub open spec fn nodes_lines(ns: Seq<NodeView>) -> Seq<Seq<char>>
    decreases ns.len(),
{
    if ns.len() == 0 {
        seq![]
    } else {
        nodes_lines(ns.drop_last()) + node_lines(ns.last())
    }
}

pub open spec fn synapse_line(s: (Seq<char>, Seq<char>)) -> Seq<char> {
    lit("        <synapse from=\"") + escape(s.0) + lit("\" to=\"") + escape(s.1) + lit("\"/>")
}

/// The synapses block, written only when there is a synapse.
pub open spec fn synapse_lines(ss: Seq<(Seq<char>, Seq<char>)>) -> Seq<Seq<char>> {
    if ss.len() == 0 {
        seq![]
    } else {
        seq![lit("    <synapses>")] + ss.map_values(|s: (Seq<char>, Seq<char>)| synapse_line(s))
            + seq![lit("    </synapses>")]
    }
}

/// The lines of graph.xml for a document, values escaped.
pub open spec fn xml_lines(d: XmlView) -> Seq<Seq<char>> {
    seq![header_line(d), lit("    <nodes>")] + nodes_lines(d.nodes) + seq![lit("    </nodes>")]
        + synapse_lines(d.synapses) + seq![lit("</nebula>")]
}

/// The text of graph.xml for a document: its lines, each ended by `\n`.
pub open spec fn xml_text(d: XmlView) -> Seq<char> {
    join_lines(xml_lines(d))
}

fn line3(a: &str, x: &str, b: &str) -> (r: Vec<char>)
    ensures
        r@ == a@ + escape(x@) + b@,
{
    let mut v: Vec<char> = Vec::new();
    push_str(&mut v, a);
    let xs = chars_of(x);
    let e = escape_chars(xs.as_slice());
    push_all(&mut v, e.as_slice());
    push_str(&mut v, b);
    assert(v@ =~= a@ + escape(x@) + b@);
    v
}

fn line5(a: &str, x: &str, b: &str, y: &str, c: &str) -> (r: Vec<char>)
    ensures
        r@ == a@ + escape(x@) + b@ + escape(y@) + c@,
{
    let mut v = line3(a, x, b);
    let ys = chars_of(y);
    let e = escape_chars(ys.as_slice());
    push_all(&mut v, e.as_slice());
    push_str(&mut v, c);
    v
}

fn emit(out: &mut Vec<char>, line: &[char])
    ensures
        final(out)@ == old(out)@ + line@ + seq!['\n'],
{
    push_all(out, line);
    out.push('\n');
}

fn emit_str(out: &mut Vec<char>, line: &str)
    ensures
        final(out)@ == old(out)@ + line@ + seq!['\n'],
{
    push_str(out, line);
    out.push('\n');
}

impl GraphNode {
    fn write_lines(&self, out: &mut Vec<char>, Ghost(before): Ghost<Seq<Seq<char>>>)
        requires
            old(out)@ == join_lines(before),
        ensures
            final(out)@ == join_lines(before + node_lines(self.view())),
    {
        let ghost n = self.view();
        let ghost mut em = before;
        let l1 = line5("        <node id=\"", self.id.as_str(), "\" type=\"", self.node_type.as_str(), "\">");
        emit(out, l1.as_slice());
        proof {
            lemma_join_push(em, l1@);
            em = em.push(l1@);
        }
        let l2 = line3("            <formula>", self.formula.as_str(), "</formula>");
        emit(out, l2.as_slice());
        proof {
            lemma_join_push(em, l2@);
            em = em.push(l2@);
        }
        let ghost mid = em;
        if self.ports.inputs.len() > 0 || self.ports.outputs.len() > 0 {
            emit_str(out, "            <ports>");
            proof {
                lemma_join_push(em, lit("            <ports>"));
                em = em.push(lit("            <ports>"));
            }
            let ghost em0 = em;
            let mut i: usize = 0;
            while i < self.ports.inputs.len()
                invariant
                    n == self.view(),
                    i <= self.ports.inputs@.len(),
                    n.inputs.len() == self.ports.inputs@.len(),
                    em == em0 + n.inputs.take(i as int).map_values(|x: Seq<char>| input_line(x)),
                    out@ == join_lines(em),
                decreases self.ports.inputs.len() - i,
            {
                let l = line3("                <input name=\"", self.ports.inputs[i].as_str(), "\"/>");
                emit(out, l.as_slice());
                proof {
                    lemma_join_push(em, l@);
                    assert(n.inputs[i as int] == self.ports.inputs@[i as int]@);
                    assert(n.inputs.take(i + 1).map_values(|x: Seq<char>| input_line(x))
                        =~= n.inputs.take(i as int).map_values(|x: Seq<char>| input_line(x)).push(l@));
                    em = em.push(l@);
                }
                i = i + 1;
            }
            assert(n.inputs.take(i as int) =~= n.inputs);
            let ghost em1 = em;
            let mut j: usize = 0;
            while j < self.ports.outputs.len()
                invariant
                    n == self.view(),
                    j <= self.ports.outputs@.len(),
                    n.outputs.len() == self.ports.outputs@.len(),
                    em == em1 + n.outputs.take(j as int).map_values(|x: Seq<char>| output_line(x)),
                    out@ == join_lines(em),
                decreases self.ports.outputs.len() - j,
            {
                let l = line3("                <output name=\"", self.ports.outputs[j].as_str(), "\"/>");
                emit(out, l.as_slice());
                proof {
                    lemma_join_push(em, l@);
                    assert(n.outputs[j as int] == self.ports.outputs@[j as int]@);
                    assert(n.outputs.take(j + 1).map_values(|x: Seq<char>| output_line(x))
                        =~= n.outputs.take(j as int).map_values(|x: Seq<char>| output_line(x)).push(l@));
                    em = em.push(l@);
                }
                j = j + 1;
            }
            assert(n.outputs.take(j as int) =~= n.outputs);
            emit_str(out, "            </ports>");
            proof {
                lemma_join_push(em, lit("            </ports>"));
                em = em.push(lit("            </ports>"));
                assert(em =~= mid + port_lines(n));
            }
        } else {
            assert(em =~= mid + port_lines(n));
        }
        emit_str(out, "        </node>");
        proof {
            lemma_join_push(em, lit("        </node>"));
            em = em.push(lit("        </node>"));
            assert(em =~= before + node_lines(n));
        }
    }
}

impl GraphXml {
    /// The text of graph.xml for this document (what its display writes).
    pub fn to_xml(&self) -> (r: String)
        ensures
            r@ == xml_text(self.view()),
    {
        let ghost d = self.view();
        let mut out: Vec<char> = Vec::new();
        let ghost mut em: Seq<Seq<char>> = seq![];
        let l1 = line5("<nebula name=\"", self.name.as_str(), "\" version=\"", self.version.as_str(), "\">");
        emit(&mut out, l1.as_slice());
        proof {
            lemma_join_push(em, l1@);
            em = em.push(l1@);
        }
        emit_str(&mut out, "    <nodes>");
        proof {
            lemma_join_push(em, lit("    <nodes>"));
            em = em.push(lit("    <nodes>"));
        }
        let ghost em0 = em;
        let mut i: usize = 0;
        while i < self.nodes.len()
            invariant
                d == self.view(),
                i <= self.nodes@.len(),
                em == em0 + nodes_lines(d.nodes.take(i as int)),
                out@ == join_lines(em),
            decreases self.nodes.len() - i,
        {
            self.nodes[i].write_lines(&mut out, Ghost(em));
            proof {
                assert(d.nodes.take(i + 1).drop_last() =~= d.nodes.take(i as int));
                assert(d.nodes.take(i + 1).last() == self.nodes@[i as int].view());
                em = em + node_lines(self.nodes@[i as int].view());
                assert(em =~= em0 + nodes_lines(d.nodes.take(i + 1)));
            }
            i = i + 1;
        }
        assert(d.nodes.take(i as int) =~= d.nodes);
        emit_str(&mut out, "    </nodes>");
        proof {
            lemma_join_push(em, lit("    </nodes>"));
            em = em.push(lit("    </nodes>"));
        }
        let ghost em1 = em;
        if self.synapses.len() > 0 {
            emit_str(&mut out, "    <synapses>");
            proof {
                lemma_join_push(em, lit("    <synapses>"));
                em = em.push(lit("    <synapses>"));
            }
            let ghost em2 = em;
            let mut k: usize = 0;
            while k < self.synapses.len()
                invariant
                    d == self.view(),
                    k <= self.synapses@.len(),
                    em == em2 + d.synapses.take(k as int).map_values(
                        |s: (Seq<char>, Seq<char>)| synapse_line(s),
                    ),
                    out@ == join_lines(em),
                decreases self.synapses.len() - k,
            {
                let l = line5(
                    "        <synapse from=\"",
                    self.synapses[k].from.as_str(),
                    "\" to=\"",
                    self.synapses[k].to.as_str(),
                    "\"/>",
                );
                emit(&mut out, l.as_slice());
                proof {
                    lemma_join_push(em, l@);
                    assert(d.synapses[k as int] == self.synapses@[k as int].view());
                    assert(d.synapses.take(k + 1).map_values(
                        |s: (Seq<char>, Seq<char>)| synapse_line(s),
                    ) =~= d.synapses.take(k as int).map_values(
                        |s: (Seq<char>, Seq<char>)| synapse_line(s),
                    ).push(l@));
                    em = em.push(l@);
                }
                k = k + 1;
            }
            assert(d.synapses.take(k as int) =~= d.synapses);
            emit_str(&mut out, "    </synapses>");
            proof {
                lemma_join_push(em, lit("    </synapses>"));
                em = em.push(lit("    </synapses>"));
                assert(em =~= em1 + synapse_lines(d.synapses));
            }
        } else {
            assert(em =~= em1 + synapse_lines(d.synapses));
        }
        emit_str(&mut out, "</nebula>");
        proof {
            lemma_join_push(em, lit("</nebula>"));
            em = em.push(lit("</nebula>"));
            assert(em =~= xml_lines(d));
        }
        string_of(out.as_slice())
    }
}

} // verus!
