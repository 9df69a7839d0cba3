use vstd::prelude::*;

use crate::brainstorm::{escape, lemma_escape_plain, xml_plain};
use crate::graph_xml::{
    add_input, add_output, attr, formula_line, header_line, in_node_step, input_line, line_safe,
    lit, node_head_line, node_lines, nodes_lines, output_line, port_lines, synapse_lines, xml_lines, xml_text, read_xml, xml_safe, xml_start, port_name, synapse_end, synapse_line, xml_scan, xml_step,
    NodeView, XmlScan, XmlView,
};
use crate::text::{
    find, has_char, lemma_lines_join, lines, lemma_find_first, lemma_find_none, plain_line, split_second, lemma_not_starts, lemma_trim_indent, lemma_trim_noop, matches_at,
    starts_with, trim,
};

verus! {

proof fn lemma_find_char_first(t: Seq<char>, c: char, m: int)
    requires
        0 <= m < t.len(),
        t[m] == c,
        forall|j: int| 0 <= j < m ==> t[j] != c,
    ensures
        find(t, seq![c]) == Some(m),
{
    let p = seq![c];
    assert(matches_at(t, p, m)) by {
        assert(t.subrange(m, m + 1) =~= p);
    }
    assert forall|j: int| 0 <= j < m implies t[j] != p[0] || #[trigger] t[j + p.len() - 1]
        != p[p.len() - 1] by {}
    lemma_find_first(t, p, m);
}

/// Text that graph.xml carries on one line as it is: nothing to escape, no `\n`.
pub open spec fn one_line(s: Seq<char>) -> bool {
    xml_plain(s) && !has_char(s, '\n')
}

/// A value that graph.xml carries inside an attribute: also no `=`.
pub open spec fn attr_value(s: Seq<char>) -> bool {
    one_line(s) && !has_char(s, '=')
}

pub open spec fn idle(st: XmlScan) -> bool {
    !st.in_node && !st.in_ports && st.ports.len() == 0
}

proof fn lemma_header(st: XmlScan, d: XmlView)
    requires
        idle(st),
        attr_value(d.name),
        one_line(d.version),
    ensures
        line_safe(trim(header_line(d))),
        xml_step(st, header_line(d)) == (XmlScan {
            doc: XmlView { name: d.name, version: d.version, ..st.doc },
            ..st
        }),
{
    reveal_strlit("<nebula name=\"");
    reveal_strlit("\" version=\"");
    reveal_strlit("\">");
    reveal_strlit("<nebula ");
    reveal_strlit("name=");
    reveal_strlit("version=");
    reveal_strlit("<node ");
    reveal_strlit("<synapse ");
    lemma_escape_plain(d.name);
    lemma_escape_plain(d.version);
    let a = lit("<nebula name=\"");
    let b = lit("\" version=\"");
    let c = lit("\">");
    let n = d.name;
    let v = d.version;
    let t = header_line(d);
    assert(t == a + n + b + v + c);
    assert(t[0] == '<');
    assert(t.last() == '>');
    lemma_trim_noop(t);
    assert(starts_with(t, lit("<nebula "))) by {
        assert(t.take(8) =~= lit("<nebula "));
    }
    // name= sits at 8
    let pn = lit("name=");
    assert(matches_at(t, pn, 8)) by {
        assert(t.subrange(8, 13) =~= pn);
    }
    assert forall|j: int| 0 <= j < 8 implies t[j] != pn[0] || #[trigger] t[j + pn.len() - 1]
        != pn[pn.len() - 1] by {
        assert(t[j + 4] == a[j + 4]);
    }
    lemma_find_first(t, pn, 8);
    let after_n = t.skip(14);
    assert(after_n =~= n + b + v + c);
    assert forall|j: int| 0 <= j < n.len() implies after_n[j] != '"' by {
        assert(after_n[j] == n[j]);
    }
    assert(after_n[n.len() as int] == '"');
    lemma_find_char_first(after_n, '"', n.len() as int);
    assert(after_n.take(n.len() as int) =~= n);
    assert(attr(t, pn) == Some(n));
    // version= sits after the name
    let q: int = 14 + n.len() as int + 2;
    let pv = lit("version=");
    assert(matches_at(t, pv, q)) by {
        assert(t.subrange(q, q + 8) =~= pv);
    }
    assert forall|j: int| 0 <= j < q implies t[j] != pv[0] || #[trigger] t[j + pv.len() - 1]
        != pv[pv.len() - 1] by {
        let i = j + 7;
        if i < 14 {
            assert(t[i] == a[i]);
            if i == 12 {
                assert(t[j] == a[j]);
            }
        } else if i < 14 + n.len() {
            assert(t[i] == n[i - 14]);
        } else {
            assert(t[i] == b[i - 14 - n.len()]);
        }
    }
    lemma_find_first(t, pv, q);
    let after_v = t.skip(q + 9);
    assert(after_v =~= v + c);
    assert forall|j: int| 0 <= j < v.len() implies after_v[j] != '"' by {
        assert(after_v[j] == v[j]);
    }
    assert(after_v[v.len() as int] == '"');
    lemma_find_char_first(after_v, '"', v.len() as int);
    assert(after_v.take(v.len() as int) =~= v);
    assert(attr(t, pv) == Some(v));
    assert(t[13] == '"');
    assert(t[q + 8] == '"');
    lemma_not_starts(t, lit("<node "), 2);
    lemma_not_starts(t, lit("<synapse "), 1);
}


/// A line that none of the reader's patterns takes leaves an idle reader as it is.
proof fn lemma_inert(st: XmlScan, l: Seq<char>, k: int)
    requires
        !st.in_node,
        0 <= k < l.len(),
        forall|j: int| 0 <= j < k ==> #[trigger] l[j] == ' ',
        l[k] == '<',
        l.last() == '>',
        !starts_with(l.skip(k), lit("<nebula ")),
        !starts_with(l.skip(k), lit("<node ")),
        !starts_with(l.skip(k), lit("<synapse ")),
    ensures
        trim(l) == l.skip(k),
        line_safe(trim(l)),
        xml_step(st, l) == st,
{
    lemma_trim_indent(l, k);
}

proof fn lemma_nodes_open(st: XmlScan)
    requires
        !st.in_node,
    ensures
        line_safe(trim(lit("    <nodes>"))),
        xml_step(st, lit("    <nodes>")) == st,
{
    reveal_strlit("    <nodes>");
    reveal_strlit("<nebula ");
    reveal_strlit("<node ");
    reveal_strlit("<synapse ");
    let l = lit("    <nodes>");
    lemma_not_starts(l.skip(4), lit("<nebula "), 2);
    lemma_not_starts(l.skip(4), lit("<node "), 5);
    lemma_not_starts(l.skip(4), lit("<synapse "), 1);
    lemma_inert(st, l, 4);
}

proof fn lemma_nodes_close(st: XmlScan)
    requires
        !st.in_node,
    ensures
        line_safe(trim(lit("    </nodes>"))),
        xml_step(st, lit("    </nodes>")) == st,
{
    reveal_strlit("    </nodes>");
    reveal_strlit("<nebula ");
    reveal_strlit("<node ");
    reveal_strlit("<synapse ");
    let l = lit("    </nodes>");
    lemma_not_starts(l.skip(4), lit("<nebula "), 1);
    lemma_not_starts(l.skip(4), lit("<node "), 1);
    lemma_not_starts(l.skip(4), lit("<synapse "), 1);
    lemma_inert(st, l, 4);
}

proof fn lemma_synapses_open(st: XmlScan)
    requires
        !st.in_node,
    ensures
        line_safe(trim(lit("    <synapses>"))),
        xml_step(st, lit("    <synapses>")) == st,
{
    reveal_strlit("    <synapses>");
    reveal_strlit("<nebula ");
    reveal_strlit("<node ");
    reveal_strlit("<synapse ");
    let l = lit("    <synapses>");
    lemma_not_starts(l.skip(4), lit("<nebula "), 1);
    lemma_not_starts(l.skip(4), lit("<node "), 1);
    lemma_not_starts(l.skip(4), lit("<synapse "), 8);
    lemma_inert(st, l, 4);
}

proof fn lemma_synapses_close(st: XmlScan)
    requires
        !st.in_node,
    ensures
        line_safe(trim(lit("    </synapses>"))),
        xml_step(st, lit("    </synapses>")) == st,
{
    reveal_strlit("    </synapses>");
    reveal_strlit("<nebula ");
    reveal_strlit("<node ");
    reveal_strlit("<synapse ");
    let l = lit("    </synapses>");
    lemma_not_starts(l.skip(4), lit("<nebula "), 1);
    lemma_not_starts(l.skip(4), lit("<node "), 1);
    lemma_not_starts(l.skip(4), lit("<synapse "), 1);
    lemma_inert(st, l, 4);
}

proof fn lemma_nebula_close(st: XmlScan)
    requires
        !st.in_node,
    ensures
        line_safe(trim(lit("</nebula>"))),
        xml_step(st, lit("</nebula>")) == st,
{
    reveal_strlit("</nebula>");
    reveal_strlit("<nebula ");
    reveal_strlit("<node ");
    reveal_strlit("<synapse ");
    let l = lit("</nebula>");
    assert(l.skip(0) =~= l);
    lemma_not_starts(l, lit("<nebula "), 1);
    lemma_not_starts(l, lit("<node "), 1);
    lemma_not_starts(l, lit("<synapse "), 1);
    lemma_inert(st, l, 0);
}


/// A line inside a node that none of the outer patterns takes goes to the
/// node reader only.
proof fn lemma_body_line(st: XmlScan, l: Seq<char>, k: int)
    requires
        st.in_node,
        0 <= k < l.len(),
        forall|j: int| 0 <= j < k ==> #[trigger] l[j] == ' ',
        l[k] == '<',
        l.last() == '>',
        !starts_with(l.skip(k), lit("<nebula ")),
        !starts_with(l.skip(k), lit("<node ")),
        !starts_with(l.skip(k), lit("<synapse ")),
    ensures
        trim(l) == l.skip(k),
        line_safe(trim(l)),
        xml_step(st, l) == in_node_step(st, l.skip(k)),
        !in_node_step(st, l.skip(k)).in_node ==> xml_step(st, l) == in_node_step(st, l.skip(k)),
{
    lemma_trim_indent(l, k);
}

proof fn lemma_node_head(st: XmlScan, n: NodeView)
    requires
        idle(st),
        attr_value(n.id),
        one_line(n.node_type),
    ensures
        line_safe(trim(node_head_line(n))),
        xml_step(st, node_head_line(n)) == (XmlScan {
            in_node: true,
            cid: n.id,
            ctype: n.node_type,
            cformula: seq![],
            in_ports: false,
            ports: seq![(seq![], seq![])],
            ..st
        }),
{
    reveal_strlit("        <node id=\"");
    reveal_strlit("<node id=\"");
    reveal_strlit("\" type=\"");
    reveal_strlit("\">");
    reveal_strlit("<nebula ");
    reveal_strlit("<node ");
    reveal_strlit("id=");
    reveal_strlit("type=");
    reveal_strlit("<formula>");
    reveal_strlit("<ports>");
    reveal_strlit("</ports>");
    reveal_strlit("</node>");
    reveal_strlit("<synapse ");
    lemma_escape_plain(n.id);
    lemma_escape_plain(n.node_type);
    let l = node_head_line(n);
    let a = lit("<node id=\"");
    let b = lit("\" type=\"");
    let e = lit("\">");
    let id = n.id;
    let ty = n.node_type;
    let c = a + id + b + ty + e;
    assert(l == lit("        <node id=\"") + id + b + ty + e);
    assert(l.skip(8) =~= c);
    assert(l.last() == '>');
    lemma_trim_indent(l, 8);
    assert(starts_with(c, lit("<node "))) by {
        assert(c.take(6) =~= lit("<node "));
    }
    // id= sits at 6
    let pi = lit("id=");
    assert(matches_at(c, pi, 6)) by {
        assert(c.subrange(6, 9) =~= pi);
    }
    assert forall|j: int| 0 <= j < 6 implies c[j] != pi[0] || #[trigger] c[j + pi.len() - 1]
        != pi[pi.len() - 1] by {
        assert(c[j + 2] == a[j + 2]);
    }
    lemma_find_first(c, pi, 6);
    let after_i = c.skip(10);
    assert(after_i =~= id + b + ty + e);
    assert forall|j: int| 0 <= j < id.len() implies after_i[j] != '"' by {
        assert(after_i[j] == id[j]);
    }
    assert(after_i[id.len() as int] == '"');
    lemma_find_char_first(after_i, '"', id.len() as int);
    assert(after_i.take(id.len() as int) =~= id);
    assert(attr(c, pi) == Some(id));
    // type= sits after the id
    let m: int = 10 + id.len() as int + 2;
    let pt = lit("type=");
    assert(matches_at(c, pt, m)) by {
        assert(c.subrange(m, m + 5) =~= pt);
    }
    assert forall|j: int| 0 <= j < m implies c[j] != pt[0] || #[trigger] c[j + pt.len() - 1]
        != pt[pt.len() - 1] by {
        let i = j + 4;
        if i < 10 {
            assert(c[i] == a[i]);
            if i == 8 {
                assert(c[j] == a[j]);
            }
        } else if i < 10 + id.len() {
            assert(c[i] == id[i - 10]);
        } else {
            assert(c[i] == b[i - 10 - id.len()]);
        }
    }
    lemma_find_first(c, pt, m);
    let after_t = c.skip(m + 6);
    assert(after_t =~= ty + e);
    assert forall|j: int| 0 <= j < ty.len() implies after_t[j] != '"' by {
        assert(after_t[j] == ty[j]);
    }
    assert(after_t[ty.len() as int] == '"');
    lemma_find_char_first(after_t, '"', ty.len() as int);
    assert(after_t.take(ty.len() as int) =~= ty);
    assert(attr(c, pt) == Some(ty));
    assert(c[9] == '"');
    assert(c[m + 5] == '"');
    lemma_not_starts(c, lit("<nebula "), 2);
    lemma_not_starts(c, lit("<formula>"), 1);
    lemma_not_starts(c, lit("<ports>"), 1);
    lemma_not_starts(c, lit("</ports>"), 1);
    lemma_not_starts(c, lit("</node>"), 1);
    lemma_not_starts(c, lit("<synapse "), 1);
}

proof fn lemma_formula(st: XmlScan, n: NodeView)
    requires
        st.in_node,
        !st.in_ports,
        one_line(n.formula),
    ensures
        line_safe(trim(formula_line(n))),
        xml_step(st, formula_line(n)) == (XmlScan { cformula: n.formula, ..st }),
{
    reveal_strlit("            <formula>");
    reveal_strlit("<formula>");
    reveal_strlit("</formula>");
    reveal_strlit("<nebula ");
    reveal_strlit("<node ");
    reveal_strlit("<ports>");
    reveal_strlit("</ports>");
    reveal_strlit("</node>");
    reveal_strlit("<synapse ");
    lemma_escape_plain(n.formula);
    let l = formula_line(n);
    let f = n.formula;
    let c = lit("<formula>") + f + lit("</formula>");
    assert(l.skip(12) =~= c);
    assert(l.last() == '>');
    lemma_not_starts(c, lit("<nebula "), 1);
    lemma_not_starts(c, lit("<node "), 1);
    lemma_not_starts(c, lit("<synapse "), 1);
    lemma_body_line(st, l, 12);
    assert(starts_with(c, lit("<formula>"))) by {
        assert(c.take(9) =~= lit("<formula>"));
    }
    let rest = c.skip(9);
    assert(rest =~= f + lit("</formula>"));
    let pe = lit("</formula>");
    assert(matches_at(rest, pe, f.len() as int)) by {
        assert(rest.subrange(f.len() as int, f.len() as int + 10) =~= pe);
    }
    assert forall|j: int| 0 <= j < f.len() implies rest[j] != pe[0] || #[trigger] rest[j
        + pe.len() - 1] != pe[pe.len() - 1] by {
        assert(rest[j] == f[j]);
    }
    lemma_find_first(rest, pe, f.len() as int);
    assert(rest.take(f.len() as int) =~= f);
    lemma_not_starts(c, lit("<ports>"), 1);
    lemma_not_starts(c, lit("</ports>"), 1);
    lemma_not_starts(c, lit("</node>"), 1);
}

proof fn lemma_ports_open(st: XmlScan)
    requires
        st.in_node,
        !st.in_ports,
    ensures
        line_safe(trim(lit("            <ports>"))),
        xml_step(st, lit("            <ports>")) == (XmlScan { in_ports: true, ..st }),
{
    reveal_strlit("            <ports>");
    reveal_strlit("<formula>");
    reveal_strlit("<nebula ");
    reveal_strlit("<node ");
    reveal_strlit("<ports>");
    reveal_strlit("</ports>");
    reveal_strlit("</node>");
    reveal_strlit("<synapse ");
    reveal_strlit("<input name=\"");
    reveal_strlit("<output name=\"");
    let l = lit("            <ports>");
    let c = lit("<ports>");
    assert(l.skip(12) =~= c);
    lemma_not_starts(c, lit("<nebula "), 1);
    lemma_not_starts(c, lit("<node "), 1);
    lemma_not_starts(c, lit("<synapse "), 1);
    lemma_body_line(st, l, 12);
    lemma_not_starts(c, lit("<formula>"), 1);
    assert(starts_with(c, lit("<ports>"))) by {
        assert(c.take(7) =~= c);
    }
    lemma_not_starts(c, lit("</ports>"), 1);
    lemma_not_starts(c, lit("<input name=\""), 1);
    lemma_not_starts(c, lit("<output name=\""), 1);
    lemma_not_starts(c, lit("</node>"), 1);
}

proof fn lemma_ports_close(st: XmlScan)
    requires
        st.in_node,
        st.in_ports,
    ensures
        line_safe(trim(lit("            </ports>"))),
        xml_step(st, lit("            </ports>")) == (XmlScan { in_ports: false, ..st }),
{
    reveal_strlit("            </ports>");
    reveal_strlit("<formula>");
    reveal_strlit("<nebula ");
    reveal_strlit("<node ");
    reveal_strlit("<ports>");
    reveal_strlit("</ports>");
    reveal_strlit("</node>");
    reveal_strlit("<synapse ");
    let l = lit("            </ports>");
    let c = lit("</ports>");
    assert(l.skip(12) =~= c);
    lemma_not_starts(c, lit("<nebula "), 1);
    lemma_not_starts(c, lit("<node "), 1);
    lemma_not_starts(c, lit("<synapse "), 1);
    lemma_body_line(st, l, 12);
    lemma_not_starts(c, lit("<formula>"), 1);
    lemma_not_starts(c, lit("<ports>"), 1);
    assert(starts_with(c, lit("</ports>"))) by {
        assert(c.take(8) =~= c);
    }
    lemma_not_starts(c, lit("</node>"), 2);
}

proof fn lemma_node_close(st: XmlScan)
    requires
        st.in_node,
        !st.in_ports,
        st.ports.len() == 1,
    ensures
        line_safe(trim(lit("        </node>"))),
        xml_step(st, lit("        </node>")) == (XmlScan {
            in_node: false,
            ports: seq![],
            doc: XmlView {
                nodes: st.doc.nodes.push(
                    NodeView {
                        id: st.cid,
                        node_type: st.ctype,
                        formula: st.cformula,
                        inputs: st.ports[0].0,
                        outputs: st.ports[0].1,
                    },
                ),
                ..st.doc
            },
            ..st
        }),
{
    reveal_strlit("        </node>");
    reveal_strlit("<formula>");
    reveal_strlit("<nebula ");
    reveal_strlit("<node ");
    reveal_strlit("<ports>");
    reveal_strlit("</ports>");
    reveal_strlit("</node>");
    reveal_strlit("<synapse ");
    let l = lit("        </node>");
    let c = lit("</node>");
    assert(l.skip(8) =~= c);
    lemma_not_starts(c, lit("<nebula "), 1);
    lemma_not_starts(c, lit("<node "), 1);
    lemma_not_starts(c, lit("<synapse "), 1);
    lemma_body_line(st, l, 8);
    lemma_not_starts(c, lit("<formula>"), 1);
    lemma_not_starts(c, lit("<ports>"), 1);
    lemma_not_starts(c, lit("</ports>"), 2);
    assert(starts_with(c, lit("</node>"))) by {
        assert(c.take(7) =~= c);
    }
    assert(st.ports.drop_last() =~= Seq::<(Seq<Seq<char>>, Seq<Seq<char>>)>::empty());
    assert(st.ports.last() == st.ports[0]);
}

proof fn lemma_port_line(st: XmlScan, x: Seq<char>, output: bool)
    requires
        st.in_node,
        st.in_ports,
        st.ports.len() > 0,
        one_line(x),
    ensures
        output ==> line_safe(trim(output_line(x))),
        output ==> xml_step(st, output_line(x)) == add_output(st, Some(x)),
        !output ==> line_safe(trim(input_line(x))),
        !output ==> xml_step(st, input_line(x)) == add_input(st, Some(x)),
{
    reveal_strlit("                <input name=\"");
    reveal_strlit("                <output name=\"");
    reveal_strlit("\"/>");
    reveal_strlit("<formula>");
    reveal_strlit("<nebula ");
    reveal_strlit("<node ");
    reveal_strlit("<ports>");
    reveal_strlit("</ports>");
    reveal_strlit("</node>");
    reveal_strlit("<synapse ");
    reveal_strlit("<input name=\"");
    reveal_strlit("<output name=\"");
    lemma_escape_plain(x);
    let e = lit("\"/>");
    let pre = if output {
        lit("<output name=\"")
    } else {
        lit("<input name=\"")
    };
    let l = if output {
        output_line(x)
    } else {
        input_line(x)
    };
    let c = pre + x + e;
    assert(l.skip(16) =~= c);
    assert(l.last() == '>');
    lemma_not_starts(c, lit("<nebula "), 1);
    lemma_not_starts(c, lit("<node "), 1);
    lemma_not_starts(c, lit("<synapse "), 1);
    lemma_body_line(st, l, 16);
    lemma_not_starts(c, lit("<formula>"), 1);
    lemma_not_starts(c, lit("<ports>"), 1);
    lemma_not_starts(c, lit("</ports>"), 1);
    lemma_not_starts(c, lit("</node>"), 1);
    assert(starts_with(c, pre)) by {
        assert(c.take(pre.len() as int) =~= pre);
    }
    let rest = c.skip(pre.len() as int);
    assert(rest =~= x + e);
    assert forall|j: int| 0 <= j < x.len() implies rest[j] != '"' by {
        assert(rest[j] == x[j]);
    }
    assert(rest[x.len() as int] == '"');
    lemma_find_char_first(rest, '"', x.len() as int);
    assert(rest.take(x.len() as int) =~= x);
    if output {
        lemma_not_starts(c, lit("<input name=\""), 1);
        assert(port_name(c, lit("<output name=\"")) == Some(x));
    } else {
        lemma_not_starts(c, lit("<output name=\""), 1);
        assert(port_name(c, lit("<input name=\"")) == Some(x));
    }
}


#[verifier::spinoff_prover]
#[verifier::rlimit(40)]
proof fn lemma_synapse(st: XmlScan, sy: (Seq<char>, Seq<char>))
    requires
        !st.in_node,
        attr_value(sy.0),
        attr_value(sy.1),
        sy.0.len() > 0,
        sy.1.len() > 0,
    ensures
        line_safe(trim(synapse_line(sy))),
        xml_step(st, synapse_line(sy)) == (XmlScan {
            doc: XmlView { synapses: st.doc.synapses.push(sy), ..st.doc },
            ..st
        }),
{
    reveal_strlit("        <synapse from=\"");
    reveal_strlit("<synapse from=\"");
    reveal_strlit("\" to=\"");
    reveal_strlit("\"/>");
    reveal_strlit("<nebula ");
    reveal_strlit("<node ");
    reveal_strlit("<synapse ");
    reveal_strlit("from=");
    reveal_strlit("to=");
    lemma_escape_plain(sy.0);
    lemma_escape_plain(sy.1);
    let f = sy.0;
    let t = sy.1;
    let a = lit("<synapse from=\"");
    let b = lit("\" to=\"");
    let e = lit("\"/>");
    let l = synapse_line(sy);
    let c = a + f + b + t + e;
    assert(l.skip(8) =~= c);
    assert(l.last() == '>');
    lemma_trim_indent(l, 8);
    lemma_not_starts(c, lit("<nebula "), 1);
    lemma_not_starts(c, lit("<node "), 1);
    assert(starts_with(c, lit("<synapse "))) by {
        assert(c.take(9) =~= lit("<synapse "));
    }
    // from
    let pf = lit("from=");
    assert(matches_at(c, pf, 9)) by {
        assert(c.subrange(9, 14) =~= pf);
    }
    assert forall|j: int| 0 <= j < 9 implies c[j] != pf[0] || #[trigger] c[j + pf.len() - 1]
        != pf[pf.len() - 1] by {
        assert(c[j + 4] == a[j + 4]);
    }
    lemma_find_first(c, pf, 9);
    let rest = c.skip(14);
    assert(rest =~= seq!['"'] + f + b + t + e);
    assert forall|j: int| 0 <= j && j + pf.len() <= rest.len() implies rest[j] != pf[0]
        || #[trigger] rest[j + pf.len() - 1] != pf[pf.len() - 1] by {
        let i = j + 4;
        if i < 1 + f.len() {
            assert(rest[i] == f[i - 1]);
        } else if i < 1 + f.len() + 6 {
            assert(rest[i] == b[i - 1 - f.len()]);
            if i == 1 + f.len() + 4 {
                assert(rest[j] == b[0]);
            }
        } else if i < 1 + f.len() + 6 + t.len() {
            assert(rest[i] == t[i - 7 - f.len()]);
        } else {
            assert(rest[i] == e[i - 7 - f.len() - t.len()]);
        }
    }
    lemma_find_none(rest, pf);
    assert(split_second(c, pf) == Some(rest));
    assert(matches_at(rest, seq!['"'], 0)) by {
        assert(rest.subrange(0, 1) =~= seq!['"']);
    }
    lemma_find_char_first(rest, '"', 0);
    let rest2 = rest.skip(1);
    assert(rest2 =~= f + b + t + e);
    assert forall|j: int| 0 <= j < f.len() implies rest2[j] != '"' by {
        assert(rest2[j] == f[j]);
    }
    assert(rest2[f.len() as int] == '"');
    lemma_find_char_first(rest2, '"', f.len() as int);
    assert(rest2.take(f.len() as int) =~= f);
    assert(synapse_end(c, pf) == f);
    // to
    let pt = lit("to=");
    let m: int = 15 + f.len() as int + 2;
    assert(matches_at(c, pt, m)) by {
        assert(c.subrange(m, m + 3) =~= pt);
    }
    assert forall|j: int| 0 <= j < m implies c[j] != pt[0] || #[trigger] c[j + pt.len() - 1]
        != pt[pt.len() - 1] by {
        let i = j + 2;
        if i < 15 {
            assert(c[i] == a[i]);
            if i == 13 {
                assert(c[j] == a[j]);
            }
        } else if i < 15 + f.len() {
            assert(c[i] == f[i - 15]);
        } else {
            assert(c[i] == b[i - 15 - f.len()]);
        }
    }
    lemma_find_first(c, pt, m);
    let rt = c.skip(m + 3);
    assert(rt =~= seq!['"'] + t + e);
    assert forall|j: int| 0 <= j && j + pt.len() <= rt.len() implies rt[j] != pt[0]
        || #[trigger] rt[j + pt.len() - 1] != pt[pt.len() - 1] by {
        let i = j + 2;
        if i < 1 + t.len() {
            assert(rt[i] == t[i - 1]);
        } else {
            assert(rt[i] == e[i - 1 - t.len()]);
        }
    }
    lemma_find_none(rt, pt);
    assert(split_second(c, pt) == Some(rt));
    assert(matches_at(rt, seq!['"'], 0)) by {
        assert(rt.subrange(0, 1) =~= seq!['"']);
    }
    lemma_find_char_first(rt, '"', 0);
    let rt2 = rt.skip(1);
    assert(rt2 =~= t + e);
    assert forall|j: int| 0 <= j < t.len() implies rt2[j] != '"' by {
        assert(rt2[j] == t[j]);
    }
    assert(rt2[t.len() as int] == '"');
    lemma_find_char_first(rt2, '"', t.len() as int);
    assert(rt2.take(t.len() as int) =~= t);
    assert(synapse_end(c, pt) == t);
}

pub open spec fn all_safe(ls: Seq<Seq<char>>) -> bool {
    forall|k: int| 0 <= k < ls.len() ==> line_safe(trim(#[trigger] ls[k]))
}

pub open spec fn all_plain(ls: Seq<Seq<char>>) -> bool {
    forall|k: int| 0 <= k < ls.len() ==> plain_line(#[trigger] ls[k])
}

proof fn lemma_all_concat(a: Seq<Seq<char>>, b: Seq<Seq<char>>)
    ensures
        all_safe(a) && all_safe(b) ==> all_safe(a + b),
        all_plain(a) && all_plain(b) ==> all_plain(a + b),
{
    if all_safe(a) && all_safe(b) {
        assert forall|k: int| 0 <= k < (a + b).len() implies line_safe(
            trim(#[trigger] (a + b)[k]),
        ) by {
            if k < a.len() {
                assert((a + b)[k] == a[k]);
            } else {
                assert((a + b)[k] == b[k - a.len()]);
            }
        }
    }
    if all_plain(a) && all_plain(b) {
        assert forall|k: int| 0 <= k < (a + b).len() implies plain_line(#[trigger] (a + b)[k]) by {
            if k < a.len() {
                assert((a + b)[k] == a[k]);
            } else {
                assert((a + b)[k] == b[k - a.len()]);
            }
        }
    }
}

proof fn lemma_scan_concat(st: XmlScan, a: Seq<Seq<char>>, b: Seq<Seq<char>>)
    ensures
        xml_scan(st, a + b) == xml_scan(xml_scan(st, a), b),
    decreases b.len(),
{
    if b.len() == 0 {
        assert(a + b =~= a);
    } else {
        lemma_scan_concat(st, a, b.drop_last());
        assert((a + b).drop_last() =~= a + b.drop_last());
        assert((a + b).last() == b.last());
    }
}

proof fn lemma_scan_one(st: XmlScan, l: Seq<char>)
    ensures
        xml_scan(st, seq![l]) == xml_step(st, l),
{
    let one = seq![l];
    assert(one.drop_last() =~= Seq::<Seq<char>>::empty());
    assert(xml_scan(st, one.drop_last()) == st);
    assert(one.last() == l);
    assert(xml_scan(st, one) == xml_step(xml_scan(st, one.drop_last()), one.last()));
}

/// No `\n` in `a + x + b`, and it ends as `b` does.
proof fn lemma_plain3(a: Seq<char>, x: Seq<char>, b: Seq<char>)
    requires
        !has_char(a, '\n'),
        !has_char(x, '\n'),
        !has_char(b, '\n'),
        b.len() > 0,
        b.last() == '>',
    ensures
        plain_line(a + x + b),
{
    let l = a + x + b;
    assert(l.last() == b.last());
    if has_char(l, '\n') {
        let i = choose|i: int| 0 <= i < l.len() && l[i] == '\n';
        if i < a.len() {
            assert(a[i] == l[i]);
        } else if i < a.len() + x.len() {
            assert(x[i - a.len()] == l[i]);
        } else {
            assert(b[i - a.len() - x.len()] == l[i]);
        }
    }
}

proof fn lemma_no_newline(s: Seq<char>)
    requires
        forall|i: int| 0 <= i < s.len() ==> s[i] != '\n',
    ensures
        !has_char(s, '\n'),
{
}


proof fn lemma_no_nl_concat(a: Seq<char>, b: Seq<char>)
    requires
        !has_char(a, '\n'),
        !has_char(b, '\n'),
    ensures
        !has_char(a + b, '\n'),
{
    if has_char(a + b, '\n') {
        let i = choose|i: int| 0 <= i < (a + b).len() && (a + b)[i] == '\n';
        if i < a.len() {
            assert(a[i] == (a + b)[i]);
        } else {
            assert(b[i - a.len()] == (a + b)[i]);
        }
    }
}

/// A node whose values graph.xml carries unchanged.
pub open spec fn node_ok(n: NodeView) -> bool {
    &&& attr_value(n.id)
    &&& one_line(n.node_type)
    &&& one_line(n.formula)
    &&& forall|i: int| 0 <= i < n.inputs.len() ==> one_line(#[trigger] n.inputs[i])
    &&& forall|i: int| 0 <= i < n.outputs.len() ==> one_line(#[trigger] n.outputs[i])
}

/// A synapse whose ends graph.xml carries unchanged (and keeps: both non-empty).
pub open spec fn synapse_ok(s: (Seq<char>, Seq<char>)) -> bool {
    attr_value(s.0) && attr_value(s.1) && s.0.len() > 0 && s.1.len() > 0
}

/// A document that graph.xml carries unchanged: no value holds a character
/// that XML escapes or a `\n`; the name, node ids and synapse ends hold no
/// `=`; and no synapse end is empty.
pub open spec fn xml_roundtrips(d: XmlView) -> bool {
    &&& attr_value(d.name)
    &&& one_line(d.version)
    &&& forall|i: int| 0 <= i < d.nodes.len() ==> node_ok(#[trigger] d.nodes[i])
    &&& forall|i: int| 0 <= i < d.synapses.len() ==> synapse_ok(#[trigger] d.synapses[i])
}

proof fn lemma_scan_ports(st: XmlScan, xs: Seq<Seq<char>>, output: bool)
    requires
        st.in_node,
        st.in_ports,
        st.ports.len() == 1,
        forall|i: int| 0 <= i < xs.len() ==> one_line(#[trigger] xs[i]),
    ensures
        output ==> xml_scan(st, xs.map_values(|x: Seq<char>| output_line(x))) == (XmlScan {
            ports: seq![(st.ports[0].0, st.ports[0].1 + xs)],
            ..st
        }),
        output ==> all_safe(xs.map_values(|x: Seq<char>| output_line(x))),
        output ==> all_plain(xs.map_values(|x: Seq<char>| output_line(x))),
        !output ==> xml_scan(st, xs.map_values(|x: Seq<char>| input_line(x))) == (XmlScan {
            ports: seq![(st.ports[0].0 + xs, st.ports[0].1)],
            ..st
        }),
        !output ==> all_safe(xs.map_values(|x: Seq<char>| input_line(x))),
        !output ==> all_plain(xs.map_values(|x: Seq<char>| input_line(x))),
    decreases xs.len(),
{
    let p0 = st.ports[0];
    if xs.len() == 0 {
        assert(p0.0 + xs =~= p0.0);
        assert(p0.1 + xs =~= p0.1);
        assert(st.ports =~= seq![p0]);
        assert(xs.map_values(|x: Seq<char>| output_line(x)) =~= Seq::<Seq<char>>::empty());
        assert(xs.map_values(|x: Seq<char>| input_line(x)) =~= Seq::<Seq<char>>::empty());
    } else {
        let ys = xs.drop_last();
        let x = xs.last();
        assert(one_line(x));
        lemma_scan_ports(st, ys, output);
        reveal_strlit("                <input name=\"");
        reveal_strlit("                <output name=\"");
        reveal_strlit("\"/>");
        lemma_escape_plain(x);
        if output {
            let ms = xs.map_values(|x: Seq<char>| output_line(x));
            let mys = ys.map_values(|x: Seq<char>| output_line(x));
            assert(ms =~= mys.push(output_line(x)));
            assert(ms.drop_last() =~= mys);
            let s1 = xml_scan(st, mys);
            assert(s1.ports.len() == 1);
            lemma_port_line(s1, x, true);
            assert((p0.1 + ys).push(x) =~= p0.1 + xs);
            assert(s1.ports.drop_last().push((s1.ports.last().0, s1.ports.last().1.push(x)))
                =~= seq![(p0.0, p0.1 + xs)]);
            lemma_no_newline(lit("                <output name=\""));
            lemma_no_newline(lit("\"/>"));
            lemma_plain3(lit("                <output name=\""), x, lit("\"/>"));
            assert forall|k: int| 0 <= k < ms.len() implies line_safe(trim(#[trigger] ms[k]))
                && plain_line(ms[k]) by {
                if k < mys.len() {
                    assert(ms[k] == mys[k]);
                }
            }
        } else {
            let ms = xs.map_values(|x: Seq<char>| input_line(x));
            let mys = ys.map_values(|x: Seq<char>| input_line(x));
            assert(ms =~= mys.push(input_line(x)));
            assert(ms.drop_last() =~= mys);
            let s1 = xml_scan(st, mys);
            assert(s1.ports.len() == 1);
            lemma_port_line(s1, x, false);
            assert((p0.0 + ys).push(x) =~= p0.0 + xs);
            assert(s1.ports.drop_last().push((s1.ports.last().0.push(x), s1.ports.last().1))
                =~= seq![(p0.0 + xs, p0.1)]);
            lemma_no_newline(lit("                <input name=\""));
            lemma_no_newline(lit("\"/>"));
            lemma_plain3(lit("                <input name=\""), x, lit("\"/>"));
            assert forall|k: int| 0 <= k < ms.len() implies line_safe(trim(#[trigger] ms[k]))
                && plain_line(ms[k]) by {
                if k < mys.len() {
                    assert(ms[k] == mys[k]);
                }
            }
        }
    }
}


proof fn lemma_scan_two(st: XmlScan, a: Seq<char>, b: Seq<char>)
    ensures
        xml_scan(st, seq![a, b]) == xml_step(xml_step(st, a), b),
{
    lemma_scan_concat(st, seq![a], seq![b]);
    assert(seq![a] + seq![b] =~= seq![a, b]);
    lemma_scan_one(st, a);
    lemma_scan_one(xml_step(st, a), b);
}

/// Two one-line texts whose concatenation ends a line of graph.xml.
proof fn lemma_plain5(a: Seq<char>, x: Seq<char>, b: Seq<char>, y: Seq<char>, c: Seq<char>)
    requires
        !has_char(a, '\n'),
        !has_char(x, '\n'),
        !has_char(b, '\n'),
        !has_char(y, '\n'),
        !has_char(c, '\n'),
        c.len() > 0,
        c.last() == '>',
    ensures
        plain_line(a + x + b + y + c),
{
    lemma_no_nl_concat(a, x);
    lemma_no_nl_concat(a + x, b);
    lemma_plain3(a + x + b, y, c);
}

/// The lines of one node, read from an idle reader, add that node and leave
/// the reader idle.
proof fn lemma_scan_node(st: XmlScan, n: NodeView)
    requires
        idle(st),
        node_ok(n),
    ensures
        xml_scan(st, node_lines(n)) == (XmlScan {
            doc: XmlView { nodes: st.doc.nodes.push(n), ..st.doc },
            cid: n.id,
            ctype: n.node_type,
            cformula: n.formula,
            ..st
        }),
        all_safe(node_lines(n)),
        all_plain(node_lines(n)),
{
    reveal_strlit("        <node id=\"");
    reveal_strlit("\" type=\"");
    reveal_strlit("\">");
    reveal_strlit("            <formula>");
    reveal_strlit("</formula>");
    reveal_strlit("            <ports>");
    reveal_strlit("            </ports>");
    reveal_strlit("        </node>");
    lemma_escape_plain(n.id);
    lemma_escape_plain(n.node_type);
    lemma_escape_plain(n.formula);
    let head = node_head_line(n);
    let fl = formula_line(n);
    let close = lit("        </node>");
    let pl = port_lines(n);
    let front = seq![head, fl];
    // the node's first two lines
    lemma_node_head(st, n);
    let s1 = xml_step(st, head);
    lemma_formula(s1, n);
    let s2 = xml_step(s1, fl);
    lemma_scan_two(st, head, fl);
    assert(xml_scan(st, front) == s2);
    // the ports block
    let s6 = xml_scan(s2, pl);
    if n.inputs.len() > 0 || n.outputs.len() > 0 {
        let po = lit("            <ports>");
        let pc = lit("            </ports>");
        let ins = n.inputs.map_values(|x: Seq<char>| input_line(x));
        let outs = n.outputs.map_values(|x: Seq<char>| output_line(x));
        assert(pl == seq![po] + ins + outs + seq![pc]);
        lemma_ports_open(s2);
        let s3 = xml_step(s2, po);
        lemma_scan_one(s2, po);
        assert(s3.ports =~= seq![(Seq::<Seq<char>>::empty(), Seq::<Seq<char>>::empty())]);
        lemma_scan_ports(s3, n.inputs, false);
        let s4 = xml_scan(s3, ins);
        assert(seq![] + n.inputs =~= n.inputs);
        assert(s4.ports == seq![(n.inputs, Seq::<Seq<char>>::empty())]);
        lemma_scan_ports(s4, n.outputs, true);
        let s5 = xml_scan(s4, outs);
        assert(Seq::<Seq<char>>::empty() + n.outputs =~= n.outputs);
        assert(s5.ports == seq![(n.inputs, n.outputs)]);
        lemma_ports_close(s5);
        lemma_scan_one(s5, pc);
        lemma_scan_concat(s2, seq![po], ins);
        lemma_scan_concat(s2, seq![po] + ins, outs);
        lemma_scan_concat(s2, seq![po] + ins + outs, seq![pc]);
        assert(s6 == XmlScan { in_ports: false, ..s5 });
        assert(s6.ports == seq![(n.inputs, n.outputs)]);
        lemma_ports_open(s2);
        lemma_ports_close(s5);
        lemma_no_newline(po);
        lemma_no_newline(pc);
        lemma_all_concat(seq![po], ins);
        lemma_all_concat(seq![po] + ins, outs);
        lemma_all_concat(seq![po] + ins + outs, seq![pc]);
    } else {
        assert(pl =~= Seq::<Seq<char>>::empty());
        assert(s6 == s2);
        assert(n.inputs =~= Seq::<Seq<char>>::empty());
        assert(n.outputs =~= Seq::<Seq<char>>::empty());
    }
    assert(s6.in_node && !s6.in_ports && s6.ports.len() == 1);
    assert(s6.ports[0] == (n.inputs, n.outputs));
    lemma_node_close(s6);
    lemma_scan_one(s6, close);
    lemma_scan_concat(st, front, pl);
    lemma_scan_concat(st, front + pl, seq![close]);
    assert(node_lines(n) == front + pl + seq![close]);
    let fin = xml_scan(st, node_lines(n));
    assert(fin == xml_step(s6, close));
    assert(fin.doc.nodes =~= st.doc.nodes.push(n));
    assert(fin =~= XmlScan {
        doc: XmlView { nodes: st.doc.nodes.push(n), ..st.doc },
        cid: n.id,
        ctype: n.node_type,
        cformula: n.formula,
        ..st
    });
    // every line is safe and plain
    lemma_no_newline(lit("        <node id=\""));
    lemma_no_newline(lit("\" type=\""));
    lemma_no_newline(lit("\">"));
    lemma_plain5(lit("        <node id=\""), n.id, lit("\" type=\""), n.node_type, lit("\">"));
    lemma_no_newline(lit("            <formula>"));
    lemma_no_newline(lit("</formula>"));
    lemma_plain3(lit("            <formula>"), n.formula, lit("</formula>"));
    assert(all_safe(front) && all_plain(front)) by {
        assert forall|k: int| 0 <= k < front.len() implies line_safe(trim(#[trigger] front[k]))
            && plain_line(front[k]) by {
            if k == 0 {
                assert(front[k] == head);
            } else {
                assert(front[k] == fl);
            }
        }
    }
    lemma_no_newline(close);
    lemma_all_concat(front, pl);
    lemma_all_concat(front + pl, seq![close]);
}


proof fn lemma_scan_nodes(st: XmlScan, ns: Seq<NodeView>)
    requires
        idle(st),
        forall|i: int| 0 <= i < ns.len() ==> node_ok(#[trigger] ns[i]),
    ensures
        idle(xml_scan(st, nodes_lines(ns))),
        xml_scan(st, nodes_lines(ns)).doc == (XmlView { nodes: st.doc.nodes + ns, ..st.doc }),
        all_safe(nodes_lines(ns)),
        all_plain(nodes_lines(ns)),
    decreases ns.len(),
{
    if ns.len() == 0 {
        assert(nodes_lines(ns) =~= Seq::<Seq<char>>::empty());
        assert(st.doc.nodes + ns =~= st.doc.nodes);
        assert(st.doc =~= XmlView { nodes: st.doc.nodes + ns, ..st.doc });
    } else {
        let init = ns.drop_last();
        let n = ns.last();
        assert forall|i: int| 0 <= i < init.len() implies node_ok(#[trigger] init[i]) by {
            assert(init[i] == ns[i]);
        }
        lemma_scan_nodes(st, init);
        let s1 = xml_scan(st, nodes_lines(init));
        assert(node_ok(n)) by {
            assert(n == ns[ns.len() - 1]);
        }
        lemma_scan_node(s1, n);
        lemma_scan_concat(st, nodes_lines(init), node_lines(n));
        assert(nodes_lines(ns) == nodes_lines(init) + node_lines(n));
        assert((st.doc.nodes + init).push(n) =~= st.doc.nodes + ns);
        lemma_all_concat(nodes_lines(init), node_lines(n));
    }
}

proof fn lemma_scan_synapse_list(st: XmlScan, ss: Seq<(Seq<char>, Seq<char>)>)
    requires
        !st.in_node,
        forall|i: int| 0 <= i < ss.len() ==> synapse_ok(#[trigger] ss[i]),
    ensures
        xml_scan(st, ss.map_values(|s: (Seq<char>, Seq<char>)| synapse_line(s))) == (XmlScan {
            doc: XmlView { synapses: st.doc.synapses + ss, ..st.doc },
            ..st
        }),
        all_safe(ss.map_values(|s: (Seq<char>, Seq<char>)| synapse_line(s))),
        all_plain(ss.map_values(|s: (Seq<char>, Seq<char>)| synapse_line(s))),
    decreases ss.len(),
{
    let ms = ss.map_values(|s: (Seq<char>, Seq<char>)| synapse_line(s));
    if ss.len() == 0 {
        assert(ms =~= Seq::<Seq<char>>::empty());
        assert(st.doc.synapses + ss =~= st.doc.synapses);
        assert(st =~= XmlScan { doc: XmlView { synapses: st.doc.synapses + ss, ..st.doc }, ..st });
    } else {
        let init = ss.drop_last();
        let sy = ss.last();
        assert forall|i: int| 0 <= i < init.len() implies synapse_ok(#[trigger] init[i]) by {
            assert(init[i] == ss[i]);
        }
        lemma_scan_synapse_list(st, init);
        let mi = init.map_values(|s: (Seq<char>, Seq<char>)| synapse_line(s));
        assert(ms =~= mi.push(synapse_line(sy)));
        assert(ms.drop_last() =~= mi);
        let s1 = xml_scan(st, mi);
        assert(synapse_ok(sy)) by {
            assert(sy == ss[ss.len() - 1]);
        }
        lemma_synapse(s1, sy);
        assert((st.doc.synapses + init).push(sy) =~= st.doc.synapses + ss);
        reveal_strlit("        <synapse from=\"");
        reveal_strlit("\" to=\"");
        reveal_strlit("\"/>");
        lemma_escape_plain(sy.0);
        lemma_escape_plain(sy.1);
        lemma_no_newline(lit("        <synapse from=\""));
        lemma_no_newline(lit("\" to=\""));
        lemma_no_newline(lit("\"/>"));
        lemma_plain5(lit("        <synapse from=\""), sy.0, lit("\" to=\""), sy.1, lit("\"/>"));
        assert forall|k: int| 0 <= k < ms.len() implies line_safe(trim(#[trigger] ms[k]))
            && plain_line(ms[k]) by {
            if k < mi.len() {
                assert(ms[k] == mi[k]);
            }
        }
    }
}

proof fn lemma_scan_synapses(st: XmlScan, ss: Seq<(Seq<char>, Seq<char>)>)
    requires
        !st.in_node,
        forall|i: int| 0 <= i < ss.len() ==> synapse_ok(#[trigger] ss[i]),
    ensures
        xml_scan(st, synapse_lines(ss)) == (XmlScan {
            doc: XmlView { synapses: st.doc.synapses + ss, ..st.doc },
            ..st
        }),
        all_safe(synapse_lines(ss)),
        all_plain(synapse_lines(ss)),
{
    if ss.len() == 0 {
        assert(synapse_lines(ss) =~= Seq::<Seq<char>>::empty());
        assert(st.doc.synapses + ss =~= st.doc.synapses);
        assert(st =~= XmlScan { doc: XmlView { synapses: st.doc.synapses + ss, ..st.doc }, ..st });
    } else {
        let so = lit("    <synapses>");
        let sc = lit("    </synapses>");
        let ms = ss.map_values(|s: (Seq<char>, Seq<char>)| synapse_line(s));
        assert(synapse_lines(ss) == seq![so] + ms + seq![sc]);
        lemma_synapses_open(st);
        lemma_scan_one(st, so);
        lemma_scan_synapse_list(st, ss);
        let s2 = xml_scan(st, ms);
        lemma_synapses_close(s2);
        lemma_scan_one(s2, sc);
        lemma_scan_concat(st, seq![so], ms);
        lemma_scan_concat(st, seq![so] + ms, seq![sc]);
        reveal_strlit("    <synapses>");
        reveal_strlit("    </synapses>");
        lemma_no_newline(so);
        lemma_no_newline(sc);
        lemma_all_concat(seq![so], ms);
        lemma_all_concat(seq![so] + ms, seq![sc]);
    }
}

/// Writing a graph.xml document and reading the text back gives the same
/// document, for every document whose values graph.xml carries unchanged
/// (see `xml_roundtrips`); and the reader takes that text without panicking.
pub proof fn lemma_xml_roundtrip(d: XmlView)
    requires
        xml_roundtrips(d),
    ensures
        xml_safe(xml_text(d)),
        read_xml(xml_text(d)) == d,
{
    let ls = xml_lines(d);
    let hd = header_line(d);
    let no = lit("    <nodes>");
    let nc = lit("    </nodes>");
    let ne = lit("</nebula>");
    let nl = nodes_lines(d.nodes);
    let sl = synapse_lines(d.synapses);
    assert(ls == seq![hd, no] + nl + seq![nc] + sl + seq![ne]);
    let s0 = xml_start();
    lemma_header(s0, d);
    let s1 = xml_step(s0, hd);
    lemma_nodes_open(s1);
    lemma_scan_two(s0, hd, no);
    let s2 = xml_scan(s0, seq![hd, no]);
    assert(s2 == s1);
    lemma_scan_nodes(s2, d.nodes);
    let s3 = xml_scan(s2, nl);
    lemma_nodes_close(s3);
    lemma_scan_one(s3, nc);
    let s4 = xml_step(s3, nc);
    lemma_scan_synapses(s4, d.synapses);
    let s5 = xml_scan(s4, sl);
    lemma_nebula_close(s5);
    lemma_scan_one(s5, ne);
    lemma_scan_concat(s0, seq![hd, no], nl);
    lemma_scan_concat(s0, seq![hd, no] + nl, seq![nc]);
    lemma_scan_concat(s0, seq![hd, no] + nl + seq![nc], sl);
    lemma_scan_concat(s0, seq![hd, no] + nl + seq![nc] + sl, seq![ne]);
    let fin = xml_scan(s0, ls);
    assert(fin == xml_step(s5, ne));
    assert(Seq::<NodeView>::empty() + d.nodes =~= d.nodes);
    assert(Seq::<(Seq<char>, Seq<char>)>::empty() + d.synapses =~= d.synapses);
    assert(fin.doc =~= d);
    // the text's lines are these lines, each safe
    reveal_strlit("<nebula name=\"");
    reveal_strlit("\" version=\"");
    reveal_strlit("\">");
    reveal_strlit("    <nodes>");
    reveal_strlit("    </nodes>");
    reveal_strlit("</nebula>");
    lemma_escape_plain(d.name);
    lemma_escape_plain(d.version);
    lemma_no_newline(lit("<nebula name=\""));
    lemma_no_newline(lit("\" version=\""));
    lemma_no_newline(lit("\">"));
    lemma_plain5(lit("<nebula name=\""), d.name, lit("\" version=\""), d.version, lit("\">"));
    lemma_no_newline(no);
    lemma_no_newline(nc);
    lemma_no_newline(ne);
    let front = seq![hd, no];
    assert(all_safe(front) && all_plain(front)) by {
        assert forall|k: int| 0 <= k < front.len() implies line_safe(trim(#[trigger] front[k]))
            && plain_line(front[k]) by {
            if k == 0 {
                assert(front[k] == hd);
            } else {
                assert(front[k] == no);
            }
        }
    }
    lemma_all_concat(front, nl);
    lemma_all_concat(front + nl, seq![nc]);
    lemma_all_concat(front + nl + seq![nc], sl);
    lemma_all_concat(front + nl + seq![nc] + sl, seq![ne]);
    lemma_lines_join(ls);
    assert(lines(xml_text(d)) == ls);
}

} // verus!
