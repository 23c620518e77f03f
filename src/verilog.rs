//! The text of the structural module that describes a graph.
use vstd::prelude::*;

use crate::model::AigView;
use crate::header::{joined, port_name, port_names};
use crate::text::decimal_text;

verus! {

/// The pieces of text one after the other.
pub open spec fn concat(parts: Seq<Seq<char>>) -> Seq<char>
    decreases parts.len(),
{
    if parts.len() == 0 {
        seq![]
    } else {
        concat(parts.drop_last()) + parts.last()
    }
}

/// The literals that the gates use as children, in the order of the gates,
/// the first child of each before its second.
pub open spec fn child_literals(g: AigView) -> Seq<usize> {
    let ni = g.header.number_of_inputs as int;
    Seq::new(
        (2 * g.header.number_of_ands) as nat,
        |i: int|
            if i % 2 == 0 {
                g.child_0[ni + 1 + i / 2]
            } else {
                g.child_1[ni + 1 + i / 2]
            },
    )
}

/// The elements of `s` without repetitions, each where it first occurs.
pub open spec fn distinct(s: Seq<usize>) -> Seq<usize>
    decreases s.len(),
{
    if s.len() == 0 {
        seq![]
    } else {
        let d = distinct(s.drop_last());
        if d.contains(s.last()) {
            d
        } else {
            d.push(s.last())
        }
    }
}

/// The wires of the module: each literal that some gate uses as a child, once.
pub open spec fn wires(g: AigView) -> Seq<usize> {
    distinct(child_literals(g))
}

/// The declaration of the input port of literal `lit`.
pub open spec fn input_decl(lit: usize) -> Seq<char> {
    "input "@ + port_name(lit) + ";\n"@
}

/// The declaration of the output port of literal `lit`.
pub open spec fn output_decl(lit: usize) -> Seq<char> {
    "output "@ + port_name(lit) + ";\n"@
}

/// The declaration of the wire of literal `w`.
pub open spec fn wire_decl(w: usize) -> Seq<char> {
    "wire n"@ + decimal_text(w as nat) + ";\n"@
}

/// The inverter that drives an odd literal `w` from `w - 1`; nothing for an even one.
pub open spec fn inverter_line(w: usize) -> Seq<char> {
    if w % 2 == 1 {
        "not(n"@ + decimal_text(w as nat) + ", n"@ + decimal_text((w - 1) as nat) + ");\n"@
    } else {
        seq![]
    }
}

/// The AND instance of gate variable `v`, driving the wire of literal `2 * v`.
pub open spec fn and_line(g: AigView, v: int) -> Seq<char> {
    "and(n"@ + decimal_text((2 * v) as nat) + ", n"@ + decimal_text(g.child_0[v] as nat) + ", n"@
        + decimal_text(g.child_1[v] as nat) + ");\n"@
}

/// The declarations of the ports: one per input literal, then one per output literal.
pub open spec fn port_decls(g: AigView) -> Seq<char> {
    concat(g.inputs.map_values(|l: usize| input_decl(l))) + concat(
        g.outputs.map_values(|l: usize| output_decl(l)),
    )
}

/// The instances of the gates, in the order of their variables.
pub open spec fn and_lines(g: AigView) -> Seq<char> {
    concat(
        Seq::new(
            g.header.number_of_ands as nat,
            |k: int| and_line(g, g.header.number_of_inputs + 1 + k),
        ),
    )
}

/// The whole module named `name` that describes `g`. Its output ports are
/// declared but not connected to the signals that drive them.
pub open spec fn module_text(g: AigView, name: Seq<char>) -> Seq<char> {
    "module "@ + name + " ("@ + joined(port_names(g.inputs, g.outputs)) + ");\n"@ + port_decls(g)
        + "\n"@ + concat(wires(g).map_values(|w: usize| wire_decl(w))) + "\n"@ + concat(
        wires(g).map_values(|w: usize| inverter_line(w)),
    ) + "\n"@ + and_lines(g) + "endmodule\n"@
}

/// The listing line of the `k`-th input.
pub open spec fn input_entry(g: AigView, k: int) -> Seq<char> {
    "input = "@ + decimal_text(g.inputs[k] as nat) + "\n"@
}

/// The listing line of the `k`-th output.
pub open spec fn output_entry(g: AigView, k: int) -> Seq<char> {
    "output = "@ + decimal_text(g.outputs[k] as nat) + "\n"@
}

/// The listing line of AND gate `v`: its literal, then its two children.
pub open spec fn and_entry(g: AigView, v: int) -> Seq<char> {
    "AND "@ + decimal_text((2 * v) as nat) + "="@ + decimal_text(g.child_0[v] as nat) + "*"@
        + decimal_text(g.child_1[v] as nat) + "\n"@
}

/// A plain listing of the graph: its inputs, its outputs, then its gates.
pub open spec fn listing_text(g: AigView) -> Seq<char> {
    let h = g.header;
    concat(Seq::new(h.number_of_inputs as nat, |k: int| input_entry(g, k))) + concat(
        Seq::new(h.number_of_outputs as nat, |k: int| output_entry(g, k)),
    ) + concat(
        Seq::new(h.number_of_ands as nat, |k: int| and_entry(g, h.number_of_inputs + 1 + k)),
    )
}

/// One more part at the end adds its text at the end.
pub proof fn lemma_concat_push(parts: Seq<Seq<char>>, x: Seq<char>)
    ensures
        concat(parts.push(x)) == concat(parts) + x,
{
    assert(parts.push(x).drop_last() =~= parts);
}

proof fn lemma_distinct(s: Seq<usize>)
    ensures
        distinct(s).no_duplicates(),
        forall|x: usize| distinct(s).contains(x) <==> s.contains(x),
    decreases s.len(),
{
    if s.len() > 0 {
        let p = s.drop_last();
        lemma_distinct(p);
        let d = distinct(p);
        assert forall|x: usize| s.contains(x) <==> p.contains(x) || x == s.last() by {
            if s.contains(x) {
                let i = choose|i: int| 0 <= i < s.len() && s[i] == x;
                if i < p.len() {
                    assert(p[i] == x);
                }
            }
            if p.contains(x) {
                let i = choose|i: int| 0 <= i < p.len() && p[i] == x;
                assert(s[i] == x);
            }
            if x == s.last() {
                assert(s[s.len() - 1] == x);
            }
        }
        if !d.contains(s.last()) {
            let e = d.push(s.last());
            assert forall|x: usize| e.contains(x) <==> d.contains(x) || x == s.last() by {
                if e.contains(x) {
                    let i = choose|i: int| 0 <= i < e.len() && e[i] == x;
                    if i < d.len() {
                        assert(d[i] == x);
                    }
                }
                if d.contains(x) {
                    let i = choose|i: int| 0 <= i < d.len() && d[i] == x;
                    assert(e[i] == x);
                }
                if x == s.last() {
                    assert(e[e.len() - 1] == x);
                }
            }
            assert forall|i: int, j: int| 0 <= i < e.len() && 0 <= j < e.len() && i != j implies e[i]
                != e[j] by {
                if i == d.len() {
                    assert(e[j] == d[j]);
                } else if j == d.len() {
                    assert(e[i] == d[i]);
                }
            }
        }
    }
}

/// The wires that the emitter declares are exactly the literals that some
/// gate uses as a child, each declared once; so every odd one among them
/// gets exactly one inverter, at the one place where it stands in the list.
pub proof fn lemma_wires_are_child_literals(g: AigView)
    ensures
        wires(g).no_duplicates(),
        wires(g).to_set() == child_literals(g).to_set(),
        forall|w: usize|
            #![trigger child_literals(g).contains(w)]
            child_literals(g).contains(w) ==> exists|i: int|
                0 <= i < wires(g).len() && wires(g)[i] == w && forall|j: int|
                    0 <= j < wires(g).len() && wires(g)[j] == w ==> j == i,
{
    lemma_distinct(child_literals(g));
    assert(wires(g).to_set() =~= child_literals(g).to_set());
    assert forall|w: usize| #![trigger child_literals(g).contains(w)] child_literals(g).contains(w) implies exists|i: int|
        0 <= i < wires(g).len() && wires(g)[i] == w && forall|j: int|
            0 <= j < wires(g).len() && wires(g)[j] == w ==> j == i by {
        assert(wires(g).contains(w));
        let i = choose|i: int| 0 <= i < wires(g).len() && wires(g)[i] == w;
        assert(forall|j: int| 0 <= j < wires(g).len() && wires(g)[j] == w ==> j == i);
    }
}

} // verus!
