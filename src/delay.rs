//! Propagation of delays through a graph, under a linear additive model.
use vstd::prelude::*;

use crate::model::{is_gate, AigView};

verus! {

/// The delay that using literal `lit` adds for an inversion.
pub open spec fn inversion(lit: usize, inversor_delay: int) -> int {
    if lit % 2 == 1 {
        inversor_delay
    } else {
        0
    }
}

/// Whether some input literal refers to variable `v`.
pub open spec fn is_input_variable(g: AigView, v: int) -> bool {
    exists|k: int| 0 <= k < g.inputs.len() && #[trigger] g.inputs[k] / 2 == v
}

/// The delay of variable `v`: for a gate the larger delay of its two
/// children, each with its inversion, plus `and_delay`; otherwise
/// `input_delay` for the variable of an input, and 0 for any other.
pub open spec fn node_delay(
    g: AigView,
    input_delay: int,
    inversor_delay: int,
    and_delay: int,
    v: int,
) -> int
    decreases v,
{
    if v < 0 {
        0
    } else if is_gate(g.header, v) && g.child_0[v] / 2 < v && g.child_1[v] / 2 < v {
        let c0 = g.child_0[v];
        let c1 = g.child_1[v];
        let e0 = node_delay(g, input_delay, inversor_delay, and_delay, (c0 / 2) as int) + inversion(
            c0,
            inversor_delay,
        );
        let e1 = node_delay(g, input_delay, inversor_delay, and_delay, (c1 / 2) as int) + inversion(
            c1,
            inversor_delay,
        );
        (if e0 >= e1 {
            e0
        } else {
            e1
        }) + and_delay
    } else if is_input_variable(g, v) {
        input_delay
    } else {
        0
    }
}

/// The number of entries of the delay vector: the constant, the inputs,
/// the gates, then the outputs.
pub open spec fn delay_count(g: AigView) -> int {
    g.header.number_of_inputs + g.header.number_of_ands + 1 + g.header.number_of_outputs
}

/// Entry `k` of the delay vector: the delay of variable `k` up to the last
/// gate `I+A`, then the delay of each output in order, appended at the tail.
/// An output whose variable lies above the last gate has the base delay of
/// that variable (`input_delay` for an input's variable, else 0).
pub open spec fn delay_entry(
    g: AigView,
    input_delay: int,
    inversor_delay: int,
    and_delay: int,
    k: int,
) -> int {
    let last = g.header.number_of_inputs + g.header.number_of_ands;
    if k <= last {
        node_delay(g, input_delay, inversor_delay, and_delay, k)
    } else {
        let lit = g.outputs[k - last - 1];
        node_delay(g, input_delay, inversor_delay, and_delay, (lit / 2) as int) + inversion(
            lit,
            inversor_delay,
        )
    }
}

/// The delay through literal `lit` when `d` holds the delays of the variables.
pub open spec fn effective_delay(d: Seq<usize>, lit: usize, inversor_delay: int) -> int {
    d[(lit / 2) as int] + inversion(lit, inversor_delay)
}

} // verus!
