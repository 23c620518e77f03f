//! The mathematical model of a graph and of the reading of its text.
use vstd::prelude::*;

use crate::delay::{delay_count, delay_entry};
use crate::error::{AigError, Field};
use crate::header::{header_of, Header};
use crate::text::{lines_of, number_of, tokens_of};

verus! {

/// The mathematical content of an [`Aig`].
pub ghost struct AigView {
    pub header: Header,
    pub child_0: Seq<usize>,
    pub child_1: Seq<usize>,
    pub inputs: Seq<usize>,
    pub outputs: Seq<usize>,
}

/// The counts of the header agree with each other, every literal of every
/// variable fits in `usize`, and so does a delay vector with one entry per
/// variable and one per output.
pub open spec fn header_consistent(h: Header) -> bool {
    &&& h.number_of_inputs + h.number_of_latches + h.number_of_ands <= h.max_variables
    &&& 2 * h.max_variables + 1 <= usize::MAX
    &&& h.max_variables + h.number_of_outputs + 1 <= usize::MAX
}

/// Whether variable `v` is an AND gate under header `h`: the gates are the
/// variables `I+1..=I+A`, visited in increasing order.
pub open spec fn is_gate(h: Header, v: int) -> bool {
    h.number_of_inputs < v <= h.number_of_inputs + h.number_of_ands
}

/// A graph as reading leaves it: as many inputs and outputs as declared,
/// every literal's variable within `0..=max_variables`, and the children of
/// every variable earlier variables (the constant's are 0).
pub open spec fn well_formed(g: AigView) -> bool {
    let h = g.header;
    &&& header_consistent(h)
    &&& g.child_0.len() == h.max_variables + 1
    &&& g.child_1.len() == h.max_variables + 1
    &&& g.inputs.len() == h.number_of_inputs
    &&& forall|k: int| 0 <= k < g.inputs.len() ==> #[trigger] g.inputs[k] / 2 <= h.max_variables
    &&& g.outputs.len() == h.number_of_outputs
    &&& forall|j: int|
        0 <= j < g.outputs.len() ==> #[trigger] g.outputs[j] / 2 <= h.max_variables
    &&& forall|v: int|
        1 <= v <= h.max_variables ==> #[trigger] g.child_0[v] / 2 < v && g.child_1[v] / 2 < v
    &&& g.child_0[0] == 0 && g.child_1[0] == 0
}

/// The graph of header `h` before any line of the body is read.
pub open spec fn empty_graph(h: Header) -> AigView {
    AigView {
        header: h,
        child_0: Seq::new((h.max_variables + 1) as nat, |i: int| 0usize),
        child_1: Seq::new((h.max_variables + 1) as nat, |i: int| 0usize),
        inputs: seq![],
        outputs: seq![],
    }
}

/// The `k`-th token of a body line read as a literal.
pub open spec fn literal_token(toks: Seq<Seq<u8>>, k: int, line: usize, f: Field) -> Result<
    usize,
    AigError,
> {
    if k >= toks.len() {
        Err(AigError::Format { line, field: f })
    } else {
        match number_of(toks[k]) {
            Some(v) => Ok(v),
            None => Err(AigError::Parse { line, field: f }),
        }
    }
}

/// The only token of an input or output line read as a literal: a missing
/// token is a format error, a second token or a token that is not a number a
/// parse error.
pub open spec fn single_literal(toks: Seq<Seq<u8>>, line: usize, f: Field) -> Result<
    usize,
    AigError,
> {
    if toks.len() == 0 {
        Err(AigError::Format { line, field: f })
    } else if toks.len() > 1 {
        Err(AigError::Parse { line, field: f })
    } else {
        literal_token(toks, 0, line, f)
    }
}

/// Reading the input line `t`, which is line `line` of the file: its literal
/// is appended to the inputs.
pub open spec fn input_step(g: AigView, t: Seq<u8>, line: usize) -> Result<AigView, AigError> {
    match single_literal(tokens_of(t), line, Field::Input) {
        Err(e) => Err(e),
        Ok(v) => if v / 2 > g.header.max_variables {
            Err(AigError::Index { line, field: Field::Input })
        } else {
            Ok(AigView { inputs: g.inputs.push(v), ..g })
        },
    }
}

/// Reading the output line `t`, which is line `line` of the file: its literal
/// is appended to the outputs.
pub open spec fn output_step(g: AigView, t: Seq<u8>, line: usize) -> Result<AigView, AigError> {
    match single_literal(tokens_of(t), line, Field::Output) {
        Err(e) => Err(e),
        Ok(v) => if v / 2 > g.header.max_variables {
            Err(AigError::Index { line, field: Field::Output })
        } else {
            Ok(AigView { outputs: g.outputs.push(v), ..g })
        },
    }
}

/// Reading the AND line `t`, number `line` in the file: `out c0 c1` sets the
/// children of variable `out / 2`, which must exist, to `c0` and `c1`, which
/// must be earlier variables.
pub open spec fn and_step(g: AigView, t: Seq<u8>, line: usize) -> Result<AigView, AigError> {
    let toks = tokens_of(t);
    match literal_token(toks, 0, line, Field::AndOutput) {
        Err(e) => Err(e),
        Ok(out) => match literal_token(toks, 1, line, Field::Child0) {
            Err(e) => Err(e),
            Ok(c0) => match literal_token(toks, 2, line, Field::Child1) {
                Err(e) => Err(e),
                Ok(c1) => {
                    let var = out / 2;
                    if var > g.header.max_variables {
                        Err(AigError::Index { line, field: Field::AndOutput })
                    } else if c0 / 2 >= var {
                        Err(AigError::Index { line, field: Field::Child0 })
                    } else if c1 / 2 >= var {
                        Err(AigError::Index { line, field: Field::Child1 })
                    } else {
                        Ok(
                            AigView {
                                child_0: g.child_0.update(var as int, c0),
                                child_1: g.child_1.update(var as int, c1),
                                ..g
                            },
                        )
                    }
                },
            },
        },
    }
}

/// The text of the `p`-th line after the header, empty where the file has no such line.
pub open spec fn body_line(ls: Seq<Seq<u8>>, p: int) -> Seq<u8> {
    if p < ls.len() {
        ls[p]
    } else {
        seq![]
    }
}

/// Reading the `p`-th line after the header (from 1): inputs, then outputs,
/// then gates, by position alone; later lines change nothing.
pub open spec fn line_step(g: AigView, ls: Seq<Seq<u8>>, p: int) -> Result<AigView, AigError> {
    let h = g.header;
    let t = body_line(ls, p);
    let line = (p + 1) as usize;
    if p <= h.number_of_inputs {
        input_step(g, t, line)
    } else if p <= h.number_of_inputs + h.number_of_outputs {
        output_step(g, t, line)
    } else if p <= h.number_of_inputs + h.number_of_outputs + h.number_of_ands {
        and_step(g, t, line)
    } else {
        Ok(g)
    }
}

/// The graph after the first `n` lines that follow the header.
pub open spec fn body_upto(h: Header, ls: Seq<Seq<u8>>, n: nat) -> Result<AigView, AigError>
    decreases n,
{
    if n == 0 {
        Ok(empty_graph(h))
    } else {
        match body_upto(h, ls, (n - 1) as nat) {
            Err(e) => Err(e),
            Ok(g) => line_step(g, ls, n as int),
        }
    }
}

/// The graph that the text `b` describes, or the first error in it.
pub open spec fn parse_text(b: Seq<u8>) -> Result<AigView, AigError> {
    let ls = lines_of(b);
    let first = if ls.len() == 0 {
        seq![]
    } else {
        ls[0]
    };
    match header_of(first) {
        Err(e) => Err(e),
        Ok(h) => if !header_consistent(h) {
            Err(AigError::Index { line: 1, field: Field::MaxVariables })
        } else {
            body_upto(
                h,
                ls,
                (h.number_of_inputs + h.number_of_outputs + h.number_of_ands) as nat,
            )
        },
    }
}

/// How far the body has been read after its first `n` lines: the inputs and
/// outputs seen so far are in place, and the graph is otherwise well formed.
spec fn partly_read(h: Header, g: AigView, n: int) -> bool {
    let ni = h.number_of_inputs as int;
    let no = h.number_of_outputs as int;
    &&& g.header == h
    &&& g.child_0.len() == h.max_variables + 1
    &&& g.child_1.len() == h.max_variables + 1
    &&& g.inputs.len() == if n <= ni {
        n
    } else {
        ni
    }
    &&& forall|k: int| 0 <= k < g.inputs.len() ==> #[trigger] g.inputs[k] / 2 <= h.max_variables
    &&& g.outputs.len() == if n <= ni {
        0
    } else if n <= ni + no {
        n - ni
    } else {
        no
    }
    &&& forall|j: int|
        0 <= j < g.outputs.len() ==> #[trigger] g.outputs[j] / 2 <= h.max_variables
    &&& forall|v: int|
        1 <= v <= h.max_variables ==> #[trigger] g.child_0[v] / 2 < v && g.child_1[v] / 2 < v
    &&& g.child_0[0] == 0 && g.child_1[0] == 0
}

proof fn lemma_body_partly_read(h: Header, ls: Seq<Seq<u8>>, n: nat)
    requires
        header_consistent(h),
        n <= h.number_of_inputs + h.number_of_outputs + h.number_of_ands,
        body_upto(h, ls, n) is Ok,
    ensures
        partly_read(h, body_upto(h, ls, n)->Ok_0, n as int),
    decreases n,
{
    if n > 0 {
        let prev = (n - 1) as nat;
        lemma_body_partly_read(h, ls, prev);
        let g = body_upto(h, ls, prev)->Ok_0;
        let g2 = body_upto(h, ls, n)->Ok_0;
        assert(g2 == line_step(g, ls, n as int)->Ok_0);
        let ni = h.number_of_inputs as int;
        let no = h.number_of_outputs as int;
        let line = (n + 1) as usize;
        let toks = tokens_of(body_line(ls, n as int));
        if n <= ni {
            let v = single_literal(toks, line, Field::Input)->Ok_0;
            assert(g2.inputs == g.inputs.push(v));
            assert(g2.child_0 == g.child_0 && g2.child_1 == g.child_1);
        } else if n <= ni + no {
            let v = single_literal(toks, line, Field::Output)->Ok_0;
            assert(g2.outputs == g.outputs.push(v));
            assert(g2.child_0 == g.child_0 && g2.child_1 == g.child_1);
        } else {
            let out = literal_token(toks, 0, line, Field::AndOutput)->Ok_0;
            let c0 = literal_token(toks, 1, line, Field::Child0)->Ok_0;
            let c1 = literal_token(toks, 2, line, Field::Child1)->Ok_0;
            let var = (out / 2) as int;
            assert(g2.child_0 == g.child_0.update(var, c0));
            assert(g2.child_1 == g.child_1.update(var, c1));
            assert(g2.inputs == g.inputs && g2.outputs == g.outputs);
            assert(var >= 1);
            assert forall|v: int| 1 <= v <= h.max_variables implies #[trigger] g2.child_0[v] / 2 < v
                && g2.child_1[v] / 2 < v by {
                if v != var {
                    assert(g2.child_0[v] == g.child_0[v]);
                    assert(g2.child_1[v] == g.child_1[v]);
                }
            }
            assert(g2.child_0[0] == g.child_0[0]);
            assert(g2.child_1[0] == g.child_1[0]);
        }
        assert(partly_read(h, g2, n as int));
    } else {
        assert(body_upto(h, ls, 0) == Ok::<AigView, AigError>(empty_graph(h)));
        assert(partly_read(h, empty_graph(h), 0));
    }
}

/// A graph read from a file is well formed: it has exactly the declared
/// number of inputs and outputs, every literal names a variable within
/// `0..=max_variables`, and the children of every variable are earlier
/// variables, so that the graph is in topological order.
pub proof fn lemma_parsed_graph_well_formed(b: Seq<u8>)
    requires
        parse_text(b) is Ok,
    ensures
        well_formed(parse_text(b)->Ok_0),
{
    let ls = lines_of(b);
    let first = if ls.len() == 0 {
        seq![]
    } else {
        ls[0]
    };
    let h = header_of(first)->Ok_0;
    let total = (h.number_of_inputs + h.number_of_outputs + h.number_of_ands) as nat;
    lemma_body_partly_read(h, ls, total);
}

/// Reading is a function of the text alone: the same text read twice gives
/// the same graph, or the same error, and the two graphs have the same delay
/// vector under the same delay model.
pub proof fn lemma_parse_idempotent(a: Seq<u8>, b: Seq<u8>, di: int, dv: int, da: int)
    requires
        a == b,
    ensures
        parse_text(a) == parse_text(b),
        parse_text(a) is Ok ==> forall|k: int|
            0 <= k < delay_count(parse_text(a)->Ok_0) ==> #[trigger] delay_entry(
                parse_text(a)->Ok_0,
                di,
                dv,
                da,
                k,
            ) == delay_entry(parse_text(b)->Ok_0, di, dv, da, k),
{
}

pub proof fn lemma_error_persists(h: Header, ls: Seq<Seq<u8>>, p: nat, n: nat)
    requires
        p <= n,
        body_upto(h, ls, p) is Err,
    ensures
        body_upto(h, ls, n) == body_upto(h, ls, p),
    decreases n,
{
    if n > p {
        lemma_error_persists(h, ls, p, (n - 1) as nat);
    }
}

} // verus!
