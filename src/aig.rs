//! The And-Inverter Graph, the parser that builds it, and the passes that
//! compute its delays and render it as text.
use vstd::prelude::*;

use vstd::string::StringSliceAdditionalSpecFns;

use crate::delay::{
    delay_count, delay_entry, effective_delay, inversion, is_input_variable, node_delay,
};
use crate::error::{AigError, Field};
use crate::header::{read_header, Header};
use crate::model::{
    and_step, body_line, body_upto, empty_graph, header_consistent, input_step, is_gate,
    lemma_error_persists, lemma_parsed_graph_well_formed, line_step, literal_token, output_step,
    single_literal,
    parse_text, well_formed, AigView,
};
use crate::text::{line_ranges, parse_number, pieces, push_decimal, token_ranges};
use crate::verilog::{
    and_entry, and_line, and_lines, child_literals, concat, distinct, input_decl, input_entry,
    inverter_line, lemma_concat_push, listing_text, module_text, output_decl, output_entry,
    port_decls, wire_decl, wires,
};

verus! {

/// A combinational And-Inverter Graph.
///
/// Signals are literals: `lit / 2` is a variable, and an odd literal is the
/// inverted variable, with variable 0 the constant. `inputs` and `outputs`
/// hold the literals of the file's input and output lines; `child_0[v]` and
/// `child_1[v]` hold the children that an AND line gave variable `v`. The
/// gates are the variables `I+1..=I+A`.
#[derive(Clone, Debug)]
pub struct Aig {
    header: Header,
    child_0: Vec<usize>,
    child_1: Vec<usize>,
    inputs: Vec<usize>,
    outputs: Vec<usize>,
}

impl View for Aig {
    type V = AigView;

    closed spec fn view(&self) -> AigView {
        AigView {
            header: self.header,
            child_0: self.child_0@,
            child_1: self.child_1@,
            inputs: self.inputs@,
            outputs: self.outputs@,
        }
    }
}

fn zeros(n: usize) -> (v: Vec<usize>)
    ensures
        v@ == Seq::new(n as nat, |i: int| 0usize),
{
    let mut v: Vec<usize> = Vec::new();
    let mut i: usize = 0;
    while i < n
        invariant
            i <= n,
            v@ == Seq::new(i as nat, |k: int| 0usize),
        decreases n - i,
    {
        v.push(0);
        i = i + 1;
        proof {
            assert(v@ =~= Seq::new(i as nat, |k: int| 0usize));
        }
    }
    v
}

fn read_literal(s: &[u8], toks: &Vec<(usize, usize)>, k: usize, line: usize, f: Field) -> (r:
    Result<usize, AigError>)
    requires
        forall|i: int| 0 <= i < toks.len() ==> (#[trigger] toks[i]).0 <= toks[i].1 <= s.len(),
    ensures
        r == literal_token(pieces(s@, toks@), k as int, line, f),
{
    if k >= toks.len() {
        return Err(AigError::Format { line, field: f });
    }
    let (a, b) = toks[k];
    match parse_number(s, a, b) {
        Some(v) => Ok(v),
        None => Err(AigError::Parse { line, field: f }),
    }
}

fn read_single(s: &[u8], toks: &Vec<(usize, usize)>, line: usize, f: Field) -> (r: Result<
    usize,
    AigError,
>)
    requires
        forall|i: int| 0 <= i < toks.len() ==> (#[trigger] toks[i]).0 <= toks[i].1 <= s.len(),
    ensures
        r == single_literal(pieces(s@, toks@), line, f),
{
    if toks.len() == 0 {
        return Err(AigError::Format { line, field: f });
    }
    if toks.len() > 1 {
        return Err(AigError::Parse { line, field: f });
    }
    read_literal(s, toks, 0, line, f)
}

impl Aig {
    fn process_input_line(&mut self, s: &[u8], lo: usize, hi: usize, line: usize) -> (r: Result<
        (),
        AigError,
    >)
        requires
            lo <= hi <= s.len(),
        ensures
            match input_step(old(self)@, s@.subrange(lo as int, hi as int), line) {
                Ok(g) => r is Ok && final(self)@ == g,
                Err(e) => r == Err::<(), AigError>(e) && final(self)@ == old(self)@,
            },
    {
        let toks = token_ranges(s, lo, hi);
        let v = read_single(s, &toks, line, Field::Input)?;
        if v / 2 > self.header.max_variables {
            return Err(AigError::Index { line, field: Field::Input });
        }
        self.inputs.push(v);
        Ok(())
    }

    fn process_output_line(&mut self, s: &[u8], lo: usize, hi: usize, line: usize) -> (r: Result<
        (),
        AigError,
    >)
        requires
            lo <= hi <= s.len(),
        ensures
            match output_step(old(self)@, s@.subrange(lo as int, hi as int), line) {
                Ok(g) => r is Ok && final(self)@ == g,
                Err(e) => r == Err::<(), AigError>(e) && final(self)@ == old(self)@,
            },
    {
        let toks = token_ranges(s, lo, hi);
        let v = read_single(s, &toks, line, Field::Output)?;
        if v / 2 > self.header.max_variables {
            return Err(AigError::Index { line, field: Field::Output });
        }
        self.outputs.push(v);
        Ok(())
    }

    fn process_and_line(&mut self, s: &[u8], lo: usize, hi: usize, line: usize) -> (r: Result<
        (),
        AigError,
    >)
        requires
            lo <= hi <= s.len(),
            old(self).child_0.len() == old(self).header.max_variables + 1,
            old(self).child_1.len() == old(self).header.max_variables + 1,
        ensures
            match and_step(old(self)@, s@.subrange(lo as int, hi as int), line) {
                Ok(g) => r is Ok && final(self)@ == g,
                Err(e) => r == Err::<(), AigError>(e) && final(self)@ == old(self)@,
            },
    {
        let toks = token_ranges(s, lo, hi);
        let out = read_literal(s, &toks, 0, line, Field::AndOutput)?;
        let c0 = read_literal(s, &toks, 1, line, Field::Child0)?;
        let c1 = read_literal(s, &toks, 2, line, Field::Child1)?;
        let var = out / 2;
        if var > self.header.max_variables {
            return Err(AigError::Index { line, field: Field::AndOutput });
        }
        if c0 / 2 >= var {
            return Err(AigError::Index { line, field: Field::Child0 });
        }
        if c1 / 2 >= var {
            return Err(AigError::Index { line, field: Field::Child1 });
        }
        self.child_0.set(var, c0);
        self.child_1.set(var, c1);
        Ok(())
    }

    /// Reads the `p`-th line after the header (from 1), whose text is
    /// `s[ls[p]]`, or empty where there is no such line.
    fn process_line(&mut self, s: &[u8], ls: &Vec<(usize, usize)>, p: usize) -> (r: Result<
        (),
        AigError,
    >)
        requires
            forall|i: int| 0 <= i < ls.len() ==> (#[trigger] ls[i]).0 <= ls[i].1 <= s.len(),
            header_consistent(old(self).header),
            old(self).child_0.len() == old(self).header.max_variables + 1,
            old(self).child_1.len() == old(self).header.max_variables + 1,
        ensures
            match line_step(old(self)@, pieces(s@, ls@), p as int) {
                Ok(g) => r is Ok && final(self)@ == g,
                Err(e) => r == Err::<(), AigError>(e) && final(self)@ == old(self)@,
            },
    {
        let number_of_inputs = self.header.number_of_inputs;
        let number_of_outputs = self.header.number_of_outputs;
        let number_of_ands = self.header.number_of_ands;
        if p > number_of_inputs + number_of_outputs + number_of_ands {
            return Ok(());
        }
        let ghost t = body_line(pieces(s@, ls@), p as int);
        let (lo, hi) = if p < ls.len() {
            ls[p]
        } else {
            (0, 0)
        };
        proof {
            if p >= ls.len() {
                assert(s@.subrange(0, 0) =~= t);
            }
        }
        let line = p + 1;
        if p <= number_of_inputs {
            self.process_input_line(s, lo, hi, line)
        } else if p <= number_of_inputs + number_of_outputs {
            self.process_output_line(s, lo, hi, line)
        } else {
            self.process_and_line(s, lo, hi, line)
        }
    }

    /// Builds the graph that the text of an ASCII AIGER file describes, or
    /// reports the first error in it.
    pub fn new(content: &str) -> (r: Result<Aig, AigError>)
        ensures
            match parse_text(content.spec_bytes()) {
                Ok(g) => r is Ok && r->Ok_0@ == g,
                Err(e) => r == Err::<Aig, AigError>(e),
            },
            r is Ok ==> well_formed(r->Ok_0@),
    {
        let s = content.as_bytes();
        let ls = line_ranges(s);
        let ghost lines = pieces(s@, ls@);
        let (a, b) = if ls.len() == 0 {
            (0, 0)
        } else {
            ls[0]
        };
        proof {
            if ls.len() == 0 {
                assert(s@.subrange(0, 0) =~= Seq::<u8>::empty());
            }
        }
        let header = read_header(s, a, b)?;
        let m = header.max_variables;
        let ni = header.number_of_inputs;
        let nl = header.number_of_latches;
        let no = header.number_of_outputs;
        let na = header.number_of_ands;
        let consistent = ni <= m && nl <= m - ni && na <= m - ni - nl && m <= (usize::MAX - 1) / 2
            && no < usize::MAX - m;
        if !consistent {
            return Err(AigError::Index { line: 1, field: Field::MaxVariables });
        }
        let mut aig = Aig {
            header,
            child_0: zeros(m + 1),
            child_1: zeros(m + 1),
            inputs: Vec::new(),
            outputs: Vec::new(),
        };
        proof {
            assert(aig@ =~= empty_graph(header));
        }
        let total = ni + no + na;
        proof {
            assert(parse_text(content.spec_bytes()) == body_upto(header, lines, total as nat));
        }
        let mut p: usize = 1;
        while p <= total
            invariant
                1 <= p <= total + 1,
                total == ni + no + na,
                aig.header == header,
                header_consistent(header),
                ni == header.number_of_inputs,
                no == header.number_of_outputs,
                na == header.number_of_ands,
                aig.child_0.len() == header.max_variables + 1,
                aig.child_1.len() == header.max_variables + 1,
                forall|i: int| 0 <= i < ls.len() ==> (#[trigger] ls[i]).0 <= ls[i].1 <= s.len(),
                lines == pieces(s@, ls@),
                parse_text(content.spec_bytes()) == body_upto(header, lines, total as nat),
                body_upto(header, lines, (p - 1) as nat) == Ok::<AigView, AigError>(aig@),
            decreases total + 1 - p,
        {
            let ghost before = aig@;
            proof {
                assert(body_upto(header, lines, p as nat) == line_step(before, lines, p as int));
            }
            match aig.process_line(s, &ls, p) {
                Ok(()) => {},
                Err(e) => {
                    proof {
                        assert(body_upto(header, lines, p as nat) == Err::<AigView, AigError>(e));
                        lemma_error_persists(header, lines, p as nat, total as nat);
                    }
                    return Err(e);
                },
            }
            p = p + 1;
        }
        proof {
            lemma_parsed_graph_well_formed(content.spec_bytes());
        }
        Ok(aig)
    }

    /// The header that the graph was read with.
    pub fn header(&self) -> (r: Header)
        ensures
            r == self@.header,
    {
        self.header
    }

    /// The input literals, in the order of the file.
    pub fn inputs(&self) -> (r: &[usize])
        ensures
            r@ == self@.inputs,
    {
        self.inputs.as_slice()
    }

    /// The output literals, in the order of the file.
    pub fn outputs(&self) -> (r: &[usize])
        ensures
            r@ == self@.outputs,
    {
        self.outputs.as_slice()
    }

    /// The two children of variable `v`; both 0 where no AND line set them.
    pub fn children(&self, v: usize) -> (r: (usize, usize))
        requires
            v < self@.child_0.len(),
            v < self@.child_1.len(),
        ensures
            r == (self@.child_0[v as int], self@.child_1[v as int]),
    {
        (self.child_0[v], self.child_1[v])
    }
}

fn literal_delay(delays: &Vec<usize>, lit: usize, inversor_delay: usize) -> (r: Option<usize>)
    requires
        lit / 2 < delays.len(),
    ensures
        r is Some <==> effective_delay(delays@, lit, inversor_delay as int) <= usize::MAX,
        r is Some ==> r->Some_0 == effective_delay(delays@, lit, inversor_delay as int),
{
    let base = delays[lit / 2];
    if lit % 2 == 1 {
        base.checked_add(inversor_delay)
    } else {
        Some(base)
    }
}

impl Aig {
    /// The delay of every variable `0..=I+A` (the constant, the variables
    /// below the first gate, the gates), then of every output appended at the
    /// tail, in one forward pass: inputs first, then the gates in increasing
    /// order.
    /// `None` exactly when some delay exceeds `usize::MAX`.
    pub fn generate_delays(&self, input_delay: usize, inversor_delay: usize, and_delay: usize) -> (r:
        Option<Vec<usize>>)
        requires
            well_formed(self@),
        ensures
            r is Some <==> forall|k: int|
                0 <= k < delay_count(self@) ==> #[trigger] delay_entry(
                    self@,
                    input_delay as int,
                    inversor_delay as int,
                    and_delay as int,
                    k,
                ) <= usize::MAX,
            r is Some ==> r->Some_0.len() == delay_count(self@),
            r is Some ==> forall|k: int|
                0 <= k < delay_count(self@) ==> #[trigger] r->Some_0[k] == delay_entry(
                    self@,
                    input_delay as int,
                    inversor_delay as int,
                    and_delay as int,
                    k,
                ),
            r is Some ==> forall|k: int|
                0 <= k < self@.inputs.len() && self@.inputs[k] / 2 <= self@.header.number_of_inputs
                    ==> #[trigger] r->Some_0[(self@.inputs[k] / 2) as int] == input_delay,
            r is Some ==> forall|v: int|
                #![trigger is_gate(self@.header, v)]
                is_gate(self@.header, v) ==> r->Some_0[v] == (if effective_delay(
                    r->Some_0@,
                    self@.child_0[v],
                    inversor_delay as int,
                ) >= effective_delay(r->Some_0@, self@.child_1[v], inversor_delay as int) {
                    effective_delay(r->Some_0@, self@.child_0[v], inversor_delay as int)
                } else {
                    effective_delay(r->Some_0@, self@.child_1[v], inversor_delay as int)
                }) + and_delay,
            r is Some ==> forall|j: int|
                0 <= j < self@.outputs.len() && self@.outputs[j] / 2 <= self@.header.number_of_inputs
                    + self@.header.number_of_ands ==> #[trigger] r->Some_0[self@.header.number_of_inputs
                    + self@.header.number_of_ands + 1 + j] == effective_delay(
                    r->Some_0@,
                    self@.outputs[j],
                    inversor_delay as int,
                ),
            r is Some ==> forall|j: int|
                0 <= j < self@.outputs.len() && self@.outputs[j] / 2 > self@.header.number_of_inputs
                    + self@.header.number_of_ands ==> #[trigger] r->Some_0[self@.header.number_of_inputs
                    + self@.header.number_of_ands + 1 + j] == (if is_input_variable(
                    self@,
                    (self@.outputs[j] / 2) as int,
                ) {
                    input_delay as int
                } else {
                    0
                }) + inversion(self@.outputs[j], inversor_delay as int),
    {
        let ghost g = self@;
        let ghost di = input_delay as int;
        let ghost dv = inversor_delay as int;
        let ghost da = and_delay as int;
        let m = self.header.max_variables;
        let ni = self.header.number_of_inputs;
        let na = self.header.number_of_ands;
        let no = self.header.number_of_outputs;
        let mut delays = zeros(m + 1);
        let mut k: usize = 0;
        while k < ni
            invariant
                g == self@,
                well_formed(g),
                m == g.header.max_variables,
                ni == g.header.number_of_inputs,
                k <= ni,
                delays.len() == m + 1,
                forall|u: int|
                    0 <= u <= m ==> #[trigger] delays[u] == (if exists|i: int|
                        0 <= i < k && #[trigger] g.inputs[i] / 2 == u {
                        input_delay
                    } else {
                        0
                    }),
            decreases ni - k,
        {
            let w = self.inputs[k] / 2;
            proof {
                assert(g.inputs[k as int] / 2 <= m);
            }
            delays.set(w, input_delay);
            proof {
                assert forall|u: int| 0 <= u <= m implies #[trigger] delays[u] == (if exists|i: int|
                    0 <= i < k + 1 && #[trigger] g.inputs[i] / 2 == u {
                    input_delay
                } else {
                    0
                }) by {
                    if u == w {
                        assert(g.inputs[k as int] / 2 == u);
                    } else {
                        if exists|i: int| 0 <= i < k + 1 && #[trigger] g.inputs[i] / 2 == u {
                            let i = choose|i: int| 0 <= i < k + 1 && #[trigger] g.inputs[i] / 2 == u;
                            assert(i < k);
                        }
                    }
                }
            }
            k = k + 1;
        }
        proof {
            assert forall|u: int| 0 <= u <= m implies #[trigger] delays[u] == (if is_input_variable(
                g,
                u,
            ) {
                input_delay
            } else {
                0
            }) by {
                if is_input_variable(g, u) {
                    let i = choose|i: int| 0 <= i < g.inputs.len() && #[trigger] g.inputs[i] / 2 == u;
                    assert(0 <= i < k && g.inputs[i] / 2 == u);
                }
            }
        }
        let mut v: usize = ni + 1;
        while v <= ni + na
            invariant
                g == self@,
                well_formed(g),
                di == input_delay as int,
                dv == inversor_delay as int,
                da == and_delay as int,
                m == g.header.max_variables,
                ni == g.header.number_of_inputs,
                na == g.header.number_of_ands,
                ni + 1 <= v <= ni + na + 1,
                delays.len() == m + 1,
                forall|u: int|
                    0 <= u <= m ==> #[trigger] delays[u] == (if u < v {
                        node_delay(g, di, dv, da, u)
                    } else if is_input_variable(g, u) {
                        di
                    } else {
                        0
                    }),
            decreases ni + na + 1 - v,
        {
            proof {
                assert(is_gate(g.header, v as int));
            }
            let c0 = self.child_0[v];
            let c1 = self.child_1[v];
            proof {
                assert(g.child_0[v as int] / 2 < v && g.child_1[v as int] / 2 < v);
                let f0 = effective_delay(delays@, c0, dv);
                let f1 = effective_delay(delays@, c1, dv);
                assert(delays[(c0 / 2) as int] == node_delay(g, di, dv, da, (c0 / 2) as int));
                assert(delays[(c1 / 2) as int] == node_delay(g, di, dv, da, (c1 / 2) as int));
                assert(node_delay(g, di, dv, da, v as int) == (if f0 >= f1 {
                    f0
                } else {
                    f1
                }) + da);
                assert(delay_entry(g, di, dv, da, v as int) == node_delay(g, di, dv, da, v as int));
            }
            let e0 = literal_delay(&delays, c0, inversor_delay);
            let e1 = literal_delay(&delays, c1, inversor_delay);
            let d = match (e0, e1) {
                (Some(e0), Some(e1)) => (if e0 >= e1 {
                    e0
                } else {
                    e1
                }).checked_add(and_delay),
                _ => None,
            };
            match d {
                Some(d) => {
                    delays.set(v, d);
                },
                None => {
                    proof {
                        let f0 = effective_delay(delays@, c0, dv);
                        let f1 = effective_delay(delays@, c1, dv);
                        if e0 is None {
                            assert(f0 > usize::MAX);
                        } else if e1 is None {
                            assert(f1 > usize::MAX);
                        } else {
                            assert((if f0 >= f1 {
                                f0
                            } else {
                                f1
                            }) + da > usize::MAX);
                        }
                        assert(!(delay_entry(g, di, dv, da, v as int) <= usize::MAX));
                    }
                    return None;
                },
            }
            v = v + 1;
        }
        proof {
            assert forall|u: int| 0 <= u <= m implies #[trigger] delays[u] == node_delay(
                g,
                di,
                dv,
                da,
                u,
            ) by {
                if u >= v {
                    assert(!is_gate(g.header, u));
                }
            }
        }
        let last = ni + na;
        let mut result: Vec<usize> = Vec::new();
        let mut u: usize = 0;
        while u <= last
            invariant
                g == self@,
                well_formed(g),
                di == input_delay as int,
                dv == inversor_delay as int,
                da == and_delay as int,
                m == g.header.max_variables,
                last == g.header.number_of_inputs + g.header.number_of_ands,
                last <= m,
                u <= last + 1,
                delays.len() == m + 1,
                forall|x: int| 0 <= x <= m ==> #[trigger] delays[x] == node_delay(g, di, dv, da, x),
                result.len() == u,
                forall|x: int| 0 <= x < u ==> #[trigger] result[x] == delay_entry(g, di, dv, da, x),
            decreases last + 1 - u,
        {
            result.push(delays[u]);
            u = u + 1;
        }
        let mut j: usize = 0;
        while j < no
            invariant
                g == self@,
                well_formed(g),
                di == input_delay as int,
                dv == inversor_delay as int,
                da == and_delay as int,
                m == g.header.max_variables,
                no == g.header.number_of_outputs,
                last == g.header.number_of_inputs + g.header.number_of_ands,
                delays.len() == m + 1,
                forall|x: int| 0 <= x <= m ==> #[trigger] delays[x] == node_delay(g, di, dv, da, x),
                result.len() == last + 1 + j,
                j <= no,
                forall|x: int|
                    0 <= x < last + 1 + j ==> #[trigger] result[x] == delay_entry(g, di, dv, da, x),
            decreases no - j,
        {
            let lit = self.outputs[j];
            proof {
                assert(g.outputs[j as int] / 2 <= m);
                assert(delays[(lit / 2) as int] == node_delay(g, di, dv, da, (lit / 2) as int));
                assert(delay_entry(g, di, dv, da, last + 1 + j) == effective_delay(delays@, lit, dv));
            }
            match literal_delay(&delays, lit, inversor_delay) {
                Some(d) => {
                    result.push(d);
                },
                None => {
                    proof {
                        assert(!(delay_entry(g, di, dv, da, last + 1 + j) <= usize::MAX));
                    }
                    return None;
                },
            }
            j = j + 1;
        }
        proof {
            let r = result@;
            assert forall|k: int| 0 <= k < delay_count(g) implies #[trigger] delay_entry(
                g,
                di,
                dv,
                da,
                k,
            ) <= usize::MAX by {
                assert(result[k] == delay_entry(g, di, dv, da, k));
            }
            assert forall|v: int| #![trigger is_gate(g.header, v)] is_gate(g.header, v) implies r[v]
                == (if effective_delay(r, g.child_0[v], dv) >= effective_delay(
                r,
                g.child_1[v],
                dv,
            ) {
                effective_delay(r, g.child_0[v], dv)
            } else {
                effective_delay(r, g.child_1[v], dv)
            }) + da by {
                let c0 = g.child_0[v];
                let c1 = g.child_1[v];
                assert(c0 / 2 < v && c1 / 2 < v);
                assert(r[v] == delay_entry(g, di, dv, da, v));
                assert(r[(c0 / 2) as int] == delay_entry(g, di, dv, da, (c0 / 2) as int));
                assert(r[(c1 / 2) as int] == delay_entry(g, di, dv, da, (c1 / 2) as int));
            }
            assert forall|j: int|
                0 <= j < g.outputs.len() && g.outputs[j] / 2 <= last implies #[trigger] r[last + 1
                + j] == effective_delay(r, g.outputs[j], dv) by {
                let lit = g.outputs[j];
                assert(r[last + 1 + j] == delay_entry(g, di, dv, da, last + 1 + j));
                assert(r[(lit / 2) as int] == delay_entry(g, di, dv, da, (lit / 2) as int));
            }
            assert forall|j: int|
                0 <= j < g.outputs.len() && g.outputs[j] / 2 > last implies #[trigger] r[last + 1
                + j] == (if is_input_variable(g, (g.outputs[j] / 2) as int) {
                di
            } else {
                0
            }) + inversion(g.outputs[j], dv) by {
                let w = (g.outputs[j] / 2) as int;
                assert(!is_gate(g.header, w));
                assert(r[last + 1 + j] == delay_entry(g, di, dv, da, last + 1 + j));
            }
            assert forall|k: int|
                0 <= k < g.inputs.len() && g.inputs[k] / 2 <= g.header.number_of_inputs implies #[trigger] r[(g.inputs[k]
                / 2) as int] == input_delay by {
                let w = g.inputs[k] / 2;
                assert(is_input_variable(g, w as int));
                assert(!is_gate(g.header, w as int));
                assert(r[w as int] == delay_entry(g, di, dv, da, w as int));
            }
        }
        Some(result)
    }
}

fn falses(n: usize) -> (v: Vec<bool>)
    ensures
        v@ == Seq::new(n as nat, |i: int| false),
{
    let mut v: Vec<bool> = Vec::new();
    let mut i: usize = 0;
    while i < n
        invariant
            i <= n,
            v@ == Seq::new(i as nat, |k: int| false),
        decreases n - i,
    {
        v.push(false);
        i = i + 1;
        proof {
            assert(v@ =~= Seq::new(i as nat, |k: int| false));
        }
    }
    v
}

fn push_wire_decls(out: &mut String, w: &Vec<usize>)
    ensures
        final(out)@ == old(out)@ + concat(w@.map_values(|x: usize| wire_decl(x))),
{
    let mut k: usize = 0;
    while k < w.len()
        invariant
            k <= w.len(),
            out@ == old(out)@ + concat(w@.take(k as int).map_values(|x: usize| wire_decl(x))),
        decreases w.len() - k,
    {
        out.append("wire n");
        push_decimal(out, w[k]);
        out.append(";\n");
        proof {
            let prev = w@.take(k as int).map_values(|x: usize| wire_decl(x));
            assert(w@.take(k + 1).map_values(|x: usize| wire_decl(x)) =~= prev.push(wire_decl(w[k as int])));
            lemma_concat_push(prev, wire_decl(w[k as int]));
            assert(out@ =~= old(out)@ + concat(w@.take(k + 1).map_values(|x: usize| wire_decl(x))));
        }
        k = k + 1;
    }
    proof {
        assert(w@.take(w.len() as int) =~= w@);
    }
}

fn push_inverters(out: &mut String, w: &Vec<usize>)
    ensures
        final(out)@ == old(out)@ + concat(w@.map_values(|x: usize| inverter_line(x))),
{
    let mut k: usize = 0;
    while k < w.len()
        invariant
            k <= w.len(),
            out@ == old(out)@ + concat(w@.take(k as int).map_values(|x: usize| inverter_line(x))),
        decreases w.len() - k,
    {
        let x = w[k];
        if x % 2 == 1 {
            out.append("not(n");
            push_decimal(out, x);
            out.append(", n");
            push_decimal(out, x - 1);
            out.append(");\n");
        }
        proof {
            let prev = w@.take(k as int).map_values(|x: usize| inverter_line(x));
            assert(w@.take(k + 1).map_values(|x: usize| inverter_line(x)) =~= prev.push(
                inverter_line(x),
            ));
            lemma_concat_push(prev, inverter_line(x));
            assert(out@ =~= old(out)@ + concat(
                w@.take(k + 1).map_values(|x: usize| inverter_line(x)),
            ));
        }
        k = k + 1;
    }
    proof {
        assert(w@.take(w.len() as int) =~= w@);
    }
}

impl Aig {
    fn push_port_decls(&self, out: &mut String)
        ensures
            final(out)@ == old(out)@ + port_decls(self@),
    {
        let ghost g = self@;
        let ni = self.inputs.len();
        let no = self.outputs.len();
        let mut k: usize = 0;
        while k < ni
            invariant
                g == self@,
                k <= ni,
                ni == g.inputs.len(),
                out@ == old(out)@ + concat(
                    g.inputs.take(k as int).map_values(|l: usize| input_decl(l)),
                ),
            decreases ni - k,
        {
            out.append("input ");
            out.append("n");
            push_decimal(out, self.inputs[k]);
            out.append(";\n");
            proof {
                let prev = g.inputs.take(k as int).map_values(|l: usize| input_decl(l));
                assert(g.inputs.take(k + 1).map_values(|l: usize| input_decl(l)) =~= prev.push(
                    input_decl(g.inputs[k as int]),
                ));
                lemma_concat_push(prev, input_decl(g.inputs[k as int]));
                assert(out@ =~= old(out)@ + concat(
                    g.inputs.take(k + 1).map_values(|l: usize| input_decl(l)),
                ));
            }
            k = k + 1;
        }
        proof {
            assert(g.inputs.take(ni as int) =~= g.inputs);
        }
        let ghost mid = out@;
        let mut j: usize = 0;
        while j < no
            invariant
                g == self@,
                j <= no,
                no == g.outputs.len(),
                out@ == mid + concat(g.outputs.take(j as int).map_values(|l: usize| output_decl(l))),
            decreases no - j,
        {
            out.append("output ");
            out.append("n");
            push_decimal(out, self.outputs[j]);
            out.append(";\n");
            proof {
                let prev = g.outputs.take(j as int).map_values(|l: usize| output_decl(l));
                assert(g.outputs.take(j + 1).map_values(|l: usize| output_decl(l)) =~= prev.push(
                    output_decl(g.outputs[j as int]),
                ));
                lemma_concat_push(prev, output_decl(g.outputs[j as int]));
                assert(out@ =~= mid + concat(
                    g.outputs.take(j + 1).map_values(|l: usize| output_decl(l)),
                ));
            }
            j = j + 1;
        }
        proof {
            assert(g.outputs.take(no as int) =~= g.outputs);
            assert(out@ =~= old(out)@ + port_decls(g));
        }
    }

    fn wire_list(&self) -> (r: Vec<usize>)
        requires
            well_formed(self@),
        ensures
            r@ == wires(self@),
    {
        let ghost g = self@;
        let ghost refs = child_literals(g);
        let ni = self.header.number_of_inputs;
        let na = self.header.number_of_ands;
        let m = self.header.max_variables;
        let mut seen = falses(2 * m);
        let mut r: Vec<usize> = Vec::new();
        let mut i: usize = 0;
        proof {
            assert(refs.take(0) =~= Seq::<usize>::empty());
        }
        while i < 2 * na
            invariant
                g == self@,
                well_formed(g),
                refs == child_literals(g),
                ni == g.header.number_of_inputs,
                na == g.header.number_of_ands,
                m == g.header.max_variables,
                i <= 2 * na,
                seen.len() == 2 * m,
                r@ == distinct(refs.take(i as int)),
                forall|x: int| 0 <= x < 2 * m ==> #[trigger] seen[x] == r@.contains(x as usize),
            decreases 2 * na - i,
        {
            let v = ni + 1 + i / 2;
            proof {
                assert(is_gate(g.header, v as int));
                assert(g.child_0[v as int] / 2 < v && g.child_1[v as int] / 2 < v);
            }
            let lit = if i % 2 == 0 {
                self.child_0[v]
            } else {
                self.child_1[v]
            };
            proof {
                assert(refs[i as int] == lit);
                assert(refs.take(i + 1).drop_last() =~= refs.take(i as int));
                assert(refs.take(i + 1).last() == lit);
            }
            if !seen[lit] {
                let ghost before = r@;
                r.push(lit);
                seen.set(lit, true);
                proof {
                    assert forall|x: int| 0 <= x < 2 * m implies #[trigger] seen[x] == r@.contains(
                        x as usize,
                    ) by {
                        if x != lit {
                            assert(r@.contains(x as usize) ==> before.contains(x as usize) || r@.last()
                                == x as usize);
                            assert(before.contains(x as usize) ==> r@.contains(x as usize)) by {
                                if before.contains(x as usize) {
                                    let idx = choose|idx: int|
                                        0 <= idx < before.len() && before[idx] == x as usize;
                                    assert(r@[idx] == x as usize);
                                }
                            }
                            if r@.contains(x as usize) {
                                let idx = choose|idx: int| 0 <= idx < r@.len() && r@[idx] == x as usize;
                                if idx < before.len() {
                                    assert(before[idx] == x as usize);
                                }
                            }
                        } else {
                            assert(r@[r@.len() - 1] == lit);
                        }
                    }
                }
            }
            i = i + 1;
        }
        proof {
            assert(refs.take(2 * na) =~= refs);
        }
        r
    }

    fn push_and_line(&self, out: &mut String, v: usize)
        requires
            v < self@.child_0.len(),
            v < self@.child_1.len(),
            2 * v <= usize::MAX,
        ensures
            final(out)@ == old(out)@ + and_line(self@, v as int),
    {
        out.append("and(n");
        push_decimal(out, 2 * v);
        out.append(", n");
        push_decimal(out, self.child_0[v]);
        out.append(", n");
        push_decimal(out, self.child_1[v]);
        out.append(");\n");
        proof {
            assert(out@ =~= old(out)@ + and_line(self@, v as int));
        }
    }

    fn push_and_entry(&self, out: &mut String, v: usize)
        requires
            v < self@.child_0.len(),
            v < self@.child_1.len(),
            2 * v <= usize::MAX,
        ensures
            final(out)@ == old(out)@ + and_entry(self@, v as int),
    {
        out.append("AND ");
        push_decimal(out, 2 * v);
        out.append("=");
        push_decimal(out, self.child_0[v]);
        out.append("*");
        push_decimal(out, self.child_1[v]);
        out.append("\n");
        proof {
            assert(out@ =~= old(out)@ + and_entry(self@, v as int));
        }
    }

    fn push_and_lines(&self, out: &mut String)
        requires
            well_formed(self@),
        ensures
            final(out)@ == old(out)@ + and_lines(self@),
    {
        let ghost g = self@;
        let ni = self.header.number_of_inputs;
        let na = self.header.number_of_ands;
        let ghost f = |k: int| and_line(g, g.header.number_of_inputs + 1 + k);
        let mut k: usize = 0;
        while k < na
            invariant
                g == self@,
                g.child_0.len() == g.header.max_variables + 1,
                g.child_1.len() == g.header.max_variables + 1,
                ni + na <= g.header.max_variables,
                2 * g.header.max_variables + 1 <= usize::MAX,
                ni == g.header.number_of_inputs,
                na == g.header.number_of_ands,
                k <= na,
                f == (|k: int| and_line(g, g.header.number_of_inputs + 1 + k)),
                out@ == old(out)@ + concat(Seq::new(k as nat, f)),
            decreases na - k,
        {
            let v = ni + 1 + k;
            self.push_and_line(out, v);
            proof {
                assert(Seq::new((k + 1) as nat, f) =~= Seq::new(k as nat, f).push(and_line(g, v as int)));
                lemma_concat_push(Seq::new(k as nat, f), and_line(g, v as int));
                assert(out@ =~= old(out)@ + concat(Seq::new((k + 1) as nat, f)));
            }
            k = k + 1;
        }
    }

    /// The structural module named `module_name` that describes the graph:
    /// its ports, named by their literals (inputs, then outputs), and their
    /// declarations, one wire per distinct child literal, one inverter per
    /// odd wire, one AND instance per gate. An output whose literal is also an
    /// input literal gets a port of the same name. The output ports are not
    /// connected to the signals that drive them.
    pub fn generate_verilog_module(&self, module_name: String) -> (r: String)
        requires
            well_formed(self@),
        ensures
            r@ == module_text(self@, module_name@),
    {
        let mut content = String::new();
        content.append("module ");
        content.append(module_name.as_str());
        content.append(" (");
        let ports = self.header.generate_verilog_module_header(self.inputs.as_slice(), self.outputs.as_slice());
        content.append(ports.as_str());
        content.append(");\n");
        self.push_port_decls(&mut content);
        content.append("\n");
        let w = self.wire_list();
        push_wire_decls(&mut content, &w);
        content.append("\n");
        push_inverters(&mut content, &w);
        content.append("\n");
        self.push_and_lines(&mut content);
        content.append("endmodule\n");
        proof {
            assert(content@ =~= module_text(self@, module_name@));
        }
        content
    }

    /// A plain listing of the graph, one line per input, output and gate.
    pub fn describe(&self) -> (r: String)
        requires
            well_formed(self@),
        ensures
            r@ == listing_text(self@),
    {
        let ghost g = self@;
        let ni = self.header.number_of_inputs;
        let no = self.header.number_of_outputs;
        let na = self.header.number_of_ands;
        let ghost fi = |k: int| input_entry(g, k);
        let ghost fo = |k: int| output_entry(g, k);
        let ghost fa = |k: int| and_entry(g, g.header.number_of_inputs + 1 + k);
        let mut out = String::new();
        let mut k: usize = 0;
        while k < ni
            invariant
                g == self@,
                g.inputs.len() == ni,
                ni == g.header.number_of_inputs,
                k <= ni,
                fi == (|k: int| input_entry(g, k)),
                out@ == concat(Seq::new(k as nat, fi)),
            decreases ni - k,
        {
            out.append("input = ");
            push_decimal(&mut out, self.inputs[k]);
            out.append("\n");
            proof {
                assert(Seq::new((k + 1) as nat, fi) =~= Seq::new(k as nat, fi).push(input_entry(g, k as int)));
                lemma_concat_push(Seq::new(k as nat, fi), input_entry(g, k as int));
            }
            k = k + 1;
        }
        let ghost after_inputs = out@;
        let mut j: usize = 0;
        while j < no
            invariant
                g == self@,
                g.outputs.len() == no,
                no == g.header.number_of_outputs,
                j <= no,
                fo == (|k: int| output_entry(g, k)),
                out@ == after_inputs + concat(Seq::new(j as nat, fo)),
            decreases no - j,
        {
            out.append("output = ");
            push_decimal(&mut out, self.outputs[j]);
            out.append("\n");
            proof {
                assert(Seq::new((j + 1) as nat, fo) =~= Seq::new(j as nat, fo).push(output_entry(g, j as int)));
                lemma_concat_push(Seq::new(j as nat, fo), output_entry(g, j as int));
                assert(out@ =~= after_inputs + concat(Seq::new((j + 1) as nat, fo)));
            }
            j = j + 1;
        }
        let ghost after_outputs = out@;
        let mut a: usize = 0;
        while a < na
            invariant
                g == self@,
                g.child_0.len() == g.header.max_variables + 1,
                g.child_1.len() == g.header.max_variables + 1,
                ni == g.header.number_of_inputs,
                na == g.header.number_of_ands,
                ni + na <= g.header.max_variables,
                2 * g.header.max_variables + 1 <= usize::MAX,
                a <= na,
                fa == (|k: int| and_entry(g, g.header.number_of_inputs + 1 + k)),
                out@ == after_outputs + concat(Seq::new(a as nat, fa)),
            decreases na - a,
        {
            let v = ni + 1 + a;
            self.push_and_entry(&mut out, v);
            proof {
                assert(Seq::new((a + 1) as nat, fa) =~= Seq::new(a as nat, fa).push(and_entry(g, v as int)));
                lemma_concat_push(Seq::new(a as nat, fa), and_entry(g, v as int));
                assert(out@ =~= after_outputs + concat(Seq::new((a + 1) as nat, fa)));
            }
            a = a + 1;
        }
        proof {
            assert(out@ =~= listing_text(g));
        }
        out
    }
}

} // verus!
