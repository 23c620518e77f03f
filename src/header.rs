//! The header line of an ASCII AIGER file.
use vstd::prelude::*;

use vstd::string::StringSliceAdditionalSpecFns;

use crate::error::{AigError, Field};
use crate::text::{decimal_text, number_of, parse_number, push_decimal, token_ranges, tokens_of};

verus! {

/// The counts that the first line of the file declares.
#[derive(Default, Clone, Copy, Debug, PartialEq, Eq, Structural)]
pub struct Header {
    pub max_variables: usize,
    pub number_of_inputs: usize,
    pub number_of_latches: usize,
    pub number_of_outputs: usize,
    pub number_of_ands: usize,
}

/// The `k`-th token read as a number, if there is such a token and it is one.
pub open spec fn numeric_token(toks: Seq<Seq<u8>>, k: int) -> Option<usize> {
    if k < toks.len() {
        number_of(toks[k])
    } else {
        None
    }
}

/// The error for a header whose field `f` is missing or not a number.
pub open spec fn header_error(f: Field) -> AigError {
    AigError::Parse { line: 1, field: f }
}

/// The header that the line `t` declares: a tag, then five counts.
pub open spec fn header_of(t: Seq<u8>) -> Result<Header, AigError> {
    let toks = tokens_of(t);
    if toks.len() == 0 {
        Err(header_error(Field::Tag))
    } else if numeric_token(toks, 1) is None {
        Err(header_error(Field::MaxVariables))
    } else if numeric_token(toks, 2) is None {
        Err(header_error(Field::NumberOfInputs))
    } else if numeric_token(toks, 3) is None {
        Err(header_error(Field::NumberOfLatches))
    } else if numeric_token(toks, 4) is None {
        Err(header_error(Field::NumberOfOutputs))
    } else if numeric_token(toks, 5) is None {
        Err(header_error(Field::NumberOfAnds))
    } else {
        Ok(
            Header {
                max_variables: numeric_token(toks, 1)->Some_0,
                number_of_inputs: numeric_token(toks, 2)->Some_0,
                number_of_latches: numeric_token(toks, 3)->Some_0,
                number_of_outputs: numeric_token(toks, 4)->Some_0,
                number_of_ands: numeric_token(toks, 5)->Some_0,
            },
        )
    }
}

fn read_field(s: &[u8], toks: &Vec<(usize, usize)>, k: usize, f: Field) -> (r: Result<
    usize,
    AigError,
>)
    requires
        forall|i: int| 0 <= i < toks.len() ==> (#[trigger] toks[i]).0 <= toks[i].1 <= s.len(),
    ensures
        match numeric_token(crate::text::pieces(s@, toks@), k as int) {
            Some(v) => r == Ok::<usize, AigError>(v),
            None => r == Err::<usize, AigError>(header_error(f)),
        },
{
    if k < toks.len() {
        let (a, b) = toks[k];
        match parse_number(s, a, b) {
            Some(v) => Ok(v),
            None => Err(AigError::Parse { line: 1, field: f }),
        }
    } else {
        Err(AigError::Parse { line: 1, field: f })
    }
}

/// Reads the header from the line `s[lo..hi]`.
pub fn read_header(s: &[u8], lo: usize, hi: usize) -> (r: Result<Header, AigError>)
    requires
        lo <= hi <= s.len(),
    ensures
        r == header_of(s@.subrange(lo as int, hi as int)),
{
    let toks = token_ranges(s, lo, hi);
    if toks.len() == 0 {
        return Err(AigError::Parse { line: 1, field: Field::Tag });
    }
    let max_variables = read_field(s, &toks, 1, Field::MaxVariables)?;
    let number_of_inputs = read_field(s, &toks, 2, Field::NumberOfInputs)?;
    let number_of_latches = read_field(s, &toks, 3, Field::NumberOfLatches)?;
    let number_of_outputs = read_field(s, &toks, 4, Field::NumberOfOutputs)?;
    let number_of_ands = read_field(s, &toks, 5, Field::NumberOfAnds)?;
    Ok(Header { max_variables, number_of_inputs, number_of_latches, number_of_outputs, number_of_ands })
}

impl Header {
    /// Reads the counts from the header line; on an error the header is left as it was.
    pub fn process_header(&mut self, line: &str) -> (r: Result<(), AigError>)
        ensures
            match header_of(line.spec_bytes()) {
                Ok(h) => r is Ok && *final(self) == h,
                Err(e) => r == Err::<(), AigError>(e) && *final(self) == *old(self),
            },
    {
        let s = line.as_bytes();
        proof {
            assert(s@.subrange(0, s@.len() as int) =~= s@);
        }
        let h = read_header(s, 0, s.len())?;
        *self = h;
        Ok(())
    }
}

/// Names joined with ", " between them.
pub open spec fn joined(names: Seq<Seq<char>>) -> Seq<char>
    decreases names.len(),
{
    if names.len() == 0 {
        seq![]
    } else if names.len() == 1 {
        names[0]
    } else {
        joined(names.drop_last()) + ", "@ + names.last()
    }
}

/// The name of the port of literal `lit`: `n` and the literal.
pub open spec fn port_name(lit: usize) -> Seq<char> {
    "n"@ + decimal_text(lit as nat)
}

/// The ports of a module: every input literal, then every output literal.
/// Where an output literal equals an input literal, the two ports have the
/// same name.
pub open spec fn port_names(inputs: Seq<usize>, outputs: Seq<usize>) -> Seq<Seq<char>> {
    inputs.map_values(|l: usize| port_name(l)) + outputs.map_values(|l: usize| port_name(l))
}

proof fn lemma_joined_push(names: Seq<Seq<char>>, n: Seq<char>)
    ensures
        joined(names.push(n)) == if names.len() == 0 {
            n
        } else {
            joined(names) + ", "@ + n
        },
{
    assert(names.push(n).drop_last() =~= names);
}

impl Header {
    /// The port list of the module whose input and output literals are
    /// `inputs` and `outputs`, as many as the header declares: the names of
    /// the ports, separated by ", ".
    pub fn generate_verilog_module_header(&self, inputs: &[usize], outputs: &[usize]) -> (r: String)
        requires
            inputs.len() == self.number_of_inputs,
            outputs.len() == self.number_of_outputs,
        ensures
            r@ == joined(port_names(inputs@, outputs@)),
    {
        let ghost names = port_names(inputs@, outputs@);
        let ni = inputs.len();
        let no = outputs.len();
        let mut out = String::new();
        let mut k: usize = 0;
        while k < ni
            invariant
                k <= ni,
                ni == inputs.len(),
                names == port_names(inputs@, outputs@),
                out@ == joined(names.take(k as int)),
            decreases ni - k,
        {
            if k > 0 {
                out.append(", ");
            }
            out.append("n");
            push_decimal(&mut out, inputs[k]);
            proof {
                assert(names[k as int] == port_name(inputs@[k as int]));
                assert(names.take(k + 1) =~= names.take(k as int).push(port_name(inputs@[k as int])));
                lemma_joined_push(names.take(k as int), port_name(inputs@[k as int]));
                assert(out@ =~= joined(names.take(k + 1)));
            }
            k = k + 1;
        }
        let mut j: usize = 0;
        while j < no
            invariant
                j <= no,
                ni == inputs.len(),
                no == outputs.len(),
                names == port_names(inputs@, outputs@),
                out@ == joined(names.take(ni + j)),
            decreases no - j,
        {
            if ni > 0 || j > 0 {
                out.append(", ");
            }
            out.append("n");
            push_decimal(&mut out, outputs[j]);
            proof {
                assert(names[ni + j] == port_name(outputs@[j as int]));
                assert(names.take(ni + j + 1) =~= names.take(ni + j).push(port_name(outputs@[j as int])));
                lemma_joined_push(names.take(ni + j), port_name(outputs@[j as int]));
                assert(out@ =~= joined(names.take(ni + j + 1)));
            }
            j = j + 1;
        }
        proof {
            assert(names.take(ni + no) =~= names);
        }
        out
    }
}

} // verus!
