use cad::aig::Aig;
use cad::error::{AigError, Field};
use cad::header::Header;
use cad::utils::get_max_delay;

const SCENARIO_C: &str = "aag 3 2 0 1 1\n2\n4\n7\n6 2 5\n";

#[test]
fn single_buffer() {
    let aig = Aig::new("aag 1 1 0 1 0\n2\n2\n").unwrap();
    assert_eq!(aig.inputs(), &[2]);
    assert_eq!(aig.outputs(), &[2]);
    assert_eq!(aig.header().number_of_ands, 0);
    let delays = aig.generate_delays(5, 1, 2).unwrap();
    assert_eq!(delays, vec![0, 5, 5]);
    assert_eq!(get_max_delay(delays), 5);
}

#[test]
fn single_inverter() {
    let aig = Aig::new("aag 1 1 0 1 0\n2\n3\n").unwrap();
    assert_eq!(aig.outputs(), &[3]);
    let delays = aig.generate_delays(0, 1, 2).unwrap();
    assert_eq!(delays, vec![0, 0, 1]);
    let delays = aig.generate_delays(4, 3, 2).unwrap();
    assert_eq!(delays[2], 4 + 3);
}

#[test]
fn one_and_gate_of_two_inputs() {
    let aig = Aig::new(SCENARIO_C).unwrap();
    assert_eq!(aig.inputs(), &[2, 4]);
    assert_eq!(aig.outputs(), &[7]);
    assert_eq!(aig.children(3), (2, 5));
    assert_eq!(aig.children(1), (0, 0));
    let delays = aig.generate_delays(0, 1, 2).unwrap();
    assert_eq!(delays, vec![0, 0, 0, 3, 4]);
    assert_eq!(get_max_delay(delays), 4);
}

#[test]
fn delay_of_inputs_is_input_delay() {
    let aig = Aig::new(SCENARIO_C).unwrap();
    let delays = aig.generate_delays(7, 1, 2).unwrap();
    assert_eq!(delays[1], 7);
    assert_eq!(delays[2], 7);
    // gate: max(7, 7 + 1) + 2, output: gate + 1
    assert_eq!(delays[3], 10);
    assert_eq!(delays[4], 11);
}

#[test]
fn chain_of_gates() {
    let text = "aag 4 2 0 2 2\n2\n4\n8\n9\n6 3 5\n8 6 3\n";
    let aig = Aig::new(text).unwrap();
    let delays = aig.generate_delays(1, 2, 3).unwrap();
    // gate 3: max(1+2, 1+2)+3 = 6; gate 4: max(6, 1+2)+3 = 9
    assert_eq!(delays, vec![0, 1, 1, 6, 9, 9, 11]);
}

#[test]
fn parsing_twice_gives_the_same_graph() {
    let a = Aig::new(SCENARIO_C).unwrap();
    let b = Aig::new(SCENARIO_C).unwrap();
    assert_eq!(a.inputs(), b.inputs());
    assert_eq!(a.outputs(), b.outputs());
    assert_eq!(a.header(), b.header());
    for v in 0..4 {
        assert_eq!(a.children(v), b.children(v));
    }
    assert_eq!(a.generate_delays(0, 1, 2), b.generate_delays(0, 1, 2));
    assert_eq!(a.generate_verilog_module("m".to_string()), b.generate_verilog_module("m".to_string()));
}

#[test]
fn netlist_of_one_and_gate() {
    let aig = Aig::new(SCENARIO_C).unwrap();
    let text = aig.generate_verilog_module("Aig".to_string());
    let expected = "module Aig (n2, n4, n7);\n\
                    input n2;\n\
                    input n4;\n\
                    output n7;\n\
                    \n\
                    wire n2;\n\
                    wire n5;\n\
                    \n\
                    not(n5, n4);\n\
                    \n\
                    and(n6, n2, n5);\n\
                    endmodule\n";
    assert_eq!(text, expected);
}

#[test]
fn netlist_wires_are_declared_once() {
    let text = "aag 4 2 0 1 2\n2\n4\n8\n6 3 5\n8 3 5\n";
    let aig = Aig::new(text).unwrap();
    let out = aig.generate_verilog_module("top".to_string());
    assert_eq!(out.matches("wire n3;").count(), 1);
    assert_eq!(out.matches("wire n5;").count(), 1);
    assert_eq!(out.matches("wire ").count(), 2);
    assert_eq!(out.matches("not(n3, n2);").count(), 1);
    assert_eq!(out.matches("not(n5, n4);").count(), 1);
    assert!(out.contains("and(n6, n3, n5);\nand(n8, n3, n5);\n"));
}

#[test]
fn netlist_without_gates() {
    let aig = Aig::new("aag 1 1 0 1 0\n2\n2\n").unwrap();
    let out = aig.generate_verilog_module("buf".to_string());
    assert_eq!(out, "module buf (n2, n2);\ninput n2;\noutput n2;\n\n\n\nendmodule\n");
}

#[test]
fn and_line_missing_a_token() {
    let r = Aig::new("aag 3 2 0 1 1\n2\n4\n7\n6 2\n");
    assert_eq!(r.unwrap_err(), AigError::Format { line: 5, field: Field::Child1 });
    let r = Aig::new("aag 3 2 0 1 1\n2\n4\n7\n\n");
    assert_eq!(r.unwrap_err(), AigError::Format { line: 5, field: Field::AndOutput });
}

#[test]
fn header_with_non_integer_field() {
    let r = Aig::new("aag x 2 0 1 1\n2\n4\n7\n6 2 5\n");
    assert_eq!(r.unwrap_err(), AigError::Parse { line: 1, field: Field::MaxVariables });
    let r = Aig::new("aag 3 2 0 1 -1\n");
    assert_eq!(r.unwrap_err(), AigError::Parse { line: 1, field: Field::NumberOfAnds });
}

#[test]
fn header_with_too_few_fields() {
    let r = Aig::new("aag 3 2 0\n");
    assert_eq!(r.unwrap_err(), AigError::Parse { line: 1, field: Field::NumberOfOutputs });
    let r = Aig::new("");
    assert_eq!(r.unwrap_err(), AigError::Parse { line: 1, field: Field::Tag });
}

#[test]
fn body_token_that_is_not_a_number() {
    let r = Aig::new("aag 3 2 0 1 1\n2\nfour\n7\n6 2 5\n");
    assert_eq!(r.unwrap_err(), AigError::Parse { line: 3, field: Field::Input });
    let r = Aig::new("aag 3 2 0 1 1\n2\n4\n7\n6 2 99999999999999999999999\n");
    assert_eq!(r.unwrap_err(), AigError::Parse { line: 5, field: Field::Child1 });
}

#[test]
fn missing_lines_are_format_errors() {
    let r = Aig::new("aag 1 1 0 1 0\n2\n");
    assert_eq!(r.unwrap_err(), AigError::Format { line: 3, field: Field::Output });
}

#[test]
fn literals_out_of_range() {
    let r = Aig::new("aag 1 2 0 0 0\n2\n4\n");
    assert_eq!(r.unwrap_err(), AigError::Index { line: 1, field: Field::MaxVariables });
    let r = Aig::new("aag 1 1 0 1 0\n2\n9\n");
    assert_eq!(r.unwrap_err(), AigError::Index { line: 3, field: Field::Output });
    let r = Aig::new("aag 3 2 0 1 1\n2\n4\n7\n6 2 7\n");
    assert_eq!(r.unwrap_err(), AigError::Index { line: 5, field: Field::Child1 });
    let r = Aig::new("aag 3 2 0 1 1\n2\n4\n7\n8 2 4\n");
    assert_eq!(r.unwrap_err(), AigError::Index { line: 5, field: Field::AndOutput });
    let r = Aig::new("aag 3 2 0 1 1\n2\n8\n7\n6 2 5\n");
    assert_eq!(r.unwrap_err(), AigError::Index { line: 3, field: Field::Input });
}

#[test]
fn extra_lines_and_blanks_are_accepted() {
    let text = "aag 3 2 0 1 1\r\n2\r\n4\r\n7\r\n6  2\t5\r\ni0 a\nc\ncomment\n";
    let aig = Aig::new(text).unwrap();
    assert_eq!(aig.children(3), (2, 5));
    assert_eq!(aig.generate_delays(0, 1, 2).unwrap(), vec![0, 0, 0, 3, 4]);
}

#[test]
fn delay_overflow_gives_none() {
    let aig = Aig::new("aag 1 1 0 1 0\n2\n3\n").unwrap();
    assert_eq!(aig.generate_delays(usize::MAX, 1, 0), None);
    assert_eq!(aig.generate_delays(usize::MAX - 1, 1, 0), Some(vec![0, usize::MAX - 1, usize::MAX]));
}

#[test]
fn process_header_reads_five_counts() {
    let mut h = Header::default();
    assert_eq!(h.process_header("aag 7 2 1 3 4"), Ok(()));
    assert_eq!(h.max_variables, 7);
    assert_eq!(h.number_of_inputs, 2);
    assert_eq!(h.number_of_latches, 1);
    assert_eq!(h.number_of_outputs, 3);
    assert_eq!(h.number_of_ands, 4);
    let before = h;
    assert!(h.process_header("aag 7 2").is_err());
    assert_eq!(h, before);
}

#[test]
fn module_header_lists_inputs_then_outputs() {
    let h = Header { max_variables: 7, number_of_inputs: 2, number_of_latches: 0, number_of_outputs: 2, number_of_ands: 5 };
    assert_eq!(h.generate_verilog_module_header(&[2, 4], &[14, 9]), "n2, n4, n14, n9");
    assert_eq!(Header::default().generate_verilog_module_header(&[], &[]), "");
    let h = Header { number_of_outputs: 1, ..Header::default() };
    assert_eq!(h.generate_verilog_module_header(&[], &[7]), "n7");
}

#[test]
fn max_delay_of_vectors() {
    assert_eq!(get_max_delay(vec![]), 0);
    assert_eq!(get_max_delay(vec![3, 9, 2]), 9);
    assert_eq!(get_max_delay(vec![0, 0]), 0);
}

#[test]
fn large_literals_are_rendered_in_decimal() {
    let aig = Aig::new("aag 12 11 0 1 1\n2\n4\n6\n8\n10\n12\n14\n16\n18\n20\n22\n23\n24 21 22\n").unwrap();
    let out = aig.generate_verilog_module("w".to_string());
    assert!(out.contains("and(n24, n21, n22);\n"));
    assert!(out.contains("not(n21, n20);\n"));
    assert!(out.contains("output n23;\n"));
    assert!(out.starts_with("module w (n2, n4, n6, n8, n10, n12, n14, n16, n18, n20, n22, n23);\n"));
}

#[test]
fn listing_of_one_and_gate() {
    let aig = Aig::new(SCENARIO_C).unwrap();
    assert_eq!(aig.describe(), "input = 2\ninput = 4\noutput = 7\nAND 6=2*5\n");
}

#[test]
fn input_and_output_lines_hold_one_literal() {
    let r = Aig::new("aag 1 1 0 1 0\n2 3\n2\n");
    assert_eq!(r.unwrap_err(), AigError::Parse { line: 2, field: Field::Input });
    let r = Aig::new("aag 1 1 0 1 0\n2\n2 x\n");
    assert_eq!(r.unwrap_err(), AigError::Parse { line: 3, field: Field::Output });
    let r = Aig::new("aag 1 1 0 1 0\n2\n \n");
    assert_eq!(r.unwrap_err(), AigError::Format { line: 3, field: Field::Output });
}

#[test]
fn literals_are_taken_as_written() {
    // inputs in any order, outputs of any variable up to max_variables
    let aig = Aig::new("aag 3 2 0 2 1\n4\n2\n7\n1\n6 2 5\n").unwrap();
    assert_eq!(aig.inputs(), &[4, 2]);
    assert_eq!(aig.outputs(), &[7, 1]);
    assert_eq!(aig.generate_delays(3, 1, 2).unwrap(), vec![0, 3, 3, 6, 7, 1]);
    let out = aig.generate_verilog_module("m".to_string());
    assert!(out.starts_with("module m (n4, n2, n7, n1);\ninput n4;\ninput n2;\noutput n7;\noutput n1;\n"));
}

#[test]
fn and_line_sets_the_variable_it_names() {
    let aig = Aig::new("aag 4 2 0 1 1\n2\n4\n8\n8 2 5\n").unwrap();
    assert_eq!(aig.children(4), (2, 5));
    assert_eq!(aig.children(3), (0, 0));
    // gate 3 has no line: both children are the constant
    // variable 4 lies above the last gate and is no input: its delay is 0
    assert_eq!(aig.generate_delays(1, 1, 2).unwrap(), vec![0, 1, 1, 2, 0]);
}

#[test]
fn outputs_follow_the_last_gate() {
    // max_variables exceeds inputs plus gates: no slot for the spare variables
    let aig = Aig::new("aag 5 1 1 1 1\n2\n5\n4 3 3\n").unwrap();
    assert_eq!(aig.generate_delays(2, 1, 3).unwrap(), vec![0, 2, 6, 7]);
    assert_eq!(aig.generate_delays(5, 1, 3).unwrap(), vec![0, 5, 9, 10]);
}

#[test]
fn numbers_may_carry_one_plus_sign() {
    let aig = Aig::new("aag +1 1 0 1 0\n+2\n2\n").unwrap();
    assert_eq!(aig.inputs(), &[2]);
    assert_eq!(aig.header().max_variables, 1);
    let r = Aig::new("aag 1 1 0 1 0\n++2\n2\n");
    assert_eq!(r.unwrap_err(), AigError::Parse { line: 2, field: Field::Input });
    let r = Aig::new("aag 1 1 0 1 0\n2\n+\n");
    assert_eq!(r.unwrap_err(), AigError::Parse { line: 3, field: Field::Output });
}
