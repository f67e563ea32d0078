use nc_gcode_interpreter::assign::{
    evaluate_condition, interpret_assignment, interpret_assignment_multi, interpret_definition,
    interpret_frame_op,
};
use nc_gcode_interpreter::ast::{Node, Rule};
use nc_gcode_interpreter::errors::ParsingError;
use nc_gcode_interpreter::eval::{evaluate_expression, interpret_array_target, interpret_variable_array};
use nc_gcode_interpreter::interp::interpret_blocks;
use nc_gcode_interpreter::names::{cell_name_of, push_decimal};
use nc_gcode_interpreter::num::{apply_op, parse_literal, Op, SCALE};
use nc_gcode_interpreter::program::default_axis_identifiers;
use nc_gcode_interpreter::row::{insert_m_key, Row, Value};
use nc_gcode_interpreter::state::{Entry, State};
use nc_gcode_interpreter::table::{fill_forward, sanitize_dataframe, ColumnType};

const UNIT: i64 = 1_000_000;

fn node(rule: Rule, text: &str, children: Vec<Node>) -> Node {
    Node::new(rule, text.to_string(), 1, children)
}

fn leaf(rule: Rule, text: &str) -> Node {
    node(rule, text, vec![])
}

fn num(text: &str) -> Node {
    node(Rule::Primary, text, vec![leaf(Rule::Value, text)])
}

fn var(name: &str) -> Node {
    node(Rule::Variable, name, vec![leaf(Rule::Identifier, name)])
}

fn read(name: &str) -> Node {
    node(Rule::Primary, name, vec![var(name)])
}

fn expr(items: Vec<Node>) -> Node {
    node(Rule::Expression, "", items)
}

fn op(rule: Rule) -> Node {
    leaf(rule, "")
}

fn set(name: &str, e: Node) -> Node {
    node(Rule::Assignment, "", vec![var(name), e])
}

fn array(name: &str, idx: Vec<&str>) -> Node {
    let indices = node(Rule::Indices, "", idx.into_iter().map(|i| expr(vec![num(i)])).collect());
    node(Rule::VariableArray, name, vec![leaf(Rule::Identifier, name), indices])
}

fn state() -> State {
    State::new(default_axis_identifiers(), 10_000)
}

fn eval(items: Vec<Node>, st: &State) -> Result<i64, ParsingError> {
    evaluate_expression(&expr(items), st, &mut Vec::new())
}

#[test]
fn operators_apply_left_to_right() {
    let st = state();
    let a = eval(vec![num("6"), op(Rule::OpSub), num("2"), op(Rule::OpSub), num("1")], &st);
    assert_eq!(a.unwrap(), 3 * UNIT);
    let b = eval(vec![num("2"), op(Rule::OpAdd), num("3"), op(Rule::OpMul), num("4")], &st);
    assert_eq!(b.unwrap(), 20 * UNIT);
}

#[test]
fn leading_and_inner_negation() {
    let st = state();
    let a = eval(vec![op(Rule::Neg), num("2"), op(Rule::OpMul), op(Rule::Neg), num("3")], &st);
    assert_eq!(a.unwrap(), 6 * UNIT);
}

#[test]
fn division_and_remainder() {
    let st = state();
    assert_eq!(eval(vec![num("7"), op(Rule::OpDiv), num("2")], &st).unwrap(), 3_500_000);
    assert_eq!(eval(vec![num("7.5"), op(Rule::OpIntDiv), num("2")], &st).unwrap(), 3 * UNIT);
    assert_eq!(eval(vec![op(Rule::Neg), num("7"), op(Rule::OpIntDiv), num("2")], &st).unwrap(), -3 * UNIT);
    assert_eq!(eval(vec![op(Rule::Neg), num("7"), op(Rule::OpMod), num("3")], &st).unwrap(), -UNIT);
    assert_eq!(eval(vec![num("5.5"), op(Rule::OpMod), num("2")], &st).unwrap(), 1_500_000);
}

#[test]
fn int_div_truncates_operands() {
    // 9.9 DIV 2.9 = trunc(9 / 2) = 4
    assert_eq!(apply_op(Op::IntDiv, 9_900_000, 2_900_000), Some(4 * UNIT));
    assert_eq!(apply_op(Op::IntDiv, -9_900_000, 2_900_000), Some(-4 * UNIT));
    // a divisor below one truncates to zero
    assert_eq!(apply_op(Op::IntDiv, 9 * UNIT, 500_000), None);
}

#[test]
fn division_by_zero_is_an_arithmetic_error() {
    let st = state();
    let r = eval(vec![num("1"), op(Rule::OpDiv), num("0")], &st);
    assert!(matches!(r, Err(ParsingError::ArithmeticError { .. })));
    assert_eq!(apply_op(Op::Mul, i64::MAX, 2 * UNIT), None);
    assert_eq!(apply_op(Op::Mul, 1_500_000, 2 * UNIT), Some(3 * UNIT));
}

#[test]
fn literals_read_as_millionths() {
    assert_eq!(parse_literal("1.5"), Some(1_500_000));
    assert_eq!(parse_literal("-0.25"), Some(-250_000));
    assert_eq!(parse_literal("+.5"), Some(500_000));
    assert_eq!(parse_literal("10."), Some(10 * UNIT));
    assert_eq!(parse_literal("0.1234567"), Some(123_456));
    assert_eq!(parse_literal("12"), Some(12 * UNIT));
    assert_eq!(parse_literal(""), None);
    assert_eq!(parse_literal("-"), None);
    assert_eq!(parse_literal("1.2.3"), None);
    assert_eq!(parse_literal("1e3"), None);
    assert_eq!(parse_literal("99999999999999"), None);
    assert_eq!(SCALE, UNIT);
}

#[test]
fn malformed_literal_is_a_parse_error() {
    let st = state();
    assert!(matches!(eval(vec![num("1..2")], &st), Err(ParsingError::ParseError { .. })));
}

#[test]
fn unknown_variable_unless_auto_init() {
    let mut st = state();
    match eval(vec![read("R9")], &st) {
        Err(ParsingError::UnknownVariable { variable }) => assert_eq!(variable, "R9"),
        other => panic!("unexpected {:?}", other),
    }
    st.auto_init_variables = true;
    let mut missing = Vec::new();
    let e = expr(vec![read("R9"), op(Rule::OpAdd), num("1")]);
    assert_eq!(evaluate_expression(&e, &st, &mut missing).unwrap(), UNIT);
    assert_eq!(missing, vec!["R9".to_string()]);
}

#[test]
fn auto_init_read_defines_the_variable() {
    let mut st = state();
    st.auto_init_variables = true;
    interpret_assignment(&set("R1", expr(vec![read("R7"), op(Rule::OpAdd), num("2")])), &mut st).unwrap();
    assert_eq!(st.get_symbol(&"R1".to_string()), Some(2 * UNIT));
    assert_eq!(st.get_symbol(&"R7".to_string()), Some(0));
    interpret_assignment(&set("R8", expr(vec![read("R8"), op(Rule::OpAdd), num("1")])), &mut st).unwrap();
    assert_eq!(st.get_symbol(&"R8".to_string()), Some(UNIT));
}

#[test]
fn large_arrays_are_not_capped() {
    let st = state();
    let names = interpret_variable_array(&array("G", vec!["1000", "999"]), &st, &mut Vec::new()).unwrap();
    assert_eq!(names.len(), 1_001_000);
    assert_eq!(names[names.len() - 1], "G[1000,999]");
}

#[test]
fn array_cells_are_named_by_their_indices() {
    let st = state();
    let names = interpret_variable_array(&array("A", vec!["1", "2"]), &st, &mut Vec::new()).unwrap();
    assert_eq!(names, vec!["A[0,0]", "A[0,1]", "A[0,2]", "A[1,0]", "A[1,1]", "A[1,2]"]);
    assert_eq!(interpret_array_target(&array("B", vec!["2.7"]), &st, &mut Vec::new()).unwrap(), "B[2]");
    assert_eq!(interpret_array_target(&array("C", vec!["0", "1", "12"]), &st, &mut Vec::new()).unwrap(), "C[0,1,12]");
    let four = array("D", vec!["1", "1", "1", "1"]);
    assert!(matches!(interpret_array_target(&four, &st, &mut Vec::new()), Err(ParsingError::ParseError { .. })));
    assert!(matches!(interpret_array_target(&array("E", vec!["-1"]), &st, &mut Vec::new()), Err(ParsingError::ParseError { .. })));
    assert_eq!(cell_name_of(&"F".to_string(), &vec![3, 40]), "F[3,40]");
    let mut s = String::from("n");
    push_decimal(&mut s, 1207);
    assert_eq!(s, "n1207");
}

#[test]
fn array_write_and_read_use_the_last_cell() {
    let mut st = state();
    let w = node(Rule::Assignment, "", vec![array("A", vec!["2"]), expr(vec![num("4")])]);
    let a = interpret_assignment(&w, &mut st).unwrap();
    assert_eq!(a.name, "A[2]");
    assert_eq!(st.get_symbol(&"A[1]".to_string()), None);
    let r = node(Rule::Primary, "", vec![array("A", vec!["2"])]);
    assert_eq!(eval(vec![r], &st).unwrap(), 4 * UNIT);
}

#[test]
fn multi_assignment_fills_cells_in_order() {
    let mut st = state();
    let values = node(
        Rule::ValueArray,
        "",
        vec![expr(vec![num("1")]), leaf(Rule::ValueNone, ""), expr(vec![num("3")])],
    );
    let m = node(Rule::AssignmentMulti, "", vec![array("V", vec!["3"]), values]);
    let keys = interpret_assignment_multi(&m, &mut st).unwrap();
    assert_eq!(keys, vec!["V[0]", "V[1]", "V[2]", "V[3]"]);
    assert_eq!(st.get_symbol(&"V[0]".to_string()), Some(UNIT));
    assert_eq!(st.get_symbol(&"V[1]".to_string()), None);
    assert_eq!(st.get_symbol(&"V[2]".to_string()), Some(3 * UNIT));
    assert_eq!(st.get_symbol(&"V[3]".to_string()), None);
}

#[test]
fn too_many_values_is_an_element_count_error() {
    let mut st = state();
    let values = node(Rule::ValueArray, "", vec![expr(vec![num("1")]), expr(vec![num("2")]), expr(vec![num("3")])]);
    let m = node(Rule::AssignmentMulti, "", vec![array("V", vec!["1"]), values]);
    let r = interpret_assignment_multi(&m, &mut st);
    assert!(matches!(r, Err(ParsingError::InvalidElementCount { expected: 2, actual: 3 })));
    assert_eq!(st.get_symbol(&"V[0]".to_string()), None);
}

#[test]
fn increment_is_not_translated() {
    let mut st = state();
    let t = node(Rule::FrameOp, "", vec![node(Rule::FrameTrans, "", vec![set("X", expr(vec![num("5")]))])]);
    interpret_frame_op(&t, &mut st).unwrap();
    let a = interpret_assignment(&set("X", expr(vec![num("10")])), &mut st).unwrap();
    assert_eq!(a.shown, Some(15 * UNIT));
    let ic = node(Rule::AxisIncrement, "IC(2)", vec![expr(vec![num("2")])]);
    let inc = node(Rule::Assignment, "", vec![var("X"), ic]);
    let a = interpret_assignment(&inc, &mut st).unwrap();
    assert_eq!(a.value, 12 * UNIT);
    assert_eq!(a.shown, Some(12 * UNIT));
    assert_eq!(st.axis_position(&"X".to_string()), 12 * UNIT);
}

#[test]
fn increment_of_an_unset_axis_starts_at_zero() {
    let mut st = state();
    let ic = node(Rule::AxisIncrement, "IC(2)", vec![expr(vec![num("2")])]);
    let a = interpret_assignment(&node(Rule::Assignment, "", vec![var("Y"), ic]), &mut st).unwrap();
    assert_eq!(a.shown, Some(2 * UNIT));
}

#[test]
fn frame_op_on_a_variable_is_refused() {
    let mut st = state();
    let t = node(Rule::FrameOp, "", vec![node(Rule::FrameTrans, "", vec![set("R1", expr(vec![num("5")]))])]);
    match interpret_frame_op(&t, &mut st) {
        Err(ParsingError::UnexpectedAxis { axis }) => assert_eq!(axis, "R1"),
        other => panic!("unexpected {:?}", other),
    }
    assert_eq!(st.get_symbol(&"R1".to_string()), None);
    assert_eq!(st.get_translation(&"X".to_string()), 0);
}

#[test]
fn frame_op_leaves_axis_positions() {
    let mut st = state();
    let t = node(Rule::FrameOp, "", vec![node(Rule::FrameAtrans, "", vec![set("Z", expr(vec![num("1.5")]))])]);
    interpret_frame_op(&t, &mut st).unwrap();
    interpret_frame_op(&t, &mut st).unwrap();
    assert_eq!(st.get_translation(&"Z".to_string()), 3 * UNIT);
    assert_eq!(st.axis_position(&"Z".to_string()), 0);
}

#[test]
fn def_of_an_axis_is_refused_before_any_change() {
    let mut st = state();
    let d = node(Rule::Definition, "", vec![leaf(Rule::DataType, "REAL"), set("X", expr(vec![num("3")]))]);
    let r = interpret_definition(&d, &mut st);
    match r {
        Err(ParsingError::AxisUsedAsVariable { name }) => assert_eq!(name, "X"),
        other => panic!("unexpected {:?}", other),
    }
    assert_eq!(st.axis_position(&"X".to_string()), 0);
    assert_eq!(st.get_symbol(&"X".to_string()), None);
    let d = node(Rule::Definition, "", vec![leaf(Rule::DataType, "REAL"), var("Y")]);
    assert!(matches!(interpret_definition(&d, &mut st), Err(ParsingError::AxisUsedAsVariable { .. })));
}

#[test]
fn def_starts_variables_at_zero() {
    let mut st = state();
    let d = node(
        Rule::Definition,
        "",
        vec![leaf(Rule::DataType, "INT"), var("P"), array("Q", vec!["1"]), set("W1", expr(vec![num("2")]))],
    );
    interpret_definition(&d, &mut st).unwrap();
    assert_eq!(st.get_symbol(&"P".to_string()), Some(0));
    assert_eq!(st.get_symbol(&"Q[0]".to_string()), Some(0));
    assert_eq!(st.get_symbol(&"Q[1]".to_string()), Some(0));
    assert_eq!(st.get_symbol(&"W1".to_string()), Some(2 * UNIT));
}

#[test]
fn conditions_compare_or_test_for_zero() {
    let st = state();
    let c = |l: &str, rel: &str, r: &str| {
        node(Rule::Condition, "", vec![expr(vec![num(l)]), leaf(Rule::RelationalOperator, rel), expr(vec![num(r)])])
    };
    assert_eq!(evaluate_condition(&c("1", "<", "2"), &st, &mut Vec::new()).unwrap(), true);
    assert_eq!(evaluate_condition(&c("2", "<=", "2"), &st, &mut Vec::new()).unwrap(), true);
    assert_eq!(evaluate_condition(&c("2", ">", "2"), &st, &mut Vec::new()).unwrap(), false);
    assert_eq!(evaluate_condition(&c("3", ">=", "2"), &st, &mut Vec::new()).unwrap(), true);
    assert_eq!(evaluate_condition(&c("3", "==", "3"), &st, &mut Vec::new()).unwrap(), true);
    assert_eq!(evaluate_condition(&c("3", "<>", "3"), &st, &mut Vec::new()).unwrap(), false);
    match evaluate_condition(&c("3", "=>", "3"), &st, &mut Vec::new()) {
        Err(ParsingError::UnexpectedOperator { operator }) => assert_eq!(operator, "=>"),
        other => panic!("unexpected {:?}", other),
    }
    let bare = |v: &str| node(Rule::Condition, "", vec![expr(vec![num(v)])]);
    assert_eq!(evaluate_condition(&bare("0"), &st, &mut Vec::new()).unwrap(), false);
    assert_eq!(evaluate_condition(&bare("0.5"), &st, &mut Vec::new()).unwrap(), true);
    let two = node(Rule::Condition, "", vec![expr(vec![num("1")]), expr(vec![num("2")])]);
    assert!(matches!(evaluate_condition(&two, &st, &mut Vec::new()), Err(ParsingError::InvalidCondition)));
}

#[test]
fn sixth_m_command_is_refused() {
    let mut row = Row::new();
    for m in ["M1", "M2", "M3", "M4", "M5"] {
        insert_m_key(&mut row, m, "M1 M2 M3 M4 M5 M6").unwrap();
    }
    let r = insert_m_key(&mut row, "M6", "M1 M2 M3 M4 M5 M6");
    assert!(matches!(r, Err(ParsingError::TooManyMCommands { .. })));
    assert_eq!(row.m_codes.len(), 5);
}

#[test]
fn unexpected_rule_in_a_block_is_annotated() {
    let mut st = state();
    let b = node(Rule::Block, "G1 X1", vec![leaf(Rule::Identifier, "oops")]);
    let bs = node(Rule::Blocks, "", vec![b]);
    let mut rows = Vec::new();
    match interpret_blocks(&bs, &mut rows, &mut st) {
        Err(ParsingError::AnnotatedError { preview, source, line_no }) => {
            assert_eq!(preview, "G1 X1");
            assert_eq!(line_no, 1);
            assert!(matches!(*source, ParsingError::UnexpectedRule { rule: Rule::Identifier, .. }));
        }
        other => panic!("unexpected {:?}", other),
    }
}

#[test]
fn forward_fill_keeps_present_values() {
    let cells = vec![None, Some(Value::Num(1)), None, Some(Value::Num(2)), None];
    let filled = fill_forward(&cells);
    let nums: Vec<Option<i64>> = filled
        .iter()
        .map(|c| match c {
            Some(Value::Num(x)) => Some(*x),
            _ => None,
        })
        .collect();
    assert_eq!(nums, vec![None, Some(1), Some(1), Some(2), Some(2)]);
}

#[test]
fn block_number_that_is_not_a_number_fails_the_cast() {
    let mut row = Row::new();
    row.insert("N".to_string(), Value::Str("1x".to_string()));
    let r = sanitize_dataframe(&vec![row], false);
    assert!(matches!(r, Err(ParsingError::ParseError { .. })));
    let mut row = Row::new();
    row.insert("N".to_string(), Value::Str("20".to_string()));
    row.insert("T".to_string(), Value::Str("T3".to_string()));
    row.insert("AA".to_string(), Value::Num(1));
    row.insert("Y".to_string(), Value::Num(2));
    let t = sanitize_dataframe(&vec![row], false).unwrap();
    let names: Vec<&str> = t.columns.iter().map(|c| c.name.as_str()).collect();
    assert_eq!(names, vec!["N", "Y", "AA", "T"]);
    assert!(matches!(t.columns[0].kind, ColumnType::Int));
    assert!(matches!(t.columns[0].cells[0], Some(Value::Int(20))));
}

#[test]
fn start_values_are_set_in_order() {
    let mut st = state();
    st.init_variables(vec![
        Entry { key: "R1".to_string(), value: UNIT },
        Entry { key: "R1".to_string(), value: 2 * UNIT },
    ]);
    assert_eq!(st.get_symbol(&"R1".to_string()), Some(2 * UNIT));
}

#[test]
fn context_error_keeps_its_parts() {
    match ParsingError::with_context(4, "X=1", "assignment", "bad") {
        ParsingError::ParsingContext { line_no, preview, context, message } => {
            assert_eq!((line_no, preview.as_str(), context.as_str(), message.as_str()), (4, "X=1", "assignment", "bad"));
        }
        other => panic!("unexpected {:?}", other),
    }
}

#[test]
fn def_with_a_later_axis_changes_nothing() {
    let mut st = state();
    let d = node(Rule::Definition, "", vec![leaf(Rule::DataType, "REAL"), var("P"), var("X")]);
    match interpret_definition(&d, &mut st) {
        Err(ParsingError::AxisUsedAsVariable { name }) => assert_eq!(name, "X"),
        other => panic!("unexpected {:?}", other),
    }
    assert_eq!(st.get_symbol(&"P".to_string()), None);
    let d = node(
        Rule::Definition,
        "",
        vec![leaf(Rule::DataType, "REAL"), var("P"), set("X", expr(vec![num("5")]))],
    );
    assert!(matches!(interpret_definition(&d, &mut st), Err(ParsingError::AxisUsedAsVariable { .. })));
    assert_eq!(st.get_symbol(&"P".to_string()), None);
    assert_eq!(st.axis_position(&"X".to_string()), 0);
}
