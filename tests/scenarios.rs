use nc_gcode_interpreter::ast::{GGroup, Node, Rule};
use nc_gcode_interpreter::errors::ParsingError;
use nc_gcode_interpreter::program::nc_to_dataframe;
use nc_gcode_interpreter::row::Value;
use nc_gcode_interpreter::state::{Entry, State};
use nc_gcode_interpreter::table::{Column, ColumnType, Table};

const UNIT: i64 = 1_000_000;

fn node(rule: Rule, text: &str, children: Vec<Node>) -> Node {
    Node::new(rule, text.to_string(), 1, children)
}

fn leaf(rule: Rule, text: &str) -> Node {
    node(rule, text, vec![])
}

fn num(text: &str) -> Node {
    node(Rule::Primary, text, vec![leaf(Rule::Value, text)])
}

fn var(name: &str) -> Node {
    node(Rule::Variable, name, vec![leaf(Rule::Identifier, name)])
}

fn read(name: &str) -> Node {
    node(Rule::Primary, name, vec![var(name)])
}

fn expr(items: Vec<Node>) -> Node {
    node(Rule::Expression, "", items)
}

fn op(rule: Rule) -> Node {
    leaf(rule, "")
}

/// `X10`: a one-letter address with a literal.
fn word(letter: &str, value: &str) -> Node {
    node(
        Rule::Assignment,
        "",
        vec![leaf(Rule::VariableSingleChar, letter), leaf(Rule::Value, value)],
    )
}

/// `name=expression`
fn set(name: &str, e: Node) -> Node {
    node(Rule::Assignment, "", vec![var(name), e])
}

fn stmt(items: Vec<Node>) -> Node {
    node(Rule::Statement, "", items)
}

fn block(text: &str, items: Vec<Node>) -> Node {
    node(Rule::Block, text, items)
}

fn blocks(bs: Vec<Node>) -> Node {
    node(Rule::Blocks, "", bs)
}

fn file(bs: Vec<Node>) -> Node {
    node(Rule::File, "", vec![blocks(bs)])
}

fn trans(rule: Rule, items: Vec<Node>) -> Node {
    node(Rule::FrameOp, "", vec![node(rule, "", items)])
}

fn condition(l: Node, rel: &str, r: Node) -> Node {
    node(Rule::Condition, "", vec![l, leaf(Rule::RelationalOperator, rel), r])
}

fn run(f: &Node) -> Result<(Table, State), ParsingError> {
    nc_to_dataframe(f, None, None, None, 10_000, false, false, vec![])
}

fn column<'a>(t: &'a Table, name: &str) -> &'a Column {
    t.columns.iter().find(|c| c.name == name).expect("column missing")
}

fn num_at(t: &Table, name: &str, i: usize) -> Option<i64> {
    match &column(t, name).cells[i] {
        Some(Value::Num(x)) => Some(*x),
        None => None,
        Some(other) => panic!("not a number: {:?}", other),
    }
}

#[test]
fn two_axes_in_one_block() {
    let f = file(vec![block("X10 Y20", vec![stmt(vec![word("X", "10"), word("Y", "20")])])]);
    let (t, _) = run(&f).unwrap();
    assert_eq!(t.row_count, 1);
    assert_eq!(num_at(&t, "X", 0), Some(10 * UNIT));
    assert_eq!(num_at(&t, "Y", 0), Some(20 * UNIT));
    assert!(t.columns.iter().all(|c| c.name == "X" || c.name == "Y"));
    assert_eq!(num_at(&t, "X", 0).map(|x| x as f64 / UNIT as f64), Some(10.0));
}

#[test]
fn translation_applies_to_shown_position() {
    let f = file(vec![
        block("TRANS X=5", vec![trans(Rule::FrameTrans, vec![set("X", expr(vec![num("5")]))])]),
        block("X10", vec![stmt(vec![word("X", "10")])]),
    ]);
    let (t, st) = run(&f).unwrap();
    assert_eq!(t.row_count, 2);
    assert_eq!(num_at(&t, "X", 1), Some(15 * UNIT));
    assert_eq!(st.axis_position(&"X".to_string()), 10 * UNIT);
    assert_eq!(st.get_translation(&"X".to_string()), 5 * UNIT);
}

#[test]
fn additive_translations_accumulate() {
    let f = file(vec![
        block("ATRANS X=1", vec![trans(Rule::FrameAtrans, vec![set("X", expr(vec![num("1")]))])]),
        block("ATRANS X=2", vec![trans(Rule::FrameAtrans, vec![set("X", expr(vec![num("2")]))])]),
        block("X0", vec![stmt(vec![word("X", "0")])]),
    ]);
    let (t, _) = run(&f).unwrap();
    assert_eq!(num_at(&t, "X", 2), Some(3 * UNIT));
}

#[test]
fn variables_feed_axes() {
    let f = file(vec![
        block("R1=3", vec![stmt(vec![set("R1", expr(vec![num("3")]))])]),
        block("R1=R1+2", vec![stmt(vec![set("R1", expr(vec![read("R1"), op(Rule::OpAdd), num("2")]))])]),
        block("X=R1", vec![stmt(vec![set("X", expr(vec![read("R1")]))])]),
    ]);
    let (t, st) = run(&f).unwrap();
    assert_eq!(t.row_count, 3);
    assert_eq!(num_at(&t, "X", 2), Some(5 * UNIT));
    assert_eq!(st.get_symbol(&"R1".to_string()), Some(5 * UNIT));
}

#[test]
fn while_loop_runs_its_body_three_times() {
    let body = blocks(vec![
        block(" X=R1", vec![stmt(vec![set("X", expr(vec![read("R1")]))])]),
        block(" R1=R1+1", vec![stmt(vec![set("R1", expr(vec![read("R1"), op(Rule::OpAdd), num("1")]))])]),
    ]);
    let w = node(
        Rule::WhileStatement,
        "",
        vec![condition(expr(vec![read("R1")]), "<", expr(vec![num("3")])), body],
    );
    let f = file(vec![block("WHILE R1<3", vec![node(Rule::Control, "", vec![w])])]);
    let init = vec![Entry { key: "R1".to_string(), value: 0 }];
    let (t, _) = nc_to_dataframe(&f, None, None, None, 10_000, true, false, init).unwrap();
    // the loop's own block, then two blocks per pass
    assert_eq!(t.row_count, 7);
    let xs: Vec<i64> = column(&t, "X").cells.iter().filter_map(|c| match c {
        Some(Value::Num(x)) => Some(*x),
        _ => None,
    }).collect();
    assert_eq!(xs, vec![0, UNIT, 2 * UNIT]);
}

#[test]
fn six_m_commands_in_one_block_fail() {
    let ms: Vec<Node> = ["M3", "M4", "M5", "M6", "M7", "M8"].iter().map(|m| leaf(Rule::MCommand, m)).collect();
    let inner = blocks(vec![block(" M3 M4 M5 M6 M7 M8", vec![stmt(ms)])]);
    let i = node(
        Rule::IfStatement,
        "",
        vec![condition(expr(vec![num("1")]), "==", expr(vec![num("1")])), inner],
    );
    let f = file(vec![block("IF 1==1", vec![node(Rule::Control, "", vec![i])])]);
    // the M block's error, wrapped by that block and then by the IF block
    match run(&f) {
        Err(ParsingError::AnnotatedError { preview, source, .. }) => {
            assert_eq!(preview, "IF 1==1");
            match *source {
                ParsingError::AnnotatedError { preview, source, .. } => {
                    assert_eq!(preview, " M3 M4 M5 M6 M7 M8");
                    match *source {
                        ParsingError::TooManyMCommands { preview } => assert_eq!(preview, " M3 M4 M5 M6 M7 M8"),
                        other => panic!("unexpected error {:?}", other),
                    }
                }
                other => panic!("unexpected error {:?}", other),
            }
        }
        other => panic!("unexpected result {:?}", other),
    }
}

#[test]
fn five_m_commands_fit_in_one_row() {
    let ms: Vec<Node> = ["M3", "M4", "M5", "M6", "M7"].iter().map(|m| leaf(Rule::MCommand, m)).collect();
    let f = file(vec![block("M3 M4 M5 M6 M7", vec![stmt(ms)])]);
    let (t, _) = run(&f).unwrap();
    match &column(&t, "M").cells[0] {
        Some(Value::StrList(l)) => assert_eq!(l, &vec!["M3", "M4", "M5", "M6", "M7"]),
        other => panic!("unexpected cell {:?}", other),
    }
    assert!(matches!(column(&t, "M").kind, ColumnType::StrList));
}

#[test]
fn one_row_per_block_without_control() {
    let f = file(vec![
        block("N10 G1 X1", vec![
            node(Rule::BlockNumber, "N10", vec![leaf(Rule::Integer, "10")]),
            stmt(vec![node(Rule::GCommand, "G1", vec![leaf(Rule::GWord(GGroup::Motion), "G1")]), word("X", "1")]),
        ]),
        block("; note", vec![leaf(Rule::Comment, "; note")]),
        block("DEF REAL Q", vec![node(Rule::Definition, "", vec![leaf(Rule::DataType, "REAL"), var("Q")])]),
        block("Y2", vec![stmt(vec![word("Y", "2")])]),
    ]);
    let (t, st) = run(&f).unwrap();
    assert_eq!(t.row_count, 4);
    assert_eq!(st.get_symbol(&"Q".to_string()), Some(0));
    // forward fill carries the modal motion command and the axis down
    let g = column(&t, "gg01_motion");
    assert!(g.cells.iter().all(|c| matches!(c, Some(Value::Str(s)) if s == "G1")));
    assert_eq!(num_at(&t, "X", 3), Some(UNIT));
    assert_eq!(num_at(&t, "Y", 0), None);
    assert!(matches!(column(&t, "N").cells[0], Some(Value::Int(10))));
    assert!(column(&t, "N").cells[1].is_none());
    assert!(matches!(&column(&t, "comment").cells[1], Some(Value::Str(s)) if s == "; note"));
    // column order: N, declared axes, groups, comment
    let names: Vec<&str> = t.columns.iter().map(|c| c.name.as_str()).collect();
    assert_eq!(names, vec!["N", "X", "Y", "gg01_motion", "comment"]);
}

#[test]
fn disabled_forward_fill_keeps_gaps() {
    let f = file(vec![
        block("X1", vec![stmt(vec![word("X", "1")])]),
        block("Y2", vec![stmt(vec![word("Y", "2")])]),
    ]);
    let (t, _) = nc_to_dataframe(&f, None, None, None, 10_000, true, false, vec![]).unwrap();
    assert_eq!(num_at(&t, "X", 1), None);
    let (t, _) = run(&f).unwrap();
    assert_eq!(num_at(&t, "X", 1), Some(UNIT));
}

#[test]
fn for_loop_counts_up_to_its_end() {
    let body = blocks(vec![block(" X=R2", vec![stmt(vec![set("X", expr(vec![read("R2")]))])])]);
    let fr = node(Rule::ForStatement, "", vec![set("R2", expr(vec![num("1")])), expr(vec![num("3")]), body]);
    let f = file(vec![block("FOR R2=1 TO 3", vec![node(Rule::Control, "", vec![fr])])]);
    let (t, st) = nc_to_dataframe(&f, None, None, None, 10_000, true, false, vec![]).unwrap();
    assert_eq!(t.row_count, 4);
    assert_eq!(num_at(&t, "X", 3), Some(3 * UNIT));
    assert_eq!(st.get_symbol(&"R2".to_string()), Some(4 * UNIT));
}

#[test]
fn loop_limit_stops_an_endless_loop() {
    let body = blocks(vec![block(" X=1", vec![stmt(vec![set("X", expr(vec![num("1")]))])])]);
    let w = node(Rule::WhileStatement, "", vec![node(Rule::Condition, "", vec![expr(vec![num("1")])]), body]);
    let f = file(vec![block("WHILE 1", vec![node(Rule::Control, "", vec![w])])]);
    let r = nc_to_dataframe(&f, None, None, None, 5, false, false, vec![]);
    match r {
        Err(ParsingError::AnnotatedError { preview, source, .. }) => {
            assert_eq!(preview, "WHILE 1");
            assert!(matches!(*source, ParsingError::LoopLimit { limit: 5 }));
        }
        other => panic!("unexpected result {:?}", other),
    }
}

#[test]
fn start_up_program_shares_the_state() {
    let init = file(vec![block("R5=7", vec![stmt(vec![set("R5", expr(vec![num("7")]))])])]);
    let f = file(vec![block("X=R5", vec![stmt(vec![set("X", expr(vec![read("R5")]))])])]);
    let (t, _) = nc_to_dataframe(&f, Some(&init), None, Some(vec!["W".to_string()]), 10_000, false, false, vec![]).unwrap();
    assert_eq!(t.row_count, 1);
    assert_eq!(num_at(&t, "X", 0), Some(7 * UNIT));
}

#[test]
fn extra_axes_are_axes() {
    let f = file(vec![block("W=2", vec![stmt(vec![set("W", expr(vec![num("2")]))])])]);
    let (t, st) = nc_to_dataframe(&f, None, None, Some(vec!["W".to_string()]), 10_000, false, false, vec![]).unwrap();
    assert_eq!(num_at(&t, "W", 0), Some(2 * UNIT));
    assert!(st.is_axis(&"W".to_string()));
    assert!(st.is_axis(&"RA6".to_string()));
}

#[test]
fn missing_blocks_is_a_parse_error() {
    let f = node(Rule::File, "", vec![]);
    assert!(matches!(run(&f), Err(ParsingError::ParseError { .. })));
}
