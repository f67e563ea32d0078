//! The block projector: walks the blocks of a program, carries out their
//! items against the state, and appends one row per executed block.
use crate::assign::{
    assign_model, assignment_error, assignment_ok, assignment_plan, def_run, eval_condition,
    evaluate_condition, frame_result, frame_reads, interpret_assignment, interpret_assignment_multi,
    interpret_definition, interpret_frame_op, multi_plan, same_state, shown_of, store_values,
    after_assignment, multi_missing, cond_missing, law_shown_position,
};
use crate::ast::{Node, Rule};
use crate::errors::{err_agrees, kind_of, lift, res_agrees, ErrKind, ErrView, ParsingError};
use crate::eval::{eval_expr, evaluate_expression, miss_expr, names_of};
use crate::num::{in_range, NUM_MAX, SCALE};
use crate::row::{empty_row, insert_m_key, models, Row, RowModel, Value, ValueView, MAX_M_COMMANDS};
use crate::state::{zero_fill, State, StateModel};
use vstd::prelude::*;

verus! {

/// Every row holds at most the allowed number of M commands.
pub open spec fn rows_wf(rows: Seq<Row>) -> bool {
    forall|i: int| 0 <= i < rows.len() ==> (#[trigger] rows[i]).wf()
}

/// The rows `new` are the rows `old` with more appended.
pub open spec fn appended(old: Seq<Row>, new: Seq<Row>) -> bool {
    new.len() >= old.len() && forall|i: int| 0 <= i < old.len() ==> new[i] == old[i]
}

/// Two states have the same axes, loop limit and reading mode.
pub open spec fn config_kept(a: State, b: State) -> bool {
    &&& a.axis_names() == b.axis_names()
    &&& a.iteration_limit == b.iteration_limit
    &&& a.auto_init_variables == b.auto_init_variables
}

/// A block holds a control statement, whose blocks add rows of their own.
pub open spec fn has_control(b: Node) -> bool {
    exists|i: int| 0 <= i < b.children@.len() && (#[trigger] b.children@[i]).rule == Rule::Control
}

/// None of the blocks holds a control statement.
pub open spec fn flat(blocks: Node) -> bool {
    forall|i: int| 0 <= i < blocks.children@.len() ==> !has_control(#[trigger] blocks.children@[i])
}

/// The column and the command text of a G command.
pub fn interpret_g_command(g: &Node) -> (r: Result<(String, String), ParsingError>)
    ensures
        r matches Ok((k, v)) ==> g.children@.len() > 0 && (g.children@[0].rule matches Rule::GWord(
            grp,
        ) && k@ == crate::ast::group_column(grp)) && v@ == g.children@[0].text@,
        r is Err ==> g.children@.len() == 0 || !(g.children@[0].rule is GWord),
        r matches Err(e) ==> e.kind() == ErrKind::UnexpectedRule,
{
    if g.children.len() == 0 {
        return Err(ParsingError::UnexpectedRule { rule: g.rule, context: String::from_str("interpret_g_command") });
    }
    let w = &g.children[0];
    match w.rule {
        Rule::GWord(grp) => Ok((String::from_str(grp.column()), w.text.clone())),
        _ => Err(ParsingError::UnexpectedRule { rule: w.rule, context: String::from_str("interpret_g_command") }),
    }
}

/// The column and the text of an M command.
pub fn interpret_m_command(m: &Node) -> (r: (String, String))
    ensures
        r.0@ == "M"@,
        r.1@ == m.text@,
{
    (String::from_str("M"), m.text.clone())
}

/// The column and the text of a function call.
pub fn interpret_function_call(f: &Node) -> (r: (String, String))
    ensures
        r.0@ == "function_call"@,
        r.1@ == f.text@,
{
    (String::from_str("function_call"), f.text.clone())
}

/// Writes a block number into the row's `N` column, as the digits of its number.
pub fn interpret_block_number(b: &Node, row: &mut Row) -> (r: Result<(), ParsingError>)
    ensures
        final(row).m_codes == old(row).m_codes,
        r is Ok <==> b.children@.len() > 0 && b.children@[0].rule == Rule::Integer,
        r is Ok ==> final(row).view_map() == old(row).view_map().insert(
            "N"@,
            ValueView::Str(b.children@[0].text@),
        ),
        r is Err ==> final(row).columns() == old(row).columns() && final(row).view_map() == old(
            row,
        ).view_map(),
        r matches Err(e) ==> e.kind() == ErrKind::UnexpectedRule,
{
    if b.children.len() == 0 || b.children[0].rule != Rule::Integer {
        let rule = if b.children.len() == 0 {
            b.rule
        } else {
            b.children[0].rule
        };
        return Err(ParsingError::UnexpectedRule { rule, context: String::from_str("interpret_block_number") });
    }
    row.insert(String::from_str("N"), Value::Str(b.children[0].text.clone()));
    Ok(())
}

/// The column and text of a G command node, where it holds a G word.
pub open spec fn g_entry(g: Node) -> Option<(Seq<char>, Seq<char>)> {
    if g.children@.len() > 0 {
        match g.children@[0].rule {
            Rule::GWord(grp) => Some((crate::ast::group_column(grp), g.children@[0].text@)),
            _ => None,
        }
    } else {
        None
    }
}

/// The column and text that a `g_command` or `g_command_numbered` item writes.
pub open spec fn g_item_entry(item: Node) -> Option<(Seq<char>, Seq<char>)> {
    if item.rule == Rule::GCommand {
        g_entry(item)
    } else if item.children@.len() > 0 {
        g_entry(item.children@[0])
    } else {
        None
    }
}

/// What one item of a statement does to the row and the state.
pub open spec fn item_effect(
    item: Node,
    row0: Row,
    row1: Row,
    s0: State,
    s1: State,
    r: Result<(), ParsingError>,
) -> bool {
    let text_cell = |k: Seq<char>|
        {
            &&& r is Ok
            &&& row1.view_map() == row0.view_map().insert(k, ValueView::Str(item.text@))
            &&& row1.m_codes == row0.m_codes
            &&& same_state(s1, s0)
        };
    if item.rule == Rule::FunctionCall {
        text_cell("function_call"@)
    } else if item.rule == Rule::ToolSelection {
        text_cell("T"@)
    } else if item.rule == Rule::GCommand || item.rule == Rule::GCommandNumbered {
        &&& same_state(s1, s0)
        &&& row1.m_codes == row0.m_codes
        &&& match g_item_entry(item) {
            Some((k, t)) => r is Ok && row1.view_map() == row0.view_map().insert(k, ValueView::Str(t)),
            None => (r matches Err(e) && e.kind() == ErrKind::UnexpectedRule) && row1.view_map()
                == row0.view_map(),
        }
    } else if item.rule == Rule::MCommand {
        &&& same_state(s1, s0)
        &&& row1.view_map() == row0.view_map()
        &&& if row0.m_codes.len() < MAX_M_COMMANDS {
            r is Ok && row1.m_list() == row0.m_list().push(item.text@)
        } else {
            (r matches Err(e) && e.kind() == ErrKind::TooManyMCommands) && row1.m_codes == row0.m_codes
        }
    } else if item.rule == Rule::Assignment {
        &&& row1.m_codes == row0.m_codes
        &&& if assignment_ok(item, s0.model()) {
            &&& r is Ok
            &&& after_assignment(item, s0, s1)
            &&& row1.view_map() == match shown_of(item, s0.model()) {
                Some(p) => row0.view_map().insert(assignment_plan(item, s0.model())->Ok_0.0, ValueView::Num(p)),
                None => row0.view_map(),
            }
        } else {
            &&& r matches Err(e) && e.kind() == assignment_error(item, s0.model())
            &&& same_state(s1, s0)
            &&& row1.view_map() == row0.view_map()
        }
    } else if item.rule == Rule::AssignmentMulti {
        &&& row1.view_map() == row0.view_map()
        &&& row1.m_codes == row0.m_codes
        &&& s1.same_but_symbols(&s0)
        &&& match multi_plan(item, s0.env()) {
            Ok((keys, vals)) => r is Ok && s1.symbols() == store_values(zero_fill(s0.symbols(), multi_missing(item, s0.env())), keys, vals, 0),
            Err(k) => (r matches Err(e) && e.kind() == k) && s1.symbols() == s0.symbols(),
        }
    } else {
        &&& r matches Err(e) && e.kind() == ErrKind::UnexpectedRule
        &&& row1.view_map() == row0.view_map()
        &&& row1.m_codes == row0.m_codes
        &&& same_state(s1, s0)
    }
}

/// Carries out one item of a statement (see `item_effect`): G commands go to
/// their group's column, M commands to `M`, function calls and tool
/// selections to their columns, and an assigned axis shows its position.
pub fn interpret_statement_item(item: &Node, row: &mut Row, st: &mut State, preview: &str) -> (r:
    Result<(), ParsingError>)
    requires
        old(st).wf(),
        old(row).wf(),
    ensures
        final(st).wf(),
        final(row).wf(),
        config_kept(*final(st), *old(st)),
        item_effect(*item, *old(row), *final(row), *old(st), *final(st), r),
{
    match item.rule {
        Rule::FunctionCall => {
            let (k, v) = interpret_function_call(item);
            row.insert(k, Value::Str(v));
            Ok(())
        },
        Rule::GCommand => match interpret_g_command(item) {
            Ok((k, v)) => {
                row.insert(k, Value::Str(v));
                Ok(())
            },
            Err(e) => Err(e),
        },
        Rule::GCommandNumbered => {
            if item.children.len() == 0 {
                return Err(ParsingError::UnexpectedRule { rule: item.rule, context: String::from_str("interpret_statement") });
            }
            match interpret_g_command(&item.children[0]) {
                Ok((k, v)) => {
                    row.insert(k, Value::Str(v));
                    Ok(())
                },
                Err(e) => Err(e),
            }
        },
        Rule::MCommand => {
            let (_k, v) = interpret_m_command(item);
            insert_m_key(row, v.as_str(), preview)
        },
        Rule::Assignment => match interpret_assignment(item, st) {
            Ok(a) => {
                match a.shown {
                    Some(p) => row.insert(a.name, Value::Num(p)),
                    None => {},
                }
                Ok(())
            },
            Err(e) => Err(e),
        },
        Rule::AssignmentMulti => match interpret_assignment_multi(item, st) {
            Ok(_) => Ok(()),
            Err(e) => Err(e),
        },
        Rule::ToolSelection => {
            row.insert(String::from_str("T"), Value::Str(item.text.clone()));
            Ok(())
        },
        _ => Err(ParsingError::UnexpectedRule { rule: item.rule, context: String::from_str("interpret_statement") }),
    }
}

/// One item of a statement as plain values: the outcome, the row and the
/// state after it (see `item_effect`).
pub open spec fn item_step(item: Node, row: RowModel, st: StateModel) -> (Result<(), ErrKind>, RowModel, StateModel) {
    let text = |k: Seq<char>| (Ok(()), RowModel { cols: row.cols.insert(k, ValueView::Str(item.text@)), ..row }, st);
    if item.rule == Rule::FunctionCall {
        text("function_call"@)
    } else if item.rule == Rule::ToolSelection {
        text("T"@)
    } else if item.rule == Rule::GCommand || item.rule == Rule::GCommandNumbered {
        match g_item_entry(item) {
            Some((k, t)) => (Ok(()), RowModel { cols: row.cols.insert(k, ValueView::Str(t)), ..row }, st),
            None => (Err(ErrKind::UnexpectedRule), row, st),
        }
    } else if item.rule == Rule::MCommand {
        if row.m.len() < MAX_M_COMMANDS {
            (Ok(()), RowModel { m: row.m.push(item.text@), ..row }, st)
        } else {
            (Err(ErrKind::TooManyMCommands), row, st)
        }
    } else if item.rule == Rule::Assignment {
        if assignment_ok(item, st) {
            let row1 = match shown_of(item, st) {
                Some(p) => RowModel {
                    cols: row.cols.insert(assignment_plan(item, st)->Ok_0.0, ValueView::Num(p)),
                    ..row
                },
                None => row,
            };
            (Ok(()), row1, assign_model(item, st))
        } else {
            (Err(assignment_error(item, st)), row, st)
        }
    } else if item.rule == Rule::AssignmentMulti {
        match multi_plan(item, st.env()) {
            Ok((keys, vals)) => (Ok(()), row, st.with_symbols(store_values(zero_fill(st.syms, multi_missing(item, st.env())), keys, vals, 0))),
            Err(k) => (Err(k), row, st),
        }
    } else {
        (Err(ErrKind::UnexpectedRule), row, st)
    }
}

proof fn lemma_item_step(item: Node, row0: Row, row1: Row, s0: State, s1: State, r: Result<(), ParsingError>)
    requires
        item_effect(item, row0, row1, s0, s1, r),
        row0.wf(),
    ensures
        (kind_of(r), row1.model(), s1.model()) == item_step(item, row0.model(), s0.model()),
{
    if item.rule == Rule::MCommand && row0.m_codes.len() >= MAX_M_COMMANDS {
        assert(row1.m_list() == row0.m_list());
    }
}

/// The items `items[i..]` of a statement in order, stopping at the first error.
pub open spec fn stmt_fold(items: Seq<Node>, i: int, row: RowModel, st: StateModel) -> (Result<(), ErrKind>, RowModel, StateModel)
    decreases items.len() - i,
{
    if i < 0 || i >= items.len() {
        (Ok(()), row, st)
    } else {
        let t = item_step(items[i], row, st);
        if t.0 is Err {
            t
        } else {
            stmt_fold(items, i + 1, t.1, t.2)
        }
    }
}

/// Carries out the items of a statement in order, each as
/// `interpret_statement_item` says, stopping at the first error.
pub fn interpret_statement(s: &Node, row: &mut Row, st: &mut State, preview: &str) -> (r: Result<
    (),
    ParsingError,
>)
    requires
        old(st).wf(),
        old(row).wf(),
    ensures
        final(st).wf(),
        final(row).wf(),
        config_kept(*final(st), *old(st)),
        (kind_of(r), final(row).model(), final(st).model()) == stmt_fold(
            s.children@,
            0,
            old(row).model(),
            old(st).model(),
        ),
{
    let mut i: usize = 0;
    while i < s.children.len()
        invariant
            st.wf(),
            row.wf(),
            config_kept(*st, *old(st)),
            i <= s.children.len(),
            stmt_fold(s.children@, 0, old(row).model(), old(st).model()) == stmt_fold(
                s.children@,
                i as int,
                row.model(),
                st.model(),
            ),
        decreases s.children.len() - i,
    {
        let ghost r0 = *row;
        let ghost s0 = *st;
        let res = interpret_statement_item(&s.children[i], row, st, preview);
        proof {
            lemma_item_step(s.children@[i as int], r0, *row, s0, *st, res);
        }
        match res {
            Ok(()) => {},
            Err(e) => {
                return Err(e);
            },
        }
        i += 1;
    }
    Ok(())
}

/// Wraps an error raised inside a block with the block's line and text.
fn annotate(e: ParsingError, block: &Node) -> (r: ParsingError)
    ensures
        r matches ParsingError::AnnotatedError { line_no, preview, source } && line_no == block.line
            && preview@ == block.text@ && *source == e,
{
    ParsingError::AnnotatedError { line_no: block.line, preview: block.text.clone(), source: Box::new(e) }
}

/// One item of a block other than a control statement, as plain values.
pub open spec fn plain_item_step(item: Node, row: RowModel, st: StateModel) -> (Result<(), ErrKind>, RowModel, StateModel) {
    if item.rule == Rule::BlockNumber {
        if item.children@.len() > 0 && item.children@[0].rule == Rule::Integer {
            (Ok(()), RowModel { cols: row.cols.insert("N"@, ValueView::Str(item.children@[0].text@)), ..row }, st)
        } else {
            (Err(ErrKind::UnexpectedRule), row, st)
        }
    } else if item.rule == Rule::Statement {
        stmt_fold(item.children@, 0, row, st)
    } else if item.rule == Rule::Comment {
        (Ok(()), RowModel { cols: row.cols.insert("comment"@, ValueView::Str(item.text@)), ..row }, st)
    } else if item.rule == Rule::Definition {
        let t = def_run(item, st);
        (t.0, row, t.1)
    } else if item.rule == Rule::FrameOp {
        let t = frame_result(item, st);
        if t.0 is Ok {
            (t.0, row, st.with_translations(t.1).with_symbols(zero_fill(st.syms, frame_reads(item, st))))
        } else {
            (t.0, row, st.with_translations(t.1))
        }
    } else {
        (Err(ErrKind::UnexpectedRule), row, st)
    }
}

/// Running the blocks `bs.children[i..]` in order from state `st` with rows
/// `out` so far: the outcome, the state and the rows. A failing block stops
/// the run.
pub open spec fn run_blocks(bs: Node, i: int, st: StateModel, out: Seq<RowModel>) -> (Result<(), ErrView>, StateModel, Seq<RowModel>)
    decreases bs, bs.children@.len() - i,
{
    if i < 0 || i >= bs.children@.len() {
        (Ok(()), st, out)
    } else {
        let t = run_block(bs.children@[i], st, out);
        if t.0 is Err {
            t
        } else {
            run_blocks(bs, i + 1, t.1, t.2)
        }
    }
}

/// Running one block: its row is appended first, its items run in order, and
/// the row takes what they wrote. An error comes back wrapped with the
/// block's line and text.
pub open spec fn run_block(b: Node, st: StateModel, out: Seq<RowModel>) -> (Result<(), ErrView>, StateModel, Seq<RowModel>)
    decreases b, b.children@.len() + 1,
{
    let t = run_items(b, 0, empty_row(), st, out.push(empty_row()));
    match t.0 {
        Ok(_) => (Ok(()), t.2, t.3.update(out.len() as int, t.1)),
        Err(v) => (Err(ErrView::Annotated(b.line, b.text@, Box::new(v))), t.2, t.3),
    }
}

/// Running the items `b.children[j..]` of a block with its row `row`.
pub open spec fn run_items(b: Node, j: int, row: RowModel, st: StateModel, out: Seq<RowModel>) -> (Result<(), ErrView>, RowModel, StateModel, Seq<RowModel>)
    decreases b, b.children@.len() - j,
{
    if j < 0 || j >= b.children@.len() {
        (Ok(()), row, st, out)
    } else {
        let item = b.children@[j];
        let t: (Result<(), ErrView>, RowModel, StateModel, Seq<RowModel>) = if item.rule == Rule::Control {
            let c = run_control(item, st, out);
            (c.0, row, c.1, c.2)
        } else {
            let p = plain_item_step(item, row, st);
            (lift(p.0), p.1, p.2, out)
        };
        if t.0 is Err {
            t
        } else {
            run_items(b, j + 1, t.1, t.2, t.3)
        }
    }
}

/// Running a control statement: `if`, `while` or `for`.
pub open spec fn run_control(c: Node, st: StateModel, out: Seq<RowModel>) -> (Result<(), ErrView>, StateModel, Seq<RowModel>)
    decreases c, 0int,
{
    if c.children@.len() == 0 {
        (Err(ErrView::Kind(ErrKind::UnexpectedRule)), st, out)
    } else {
        let k = c.children@[0];
        if k.rule == Rule::IfStatement {
            run_if(k, st, out)
        } else if k.rule == Rule::WhileStatement {
            run_while(k, 0, st.iteration_limit, st, out)
        } else if k.rule == Rule::ForStatement {
            run_for(k, st, out)
        } else {
            (Err(ErrView::Kind(ErrKind::UnexpectedRule)), st, out)
        }
    }
}

/// Running an `if`: only the blocks of the taken branch run.
pub open spec fn run_if(s: Node, st: StateModel, out: Seq<RowModel>) -> (Result<(), ErrView>, StateModel, Seq<RowModel>)
    decreases s, 0int,
{
    let c = s.children@;
    if c.len() < 2 || c[0].rule != Rule::Condition {
        (Err(ErrView::Kind(ErrKind::UnexpectedRule)), st, out)
    } else {
        let s1 = st.with_symbols(zero_fill(st.syms, cond_missing(c[0], st.env())));
        match eval_condition(c[0], st.env()) {
            Err(k) => (Err(ErrView::Kind(k)), st, out),
            Ok(true) => run_blocks(c[1], 0, s1, out),
            Ok(false) => if c.len() > 2 {
                run_blocks(c[2], 0, s1, out)
            } else {
                (Ok(()), s1, out)
            },
        }
    }
}

/// Running a `while` that has made `count` passes: one more pass while the
/// condition holds, `LoopLimit` where it still holds after `limit` passes.
pub open spec fn run_while(s: Node, count: nat, limit: nat, st: StateModel, out: Seq<RowModel>) -> (Result<(), ErrView>, StateModel, Seq<RowModel>)
    decreases s, limit - count,
{
    let c = s.children@;
    if c.len() < 2 {
        (Err(ErrView::Kind(ErrKind::UnexpectedRule)), st, out)
    } else {
        let s1 = st.with_symbols(zero_fill(st.syms, cond_missing(c[0], st.env())));
        match eval_condition(c[0], st.env()) {
            Err(k) => (Err(ErrView::Kind(k)), st, out),
            Ok(false) => (Ok(()), s1, out),
            Ok(true) => if count >= limit {
                (Err(ErrView::LoopLimit(limit as int)), s1, out)
            } else {
                let t = run_blocks(c[1], 0, s1, out);
                if t.0 is Err {
                    t
                } else {
                    run_while(s, count + 1, limit, t.1, t.2)
                }
            },
        }
    }
}

/// The start of a `for`: the start assignment, then the end value evaluated
/// after it. Gives the control variable and the end value, and the state.
pub open spec fn for_start(s: Node, st: StateModel) -> (Result<(Seq<char>, int), ErrKind>, StateModel) {
    let c = s.children@;
    if c.len() < 3 {
        (Err(ErrKind::UnexpectedRule), st)
    } else if !assignment_ok(c[0], st) {
        (Err(assignment_error(c[0], st)), st)
    } else {
        let s1 = assign_model(c[0], st);
        match eval_expr(c[1], s1.env()) {
            Ok(end) => (
                Ok((assignment_plan(c[0], st)->Ok_0.0, end)),
                s1.with_symbols(zero_fill(s1.syms, miss_expr(c[1], s1.env()))),
            ),
            Err(k) => (Err(k), s1),
        }
    }
}

/// Running a `for`.
pub open spec fn run_for(s: Node, st: StateModel, out: Seq<RowModel>) -> (Result<(), ErrView>, StateModel, Seq<RowModel>)
    decreases s, st.iteration_limit + 1,
{
    let t = for_start(s, st);
    match t.0 {
        Err(k) => (Err(ErrView::Kind(k)), t.1, out),
        Ok((n, end)) => run_for_loop(s, n, end, 0, st.iteration_limit, t.1, out),
    }
}

/// The passes of a `for` after `count` of them: a pass while the variable
/// `n` is defined and at most `end`, then one added to it; `LoopLimit` where
/// a pass past `limit` would run.
pub open spec fn run_for_loop(
    s: Node,
    n: Seq<char>,
    end: int,
    count: nat,
    limit: nat,
    st: StateModel,
    out: Seq<RowModel>,
) -> (Result<(), ErrView>, StateModel, Seq<RowModel>)
    decreases s, limit - count,
{
    let c = s.children@;
    if !st.syms.contains_key(n) || st.syms[n] > end {
        (Ok(()), st, out)
    } else if count >= limit {
        (Err(ErrView::LoopLimit(limit as int)), st, out)
    } else if c.len() < 3 {
        (Err(ErrView::Kind(ErrKind::UnexpectedRule)), st, out)
    } else {
        let t = run_blocks(c[2], 0, st, out);
        if t.0 is Err {
            t
        } else if !t.1.syms.contains_key(n) {
            (Ok(()), t.1, t.2)
        } else if t.1.syms[n] > NUM_MAX - SCALE {
            (Err(ErrView::Kind(ErrKind::ArithmeticError)), t.1, t.2)
        } else {
            run_for_loop(s, n, end, count + 1, limit, t.1.with_symbols(t.1.syms.insert(n, t.1.syms[n] + SCALE)), t.2)
        }
    }
}

proof fn lemma_items_keep_rows(b: Node, j: int, row: RowModel, st: StateModel, out: Seq<RowModel>)
    requires
        0 <= j,
        !has_control(b),
    ensures
        run_items(b, j, row, st, out).3 == out,
    decreases b.children@.len() - j,
{
    if j < b.children@.len() {
        assert(b.children@[j].rule != Rule::Control);
        let p = plain_item_step(b.children@[j], row, st);
        if p.0 is Ok {
            lemma_items_keep_rows(b, j + 1, p.1, p.2, out);
        }
    }
}

/// A block without a control statement appends exactly one row, its own,
/// after the rows before it, which stay as they were.
pub proof fn law_one_row_per_block(b: Node, st: StateModel, out: Seq<RowModel>)
    requires
        !has_control(b),
    ensures
        run_block(b, st, out).2.len() == out.len() + 1,
        run_block(b, st, out).2.take(out.len() as int) == out,
        run_block(b, st, out).0 is Ok ==> run_block(b, st, out).2[out.len() as int] == run_items(
            b,
            0,
            empty_row(),
            st,
            out.push(empty_row()),
        ).1,
{
    lemma_items_keep_rows(b, 0, empty_row(), st, out.push(empty_row()));
    assert(out.push(empty_row()).take(out.len() as int) =~= out);
    let t = run_items(b, 0, empty_row(), st, out.push(empty_row()));
    assert(t.3.update(out.len() as int, t.1).take(out.len() as int) =~= out);
}

/// Blocks without control statements that all run give one row each.
pub proof fn law_rows_of_flat_blocks(bs: Node, i: int, st: StateModel, out: Seq<RowModel>)
    requires
        flat(bs),
        0 <= i <= bs.children@.len(),
    ensures
        run_blocks(bs, i, st, out).0 is Ok ==> run_blocks(bs, i, st, out).2.len() == out.len()
            + bs.children@.len() - i,
    decreases bs.children@.len() - i,
{
    if i < bs.children@.len() {
        let b = bs.children@[i];
        assert(!has_control(b));
        law_one_row_per_block(b, st, out);
        let t = run_block(b, st, out);
        if t.0 is Ok {
            law_rows_of_flat_blocks(bs, i + 1, t.1, t.2);
        }
    }
}

/// The number of blocks that running `bs.children[i..]` executes: each block
/// once, with the blocks that its control statement runs, pass by pass.
pub open spec fn blocks_count(bs: Node, i: int, st: StateModel, out: Seq<RowModel>) -> nat
    decreases bs, bs.children@.len() - i,
{
    if i < 0 || i >= bs.children@.len() {
        0
    } else {
        let t = run_block(bs.children@[i], st, out);
        block_count(bs.children@[i], st, out) + if t.0 is Ok {
            blocks_count(bs, i + 1, t.1, t.2)
        } else {
            0
        }
    }
}

/// The number of blocks that running block `b` executes: itself and the
/// blocks that its control statement runs.
pub open spec fn block_count(b: Node, st: StateModel, out: Seq<RowModel>) -> nat
    decreases b, b.children@.len() + 1,
{
    1 + items_count(b, 0, empty_row(), st, out.push(empty_row()))
}

pub open spec fn items_count(b: Node, j: int, row: RowModel, st: StateModel, out: Seq<RowModel>) -> nat
    decreases b, b.children@.len() - j,
{
    if j < 0 || j >= b.children@.len() {
        0
    } else {
        let item = b.children@[j];
        if item.rule == Rule::Control {
            let c = run_control(item, st, out);
            control_count(item, st, out) + if c.0 is Ok {
                items_count(b, j + 1, row, c.1, c.2)
            } else {
                0
            }
        } else {
            let p = plain_item_step(item, row, st);
            if p.0 is Ok {
                items_count(b, j + 1, p.1, p.2, out)
            } else {
                0
            }
        }
    }
}

pub open spec fn control_count(c: Node, st: StateModel, out: Seq<RowModel>) -> nat
    decreases c, 0int,
{
    if c.children@.len() == 0 {
        0
    } else {
        let k = c.children@[0];
        if k.rule == Rule::IfStatement {
            if_count(k, st, out)
        } else if k.rule == Rule::WhileStatement {
            while_count(k, 0, st.iteration_limit, st, out)
        } else if k.rule == Rule::ForStatement {
            for_count(k, st, out)
        } else {
            0
        }
    }
}

/// The blocks an `if` executes: those of the taken branch only.
pub open spec fn if_count(s: Node, st: StateModel, out: Seq<RowModel>) -> nat
    decreases s, 0int,
{
    let c = s.children@;
    if c.len() < 2 || c[0].rule != Rule::Condition {
        0
    } else {
        let s1 = st.with_symbols(zero_fill(st.syms, cond_missing(c[0], st.env())));
        match eval_condition(c[0], st.env()) {
            Ok(true) => blocks_count(c[1], 0, s1, out),
            Ok(false) => if c.len() > 2 {
                blocks_count(c[2], 0, s1, out)
            } else {
                0
            },
            Err(_) => 0,
        }
    }
}

/// The blocks a `while` executes: its body's, once per pass.
pub open spec fn while_count(s: Node, count: nat, limit: nat, st: StateModel, out: Seq<RowModel>) -> nat
    decreases s, limit - count,
{
    let c = s.children@;
    if c.len() < 2 {
        0
    } else {
        let s1 = st.with_symbols(zero_fill(st.syms, cond_missing(c[0], st.env())));
        if eval_condition(c[0], st.env()) == Ok::<bool, ErrKind>(true) && count < limit {
            let t = run_blocks(c[1], 0, s1, out);
            blocks_count(c[1], 0, s1, out) + if t.0 is Ok {
                while_count(s, count + 1, limit, t.1, t.2)
            } else {
                0
            }
        } else {
            0
        }
    }
}

pub open spec fn for_count(s: Node, st: StateModel, out: Seq<RowModel>) -> nat
    decreases s, st.iteration_limit + 1,
{
    let t = for_start(s, st);
    match t.0 {
        Ok((n, end)) => for_loop_count(s, n, end, 0, st.iteration_limit, t.1, out),
        Err(_) => 0,
    }
}

/// The blocks a `for` executes: its body's, once per pass.
pub open spec fn for_loop_count(
    s: Node,
    n: Seq<char>,
    end: int,
    count: nat,
    limit: nat,
    st: StateModel,
    out: Seq<RowModel>,
) -> nat
    decreases s, limit - count,
{
    let c = s.children@;
    if st.syms.contains_key(n) && st.syms[n] <= end && count < limit && c.len() >= 3 {
        let t = run_blocks(c[2], 0, st, out);
        blocks_count(c[2], 0, st, out) + if t.0 is Ok && t.1.syms.contains_key(n) && t.1.syms[n]
            <= NUM_MAX - SCALE {
            for_loop_count(
                s,
                n,
                end,
                count + 1,
                limit,
                t.1.with_symbols(t.1.syms.insert(n, t.1.syms[n] + SCALE)),
                t.2,
            )
        } else {
            0
        }
    } else {
        0
    }
}

/// The rows `new` are the rows `old` with more appended.
pub open spec fn extends(old: Seq<RowModel>, new: Seq<RowModel>) -> bool {
    new.len() >= old.len() && forall|i: int| 0 <= i < old.len() ==> new[i] == old[i]
}

/// Running blocks appends exactly one row per executed block (each block
/// once, plus the blocks of taken branches and of every loop pass), after
/// the rows already there, which stay as they were.
pub proof fn law_rows_of_blocks(bs: Node, i: int, st: StateModel, out: Seq<RowModel>)
    ensures
        extends(out, run_blocks(bs, i, st, out).2),
        run_blocks(bs, i, st, out).2.len() == out.len() + blocks_count(bs, i, st, out),
    decreases bs, bs.children@.len() - i,
{
    if 0 <= i < bs.children@.len() {
        let t = run_block(bs.children@[i], st, out);
        lemma_block_extends(bs.children@[i], st, out);
        if t.0 is Ok {
            law_rows_of_blocks(bs, i + 1, t.1, t.2);
        }
    }
}

/// Running a block appends rows and changes none before them; on success
/// its own row is the first one it appends, however many rows the blocks
/// of its control statement append after it.
pub proof fn lemma_block_extends(b: Node, st: StateModel, out: Seq<RowModel>)
    ensures
        extends(out, run_block(b, st, out).2),
        run_block(b, st, out).2.len() >= out.len() + 1,
        run_block(b, st, out).2.len() == out.len() + block_count(b, st, out),
        run_block(b, st, out).0 is Ok ==> run_block(b, st, out).2[out.len() as int] == run_items(
            b,
            0,
            empty_row(),
            st,
            out.push(empty_row()),
        ).1,
    decreases b, b.children@.len() + 1,
{
    lemma_items_extend(b, 0, empty_row(), st, out.push(empty_row()));
}

proof fn lemma_items_extend(b: Node, j: int, row: RowModel, st: StateModel, out: Seq<RowModel>)
    ensures
        extends(out, run_items(b, j, row, st, out).3),
        run_items(b, j, row, st, out).3.len() == out.len() + items_count(b, j, row, st, out),
    decreases b, b.children@.len() - j,
{
    if 0 <= j < b.children@.len() {
        let item = b.children@[j];
        if item.rule == Rule::Control {
            lemma_control_extends(item, st, out);
            let c = run_control(item, st, out);
            if c.0 is Ok {
                lemma_items_extend(b, j + 1, row, c.1, c.2);
            }
        } else {
            let p = plain_item_step(item, row, st);
            if p.0 is Ok {
                lemma_items_extend(b, j + 1, p.1, p.2, out);
            }
        }
    }
}

proof fn lemma_control_extends(c: Node, st: StateModel, out: Seq<RowModel>)
    ensures
        extends(out, run_control(c, st, out).2),
        run_control(c, st, out).2.len() == out.len() + control_count(c, st, out),
    decreases c, 0int,
{
    if c.children@.len() > 0 {
        let k = c.children@[0];
        if k.rule == Rule::IfStatement {
            lemma_if_extends(k, st, out);
        } else if k.rule == Rule::WhileStatement {
            lemma_while_extends(k, 0, st.iteration_limit, st, out);
        } else if k.rule == Rule::ForStatement {
            lemma_for_extends(k, st, out);
        }
    }
}

proof fn lemma_if_extends(s: Node, st: StateModel, out: Seq<RowModel>)
    ensures
        extends(out, run_if(s, st, out).2),
        run_if(s, st, out).2.len() == out.len() + if_count(s, st, out),
    decreases s, 0int,
{
    let c = s.children@;
    if c.len() >= 2 && c[0].rule == Rule::Condition {
        let s1 = st.with_symbols(zero_fill(st.syms, cond_missing(c[0], st.env())));
        law_rows_of_blocks(c[1], 0, s1, out);
        if c.len() > 2 {
            law_rows_of_blocks(c[2], 0, s1, out);
        }
    }
}

proof fn lemma_while_extends(s: Node, count: nat, limit: nat, st: StateModel, out: Seq<RowModel>)
    ensures
        extends(out, run_while(s, count, limit, st, out).2),
        run_while(s, count, limit, st, out).2.len() == out.len() + while_count(s, count, limit, st, out),
    decreases s, limit - count,
{
    let c = s.children@;
    if c.len() >= 2 && count < limit {
        let s1 = st.with_symbols(zero_fill(st.syms, cond_missing(c[0], st.env())));
        law_rows_of_blocks(c[1], 0, s1, out);
        let t = run_blocks(c[1], 0, s1, out);
        if t.0 is Ok {
            lemma_while_extends(s, count + 1, limit, t.1, t.2);
        }
    }
}

proof fn lemma_for_extends(s: Node, st: StateModel, out: Seq<RowModel>)
    ensures
        extends(out, run_for(s, st, out).2),
        run_for(s, st, out).2.len() == out.len() + for_count(s, st, out),
    decreases s, st.iteration_limit + 1,
{
    let t = for_start(s, st);
    if t.0 is Ok {
        let (n, end) = t.0->Ok_0;
        lemma_for_loop_extends(s, n, end, 0, st.iteration_limit, t.1, out);
    }
}

proof fn lemma_for_loop_extends(
    s: Node,
    n: Seq<char>,
    end: int,
    count: nat,
    limit: nat,
    st: StateModel,
    out: Seq<RowModel>,
)
    ensures
        extends(out, run_for_loop(s, n, end, count, limit, st, out).2),
        run_for_loop(s, n, end, count, limit, st, out).2.len() == out.len() + for_loop_count(
            s,
            n,
            end,
            count,
            limit,
            st,
            out,
        ),
    decreases s, limit - count,
{
    let c = s.children@;
    if st.syms.contains_key(n) && st.syms[n] <= end && count < limit && c.len() >= 3 {
        law_rows_of_blocks(c[2], 0, st, out);
        let t = run_blocks(c[2], 0, st, out);
        if t.0 is Ok && t.1.syms.contains_key(n) && t.1.syms[n] <= NUM_MAX - SCALE {
            lemma_for_loop_extends(
                s,
                n,
                end,
                count + 1,
                limit,
                t.1.with_symbols(t.1.syms.insert(n, t.1.syms[n] + SCALE)),
                t.2,
            );
        }
    }
}

/// An assignment item to an axis, whose shown position stays in range,
/// succeeds: the axis records the value, and the row shows the value plus
/// the axis's offset, or the value alone for an `IC` increment.
pub proof fn law_axis_assignment_row(item: Node, row: RowModel, st: StateModel)
    requires
        item.rule == Rule::Assignment,
        assignment_plan(item, st) is Ok,
        st.is_axis_name(assignment_plan(item, st)->Ok_0.0),
        in_range(shown_of(item, st)->Some_0),
    ensures
        ({
            let (n, v, _t) = assignment_plan(item, st)->Ok_0;
            let p = if item.children@[1].rule == Rule::AxisIncrement {
                v
            } else {
                v + st.translation_of(n)
            };
            let r = item_step(item, row, st);
            &&& r.0 is Ok
            &&& r.1.cols == row.cols.insert(n, ValueView::Num(p))
            &&& r.2.axs == st.axs.insert(n, v)
            &&& r.2.trs == st.trs
        }),
{
    law_shown_position(item, st);
}

/// A run ended as the specification says: the result, the state and the rows.
pub open spec fn run_agrees(
    r: Result<(), ParsingError>,
    st: State,
    out: Seq<Row>,
    t: (Result<(), ErrView>, StateModel, Seq<RowModel>),
) -> bool {
    res_agrees(r, t.0) && st.model() == t.1 && models(out) == t.2
}

proof fn lemma_appended_trans(a: Seq<Row>, b: Seq<Row>, c: Seq<Row>)
    requires
        appended(a, b),
        appended(b, c),
    ensures
        appended(a, c),
{
}

proof fn lemma_models_push(s: Seq<Row>, r: Row)
    ensures
        models(s.push(r)) == models(s).push(r.model()),
{
    assert(models(s.push(r)) =~= models(s).push(r.model()));
}

proof fn lemma_models_update(s: Seq<Row>, i: int, r: Row)
    requires
        0 <= i < s.len(),
    ensures
        models(s.update(i, r)) == models(s).update(i, r.model()),
{
    assert(models(s.update(i, r)) =~= models(s).update(i, r.model()));
}

#[verifier::rlimit(40)]
/// Runs an `if` (see `run_if`): the first blocks where the condition holds,
/// else the `else` blocks where there are any.
pub fn interpret_statement_if(s: &Node, output: &mut Vec<Row>, st: &mut State) -> (r: Result<
    (),
    ParsingError,
>)
    requires
        old(st).wf(),
        rows_wf(old(output)@),
    ensures
        final(st).wf(),
        rows_wf(final(output)@),
        appended(old(output)@, final(output)@),
        config_kept(*final(st), *old(st)),
        run_agrees(r, *final(st), final(output)@, run_if(*s, old(st).model(), models(old(output)@))),
    decreases s, 0int,
{
    let c = &s.children;
    if c.len() < 2 || c[0].rule != Rule::Condition {
        return Err(ParsingError::UnexpectedRule { rule: s.rule, context: String::from_str("interpret_statement_if") });
    }
    let mut missing: Vec<String> = Vec::new();
    let holds = match evaluate_condition(&c[0], st, &mut missing) {
        Ok(b) => b,
        Err(e) => {
            return Err(e);
        },
    };
    proof {
        assert(names_of(missing@) =~= cond_missing(c@[0], st.env()));
    }
    st.fill_zeros(&missing);
    if holds {
        interpret_blocks(&c[1], output, st)
    } else if c.len() > 2 {
        interpret_blocks(&c[2], output, st)
    } else {
        Ok(())
    }
}

/// Runs a `while` (see `run_while`): its blocks, as long as the condition
/// holds; `LoopLimit` where it still holds after `iteration_limit` passes.
pub fn interpret_statement_while(s: &Node, output: &mut Vec<Row>, st: &mut State) -> (r: Result<
    (),
    ParsingError,
>)
    requires
        old(st).wf(),
        rows_wf(old(output)@),
    ensures
        final(st).wf(),
        rows_wf(final(output)@),
        appended(old(output)@, final(output)@),
        config_kept(*final(st), *old(st)),
        run_agrees(
            r,
            *final(st),
            final(output)@,
            run_while(*s, 0, old(st).model().iteration_limit, old(st).model(), models(old(output)@)),
        ),
    decreases s, 0int,
{
    let c = &s.children;
    if c.len() < 2 {
        return Err(ParsingError::UnexpectedRule { rule: s.rule, context: String::from_str("interpret_statement_while") });
    }
    let limit = st.iteration_limit;
    let ghost lim = old(st).model().iteration_limit;
    let mut count: usize = 0;
    loop
        invariant
            st.wf(),
            rows_wf(output@),
            appended(old(output)@, output@),
            config_kept(*st, *old(st)),
            limit == st.iteration_limit,
            lim == limit as nat,
            count <= limit,
            c == &s.children,
            c.len() >= 2,
            run_while(*s, 0, lim, old(st).model(), models(old(output)@)) == run_while(
                *s,
                count as nat,
                lim,
                st.model(),
                models(output@),
            ),
        decreases limit - count,
    {
        let mut missing: Vec<String> = Vec::new();
        let holds = match evaluate_condition(&c[0], st, &mut missing) {
            Ok(b) => b,
            Err(e) => {
                return Err(e);
            },
        };
        proof {
            assert(names_of(missing@) =~= cond_missing(c@[0], st.env()));
        }
        st.fill_zeros(&missing);
        if !holds {
            return Ok(());
        }
        if count >= limit {
            return Err(ParsingError::LoopLimit { limit });
        }
        let ghost before = output@;
        match interpret_blocks(&c[1], output, st) {
            Ok(()) => {},
            Err(e) => {
                return Err(e);
            },
        }
        proof {
            lemma_appended_trans(old(output)@, before, output@);
        }
        count += 1;
    }
}

/// Runs a `for` (see `run_for`): the start assignment, then the blocks while
/// the control variable is at most the end value, adding one to it after
/// each pass; stops where the variable is gone; `LoopLimit` where a pass
/// past `iteration_limit` would run.
pub fn interpret_statement_for(s: &Node, output: &mut Vec<Row>, st: &mut State) -> (r: Result<
    (),
    ParsingError,
>)
    requires
        old(st).wf(),
        rows_wf(old(output)@),
    ensures
        final(st).wf(),
        rows_wf(final(output)@),
        appended(old(output)@, final(output)@),
        config_kept(*final(st), *old(st)),
        run_agrees(r, *final(st), final(output)@, run_for(*s, old(st).model(), models(old(output)@))),
    decreases s, 0int,
{
    let c = &s.children;
    if c.len() < 3 {
        return Err(ParsingError::UnexpectedRule { rule: s.rule, context: String::from_str("interpret_statement_for") });
    }
    let ghost s0 = *st;
    let name = match interpret_assignment(&c[0], st) {
        Ok(a) => a.name,
        Err(e) => {
            return Err(e);
        },
    };
    let mut missing: Vec<String> = Vec::new();
    let end = match evaluate_expression(&c[1], st, &mut missing) {
        Ok(v) => v,
        Err(e) => {
            return Err(e);
        },
    };
    proof {
        assert(names_of(missing@) =~= miss_expr(c@[1], st.env()));
    }
    st.fill_zeros(&missing);
    let limit = st.iteration_limit;
    let ghost lim = old(st).model().iteration_limit;
    let mut count: usize = 0;
    loop
        invariant
            st.wf(),
            rows_wf(output@),
            appended(old(output)@, output@),
            config_kept(*st, *old(st)),
            limit == st.iteration_limit,
            lim == limit as nat,
            count <= limit,
            c == &s.children,
            c.len() >= 3,
            run_for(*s, old(st).model(), models(old(output)@)) == run_for_loop(
                *s,
                name@,
                end as int,
                count as nat,
                lim,
                st.model(),
                models(output@),
            ),
        decreases limit - count,
    {
        let v = match st.get_symbol(&name) {
            Some(v) => v,
            None => {
                return Ok(());
            },
        };
        if v > end {
            return Ok(());
        }
        if count >= limit {
            return Err(ParsingError::LoopLimit { limit });
        }
        let ghost before = output@;
        match interpret_blocks(&c[2], output, st) {
            Ok(()) => {},
            Err(e) => {
                return Err(e);
            },
        }
        proof {
            lemma_appended_trans(old(output)@, before, output@);
        }
        match st.get_symbol(&name) {
            Some(cur) => {
                proof {
                    assert(in_range(st.symbols()[name@]));
                }
                if cur > NUM_MAX - SCALE {
                    return Err(ParsingError::ArithmeticError { message: String::from_str("loop variable out of range") });
                }
                st.set_symbol(&name, cur + SCALE);
            },
            None => {
                return Ok(());
            },
        }
        count += 1;
    }
}

/// Runs a control statement (see `run_control`).
pub fn interpret_control(s: &Node, output: &mut Vec<Row>, st: &mut State) -> (r: Result<
    (),
    ParsingError,
>)
    requires
        old(st).wf(),
        rows_wf(old(output)@),
    ensures
        final(st).wf(),
        rows_wf(final(output)@),
        appended(old(output)@, final(output)@),
        config_kept(*final(st), *old(st)),
        run_agrees(r, *final(st), final(output)@, run_control(*s, old(st).model(), models(old(output)@))),
    decreases s, 0int,
{
    if s.children.len() == 0 {
        return Err(ParsingError::UnexpectedRule { rule: s.rule, context: String::from_str("interpret_control") });
    }
    let k = &s.children[0];
    match k.rule {
        Rule::IfStatement => interpret_statement_if(k, output, st),
        Rule::ForStatement => interpret_statement_for(k, output, st),
        Rule::WhileStatement => interpret_statement_while(k, output, st),
        _ => Err(ParsingError::UnexpectedRule { rule: k.rule, context: String::from_str("interpret_control") }),
    }
}

/// Carries out one item of a block: a control statement as `run_control`
/// says, any other item as `plain_item_step` says.
pub fn interpret_block_item(
    item: &Node,
    row: &mut Row,
    output: &mut Vec<Row>,
    st: &mut State,
    preview: &str,
) -> (r: Result<(), ParsingError>)
    requires
        old(st).wf(),
        old(row).wf(),
        rows_wf(old(output)@),
    ensures
        final(st).wf(),
        final(row).wf(),
        rows_wf(final(output)@),
        appended(old(output)@, final(output)@),
        config_kept(*final(st), *old(st)),
        item.rule == Rule::Control ==> *final(row) == *old(row) && run_agrees(
            r,
            *final(st),
            final(output)@,
            run_control(*item, old(st).model(), models(old(output)@)),
        ),
        item.rule != Rule::Control ==> final(output)@ == old(output)@ && (kind_of(r), final(row).model(), final(st).model())
            == plain_item_step(*item, old(row).model(), old(st).model()),
    decreases item, 1int,
{
    match item.rule {
        Rule::BlockNumber => interpret_block_number(item, row),
        Rule::Statement => interpret_statement(item, row, st, preview),
        Rule::Comment => {
            row.insert(String::from_str("comment"), Value::Str(item.text.clone()));
            Ok(())
        },
        Rule::Control => interpret_control(item, output, st),
        Rule::Definition => interpret_definition(item, st),
        Rule::FrameOp => interpret_frame_op(item, st),
        _ => Err(ParsingError::UnexpectedRule { rule: item.rule, context: String::from_str("interpret_block") }),
    }
}

/// Runs one block (see `run_block`): appends its row, then carries out its
/// items in order; the block's own row comes before the rows of any blocks
/// that its control statement runs. An error inside the block stops it and
/// comes back as `AnnotatedError` with the block's line and text.
pub fn interpret_block(b: &Node, output: &mut Vec<Row>, st: &mut State) -> (r: Result<
    (),
    ParsingError,
>)
    requires
        old(st).wf(),
        rows_wf(old(output)@),
    ensures
        final(st).wf(),
        rows_wf(final(output)@),
        appended(old(output)@, final(output)@),
        config_kept(*final(st), *old(st)),
        r is Ok ==> final(output)@.len() >= old(output)@.len() + 1,
        r is Ok && !has_control(*b) ==> final(output)@.len() == old(output)@.len() + 1,
        run_agrees(r, *final(st), final(output)@, run_block(*b, old(st).model(), models(old(output)@))),
    decreases b, 0int,
{
    let idx = output.len();
    let ghost o0 = models(old(output)@);
    let placeholder = Row::new();
    proof {
        lemma_models_push(old(output)@, placeholder);
    }
    output.push(placeholder);
    proof {
        assert(rows_wf(output@)) by {
            assert forall|i: int| 0 <= i < output@.len() implies (#[trigger] output@[i]).wf() by {
                if i < idx {
                    assert(output@[i] == old(output)@[i]);
                }
            }
        }
    }
    let mut row = Row::new();
    let c = &b.children;
    let mut i: usize = 0;
    while i < c.len()
        invariant
            st.wf(),
            row.wf(),
            rows_wf(output@),
            appended(old(output)@, output@),
            output@.len() >= idx + 1,
            idx == old(output)@.len(),
            o0 == models(old(output)@),
            config_kept(*st, *old(st)),
            i <= c.len(),
            c == &b.children,
            (forall|j: int| 0 <= j < i ==> (#[trigger] c@[j]).rule != Rule::Control) ==> output@.len()
                == idx + 1,
            run_items(*b, 0, empty_row(), old(st).model(), o0.push(empty_row())) == run_items(
                *b,
                i as int,
                row.model(),
                st.model(),
                models(output@),
            ),
        decreases c.len() - i,
    {
        let item = &c[i];
        let ghost before = output@;
        let ghost row0 = row;
        let ghost st0 = *st;
        match interpret_block_item(item, &mut row, output, st, b.text.as_str()) {
            Ok(()) => {},
            Err(e) => {
                let ghost t = run_items(*b, i as int, row0.model(), st0.model(), models(before));
                proof {
                    assert(t.0 is Err);
                    assert(err_agrees(e, t.0->Err_0));
                }
                let a = annotate(e, b);
                proof {
                    let v = t.0->Err_0;
                    assert(*Box::new(v) == v);
                    assert(err_agrees(a, ErrView::Annotated(b.line, b.text@, Box::new(v))));
                }
                return Err(a);
            },
        }
        proof {
            lemma_appended_trans(old(output)@, before, output@);
        }
        i += 1;
    }
    proof {
        lemma_models_update(output@, idx as int, row);
    }
    output.set(idx, row);
    proof {
        if !has_control(*b) {
            assert(forall|j: int| 0 <= j < c.len() ==> (#[trigger] c@[j]).rule != Rule::Control);
        }
    }
    Ok(())
}

/// Runs blocks in order (see `run_blocks`), stopping at the first that
/// fails; at least one row for each block, exactly one where no block holds
/// a control statement.
pub fn interpret_blocks(blocks: &Node, output: &mut Vec<Row>, st: &mut State) -> (r: Result<
    (),
    ParsingError,
>)
    requires
        old(st).wf(),
        rows_wf(old(output)@),
    ensures
        final(st).wf(),
        rows_wf(final(output)@),
        appended(old(output)@, final(output)@),
        config_kept(*final(st), *old(st)),
        r is Ok ==> final(output)@.len() >= old(output)@.len() + blocks.children@.len(),
        r is Ok && flat(*blocks) ==> final(output)@.len() == old(output)@.len()
            + blocks.children@.len(),
        run_agrees(r, *final(st), final(output)@, run_blocks(*blocks, 0, old(st).model(), models(old(output)@))),
    decreases blocks, 0int,
{
    let c = &blocks.children;
    let mut i: usize = 0;
    while i < c.len()
        invariant
            st.wf(),
            rows_wf(output@),
            appended(old(output)@, output@),
            config_kept(*st, *old(st)),
            i <= c.len(),
            c == &blocks.children,
            output@.len() >= old(output)@.len() + i,
            flat(*blocks) ==> output@.len() == old(output)@.len() + i,
            run_blocks(*blocks, 0, old(st).model(), models(old(output)@)) == run_blocks(
                *blocks,
                i as int,
                st.model(),
                models(output@),
            ),
        decreases c.len() - i,
    {
        let ghost before = output@;
        match interpret_block(&c[i], output, st) {
            Ok(()) => {},
            Err(e) => {
                return Err(e);
            },
        }
        proof {
            lemma_appended_trans(old(output)@, before, output@);
        }
        i += 1;
    }
    Ok(())
}

} // verus!
