//! Assignments, definitions, frame operations and conditions.
use crate::ast::{Node, Rule};
use crate::errors::{kind_of, ErrKind, ParsingError};
use crate::eval::{
    agrees_name, array_all_cells, array_target, eval_expr, evaluate_expression,
    interpret_array_target, interpret_variable, interpret_variable_array, variable_name, Env,
    lemma_concat, miss_bounds, miss_expr, names_of,
};
use crate::num::{apply_op, in_range, literal_value, op_result, parse_literal, Op};
use crate::state::{zero_fill, State, StateModel};
use vstd::prelude::*;

verus! {

/// The outcome of an assignment: the name written, the value stored, and,
/// for an axis, the position that the row shows.
#[derive(Debug)]
pub struct Assigned {
    pub name: String,
    pub value: i64,
    pub shown: Option<i64>,
}

/// The position an axis holds before an `IC` increment: zero where it was never set.
pub open spec fn increment_base(st: StateModel, n: Seq<char>) -> int {
    if st.axis_values().contains_key(n) {
        st.axis_values()[n]
    } else {
        0
    }
}

/// The name an assignment writes, before its value is evaluated.
pub open spec fn assignment_target(a: Node, st: StateModel) -> Result<Seq<char>, ErrKind> {
    let c = a.children@;
    if c.len() < 2 {
        Err(ErrKind::InvalidElementCount)
    } else if c[0].rule == Rule::VariableSingleChar {
        Ok(c[0].text@)
    } else if c[0].rule == Rule::Variable {
        variable_name(c[0])
    } else if c[0].rule == Rule::VariableArray {
        array_target(c[0], st.env())
    } else {
        Err(ErrKind::UnexpectedRule)
    }
}

/// What an assignment writes: the name, the value, and whether the axis
/// offset applies to the position shown (not so for an `IC` increment of an axis).
pub open spec fn assignment_plan(a: Node, st: StateModel) -> Result<(Seq<char>, int, bool), ErrKind> {
    let c = a.children@;
    if c.len() < 2 {
        Err(ErrKind::InvalidElementCount)
    } else {
        let t = c[0];
        let x = c[1];
        if t.rule == Rule::VariableSingleChar && x.rule == Rule::Value {
            match literal_value(x.text@) {
                Some(v) => Ok((t.text@, v, true)),
                None => Err(ErrKind::ParseError),
            }
        } else if t.rule == Rule::Variable && x.rule == Rule::AxisIncrement {
            match variable_name(t) {
                Err(k) => Err(k),
                Ok(n) => if x.children@.len() == 0 || x.children@[0].rule != Rule::Expression {
                    Err(ErrKind::UnexpectedRule)
                } else {
                    match eval_expr(x.children@[0], st.env()) {
                        Err(k) => Err(k),
                        Ok(inc) => if st.is_axis_name(n) {
                            match op_result(Op::Add, increment_base(st, n), inc) {
                                Some(v) => Ok((n, v, false)),
                                None => Err(ErrKind::ArithmeticError),
                            }
                        } else {
                            Ok((n, inc, true))
                        },
                    }
                },
            }
        } else if t.rule == Rule::Variable && x.rule == Rule::Expression {
            match variable_name(t) {
                Err(k) => Err(k),
                Ok(n) => match eval_expr(x, st.env()) {
                    Ok(v) => Ok((n, v, true)),
                    Err(k) => Err(k),
                },
            }
        } else if t.rule == Rule::VariableArray && x.rule == Rule::Expression {
            match array_target(t, st.env()) {
                Err(k) => Err(k),
                Ok(n) => match eval_expr(x, st.env()) {
                    Ok(v) => Ok((n, v, true)),
                    Err(k) => Err(k),
                },
            }
        } else {
            Err(ErrKind::UnexpectedRule)
        }
    }
}

/// The undefined variables that evaluating an assignment reads, in order.
pub open spec fn plan_missing(a: Node, st: StateModel) -> Seq<Seq<char>> {
    let c = a.children@;
    if c.len() < 2 {
        Seq::empty()
    } else {
        let t = c[0];
        let x = c[1];
        if t.rule == Rule::Variable && x.rule == Rule::AxisIncrement && x.children@.len() > 0 {
            miss_expr(x.children@[0], st.env())
        } else if t.rule == Rule::Variable && x.rule == Rule::Expression {
            miss_expr(x, st.env())
        } else if t.rule == Rule::VariableArray && x.rule == Rule::Expression {
            miss_bounds(t, st.env()) + miss_expr(x, st.env())
        } else {
            Seq::empty()
        }
    }
}

/// Two states hold the same values everywhere.
pub open spec fn same_state(a: State, b: State) -> bool {
    a.model() == b.model()
}

/// The name an assignment writes (see `assignment_target`).
pub fn interpret_assignment_target(a: &Node, st: &State) -> (r: Result<String, ParsingError>)
    requires
        st.wf(),
    ensures
        agrees_name(r, assignment_target(*a, st.model())),
{
    let c = &a.children;
    if c.len() < 2 {
        return Err(ParsingError::InvalidElementCount { expected: 2, actual: c.len() });
    }
    if c[0].rule == Rule::VariableSingleChar {
        Ok(c[0].text.clone())
    } else if c[0].rule == Rule::Variable {
        interpret_variable(&c[0])
    } else if c[0].rule == Rule::VariableArray {
        let mut scratch: Vec<String> = Vec::new();
        interpret_array_target(&c[0], st, &mut scratch)
    } else {
        Err(ParsingError::UnexpectedRule { rule: c[0].rule, context: String::from_str("interpret_assignment") })
    }
}

/// Evaluates an assignment without carrying it out (see `assignment_plan`).
pub fn plan_assignment(a: &Node, st: &State, missing: &mut Vec<String>) -> (r: Result<(String, i64, bool), ParsingError>)
    requires
        st.wf(),
    ensures
        r is Ok ==> names_of(final(missing)@) == names_of(old(missing)@) + plan_missing(*a, st.model()),
        match r {
            Ok((n, v, t)) => assignment_plan(*a, st.model()) == Ok::<(Seq<char>, int, bool), ErrKind>(
                (n@, v as int, t),
            ) && in_range(v as int),
            Err(e) => assignment_plan(*a, st.model()) == Err::<(Seq<char>, int, bool), ErrKind>(e.kind()),
        },
{
    let c = &a.children;
    if c.len() < 2 {
        return Err(ParsingError::InvalidElementCount { expected: 2, actual: c.len() });
    }
    let t = &c[0];
    let x = &c[1];
    if t.rule == Rule::VariableSingleChar && x.rule == Rule::Value {
        match parse_literal(x.text.as_str()) {
            Some(v) => {
                proof {
                    lemma_concat(names_of(missing@), Seq::empty(), Seq::empty());
                }
                Ok((t.text.clone(), v, true))
            },
            None => Err(ParsingError::ParseError { message: String::from_str("malformed number") }),
        }
    } else if t.rule == Rule::Variable && x.rule == Rule::AxisIncrement {
        let n = match interpret_variable(t) {
            Ok(n) => n,
            Err(e) => {
                return Err(e);
            },
        };
        if x.children.len() == 0 || x.children[0].rule != Rule::Expression {
            let rule = if x.children.len() == 0 {
                x.rule
            } else {
                x.children[0].rule
            };
            return Err(ParsingError::UnexpectedRule { rule, context: String::from_str("interpret_axis_increment") });
        }
        let inc = match evaluate_expression(&x.children[0], st, missing) {
            Ok(v) => v,
            Err(e) => {
                return Err(e);
            },
        };
        if st.is_axis(&n) {
            let base = interpret_axis_base(st, &n);
            match apply_op(Op::Add, base, inc) {
                Some(v) => Ok((n, v, false)),
                None => Err(ParsingError::ArithmeticError { message: String::from_str("axis increment out of range") }),
            }
        } else {
            Ok((n, inc, true))
        }
    } else if t.rule == Rule::Variable && x.rule == Rule::Expression {
        let n = match interpret_variable(t) {
            Ok(n) => n,
            Err(e) => {
                return Err(e);
            },
        };
        match evaluate_expression(x, st, missing) {
            Ok(v) => Ok((n, v, true)),
            Err(e) => Err(e),
        }
    } else if t.rule == Rule::VariableArray && x.rule == Rule::Expression {
        let ghost m0 = names_of(missing@);
        let n = match interpret_array_target(t, st, missing) {
            Ok(n) => n,
            Err(e) => {
                return Err(e);
            },
        };
        let res = evaluate_expression(x, st, missing);
        proof {
            lemma_concat(m0, miss_bounds(*t, st.env()), miss_expr(*x, st.env()));
        }
        match res {
            Ok(v) => Ok((n, v, true)),
            Err(e) => Err(e),
        }
    } else {
        Err(ParsingError::UnexpectedRule { rule: x.rule, context: String::from_str("interpret_assignment") })
    }
}

/// The position an axis holds before an increment.
fn interpret_axis_base(st: &State, n: &String) -> (r: i64)
    requires
        st.wf(),
    ensures
        r == increment_base(st.model(), n@),
        in_range(r as int),
{
    let ghost m = st.axis_values();
    proof {
        if m.contains_key(n@) {
            assert(in_range(m[n@]));
        }
    }
    st.axis_position(n)
}

/// The position an assignment shows in the row: for an axis target, the
/// value plus the axis's offset where the offset applies; `None` for a variable.
pub open spec fn shown_of(a: Node, st: StateModel) -> Option<int> {
    match assignment_plan(a, st) {
        Ok((n, v, t)) => if st.is_axis_name(n) {
            Some(
                if t {
                    v + st.translation_of(n)
                } else {
                    v
                },
            )
        } else {
            None
        },
        Err(_) => None,
    }
}

/// An axis assignment shows its value plus the axis's offset, except an
/// `IC` increment of the axis, which shows its value as it is.
pub proof fn law_shown_position(a: Node, st: StateModel)
    requires
        assignment_plan(a, st) is Ok,
        st.is_axis_name(assignment_plan(a, st)->Ok_0.0),
    ensures
        ({
            let (n, v, t) = assignment_plan(a, st)->Ok_0;
            &&& t <==> a.children@[1].rule != Rule::AxisIncrement
            &&& shown_of(a, st) == Some(
                if a.children@[1].rule == Rule::AxisIncrement {
                    v
                } else {
                    v + st.translation_of(n)
                },
            )
        }),
{
}

/// An assignment succeeds: its plan does, and a shown position stays in range.
pub open spec fn assignment_ok(a: Node, st: StateModel) -> bool {
    assignment_plan(a, st) is Ok && match shown_of(a, st) {
        Some(p) => in_range(p),
        None => true,
    }
}

/// The kind of error of a failing assignment.
pub open spec fn assignment_error(a: Node, st: StateModel) -> ErrKind {
    match assignment_plan(a, st) {
        Err(k) => k,
        Ok(_) => ErrKind::ArithmeticError,
    }
}

/// The state after a successful assignment: an axis target records its
/// value, any other target becomes a variable; nothing else changes.
pub open spec fn after_assignment(a: Node, s0: State, s1: State) -> bool {
    match assignment_plan(a, s0.model()) {
        Ok((n, v, _t)) => if s0.is_axis_name(n) {
            &&& s1.axis_values() == s0.axis_values().insert(n, v)
            &&& s1.symbols() == zero_fill(s0.symbols(), plan_missing(a, s0.model()))
            &&& s1.translation_values() == s0.translation_values()
            &&& s1.axis_names() == s0.axis_names()
            &&& s1.iteration_limit == s0.iteration_limit
            &&& s1.auto_init_variables == s0.auto_init_variables
        } else {
            &&& s1.symbols() == zero_fill(s0.symbols(), plan_missing(a, s0.model())).insert(n, v)
            &&& s1.same_but_symbols(&s0)
        },
        Err(_) => false,
    }
}

/// Carries out an assignment: an axis target records the value and gives
/// the position shown in the row; any other target becomes a variable.
pub fn interpret_assignment(a: &Node, st: &mut State) -> (r: Result<Assigned, ParsingError>)
    requires
        old(st).wf(),
    ensures
        final(st).wf(),
        assignment_ok(*a, old(st).model()) ==> (r matches Ok(x) && assignment_plan(*a, old(st).model()) == Ok::<
            (Seq<char>, int, bool),
            ErrKind,
        >((x.name@, x.value as int, assignment_plan(*a, old(st).model())->Ok_0.2)) && match x.shown {
            Some(p) => shown_of(*a, old(st).model()) == Some(p as int),
            None => shown_of(*a, old(st).model()) is None,
        }) && after_assignment(*a, *old(st), *final(st)),
        !assignment_ok(*a, old(st).model()) ==> (r matches Err(e) && e.kind() == assignment_error(
            *a,
            old(st).model(),
        )) && same_state(*final(st), *old(st)),
{
    let mut missing: Vec<String> = Vec::new();
    let (n, v, t) = match plan_assignment(a, st, &mut missing) {
        Ok(p) => p,
        Err(e) => {
            return Err(e);
        },
    };
    proof {
        assert(names_of(missing@) =~= plan_missing(*a, old(st).model()));
    }
    if st.is_axis(&n) {
        match st.update_axis(&n, v, t) {
            Ok(shown) => {
                st.fill_zeros(&missing);
                Ok(Assigned { name: n, value: v, shown: Some(shown) })
            },
            Err(e) => Err(e),
        }
    } else {
        st.fill_zeros(&missing);
        st.set_symbol(&n, v);
        Ok(Assigned { name: n, value: v, shown: None })
    }
}

/// The frame assignments `items[i..]` applied to the offsets `tr`: `TRANS`
/// sets an axis's offset, `ATRANS` (`add`) adds to it. Every target must be
/// an axis. Items before a failing one take effect; the failing one and
/// those after it do not. Gives the outcome and the offsets.
pub open spec fn frame_fold(
    items: Seq<Node>,
    i: int,
    tr: Map<Seq<char>, int>,
    add: bool,
    st: StateModel,
) -> (Result<(), ErrKind>, Map<Seq<char>, int>)
    decreases items.len() - i,
{
    if i < 0 || i >= items.len() {
        (Ok(()), tr)
    } else {
        match assignment_plan(items[i], st) {
            Err(k) => (Err(k), tr),
            Ok((n, v, _t)) => if !st.is_axis_name(n) {
                (Err(ErrKind::UnexpectedAxis), tr)
            } else {
                let nv = if add {
                    (if tr.contains_key(n) {
                        tr[n]
                    } else {
                        0
                    }) + v
                } else {
                    v
                };
                if !in_range(nv) {
                    (Err(ErrKind::ArithmeticError), tr)
                } else {
                    frame_fold(items, i + 1, tr.insert(n, nv), add, st)
                }
            },
        }
    }
}

/// The target that stops the frame assignments `items[i..]` because it is
/// not an axis, if that is what stops them.
pub open spec fn frame_bad_target(
    items: Seq<Node>,
    i: int,
    tr: Map<Seq<char>, int>,
    add: bool,
    st: StateModel,
) -> Option<Seq<char>>
    decreases items.len() - i,
{
    if i < 0 || i >= items.len() {
        None
    } else {
        match assignment_plan(items[i], st) {
            Err(_) => None,
            Ok((n, v, _t)) => if !st.is_axis_name(n) {
                Some(n)
            } else {
                let nv = if add {
                    (if tr.contains_key(n) {
                        tr[n]
                    } else {
                        0
                    }) + v
                } else {
                    v
                };
                if !in_range(nv) {
                    None
                } else {
                    frame_bad_target(items, i + 1, tr.insert(n, nv), add, st)
                }
            },
        }
    }
}

/// The target of a frame operation that is not an axis, if one stops it.
pub open spec fn frame_bad(f: Node, st: StateModel) -> Option<Seq<char>> {
    if f.children@.len() == 0 {
        None
    } else {
        let op = f.children@[0];
        if op.rule == Rule::FrameTrans {
            frame_bad_target(op.children@, 0, st.translation_values(), false, st)
        } else if op.rule == Rule::FrameAtrans {
            frame_bad_target(op.children@, 0, st.translation_values(), true, st)
        } else {
            None
        }
    }
}

/// The undefined variables that the assignments `items[i..]` of a
/// successful frame operation read, in order.
pub open spec fn frame_missing(items: Seq<Node>, i: int, st: StateModel) -> Seq<Seq<char>>
    decreases items.len() - i,
{
    if i < 0 || i >= items.len() {
        Seq::empty()
    } else {
        plan_missing(items[i], st) + frame_missing(items, i + 1, st)
    }
}

/// The undefined variables that a successful frame operation reads.
pub open spec fn frame_reads(f: Node, st: StateModel) -> Seq<Seq<char>> {
    if f.children@.len() == 0 {
        Seq::empty()
    } else {
        frame_missing(f.children@[0].children@, 0, st)
    }
}

/// The outcome of a frame operation and the offsets after it.
pub open spec fn frame_result(f: Node, st: StateModel) -> (Result<(), ErrKind>, Map<Seq<char>, int>) {
    if f.children@.len() == 0 {
        (Err(ErrKind::UnexpectedRule), st.translation_values())
    } else {
        let op = f.children@[0];
        if op.rule == Rule::FrameTrans {
            frame_fold(op.children@, 0, st.translation_values(), false, st)
        } else if op.rule == Rule::FrameAtrans {
            frame_fold(op.children@, 0, st.translation_values(), true, st)
        } else {
            (Err(ErrKind::UnexpectedRule), st.translation_values())
        }
    }
}

/// Carries out `TRANS` or `ATRANS`: only the offsets change, never the axis
/// positions themselves.
pub fn interpret_frame_op(f: &Node, st: &mut State) -> (r: Result<(), ParsingError>)
    requires
        old(st).wf(),
    ensures
        final(st).wf(),
        final(st).symbols() == if r is Ok {
            zero_fill(old(st).symbols(), frame_reads(*f, old(st).model()))
        } else {
            old(st).symbols()
        },
        final(st).axis_values() == old(st).axis_values(),
        final(st).axis_names() == old(st).axis_names(),
        final(st).iteration_limit == old(st).iteration_limit,
        final(st).auto_init_variables == old(st).auto_init_variables,
        kind_of(r) == frame_result(*f, old(st).model()).0,
        final(st).translation_values() == frame_result(*f, old(st).model()).1,
        frame_bad(*f, old(st).model()) is Some ==> (r matches Err(ParsingError::UnexpectedAxis { axis })
            && axis@ == frame_bad(*f, old(st).model())->Some_0),
{
    if f.children.len() == 0 {
        return Err(ParsingError::UnexpectedRule { rule: f.rule, context: String::from_str("interpret_frame_op") });
    }
    let op = &f.children[0];
    let add = if op.rule == Rule::FrameTrans {
        false
    } else if op.rule == Rule::FrameAtrans {
        true
    } else {
        return Err(ParsingError::UnexpectedRule { rule: op.rule, context: String::from_str("interpret_frame_op") });
    };
    let ghost st0 = *st;
    let items = &op.children;
    let mut missing: Vec<String> = Vec::new();
    let mut i: usize = 0;
    while i < items.len()
        invariant
            st.wf(),
            st0 == *old(st),
            names_of(missing@) + frame_missing(items@, i as int, st0.model()) == frame_missing(items@, 0, st0.model()),
            frame_reads(*f, st0.model()) == frame_missing(items@, 0, st0.model()),
            frame_bad(*f, st0.model()) == frame_bad_target(items@, 0, st0.translation_values(), add, st0.model()),
            frame_bad_target(items@, 0, st0.translation_values(), add, st0.model()) == frame_bad_target(
                items@,
                i as int,
                st.translation_values(),
                add,
                st0.model(),
            ),
            frame_result(*f, st0.model()) == frame_fold(items@, 0, st0.translation_values(), add, st0.model()),
            i <= items.len(),
            items == &op.children,
            st.symbols() == st0.symbols(),
            st.axis_values() == st0.axis_values(),
            st.axis_names() == st0.axis_names(),
            st.iteration_limit == st0.iteration_limit,
            st.auto_init_variables == st0.auto_init_variables,
            frame_fold(items@, 0, st0.translation_values(), add, st0.model()) == frame_fold(
                items@,
                i as int,
                st.translation_values(),
                add,
                st0.model(),
            ),
        decreases items.len() - i,
    {
        proof {
            lemma_plan_reads(items@[i as int], *st, st0);
        }
        let ghost m0 = names_of(missing@);
        let (n, v, _t) = match plan_assignment(&items[i], st, &mut missing) {
            Ok(p) => p,
            Err(e) => {
                return Err(e);
            },
        };
        proof {
            lemma_concat(m0, plan_missing(items@[i as int], st0.model()), frame_missing(items@, i + 1, st0.model()));
        }
        if !st.is_axis(&n) {
            return Err(ParsingError::UnexpectedAxis { axis: n });
        }
        let nv = if add {
            let cur = st.get_translation(&n);
            proof {
                if st.translation_values().contains_key(n@) {
                    assert(in_range(st.translation_values()[n@]));
                }
            }
            let s = cur as i128 + v as i128;
            if s < -(crate::num::NUM_MAX as i128) || s > crate::num::NUM_MAX as i128 {
                return Err(ParsingError::ArithmeticError { message: String::from_str("offset out of range") });
            }
            s as i64
        } else {
            v
        };
        st.update_translation(&n, nv);
        i += 1;
    }
    proof {
        lemma_concat(names_of(missing@), Seq::empty(), Seq::empty());
    }
    st.fill_zeros(&missing);
    Ok(())
}

/// An assignment's plan depends on the variables, the axis positions, the
/// axis names and the reading mode only.
proof fn lemma_plan_reads(a: Node, s1: State, s2: State)
    requires
        s1.symbols() == s2.symbols(),
        s1.axis_values() == s2.axis_values(),
        s1.axis_names() == s2.axis_names(),
        s1.auto_init_variables == s2.auto_init_variables,
    ensures
        assignment_plan(a, s1.model()) == assignment_plan(a, s2.model()),
{
}

/// What a comparison operator says of two values; `None` for an unknown operator.
pub open spec fn relation_holds(op: Seq<char>, a: int, b: int) -> Option<bool> {
    if op == "<"@ {
        Some(a < b)
    } else if op == ">"@ {
        Some(a > b)
    } else if op == "<="@ {
        Some(a <= b)
    } else if op == ">="@ {
        Some(a >= b)
    } else if op == "=="@ {
        Some(a == b)
    } else if op == "<>"@ {
        Some(a != b)
    } else {
        None
    }
}

/// The truth of a condition: one expression, true where it is not zero, or
/// two expressions and a comparison operator between them.
pub open spec fn eval_condition(cn: Node, env: Env) -> Result<bool, ErrKind> {
    let c = cn.children@;
    if cn.rule != Rule::Condition {
        Err(ErrKind::UnexpectedRule)
    } else if c.len() == 1 {
        match eval_expr(c[0], env) {
            Ok(v) => Ok(v != 0),
            Err(k) => Err(k),
        }
    } else if c.len() == 3 {
        match eval_expr(c[0], env) {
            Err(k) => Err(k),
            Ok(l) => match eval_expr(c[2], env) {
                Err(k) => Err(k),
                Ok(r) => match relation_holds(c[1].text@, l, r) {
                    Some(b) => Ok(b),
                    None => Err(ErrKind::UnexpectedOperator),
                },
            },
        }
    } else {
        Err(ErrKind::InvalidCondition)
    }
}

/// The undefined variables that a successful condition reads, in order.
pub open spec fn cond_missing(cn: Node, env: Env) -> Seq<Seq<char>> {
    let c = cn.children@;
    if c.len() == 1 {
        miss_expr(c[0], env)
    } else if c.len() == 3 {
        miss_expr(c[0], env) + miss_expr(c[2], env)
    } else {
        Seq::empty()
    }
}

/// Whether a string holds exactly the given text.
pub fn text_is(s: &String, lit: &str) -> (r: bool)
    ensures
        r == (s@ == lit@),
{
    *s == String::from_str(lit)
}

/// Compares two values with a comparison operator.
pub fn evaluate_relational_operator(operator: &Node, lhs: i64, rhs: i64) -> (r: Result<bool, ParsingError>)
    ensures
        match relation_holds(operator.text@, lhs as int, rhs as int) {
            Some(b) => r == Ok::<bool, ParsingError>(b),
            None => r matches Err(ParsingError::UnexpectedOperator { operator: o }) && o@ == operator.text@,
        },
{
    let t = &operator.text;
    if text_is(t, "<") {
        Ok(lhs < rhs)
    } else if text_is(t, ">") {
        Ok(lhs > rhs)
    } else if text_is(t, "<=") {
        Ok(lhs <= rhs)
    } else if text_is(t, ">=") {
        Ok(lhs >= rhs)
    } else if text_is(t, "==") {
        Ok(lhs == rhs)
    } else if text_is(t, "<>") {
        Ok(lhs != rhs)
    } else {
        Err(ParsingError::UnexpectedOperator { operator: t.clone() })
    }
}

/// Evaluates a condition (see `eval_condition`).
pub fn evaluate_condition(cn: &Node, st: &State, missing: &mut Vec<String>) -> (r: Result<bool, ParsingError>)
    requires
        st.wf(),
    ensures
        r is Ok ==> names_of(final(missing)@) == names_of(old(missing)@) + cond_missing(*cn, st.env()),
        match r {
            Ok(b) => eval_condition(*cn, st.env()) == Ok::<bool, ErrKind>(b),
            Err(e) => eval_condition(*cn, st.env()) == Err::<bool, ErrKind>(e.kind()),
        },
        cn.rule == Rule::Condition && cn.children@.len() == 3 && eval_expr(cn.children@[0], st.env()) is Ok
            && eval_expr(cn.children@[2], st.env()) is Ok && relation_holds(
            cn.children@[1].text@,
            eval_expr(cn.children@[0], st.env())->Ok_0,
            eval_expr(cn.children@[2], st.env())->Ok_0,
        ) is None ==> (r matches Err(ParsingError::UnexpectedOperator { operator }) && operator@
            == cn.children@[1].text@),
{
    if cn.rule != Rule::Condition {
        return Err(ParsingError::UnexpectedRule { rule: cn.rule, context: String::from_str("evaluate_condition") });
    }
    let c = &cn.children;
    let ghost m0 = names_of(missing@);
    if c.len() == 1 {
        match evaluate_expression(&c[0], st, missing) {
            Ok(v) => Ok(v != 0),
            Err(e) => Err(e),
        }
    } else if c.len() == 3 {
        let l = match evaluate_expression(&c[0], st, missing) {
            Ok(v) => v,
            Err(e) => {
                return Err(e);
            },
        };
        let r = match evaluate_expression(&c[2], st, missing) {
            Ok(v) => v,
            Err(e) => {
                return Err(e);
            },
        };
        proof {
            lemma_concat(m0, miss_expr(c@[0], st.env()), miss_expr(c@[2], st.env()));
        }
        evaluate_relational_operator(&c[1], l, r)
    } else {
        Err(ParsingError::InvalidCondition)
    }
}

/// The values of a `value_array` from child `j` on: an expression gives a
/// value, a `value_none` leaves its cell alone.
pub open spec fn eval_value_array(v: Node, j: int, env: Env) -> Result<Seq<Option<int>>, ErrKind>
    decreases v.children@.len() - j,
{
    let c = v.children@;
    if j < 0 || j >= c.len() {
        Ok(Seq::empty())
    } else if c[j].rule == Rule::Expression {
        match eval_expr(c[j], env) {
            Err(k) => Err(k),
            Ok(x) => match eval_value_array(v, j + 1, env) {
                Ok(rest) => Ok(seq![Some(x)] + rest),
                Err(k) => Err(k),
            },
        }
    } else if c[j].rule == Rule::ValueNone {
        match eval_value_array(v, j + 1, env) {
            Ok(rest) => Ok(seq![None] + rest),
            Err(k) => Err(k),
        }
    } else {
        Err(ErrKind::UnexpectedRule)
    }
}

/// The undefined variables that a successful `value_array` reads from child `j` on.
pub open spec fn values_missing(v: Node, j: int, env: Env) -> Seq<Seq<char>>
    decreases v.children@.len() - j,
{
    let c = v.children@;
    if j < 0 || j >= c.len() {
        Seq::empty()
    } else if c[j].rule == Rule::Expression {
        miss_expr(c[j], env) + values_missing(v, j + 1, env)
    } else {
        values_missing(v, j + 1, env)
    }
}

/// The variables after storing `vals[i..]` into the cells `keys[i..]`, skipping empty values.
pub open spec fn store_values(
    m: Map<Seq<char>, int>,
    keys: Seq<Seq<char>>,
    vals: Seq<Option<int>>,
    i: int,
) -> Map<Seq<char>, int>
    decreases vals.len() - i,
{
    if i < 0 || i >= vals.len() || i >= keys.len() {
        m
    } else {
        match vals[i] {
            Some(x) => store_values(m.insert(keys[i], x), keys, vals, i + 1),
            None => store_values(m, keys, vals, i + 1),
        }
    }
}

/// The undefined variables that a successful array assignment reads.
pub open spec fn multi_missing(a: Node, env: Env) -> Seq<Seq<char>> {
    let c = a.children@;
    if c.len() < 2 {
        Seq::empty()
    } else {
        miss_bounds(c[0], env) + values_missing(c[1], 0, env)
    }
}

/// The cells and values of an array assignment `A[n] = (v1, v2, ...)`.
pub open spec fn multi_plan(a: Node, env: Env) -> Result<(Seq<Seq<char>>, Seq<Option<int>>), ErrKind> {
    let c = a.children@;
    if c.len() < 2 {
        Err(ErrKind::InvalidElementCount)
    } else {
        match array_all_cells(c[0], env) {
            Err(k) => Err(k),
            Ok(keys) => match eval_value_array(c[1], 0, env) {
                Err(k) => Err(k),
                Ok(vals) => if vals.len() > keys.len() {
                    Err(ErrKind::InvalidElementCount)
                } else {
                    Ok((keys, vals))
                },
            },
        }
    }
}

/// The values of a `value_array` node.
pub fn interpret_value_array(v: &Node, st: &State, missing: &mut Vec<String>) -> (r: Result<Vec<Option<i64>>, ParsingError>)
    requires
        st.wf(),
    ensures
        r is Ok ==> names_of(final(missing)@) == names_of(old(missing)@) + values_missing(*v, 0, st.env()),
        match r {
            Ok(xs) => eval_value_array(*v, 0, st.env()) == Ok::<Seq<Option<int>>, ErrKind>(
                xs@.map_values(|o: Option<i64>| opt_int(o)),
            ) && forall|i: int| 0 <= i < xs.len() ==> (#[trigger] xs@[i] matches Some(x) ==> in_range(x as int)),
            Err(e) => eval_value_array(*v, 0, st.env()) == Err::<Seq<Option<int>>, ErrKind>(e.kind()),
        },
{
    let mut vals: Vec<Option<i64>> = Vec::new();
    let mut j: usize = 0;
    while j < v.children.len()
        invariant
            st.wf(),
            j <= v.children.len(),
            forall|i: int| 0 <= i < vals.len() ==> (#[trigger] vals@[i] matches Some(x) ==> in_range(x as int)),
            eval_value_array(*v, 0, st.env()) == match eval_value_array(*v, j as int, st.env()) {
                Ok(rest) => Ok(vals@.map_values(|o: Option<i64>| opt_int(o)) + rest),
                Err(k) => Err(k),
            },
            names_of(old(missing)@) + values_missing(*v, 0, st.env()) == names_of(missing@) + values_missing(
                *v,
                j as int,
                st.env(),
            ),
        decreases v.children.len() - j,
    {
        let c = &v.children[j];
        let ghost before = vals@.map_values(|o: Option<i64>| opt_int(o));
        let ghost m0 = names_of(missing@);
        proof {
            lemma_concat(m0, values_missing(*v, j + 1, st.env()), Seq::empty());
            lemma_concat(m0, miss_expr(*c, st.env()), values_missing(*v, j + 1, st.env()));
        }
        if c.rule == Rule::Expression {
            match evaluate_expression(c, st, missing) {
                Ok(x) => {
                    vals.push(Some(x));
                },
                Err(e) => {
                    return Err(e);
                },
            }
        } else if c.rule == Rule::ValueNone {
            vals.push(None);
        } else {
            return Err(ParsingError::UnexpectedRule { rule: c.rule, context: String::from_str("interpret_value_array") });
        }
        proof {
            let x = vals@.last();
            assert(vals@.map_values(|o: Option<i64>| opt_int(o)) =~= before.push(opt_int(x)));
            match eval_value_array(*v, j + 1, st.env()) {
                Ok(rest) => {
                    assert(before + (seq![opt_int(x)] + rest) =~= before.push(opt_int(x)) + rest);
                },
                Err(k) => {},
            }
        }
        j += 1;
    }
    proof {
        assert(vals@.map_values(|o: Option<i64>| opt_int(o)) + Seq::<Option<int>>::empty()
            =~= vals@.map_values(|o: Option<i64>| opt_int(o)));
        lemma_concat(names_of(missing@), Seq::empty(), Seq::empty());
    }
    Ok(vals)
}

pub open spec fn opt_int(o: Option<i64>) -> Option<int> {
    match o {
        Some(x) => Some(x as int),
        None => None,
    }
}

/// Carries out `A[n] = (v1, v2, ...)`: the values go to the array's cells in
/// order, an empty value leaves its cell alone, and more values than cells
/// is `InvalidElementCount`. Gives back every cell name.
pub fn interpret_assignment_multi(a: &Node, st: &mut State) -> (r: Result<Vec<String>, ParsingError>)
    requires
        old(st).wf(),
    ensures
        final(st).wf(),
        final(st).same_but_symbols(old(st)),
        match multi_plan(*a, old(st).env()) {
            Ok((keys, vals)) => (r matches Ok(ks) && ks@.map_values(|s: String| s@) == keys)
                && final(st).symbols() == store_values(
                zero_fill(old(st).symbols(), multi_missing(*a, old(st).env())),
                keys,
                vals,
                0,
            ),
            Err(k) => (r matches Err(e) && e.kind() == k) && final(st).symbols() == old(st).symbols(),
        },
        a.children@.len() >= 2 && array_all_cells(a.children@[0], old(st).env()) is Ok
            && eval_value_array(a.children@[1], 0, old(st).env()) is Ok && eval_value_array(
            a.children@[1],
            0,
            old(st).env(),
        )->Ok_0.len() > array_all_cells(a.children@[0], old(st).env())->Ok_0.len() ==> (r matches Err(
            ParsingError::InvalidElementCount { expected, actual },
        ) && expected == array_all_cells(a.children@[0], old(st).env())->Ok_0.len() && actual
            == eval_value_array(a.children@[1], 0, old(st).env())->Ok_0.len()),
{
    let c = &a.children;
    if c.len() < 2 {
        return Err(ParsingError::InvalidElementCount { expected: 2, actual: c.len() });
    }
    let mut missing: Vec<String> = Vec::new();
    let keys = match interpret_variable_array(&c[0], st, &mut missing) {
        Ok(k) => k,
        Err(e) => {
            return Err(e);
        },
    };
    let vals = match interpret_value_array(&c[1], st, &mut missing) {
        Ok(v) => v,
        Err(e) => {
            return Err(e);
        },
    };
    if vals.len() > keys.len() {
        return Err(ParsingError::InvalidElementCount { expected: keys.len(), actual: vals.len() });
    }
    proof {
        assert(names_of(missing@) =~= multi_missing(*a, old(st).env()));
    }
    st.fill_zeros(&missing);
    let ghost kv = keys@.map_values(|s: String| s@);
    let ghost vv = vals@.map_values(|o: Option<i64>| opt_int(o));
    let ghost m0 = st.symbols();
    let mut i: usize = 0;
    while i < vals.len()
        invariant
            st.wf(),
            st.same_but_symbols(old(st)),
            m0 == zero_fill(old(st).symbols(), multi_missing(*a, old(st).env())),
            i <= vals.len() <= keys.len(),
            kv == keys@.map_values(|s: String| s@),
            vv == vals@.map_values(|o: Option<i64>| opt_int(o)),
            forall|j: int| 0 <= j < vals.len() ==> (#[trigger] vals@[j] matches Some(x) ==> in_range(x as int)),
            store_values(m0, kv, vv, 0) == store_values(st.symbols(), kv, vv, i as int),
        decreases vals.len() - i,
    {
        match vals[i] {
            Some(x) => {
                st.set_symbol(&keys[i], x);
            },
            None => {},
        }
        i += 1;
    }
    Ok(keys)
}

/// The first of `names[k..]` that is an axis, if any.
pub open spec fn first_axis(names: Seq<Seq<char>>, st: StateModel, k: int) -> Option<Seq<char>>
    decreases names.len() - k,
{
    if k < 0 || k >= names.len() {
        None
    } else if st.is_axis_name(names[k]) {
        Some(names[k])
    } else {
        first_axis(names, st, k + 1)
    }
}

proof fn lemma_first_axis(names: Seq<Seq<char>>, st: StateModel, k0: int, k: int)
    requires
        0 <= k0 <= k <= names.len(),
        forall|j: int| k0 <= j < k ==> !st.is_axis_name(#[trigger] names[j]),
        k < names.len() ==> st.is_axis_name(names[k]),
    ensures
        first_axis(names, st, k0) == (if k < names.len() {
            Some(names[k])
        } else {
            None::<Seq<char>>
        }),
    decreases k - k0,
{
    if k0 < k {
        lemma_first_axis(names, st, k0 + 1, k);
    }
}

/// The first name that an item of a `DEF` would introduce and that is an
/// axis: a bare name, an assignment target, or a cell of an array, with
/// names and indices read in `st`.
pub open spec fn item_axis(item: Node, st: StateModel) -> Option<Seq<char>> {
    if item.rule == Rule::Variable {
        match variable_name(item) {
            Ok(n) => if st.is_axis_name(n) {
                Some(n)
            } else {
                None
            },
            Err(_) => None,
        }
    } else if item.rule == Rule::Assignment {
        match assignment_target(item, st) {
            Ok(n) => if st.is_axis_name(n) {
                Some(n)
            } else {
                None
            },
            Err(_) => None,
        }
    } else if item.rule == Rule::VariableArray {
        match array_all_cells(item, st.env()) {
            Ok(names) => first_axis(names, st, 0),
            Err(_) => None,
        }
    } else if item.rule == Rule::AssignmentMulti && item.children@.len() >= 2 {
        match array_all_cells(item.children@[0], st.env()) {
            Ok(names) => first_axis(names, st, 0),
            Err(_) => None,
        }
    } else {
        None
    }
}

/// The first axis name that the items `items[j..]` of a `DEF` would introduce.
pub open spec fn def_axis_from(items: Seq<Node>, j: int, st: StateModel) -> Option<Seq<char>>
    decreases items.len() - j,
{
    if j < 0 || j >= items.len() {
        None
    } else {
        match item_axis(items[j], st) {
            Some(n) => Some(n),
            None => def_axis_from(items, j + 1, st),
        }
    }
}

/// The axis name that a `DEF` would introduce, if any.
pub open spec fn def_axis(d: Node, st: StateModel) -> Option<Seq<char>> {
    def_axis_from(d.children@, 0, st)
}

/// The index of the first name in `names` that is an axis, if any.
fn find_axis(st: &State, names: &Vec<String>) -> (r: Option<usize>)
    ensures
        r matches Some(k) ==> k < names.len() && st.is_axis_name(names@[k as int]@) && forall|j: int|
            0 <= j < k ==> !st.is_axis_name(#[trigger] names@[j]@),
        r is None ==> forall|k: int| 0 <= k < names.len() ==> !st.is_axis_name(#[trigger] names@[k]@),
{
    let mut k: usize = 0;
    while k < names.len()
        invariant
            k <= names.len(),
            forall|j: int| 0 <= j < k ==> !st.is_axis_name(#[trigger] names@[j]@),
        decreases names.len() - k,
    {
        if st.is_axis(&names[k]) {
            return Some(k);
        }
        k += 1;
    }
    None
}

fn axis_error(name: String) -> (r: ParsingError)
    ensures
        r.kind() == ErrKind::AxisUsedAsVariable,
        r matches ParsingError::AxisUsedAsVariable { name: n } && n@ == name@,
{
    ParsingError::AxisUsedAsVariable { name }
}

/// The variables after setting each of `names[i..]` to zero.
pub open spec fn zero_all(m: Map<Seq<char>, int>, names: Seq<Seq<char>>, i: int) -> Map<Seq<char>, int>
    decreases names.len() - i,
{
    if i < 0 || i >= names.len() {
        m
    } else {
        zero_all(m.insert(names[i], 0), names, i + 1)
    }
}

/// Some name of the list is an axis.
pub open spec fn names_axis(st: StateModel, names: Seq<Seq<char>>) -> bool {
    exists|k: int| 0 <= k < names.len() && st.is_axis_name(#[trigger] names[k])
}

/// What one item of a `DEF` does: a type annotation nothing; a variable or
/// the cells of an array start at zero; an assignment or array assignment
/// is carried out. A name that is an axis is refused before anything changes.
/// Only variables change.
pub open spec fn def_item_effect(item: Node, s0: State, s1: State, r: Result<(), ParsingError>) -> bool {
    let refused = |k: ErrKind| (r matches Err(e) && e.kind() == k) && same_state(s1, s0);
    &&& s1.same_but_symbols(&s0)
    &&& if item.rule == Rule::DataType {
        r is Ok && same_state(s1, s0)
    } else if item.rule == Rule::Variable {
        match variable_name(item) {
            Err(k) => refused(k),
            Ok(n) => if s0.is_axis_name(n) {
                refused(ErrKind::AxisUsedAsVariable)
            } else {
                r is Ok && s1.symbols() == s0.symbols().insert(n, 0)
            },
        }
    } else if item.rule == Rule::VariableArray {
        match array_all_cells(item, s0.env()) {
            Err(k) => refused(k),
            Ok(names) => if names_axis(s0.model(), names) {
                refused(ErrKind::AxisUsedAsVariable)
            } else {
                r is Ok && s1.symbols() == zero_all(zero_fill(s0.symbols(), miss_bounds(item, s0.env())), names, 0)
            },
        }
    } else if item.rule == Rule::Assignment {
        match assignment_target(item, s0.model()) {
            Err(k) => refused(k),
            Ok(n) => if s0.is_axis_name(n) {
                refused(ErrKind::AxisUsedAsVariable)
            } else if assignment_ok(item, s0.model()) {
                r is Ok && after_assignment(item, s0, s1)
            } else {
                refused(assignment_error(item, s0.model()))
            },
        }
    } else if item.rule == Rule::AssignmentMulti {
        match multi_plan(item, s0.env()) {
            Ok((keys, vals)) => r is Ok && s1.symbols() == store_values(zero_fill(s0.symbols(), multi_missing(item, s0.env())), keys, vals, 0),
            Err(k) => (r matches Err(e) && e.kind() == k) && s1.symbols() == s0.symbols(),
        }
    } else {
        refused(ErrKind::UnexpectedRule)
    }
}

/// Carries out one item of a `DEF` (see `def_item_effect`).
pub fn interpret_definition_item(item: &Node, st: &mut State) -> (r: Result<(), ParsingError>)
    requires
        old(st).wf(),
    ensures
        final(st).wf(),
        def_item_effect(*item, *old(st), *final(st), r),
        item.rule == Rule::Variable && variable_name(*item) is Ok && old(st).is_axis_name(
            variable_name(*item)->Ok_0,
        ) ==> (r matches Err(ParsingError::AxisUsedAsVariable { name }) && name@ == variable_name(
            *item,
        )->Ok_0),
        item.rule == Rule::Assignment && assignment_target(*item, old(st).model()) is Ok
            && old(st).is_axis_name(assignment_target(*item, old(st).model())->Ok_0) ==> (r matches Err(
            ParsingError::AxisUsedAsVariable { name },
        ) && name@ == assignment_target(*item, old(st).model())->Ok_0),
{
    if item.rule == Rule::DataType {
        Ok(())
    } else if item.rule == Rule::Variable {
        let name = match interpret_variable(item) {
            Ok(n) => n,
            Err(e) => {
                return Err(e);
            },
        };
        if st.is_axis(&name) {
            return Err(axis_error(name));
        }
        st.set_symbol(&name, 0);
        Ok(())
    } else if item.rule == Rule::VariableArray {
        let mut missing: Vec<String> = Vec::new();
        let names = match interpret_variable_array(item, st, &mut missing) {
            Ok(n) => n,
            Err(e) => {
                return Err(e);
            },
        };
        let ghost nv = names@.map_values(|s: String| s@);
        match find_axis(st, &names) {
            Some(k) => {
                assert(nv[k as int] == names@[k as int]@);
                return Err(axis_error(names[k].clone()));
            },
            None => {},
        }
        assert(!names_axis(st.model(), nv)) by {
            assert forall|k: int| 0 <= k < nv.len() implies !st.is_axis_name(#[trigger] nv[k]) by {
                assert(nv[k] == names@[k]@);
            }
        }
        proof {
            assert(names_of(missing@) =~= miss_bounds(*item, st.env()));
        }
        st.fill_zeros(&missing);
        let ghost m0 = st.symbols();
        let mut k: usize = 0;
        while k < names.len()
            invariant
                k <= names.len(),
                st.wf(),
                st.same_but_symbols(old(st)),
                nv == names@.map_values(|s: String| s@),
                zero_all(m0, nv, 0) == zero_all(st.symbols(), nv, k as int),
            decreases names.len() - k,
        {
            st.set_symbol(&names[k], 0);
            k += 1;
        }
        Ok(())
    } else if item.rule == Rule::Assignment {
        let name = match interpret_assignment_target(item, st) {
            Ok(n) => n,
            Err(e) => {
                return Err(e);
            },
        };
        if st.is_axis(&name) {
            return Err(axis_error(name));
        }
        proof {
            if assignment_plan(*item, st.model()) is Ok {
                assert(assignment_plan(*item, st.model())->Ok_0.0 == name@);
            }
        }
        match interpret_assignment(item, st) {
            Ok(_) => Ok(()),
            Err(e) => Err(e),
        }
    } else if item.rule == Rule::AssignmentMulti {
        match interpret_assignment_multi(item, st) {
            Ok(_) => Ok(()),
            Err(e) => Err(e),
        }
    } else {
        Err(ParsingError::UnexpectedRule { rule: item.rule, context: String::from_str("interpret_definition") })
    }
}

/// Carries out `DEF`: its items in order, each as `def_item_effect` says,
/// stopping at the first error. Only variables change; a first item that
/// names an axis is refused before anything changes.
/// The first axis name that an item of a `DEF` would introduce (see `item_axis`).
fn item_axis_exec(item: &Node, st: &State) -> (r: Option<String>)
    requires
        st.wf(),
    ensures
        match item_axis(*item, st.model()) {
            Some(n) => r matches Some(s) && s@ == n,
            None => r is None,
        },
{
    if item.rule == Rule::Variable {
        match interpret_variable(item) {
            Ok(n) => if st.is_axis(&n) {
                Some(n)
            } else {
                None
            },
            Err(_) => None,
        }
    } else if item.rule == Rule::Assignment {
        match interpret_assignment_target(item, st) {
            Ok(n) => if st.is_axis(&n) {
                Some(n)
            } else {
                None
            },
            Err(_) => None,
        }
    } else if item.rule == Rule::VariableArray || (item.rule == Rule::AssignmentMulti
        && item.children.len() >= 2) {
        let arr = if item.rule == Rule::VariableArray {
            item
        } else {
            &item.children[0]
        };
        let mut scratch: Vec<String> = Vec::new();
        match interpret_variable_array(arr, st, &mut scratch) {
            Ok(names) => {
                let ghost nv = names@.map_values(|s: String| s@);
                match find_axis(st, &names) {
                    Some(k) => {
                        proof {
                            assert forall|j: int| 0 <= j < k implies !st.model().is_axis_name(#[trigger] nv[j]) by {
                                assert(nv[j] == names@[j]@);
                            }
                            lemma_first_axis(nv, st.model(), 0, k as int);
                        }
                        Some(names[k].clone())
                    },
                    None => {
                        proof {
                            assert forall|j: int| 0 <= j < nv.len() implies !st.model().is_axis_name(#[trigger] nv[j]) by {
                                assert(nv[j] == names@[j]@);
                            }
                            lemma_first_axis(nv, st.model(), 0, nv.len() as int);
                        }
                        None
                    },
                }
            },
            Err(_) => None,
        }
    } else {
        None
    }
}

/// The first axis name that a `DEF` would introduce (see `def_axis`).
fn def_axis_exec(d: &Node, st: &State) -> (r: Option<String>)
    requires
        st.wf(),
    ensures
        match def_axis(*d, st.model()) {
            Some(n) => r matches Some(s) && s@ == n,
            None => r is None,
        },
{
    let c = &d.children;
    let mut j: usize = 0;
    while j < c.len()
        invariant
            st.wf(),
            j <= c.len(),
            c == &d.children,
            def_axis(*d, st.model()) == def_axis_from(c@, j as int, st.model()),
        decreases c.len() - j,
    {
        match item_axis_exec(&c[j], st) {
            Some(n) => {
                return Some(n);
            },
            None => {},
        }
        j += 1;
    }
    None
}

/// Running a `DEF`: refused with `AxisUsedAsVariable` before anything changes
/// where any name it would introduce is an axis; otherwise its items in order.
pub open spec fn def_run(d: Node, st: StateModel) -> (Result<(), ErrKind>, StateModel) {
    match def_axis(d, st) {
        Some(_) => (Err(ErrKind::AxisUsedAsVariable), st),
        None => def_fold(d.children@, 0, st),
    }
}

/// Carries out `DEF` (see `def_run`): where any name it would introduce (a
/// bare name, an assignment target, a cell of an array) is an axis, it is
/// refused with `AxisUsedAsVariable` naming that axis, before anything
/// changes; otherwise its items run in order, each as `def_item_effect` says,
/// stopping at the first error. Only variables change.
pub fn interpret_definition(d: &Node, st: &mut State) -> (r: Result<(), ParsingError>)
    requires
        old(st).wf(),
    ensures
        final(st).wf(),
        final(st).same_but_symbols(old(st)),
        def_axis(*d, old(st).model()) is Some ==> (r matches Err(ParsingError::AxisUsedAsVariable { name })
            && name@ == def_axis(*d, old(st).model())->Some_0) && same_state(*final(st), *old(st)),
        (kind_of(r), final(st).model()) == def_run(*d, old(st).model()),
{
    match def_axis_exec(d, st) {
        Some(n) => {
            return Err(axis_error(n));
        },
        None => {},
    }
    let c = &d.children;
    let mut i: usize = 0;
    while i < c.len()
        invariant
            st.wf(),
            st.same_but_symbols(old(st)),
            i <= c.len(),
            c == &d.children,
            def_axis(*d, old(st).model()) is None,
            def_run(*d, old(st).model()) == def_fold(c@, i as int, st.model()),
        decreases c.len() - i,
    {
        let item = &c[i];
        let ghost s0 = *st;
        let res = interpret_definition_item(item, st);
        proof {
            lemma_def_item_step(*item, s0, *st, res);
        }
        match res {
            Ok(()) => {},
            Err(e) => {
                return Err(e);
            },
        }
        i += 1;
    }
    Ok(())
}

/// The state after a successful assignment: the undefined variables it read
/// become zero; then an axis target records its value, and any other target
/// becomes a variable.
pub open spec fn assign_model(a: Node, st: StateModel) -> StateModel {
    let filled = zero_fill(st.syms, plan_missing(a, st));
    match assignment_plan(a, st) {
        Ok((n, v, _t)) => if st.is_axis_name(n) {
            st.with_axes(st.axs.insert(n, v)).with_symbols(filled)
        } else {
            st.with_symbols(filled.insert(n, v))
        },
        Err(_) => st,
    }
}

/// One item of a `DEF`: the outcome and the state after it (see `def_item_effect`).
pub open spec fn def_item_step(item: Node, st: StateModel) -> (Result<(), ErrKind>, StateModel) {
    if item.rule == Rule::DataType {
        (Ok(()), st)
    } else if item.rule == Rule::Variable {
        match variable_name(item) {
            Err(k) => (Err(k), st),
            Ok(n) => if st.is_axis_name(n) {
                (Err(ErrKind::AxisUsedAsVariable), st)
            } else {
                (Ok(()), st.with_symbols(st.syms.insert(n, 0)))
            },
        }
    } else if item.rule == Rule::VariableArray {
        match array_all_cells(item, st.env()) {
            Err(k) => (Err(k), st),
            Ok(names) => if names_axis(st, names) {
                (Err(ErrKind::AxisUsedAsVariable), st)
            } else {
                (Ok(()), st.with_symbols(zero_all(zero_fill(st.syms, miss_bounds(item, st.env())), names, 0)))
            },
        }
    } else if item.rule == Rule::Assignment {
        match assignment_target(item, st) {
            Err(k) => (Err(k), st),
            Ok(n) => if st.is_axis_name(n) {
                (Err(ErrKind::AxisUsedAsVariable), st)
            } else if assignment_ok(item, st) {
                (Ok(()), assign_model(item, st))
            } else {
                (Err(assignment_error(item, st)), st)
            },
        }
    } else if item.rule == Rule::AssignmentMulti {
        match multi_plan(item, st.env()) {
            Ok((keys, vals)) => (Ok(()), st.with_symbols(store_values(zero_fill(st.syms, multi_missing(item, st.env())), keys, vals, 0))),
            Err(k) => (Err(k), st),
        }
    } else {
        (Err(ErrKind::UnexpectedRule), st)
    }
}

/// The items `items[i..]` of a `DEF` in order, stopping at the first error.
pub open spec fn def_fold(items: Seq<Node>, i: int, st: StateModel) -> (Result<(), ErrKind>, StateModel)
    decreases items.len() - i,
{
    if i < 0 || i >= items.len() {
        (Ok(()), st)
    } else {
        let t = def_item_step(items[i], st);
        if t.0 is Err {
            t
        } else {
            def_fold(items, i + 1, t.1)
        }
    }
}

proof fn lemma_def_item_step(item: Node, s0: State, s1: State, r: Result<(), ParsingError>)
    requires
        def_item_effect(item, s0, s1, r),
    ensures
        (kind_of(r), s1.model()) == def_item_step(item, s0.model()),
{
}

} // verus!
