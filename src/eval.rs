//! Evaluation of expressions, conditions and variable references.
use crate::ast::{Node, Rule};
use crate::errors::{ErrKind, ParsingError};
use crate::names::{array_cell_names, array_cells, cell_count, cell_name, cell_name_of, sizes_of, MAX_CELLS};
use crate::num::{apply_op, in_range, literal_value, op_result, parse_literal, trunc_div, Op, SCALE};
use crate::state::State;
use vstd::prelude::*;

verus! {

/// The operator that an operator node stands for.
pub open spec fn op_of(r: Rule) -> Option<Op> {
    match r {
        Rule::OpAdd => Some(Op::Add),
        Rule::OpSub => Some(Op::Sub),
        Rule::OpMul => Some(Op::Mul),
        Rule::OpDiv => Some(Op::Div),
        Rule::OpIntDiv => Some(Op::IntDiv),
        Rule::OpMod => Some(Op::Mod),
        _ => None,
    }
}

/// The whole part of a fixed-point value, rounded toward zero.
pub open spec fn whole_part(v: int) -> int {
    trunc_div(v, SCALE as int)
}

/// The name that a `variable` node refers to.
pub open spec fn variable_name(v: Node) -> Result<Seq<char>, ErrKind> {
    if v.children@.len() == 0 {
        Err(ErrKind::ParseError)
    } else if v.children@[0].rule == Rule::Identifier {
        Ok(v.children@[0].text@)
    } else {
        Err(ErrKind::UnexpectedRule)
    }
}

/// What expressions read: the variables, and whether an undefined one reads as zero.
pub type Env = (Map<Seq<char>, int>, bool);

/// Reading a variable: its value, zero for an undefined one where undefined
/// variables read as zero, or `UnknownVariable`.
pub open spec fn read_result(env: Env, name: Seq<char>) -> Result<int, ErrKind> {
    if env.0.contains_key(name) {
        Ok(env.0[name])
    } else if env.1 {
        Ok(0)
    } else {
        Err(ErrKind::UnknownVariable)
    }
}

/// The value of an expression node: an optional leading `neg`, a primary, then
/// operator and operand pairs applied strictly from left to right.
pub open spec fn eval_expr(e: Node, env: Env) -> Result<int, ErrKind>
    decreases e, e.children@.len() + 1,
{
    let c = e.children@;
    if c.len() == 0 {
        Err(ErrKind::UnexpectedRule)
    } else if c[0].rule == Rule::Neg {
        if c.len() < 2 {
            Err(ErrKind::UnexpectedRule)
        } else {
            match eval_primary(c[1], env) {
                Ok(v) => eval_tail(e, 2, -v, env),
                Err(k) => Err(k),
            }
        }
    } else {
        match eval_primary(c[0], env) {
            Ok(v) => eval_tail(e, 1, v, env),
            Err(k) => Err(k),
        }
    }
}

/// Applies the operator and operand pairs of `e` from child `i` on to `acc`.
pub open spec fn eval_tail(e: Node, i: int, acc: int, env: Env) -> Result<int, ErrKind>
    decreases e, e.children@.len() - i,
{
    let c = e.children@;
    if i < 0 || i >= c.len() {
        Ok(acc)
    } else if i + 1 >= c.len() {
        Err(ErrKind::UnexpectedRule)
    } else {
        let rhs_node = c[i + 1];
        let rhs: Result<(int, int), ErrKind> = if rhs_node.rule == Rule::Neg {
            if i + 2 >= c.len() {
                Err(ErrKind::UnexpectedRule)
            } else {
                match eval_primary(c[i + 2], env) {
                    Ok(v) => Ok((-v, i + 3)),
                    Err(k) => Err(k),
                }
            }
        } else if rhs_node.rule == Rule::Primary {
            match eval_primary(rhs_node, env) {
                Ok(v) => Ok((v, i + 2)),
                Err(k) => Err(k),
            }
        } else {
            Err(ErrKind::UnexpectedRule)
        };
        match rhs {
            Err(k) => Err(k),
            Ok((r, next)) => match op_of(c[i].rule) {
                None => Err(ErrKind::UnexpectedRule),
                Some(op) => match op_result(op, acc, r) {
                    None => Err(ErrKind::ArithmeticError),
                    Some(v) => if next <= c.len() {
                        eval_tail(e, next, v, env)
                    } else {
                        Err(ErrKind::UnexpectedRule)
                    },
                },
            },
        }
    }
}

/// The value of a primary: a literal, a variable, an array cell or a
/// parenthesised expression.
pub open spec fn eval_primary(p: Node, env: Env) -> Result<int, ErrKind>
    decreases p, 0int,
{
    if p.children@.len() == 0 {
        Err(ErrKind::UnexpectedRule)
    } else {
        let q = p.children@[0];
        match q.rule {
            Rule::Value => match literal_value(q.text@) {
                Some(v) => Ok(v),
                None => Err(ErrKind::ParseError),
            },
            Rule::Variable => match variable_name(q) {
                Ok(n) => read_result(env, n),
                Err(k) => Err(k),
            },
            Rule::VariableArray => match array_bounds(q, env) {
                Ok((id, b)) => read_result(env, cell_name(id, b)),
                Err(k) => Err(k),
            },
            Rule::Expression => eval_expr(q, env),
            _ => Err(ErrKind::UnexpectedRule),
        }
    }
}

/// The values of the index expressions of an `indices` node from child `j` on.
pub open spec fn eval_indices(ix: Node, j: int, env: Env) -> Result<Seq<int>, ErrKind>
    decreases ix, ix.children@.len() - j,
{
    let c = ix.children@;
    if j < 0 || j >= c.len() {
        Ok(Seq::empty())
    } else if c[j].rule != Rule::Expression {
        Err(ErrKind::UnexpectedRule)
    } else {
        match eval_expr(c[j], env) {
            Err(k) => Err(k),
            Ok(v) => match eval_indices(ix, j + 1, env) {
                Ok(rest) => Ok(seq![v] + rest),
                Err(k) => Err(k),
            },
        }
    }
}

/// The identifier and the largest indices of a `variable_array` node: one to
/// three indices, each the whole part of its expression and not negative.
pub open spec fn array_bounds(q: Node, env: Env) -> Result<(Seq<char>, Seq<int>), ErrKind>
    decreases q, 0int,
{
    let c = q.children@;
    if c.len() < 2 {
        Err(ErrKind::ParseError)
    } else if c[0].rule != Rule::Identifier {
        Err(ErrKind::UnexpectedRule)
    } else {
        match eval_indices(c[1], 0, env) {
            Err(k) => Err(k),
            Ok(vs) => {
                let b = vs.map_values(|v: int| whole_part(v));
                if vs.len() < 1 || vs.len() > 3 {
                    Err(ErrKind::ParseError)
                } else if exists|i: int| 0 <= i < b.len() && b[i] < 0 {
                    Err(ErrKind::ParseError)
                } else {
                    Ok((c[0].text@, b))
                }
            },
        }
    }
}

/// The name that reads and single writes of an array reference use: its last cell.
pub open spec fn array_target(q: Node, env: Env) -> Result<Seq<char>, ErrKind> {
    match array_bounds(q, env) {
        Ok((id, b)) => Ok(cell_name(id, b)),
        Err(k) => Err(k),
    }
}

/// All cell names of an array reference; an array whose cell count does not
/// fit in a machine word is refused.
pub open spec fn array_all_cells(q: Node, env: Env) -> Result<Seq<Seq<char>>, ErrKind> {
    match array_bounds(q, env) {
        Ok((id, b)) => if cell_count(sizes_of(b)) > MAX_CELLS {
            Err(ErrKind::ParseError)
        } else {
            Ok(array_cells(id, b))
        },
        Err(k) => Err(k),
    }
}

/// An executable result agrees with a specified one: the same value, or an
/// error of the same kind.
pub open spec fn agrees<T>(r: Result<T, ParsingError>, s: Result<T, ErrKind>) -> bool {
    match r {
        Ok(v) => s == Ok::<T, ErrKind>(v),
        Err(e) => s == Err::<T, ErrKind>(e.kind()),
    }
}

/// An executable number agrees with a specified one.
pub open spec fn agrees_num(r: Result<i64, ParsingError>, s: Result<int, ErrKind>) -> bool {
    match r {
        Ok(v) => s == Ok::<int, ErrKind>(v as int) && in_range(v as int),
        Err(e) => s == Err::<int, ErrKind>(e.kind()),
    }
}

pub open spec fn agrees_name(r: Result<String, ParsingError>, s: Result<Seq<char>, ErrKind>) -> bool {
    match r {
        Ok(v) => s == Ok::<Seq<char>, ErrKind>(v@),
        Err(e) => s == Err::<Seq<char>, ErrKind>(e.kind()),
    }
}

/// The contents of a list of strings.
pub open spec fn names_of(v: Seq<String>) -> Seq<Seq<char>> {
    v.map_values(|s: String| s@)
}

/// A read of `n`: the name where it is undefined (it then reads as zero and
/// becomes defined), nothing otherwise.
pub open spec fn miss_read(env: Env, n: Seq<char>) -> Seq<Seq<char>> {
    if env.0.contains_key(n) {
        Seq::empty()
    } else {
        seq![n]
    }
}

/// The undefined variables that a successful evaluation of `e` reads, in
/// the order it reads them.
pub open spec fn miss_expr(e: Node, env: Env) -> Seq<Seq<char>>
    decreases e, e.children@.len() + 1,
{
    let c = e.children@;
    if c.len() == 0 {
        Seq::empty()
    } else if c[0].rule == Rule::Neg {
        if c.len() < 2 {
            Seq::empty()
        } else {
            miss_primary(c[1], env) + miss_tail(e, 2, env)
        }
    } else {
        miss_primary(c[0], env) + miss_tail(e, 1, env)
    }
}

pub open spec fn miss_tail(e: Node, i: int, env: Env) -> Seq<Seq<char>>
    decreases e, e.children@.len() - i,
{
    let c = e.children@;
    if i < 0 || i + 1 >= c.len() {
        Seq::empty()
    } else if c[i + 1].rule == Rule::Neg {
        if i + 2 >= c.len() {
            Seq::empty()
        } else {
            miss_primary(c[i + 2], env) + miss_tail(e, i + 3, env)
        }
    } else {
        miss_primary(c[i + 1], env) + miss_tail(e, i + 2, env)
    }
}

pub open spec fn miss_primary(p: Node, env: Env) -> Seq<Seq<char>>
    decreases p, 0int,
{
    if p.children@.len() == 0 {
        Seq::empty()
    } else {
        let q = p.children@[0];
        match q.rule {
            Rule::Variable => match variable_name(q) {
                Ok(n) => miss_read(env, n),
                Err(_) => Seq::empty(),
            },
            Rule::VariableArray => miss_bounds(q, env) + match array_bounds(q, env) {
                Ok((id, b)) => miss_read(env, cell_name(id, b)),
                Err(_) => Seq::empty(),
            },
            Rule::Expression => miss_expr(q, env),
            _ => Seq::empty(),
        }
    }
}

pub open spec fn miss_indices(ix: Node, j: int, env: Env) -> Seq<Seq<char>>
    decreases ix, ix.children@.len() - j,
{
    let c = ix.children@;
    if j < 0 || j >= c.len() {
        Seq::empty()
    } else {
        miss_expr(c[j], env) + miss_indices(ix, j + 1, env)
    }
}

/// The undefined variables that the indices of an array reference read.
pub open spec fn miss_bounds(q: Node, env: Env) -> Seq<Seq<char>>
    decreases q, 0int,
{
    let c = q.children@;
    if c.len() < 2 {
        Seq::empty()
    } else {
        miss_indices(c[1], 0, env)
    }
}

/// Appending to a list of names adds the new names after the old ones.
pub proof fn lemma_concat(a: Seq<Seq<char>>, b: Seq<Seq<char>>, c: Seq<Seq<char>>)
    ensures
        (a + b) + c == a + (b + c),
        a + Seq::<Seq<char>>::empty() == a,
{
    assert((a + b) + c =~= a + (b + c));
    assert(a + Seq::<Seq<char>>::empty() =~= a);
}

fn unexpected(rule: Rule, context: &str) -> (r: ParsingError)
    ensures
        r.kind() == ErrKind::UnexpectedRule,
{
    ParsingError::UnexpectedRule { rule, context: String::from_str(context) }
}

fn parse_error(message: &str) -> (r: ParsingError)
    ensures
        r.kind() == ErrKind::ParseError,
{
    ParsingError::ParseError { message: String::from_str(message) }
}

/// The text of an `identifier` node.
pub fn interpret_identifier(node: &Node) -> (r: Result<String, ParsingError>)
    ensures
        r matches Ok(s) ==> node.rule == Rule::Identifier && s@ == node.text@,
        r matches Err(e) ==> node.rule != Rule::Identifier && e.kind() == ErrKind::UnexpectedRule,
{
    if node.rule == Rule::Identifier {
        Ok(node.text.clone())
    } else {
        Err(unexpected(node.rule, "interpret_identifier"))
    }
}

/// The name that a `variable` node refers to.
pub fn interpret_variable(node: &Node) -> (r: Result<String, ParsingError>)
    ensures
        agrees_name(r, variable_name(*node)),
{
    if node.children.len() == 0 {
        return Err(parse_error("variable without a name"));
    }
    interpret_identifier(&node.children[0])
}

fn read_exec(st: &State, name: &String, missing: &mut Vec<String>) -> (r: Result<i64, ParsingError>)
    requires
        st.wf(),
    ensures
        agrees_num(r, read_result(st.env(), name@)),
        r is Ok ==> names_of(final(missing)@) == names_of(old(missing)@) + miss_read(st.env(), name@),
        r matches Err(e) ==> e matches ParsingError::UnknownVariable { variable } && variable@ == name@,
{
    match st.get_symbol(name) {
        Some(v) => {
            proof {
                assert(in_range(st.symbols()[name@]));
                lemma_concat(names_of(missing@), Seq::empty(), Seq::empty());
            }
            Ok(v)
        },
        None => if st.auto_init_variables {
            missing.push(name.clone());
            assert(names_of(missing@) =~= names_of(old(missing)@) + seq![name@]);
            Ok(0)
        } else {
            Err(ParsingError::UnknownVariable { variable: name.clone() })
        },
    }
}

/// The values of the index expressions of an `indices` node.
pub fn interpret_indices(ix: &Node, st: &State, missing: &mut Vec<String>) -> (r: Result<Vec<i64>, ParsingError>)
    requires
        st.wf(),
    ensures
        r is Ok ==> names_of(final(missing)@) == names_of(old(missing)@) + miss_indices(*ix, 0, st.env()),
        match r {
            Ok(v) => eval_indices(*ix, 0, st.env()) == Ok::<Seq<int>, ErrKind>(
                v@.map_values(|x: i64| x as int),
            ) && forall|i: int| 0 <= i < v.len() ==> in_range(#[trigger] v@[i] as int),
            Err(e) => eval_indices(*ix, 0, st.env()) == Err::<Seq<int>, ErrKind>(e.kind()),
        },
    decreases ix, 0int,
{
    let mut vals: Vec<i64> = Vec::new();
    let mut j: usize = 0;
    while j < ix.children.len()
        invariant
            st.wf(),
            j <= ix.children.len(),
            forall|i: int| 0 <= i < vals.len() ==> in_range(#[trigger] vals@[i] as int),
            eval_indices(*ix, 0, st.env()) == match eval_indices(*ix, j as int, st.env()) {
                Ok(rest) => Ok(vals@.map_values(|x: i64| x as int) + rest),
                Err(k) => Err(k),
            },
            names_of(old(missing)@) + miss_indices(*ix, 0, st.env()) == names_of(missing@) + miss_indices(
                *ix,
                j as int,
                st.env(),
            ),
        decreases ix.children.len() - j,
    {
        let c = &ix.children[j];
        if c.rule != Rule::Expression {
            return Err(unexpected(c.rule, "interpret_indices"));
        }
        let ghost m0 = names_of(missing@);
        match evaluate_expression(c, st, missing) {
            Ok(v) => {
                proof {
                    lemma_concat(m0, miss_expr(*c, st.env()), miss_indices(*ix, j + 1, st.env()));
                }
                let ghost before = vals@.map_values(|x: i64| x as int);
                vals.push(v);
                proof {
                    assert(vals@.map_values(|x: i64| x as int) =~= before.push(v as int));
                    match eval_indices(*ix, j + 1, st.env()) {
                        Ok(rest) => {
                            assert(before + (seq![v as int] + rest) =~= before.push(v as int) + rest);
                        },
                        Err(k) => {},
                    }
                }
            },
            Err(e) => {
                return Err(e);
            },
        }
        j += 1;
    }
    proof {
        assert(vals@.map_values(|x: i64| x as int) + Seq::<int>::empty() =~= vals@.map_values(
            |x: i64| x as int,
        ));
        lemma_concat(names_of(missing@), Seq::empty(), Seq::empty());
    }
    Ok(vals)
}

/// The identifier and largest indices of a `variable_array` node (see `array_bounds`).
pub fn interpret_array_bounds(q: &Node, st: &State, missing: &mut Vec<String>) -> (r: Result<(String, Vec<u64>), ParsingError>)
    requires
        st.wf(),
    ensures
        r is Ok ==> names_of(final(missing)@) == names_of(old(missing)@) + miss_bounds(*q, st.env()),
        match r {
            Ok((id, b)) => array_bounds(*q, st.env()) == Ok::<(Seq<char>, Seq<int>), ErrKind>(
                (id@, b@.map_values(|x: u64| x as int)),
            ),
            Err(e) => array_bounds(*q, st.env()) == Err::<(Seq<char>, Seq<int>), ErrKind>(e.kind()),
        },
    decreases q, 0int,
{
    if q.children.len() < 2 {
        return Err(parse_error("array reference without indices"));
    }
    let id = match interpret_identifier(&q.children[0]) {
        Ok(id) => id,
        Err(e) => {
            return Err(e);
        },
    };
    let vals = match interpret_indices(&q.children[1], st, missing) {
        Ok(v) => v,
        Err(e) => {
            return Err(e);
        },
    };
    let ghost vs = vals@.map_values(|x: i64| x as int);
    let ghost b = vs.map_values(|v: int| whole_part(v));
    if vals.len() < 1 || vals.len() > 3 {
        return Err(parse_error("an array takes one to three indices"));
    }
    let mut bounds: Vec<u64> = Vec::new();
    let mut k: usize = 0;
    while k < vals.len()
        invariant
            k <= vals.len(),
            vs == vals@.map_values(|x: i64| x as int),
            b == vs.map_values(|v: int| whole_part(v)),
            forall|i: int| 0 <= i < vals.len() ==> in_range(#[trigger] vals@[i] as int),
            bounds@.map_values(|x: u64| x as int) == b.take(k as int),
            1 <= vals.len() <= 3,
            q.children@.len() >= 2,
            q.children@[0].rule == Rule::Identifier,
            id@ == q.children@[0].text@,
            eval_indices(q.children@[1], 0, st.env()) == Ok::<Seq<int>, ErrKind>(vs),
        decreases vals.len() - k,
    {
        let v = vals[k];
        assert(b[k as int] == whole_part(v as int));
        assert(b.take(k + 1) =~= b.take(k as int).push(b[k as int]));
        if v < 0 {
            if -v >= SCALE {
                proof {
                    assert(b[k as int] == whole_part(v as int));
                    assert(b[k as int] < 0) by {
                        vstd::arithmetic::div_mod::lemma_div_is_ordered(SCALE as int, -(v as int), SCALE as int);
                    }
                }
                return Err(parse_error("negative array index"));
            }
            proof {
                assert(-(v as int) < SCALE) by {
                    if -(v as int) >= SCALE {
                        vstd::arithmetic::div_mod::lemma_div_is_ordered(SCALE as int, -(v as int), SCALE as int);
                    }
                }
                vstd::arithmetic::div_mod::lemma_basic_div(-(v as int), SCALE as int);
            }
            bounds.push(0);
        } else {
            bounds.push((v / SCALE) as u64);
        }
        proof {
            assert(bounds@.map_values(|x: u64| x as int) =~= b.take(k + 1));
        }
        k += 1;
    }
    assert(b.take(vals.len() as int) =~= b);
    assert(!(exists|i: int| 0 <= i < b.len() && b[i] < 0));
    Ok((id, bounds))
}

/// The name that reads and single writes of an array reference use: its
/// last cell, `identifier[i1,...,ik]`.
pub fn interpret_array_target(q: &Node, st: &State, missing: &mut Vec<String>) -> (r: Result<String, ParsingError>)
    requires
        st.wf(),
    ensures
        agrees_name(r, array_target(*q, st.env())),
        r is Ok ==> names_of(final(missing)@) == names_of(old(missing)@) + miss_bounds(*q, st.env()),
    decreases q, 1int,
{
    match interpret_array_bounds(q, st, missing) {
        Ok((id, b)) => Ok(cell_name_of(&id, &b)),
        Err(e) => Err(e),
    }
}

/// Every cell name of an array reference, in order.
pub fn interpret_variable_array(q: &Node, st: &State, missing: &mut Vec<String>) -> (r: Result<Vec<String>, ParsingError>)
    requires
        st.wf(),
    ensures
        r is Ok ==> names_of(final(missing)@) == names_of(old(missing)@) + miss_bounds(*q, st.env()),
        match r {
            Ok(v) => array_all_cells(*q, st.env()) == Ok::<Seq<Seq<char>>, ErrKind>(
                v@.map_values(|s: String| s@),
            ),
            Err(e) => array_all_cells(*q, st.env()) == Err::<Seq<Seq<char>>, ErrKind>(e.kind()),
        },
{
    match interpret_array_bounds(q, st, missing) {
        Ok((id, b)) => match array_cell_names(&id, &b) {
            Some(names) => Ok(names),
            None => Err(parse_error("array has too many cells")),
        },
        Err(e) => Err(e),
    }
}

/// The value of a primary.
pub fn interpret_primary(p: &Node, st: &State, missing: &mut Vec<String>) -> (r: Result<i64, ParsingError>)
    requires
        st.wf(),
    ensures
        agrees_num(r, eval_primary(*p, st.env())),
        r is Ok ==> names_of(final(missing)@) == names_of(old(missing)@) + miss_primary(*p, st.env()),
        p.children@.len() > 0 && p.children@[0].rule == Rule::Variable && variable_name(p.children@[0]) is Ok
            && read_result(st.env(), variable_name(p.children@[0])->Ok_0) is Err ==> (r matches Err(
            ParsingError::UnknownVariable { variable },
        ) && variable@ == variable_name(p.children@[0])->Ok_0),
        p.children@.len() > 0 && p.children@[0].rule == Rule::VariableArray && array_target(
            p.children@[0],
            st.env(),
        ) is Ok && read_result(st.env(), array_target(p.children@[0], st.env())->Ok_0) is Err ==> (r matches Err(
            ParsingError::UnknownVariable { variable },
        ) && variable@ == array_target(p.children@[0], st.env())->Ok_0),
    decreases p, 0int,
{
    if p.children.len() == 0 {
        return Err(unexpected(p.rule, "interpret_primary"));
    }
    let q = &p.children[0];
    match q.rule {
        Rule::Value => match parse_literal(q.text.as_str()) {
            Some(v) => {
                proof {
                    lemma_concat(names_of(missing@), Seq::empty(), Seq::empty());
                }
                Ok(v)
            },
            None => Err(parse_error("malformed number")),
        },
        Rule::Variable => match interpret_variable(q) {
            Ok(name) => read_exec(st, &name, missing),
            Err(e) => Err(e),
        },
        Rule::VariableArray => {
            let ghost m0 = names_of(missing@);
            match interpret_array_bounds(q, st, missing) {
                Ok((id, b)) => {
                    let name = cell_name_of(&id, &b);
                    let ghost m1 = names_of(missing@);
                    let r = read_exec(st, &name, missing);
                    proof {
                        lemma_concat(m0, miss_bounds(*q, st.env()), miss_read(st.env(), name@));
                    }
                    r
                },
                Err(e) => Err(e),
            }
        },
        Rule::Expression => evaluate_expression(q, st, missing),
        _ => Err(unexpected(q.rule, "interpret_primary")),
    }
}

fn op_from_rule(r: Rule) -> (o: Option<Op>)
    ensures
        o == op_of(r),
{
    match r {
        Rule::OpAdd => Some(Op::Add),
        Rule::OpSub => Some(Op::Sub),
        Rule::OpMul => Some(Op::Mul),
        Rule::OpDiv => Some(Op::Div),
        Rule::OpIntDiv => Some(Op::IntDiv),
        Rule::OpMod => Some(Op::Mod),
        _ => None,
    }
}

/// The value of an expression (see `eval_expr`).
pub fn evaluate_expression(e: &Node, st: &State, missing: &mut Vec<String>) -> (r: Result<i64, ParsingError>)
    requires
        st.wf(),
    ensures
        agrees_num(r, eval_expr(*e, st.env())),
        r is Ok ==> names_of(final(missing)@) == names_of(old(missing)@) + miss_expr(*e, st.env()),
    decreases e, e.children@.len() + 1,
{
    let c = &e.children;
    let n = c.len();
    if n == 0 {
        return Err(unexpected(e.rule, "evaluate_expression"));
    }
    let mut acc: i64;
    let mut i: usize;
    let ghost m0 = names_of(missing@);
    let ghost env = st.env();
    if c[0].rule == Rule::Neg {
        if n < 2 {
            return Err(unexpected(e.rule, "evaluate_expression"));
        }
        match interpret_primary(&c[1], st, missing) {
            Ok(v) => {
                acc = -v;
                proof {
                    lemma_concat(m0, miss_primary(c@[1], env), miss_tail(*e, 2, env));
                }
            },
            Err(err) => {
                return Err(err);
            },
        }
        i = 2;
    } else {
        match interpret_primary(&c[0], st, missing) {
            Ok(v) => {
                acc = v;
                proof {
                    lemma_concat(m0, miss_primary(c@[0], env), miss_tail(*e, 1, env));
                }
            },
            Err(err) => {
                return Err(err);
            },
        }
        i = 1;
    }
    while i < n
        invariant
            st.wf(),
            n == e.children.len(),
            c == &e.children,
            1 <= i <= n,
            in_range(acc as int),
            eval_expr(*e, st.env()) == eval_tail(*e, i as int, acc as int, st.env()),
            env == st.env(),
            m0 == names_of(old(missing)@),
            m0 + miss_expr(*e, env) == names_of(missing@) + miss_tail(*e, i as int, env),
        decreases n - i,
    {
        if i + 1 >= n {
            return Err(unexpected(c[i].rule, "evaluate_expression"));
        }
        let rhs_node = &c[i + 1];
        let ghost mi = names_of(missing@);
        let rhs: i64;
        let next: usize;
        if rhs_node.rule == Rule::Neg {
            if i + 2 >= n {
                return Err(unexpected(rhs_node.rule, "evaluate_expression"));
            }
            match interpret_primary(&c[i + 2], st, missing) {
                Ok(v) => {
                    rhs = -v;
                    proof {
                        lemma_concat(mi, miss_primary(c@[i + 2], env), miss_tail(*e, i + 3, env));
                    }
                },
                Err(err) => {
                    return Err(err);
                },
            }
            next = i + 3;
        } else if rhs_node.rule == Rule::Primary {
            match interpret_primary(rhs_node, st, missing) {
                Ok(v) => {
                    rhs = v;
                    proof {
                        lemma_concat(mi, miss_primary(c@[i + 1], env), miss_tail(*e, i + 2, env));
                    }
                },
                Err(err) => {
                    return Err(err);
                },
            }
            next = i + 2;
        } else {
            return Err(unexpected(rhs_node.rule, "evaluate_expression"));
        }
        let op = match op_from_rule(c[i].rule) {
            Some(op) => op,
            None => {
                return Err(unexpected(c[i].rule, "evaluate_expression"));
            },
        };
        match apply_op(op, acc, rhs) {
            Some(v) => {
                acc = v;
            },
            None => {
                return Err(ParsingError::ArithmeticError { message: String::from_str("division by zero or value out of range") });
            },
        }
        i = next;
    }
    proof {
        lemma_concat(names_of(missing@), Seq::empty(), Seq::empty());
    }
    Ok(acc)
}

/// Operator and operand pairs applied from left to right, starting from `acc`;
/// `None` where a step divides by zero or leaves the range.
pub open spec fn fold_ops(acc: int, ops: Seq<(Op, int)>) -> Option<int>
    decreases ops.len(),
{
    if ops.len() == 0 {
        Some(acc)
    } else {
        match op_result(ops[0].0, acc, ops[0].1) {
            Some(v) => fold_ops(v, ops.drop_first()),
            None => None,
        }
    }
}

/// An expression `x0 op1 x1 op2 x2 ...` without signs: `x0` is a primary of
/// value `first`, and operator `j + 1` and operand `j + 1` are `ops[j]`.
pub open spec fn plain_expression(e: Node, env: Env, first: int, ops: Seq<(Op, int)>) -> bool {
    &&& e.children@.len() == 2 * ops.len() + 1
    &&& e.children@[0].rule != Rule::Neg
    &&& eval_primary(e.children@[0], env) == Ok::<int, ErrKind>(first)
    &&& forall|j: int|
        0 <= j < ops.len() ==> op_of((#[trigger] e.children@[2 * j + 1]).rule) == Some(ops[j].0)
            && e.children@[2 * j + 2].rule == Rule::Primary && eval_primary(e.children@[2 * j + 2], env)
            == Ok::<int, ErrKind>(ops[j].1)
}

proof fn lemma_tail_folds(e: Node, env: Env, first: int, ops: Seq<(Op, int)>, m: int, acc: int)
    requires
        plain_expression(e, env, first, ops),
        0 <= m <= ops.len(),
    ensures
        eval_tail(e, 2 * m + 1, acc, env) == match fold_ops(acc, ops.skip(m)) {
            Some(v) => Ok::<int, ErrKind>(v),
            None => Err(ErrKind::ArithmeticError),
        },
    decreases ops.len() - m,
{
    if m < ops.len() {
        let t = e.children@[2 * m + 1];
        assert(op_of(t.rule) == Some(ops[m].0));
        assert(ops.skip(m)[0] == ops[m]);
        assert(ops.skip(m).drop_first() =~= ops.skip(m + 1));
        match op_result(ops[m].0, acc, ops[m].1) {
            Some(v) => {
                lemma_tail_folds(e, env, first, ops, m + 1, v);
            },
            None => {},
        }
    } else {
        assert(ops.skip(m).len() == 0);
    }
}

/// Operators apply strictly from left to right, with no precedence: the
/// value of `x0 op1 x1 ... opn xn` is `(((x0 op1 x1) op2 x2) ... opn xn)`.
pub proof fn law_left_to_right(e: Node, env: Env, first: int, ops: Seq<(Op, int)>)
    requires
        plain_expression(e, env, first, ops),
    ensures
        eval_expr(e, env) == match fold_ops(first, ops) {
            Some(v) => Ok::<int, ErrKind>(v),
            None => Err(ErrKind::ArithmeticError),
        },
{
    lemma_tail_folds(e, env, first, ops, 0, first);
    assert(ops.skip(0) =~= ops);
}

} // verus!
