//! Running whole programs: an optional start-up program, then the main
//! program, then the finalizer.
use crate::ast::{Node, Rule};
use crate::errors::{err_agrees, ErrKind, ErrView, ParsingError};
use crate::interp::{flat, interpret_blocks, rows_wf, run_blocks};
use crate::num::in_range;
use crate::row::{models, Row, RowModel};
use crate::state::{store_map, Entry, State, StateModel};
use crate::table::{all_cast, describes, sanitize_dataframe, Table};
use vstd::prelude::*;

verus! {

/// The axes a run declares when none are given.
pub open spec fn default_axes() -> Seq<Seq<char>> {
    seq![
        "N"@, "X"@, "Y"@, "Z"@, "A"@, "B"@, "C"@, "D"@, "E"@, "F"@, "S"@, "U"@, "V"@,
        "RA1"@, "RA2"@, "RA3"@, "RA4"@, "RA5"@, "RA6"@,
    ]
}

/// The axes a run declares when none are given.
pub fn default_axis_identifiers() -> (r: Vec<String>)
    ensures
        r@.map_values(|s: String| s@) == default_axes(),
{
    let r = vec![
        String::from_str("N"), String::from_str("X"), String::from_str("Y"),
        String::from_str("Z"), String::from_str("A"), String::from_str("B"),
        String::from_str("C"), String::from_str("D"), String::from_str("E"),
        String::from_str("F"), String::from_str("S"), String::from_str("U"),
        String::from_str("V"), String::from_str("RA1"), String::from_str("RA2"),
        String::from_str("RA3"), String::from_str("RA4"), String::from_str("RA5"),
        String::from_str("RA6"),
    ];
    assert(r@.map_values(|s: String| s@) =~= default_axes());
    r
}

/// The blocks of a parsed file: its first child.
pub open spec fn file_blocks(file: Node) -> Option<Node> {
    if file.children@.len() > 0 && file.children@[0].rule == Rule::Blocks {
        Some(file.children@[0])
    } else {
        None
    }
}

/// Running a parsed file from state `st` with no rows yet: the outcome, the
/// state and the rows. A file without blocks is a `ParseError`.
pub open spec fn run_file(file: Node, st: StateModel) -> (Result<(), ErrView>, StateModel, Seq<RowModel>) {
    match file_blocks(file) {
        Some(b) => run_blocks(b, 0, st, Seq::empty()),
        None => (Err(ErrView::Kind(ErrKind::ParseError)), st, Seq::empty()),
    }
}

/// Runs the blocks of a parsed file against the state and gives back its
/// rows (see `run_file`).
pub fn interpret_file(file: &Node, st: &mut State) -> (r: Result<Vec<Row>, ParsingError>)
    requires
        old(st).wf(),
    ensures
        final(st).wf(),
        final(st).axis_names() == old(st).axis_names(),
        final(st).iteration_limit == old(st).iteration_limit,
        final(st).auto_init_variables == old(st).auto_init_variables,
        final(st).model() == run_file(*file, old(st).model()).1,
        match r {
            Ok(rows) => run_file(*file, old(st).model()).0 is Ok && models(rows@) == run_file(
                *file,
                old(st).model(),
            ).2 && rows_wf(rows@),
            Err(e) => run_file(*file, old(st).model()).0 matches Err(v) && err_agrees(e, v),
        },
        r matches Ok(rows) ==> (file_blocks(*file) matches Some(b) && rows.len() >= b.children@.len() && (
        flat(b) ==> rows.len() == b.children@.len())),
{
    if file.children.len() == 0 || file.children[0].rule != Rule::Blocks {
        return Err(ParsingError::ParseError { message: String::from_str("No blocks found") });
    }
    let mut rows: Vec<Row> = Vec::new();
    assert(models(rows@) =~= Seq::<RowModel>::empty());
    match interpret_blocks(&file.children[0], &mut rows, st) {
        Ok(()) => Ok(rows),
        Err(e) => Err(e),
    }
}

/// The state a run starts from: the given axes, loop limit and reading
/// mode, and the variables set by `inits` in order.
pub open spec fn start_model(axes: Seq<Seq<char>>, limit: nat, auto: bool, inits: Seq<Entry>) -> StateModel {
    StateModel {
        syms: store_map(inits),
        axs: Map::empty(),
        trs: Map::empty(),
        names: axes,
        iteration_limit: limit,
        auto_init_variables: auto,
    }
}

/// The axes of a run: the given ones (the default axes where none are
/// given) followed by the extra ones.
pub open spec fn axes_of(ai: &Option<Vec<String>>, extra: &Option<Vec<String>>) -> Seq<Seq<char>> {
    (match ai {
        Some(a) => a@.map_values(|s: String| s@),
        None => default_axes(),
    }) + (match extra {
        Some(e) => e@.map_values(|s: String| s@),
        None => Seq::empty(),
    })
}

/// The start-up run, where there is one: its outcome and the state after it.
pub open spec fn startup_run(init: Option<Node>, st: StateModel) -> (Result<(), ErrView>, StateModel) {
    match init {
        Some(f) => (run_file(f, st).0, run_file(f, st).1),
        None => (Ok(()), st),
    }
}

/// Runs a program and gives back its table and the final state. The axes are
/// `axis_identifiers` (the default axes where `None`) followed by
/// `extra_axes`; the variables start from `variable_initializations`; the
/// start-up program, where there is one, runs first on the same state, and
/// its failure is the run's failure. The table is the finalizer's table of
/// the main program's rows; the state is the one after both runs.
pub fn nc_to_dataframe(
    input: &Node,
    initial_state: Option<&Node>,
    axis_identifiers: Option<Vec<String>>,
    extra_axes: Option<Vec<String>>,
    iteration_limit: usize,
    disable_forward_fill: bool,
    auto_init_variables: bool,
    variable_initializations: Vec<Entry>,
) -> (r: Result<(Table, State), ParsingError>)
    requires
        iteration_limit > 0,
        forall|i: int|
            0 <= i < variable_initializations.len() ==> in_range(
                (#[trigger] variable_initializations@[i]).value as int,
            ),
    ensures
        ({
            let axes = axes_of(&axis_identifiers, &extra_axes);
            let s0 = start_model(axes, iteration_limit as nat, auto_init_variables, variable_initializations@);
            let su = startup_run(match initial_state { Some(f) => Some(*f), None => None }, s0);
            let main = run_file(*input, su.1);
            &&& r matches Ok((t, st)) ==> {
                &&& su.0 is Ok
                &&& main.0 is Ok
                &&& st.wf()
                &&& st.model() == main.1
                &&& exists|rows: Seq<Row>| #[trigger] models(rows) == main.2 && all_cast(rows) && describes(t, rows, !disable_forward_fill)
                &&& (file_blocks(*input) matches Some(b) && t.row_count >= b.children@.len() && (flat(b)
                    ==> t.row_count == b.children@.len()))
            }
            &&& r matches Err(e) ==> match su.0 {
                Err(v) => err_agrees(e, v),
                Ok(_) => match main.0 {
                    Err(v) => err_agrees(e, v),
                    Ok(_) => exists|rows: Seq<Row>| #[trigger] models(rows) == main.2 && !all_cast(rows),
                },
            }
        }),
{
    let ghost axes_spec = axes_of(&axis_identifiers, &extra_axes);
    let mut axes = match axis_identifiers {
        Some(a) => a,
        None => default_axis_identifiers(),
    };
    let ghost base = axes@.map_values(|s: String| s@);
    match extra_axes {
        Some(e) => {
            let mut e = e;
            let ghost ev = e@.map_values(|s: String| s@);
            axes.append(&mut e);
            assert(axes@.map_values(|s: String| s@) =~= base + ev);
        },
        None => {
            assert(axes@.map_values(|s: String| s@) =~= base + Seq::<Seq<char>>::empty());
        },
    }
    let ghost inits = variable_initializations@;
    let mut st = State::new(axes, iteration_limit);
    st.auto_init_variables = auto_init_variables;
    st.init_variables(variable_initializations);
    proof {
        assert(Seq::<Entry>::empty() + inits =~= inits);
    }
    let ghost s0 = st.model();
    assert(st.axis_values() =~= Map::<Seq<char>, int>::empty());
    assert(st.translation_values() =~= Map::<Seq<char>, int>::empty());
    assert(s0 == start_model(axes_spec, iteration_limit as nat, auto_init_variables, inits));
    let ghost init_node: Option<Node> = match initial_state {
        Some(f) => Some(*f),
        None => None,
    };
    match initial_state {
        Some(init) => match interpret_file(init, &mut st) {
            Ok(_) => {},
            Err(e) => {
                return Err(e);
            },
        },
        None => {},
    }
    assert(st.model() == startup_run(init_node, s0).1);
    let ghost s1 = st.model();
    let rows = match interpret_file(input, &mut st) {
        Ok(rows) => rows,
        Err(e) => {
            return Err(e);
        },
    };
    match sanitize_dataframe(&rows, disable_forward_fill) {
        Ok(t) => {
            assert(models(rows@) == run_file(*input, s1).2);
            Ok((t, st))
        },
        Err(e) => {
            assert(models(rows@) == run_file(*input, s1).2);
            Err(e)
        },
    }
}

} // verus!
