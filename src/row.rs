//! Output rows: one per executed block, from column name to cell value.
use crate::errors::{ErrKind, ParsingError};
use crate::keyed::{keyed_find, keyed_map, keyed_set, lemma_keyed_absent, lemma_keyed_last, Keyed};
use vstd::prelude::*;

verus! {

/// The most M commands that one block may hold.
pub const MAX_M_COMMANDS: usize = 5;

/// A cell of a row or of the final table.
#[derive(Debug)]
pub enum Value {
    /// A fixed-point number (millionths).
    Num(i64),
    Int(i64),
    Str(String),
    StrList(Vec<String>),
}

/// What a cell holds, as plain values.
pub enum ValueView {
    Num(int),
    Int(int),
    Str(Seq<char>),
    StrList(Seq<Seq<char>>),
}

impl Value {
    pub open spec fn view(&self) -> ValueView {
        match self {
            Value::Num(x) => ValueView::Num(*x as int),
            Value::Int(x) => ValueView::Int(*x as int),
            Value::Str(s) => ValueView::Str(s@),
            Value::StrList(l) => ValueView::StrList(l@.map_values(|s: String| s@)),
        }
    }

    /// A copy of the value.
    pub fn duplicate(&self) -> (r: Value)
        ensures
            r@ == self@,
    {
        match self {
            Value::Num(x) => Value::Num(*x),
            Value::Int(x) => Value::Int(*x),
            Value::Str(s) => Value::Str(s.clone()),
            Value::StrList(l) => Value::StrList(copy_strings(l)),
        }
    }
}

/// A copy of a list of strings.
pub fn copy_strings(l: &Vec<String>) -> (r: Vec<String>)
    ensures
        r@.map_values(|s: String| s@) == l@.map_values(|s: String| s@),
{
    let mut r: Vec<String> = Vec::new();
    let mut i: usize = 0;
    while i < l.len()
        invariant
            i <= l.len(),
            r.len() == i,
            forall|j: int| 0 <= j < i ==> (#[trigger] r@[j])@ == l@[j]@,
        decreases l.len() - i,
    {
        r.push(l[i].clone());
        i += 1;
    }
    assert(r@.map_values(|s: String| s@) =~= l@.map_values(|s: String| s@));
    r
}

/// A column name and its value in a row.
pub type Cell = Keyed<Value>;

/// What a list of cells maps each column to: a later cell of a column
/// overrides an earlier one.
pub open spec fn cells_map(s: Seq<Cell>) -> Map<Seq<char>, Value> {
    keyed_map(s)
}

/// A row as plain values: its columns, and its M commands in order.
pub struct RowModel {
    pub cols: Map<Seq<char>, ValueView>,
    pub m: Seq<Seq<char>>,
}

/// A row with nothing in it.
pub open spec fn empty_row() -> RowModel {
    RowModel { cols: Map::empty(), m: Seq::empty() }
}

/// Rows as plain values.
pub open spec fn models(s: Seq<Row>) -> Seq<RowModel> {
    s.map_values(|r: Row| r.model())
}

/// One output row: its cells, and the M commands of its block in order.
#[derive(Debug)]
pub struct Row {
    pub cells: Vec<Cell>,
    pub m_codes: Vec<String>,
}

impl Row {
    /// The value of each column that the row sets.
    pub open spec fn columns(&self) -> Map<Seq<char>, Value> {
        cells_map(self.cells@)
    }

    /// What the row holds in each column, as plain values.
    pub open spec fn view_map(&self) -> Map<Seq<char>, ValueView> {
        self.columns().map_values(|v: Value| v@)
    }

    pub open spec fn model(&self) -> RowModel {
        RowModel { cols: self.view_map(), m: self.m_list() }
    }

    pub open spec fn m_list(&self) -> Seq<Seq<char>> {
        self.m_codes@.map_values(|s: String| s@)
    }

    /// A row never holds more M commands than a block may have.
    pub open spec fn wf(&self) -> bool {
        self.m_codes.len() <= MAX_M_COMMANDS
    }

    /// A row with no values.
    pub fn new() -> (r: Row)
        ensures
            r.columns() == Map::<Seq<char>, Value>::empty(),
            r.m_codes@ == Seq::<String>::empty(),
            r.wf(),
            r.model() == empty_row(),
    {
        let r = Row { cells: Vec::new(), m_codes: Vec::new() };
        assert(r.view_map() =~= Map::<Seq<char>, ValueView>::empty());
        assert(r.m_list() =~= Seq::<Seq<char>>::empty());
        r
    }

    /// Sets a column, replacing any earlier value of it.
    pub fn insert(&mut self, key: String, value: Value)
        ensures
            final(self).columns() == old(self).columns().insert(key@, value),
            final(self).view_map() == old(self).view_map().insert(key@, value@),
            final(self).m_codes == old(self).m_codes,
    {
        let ghost k = key@;
        let ghost v = value;
        keyed_set(&mut self.cells, key, value);
        assert(self.view_map() =~= old(self).view_map().insert(k, v@));
    }

    /// Whether the row sets a column.
    pub fn contains(&self, key: &String) -> (r: bool)
        ensures
            r == self.columns().contains_key(key@),
    {
        match keyed_find(&self.cells, key) {
            Some(i) => {
                proof {
                    lemma_keyed_last(self.cells@, i as int, key@);
                }
                true
            },
            None => {
                proof {
                    lemma_keyed_absent(self.cells@, key@);
                }
                false
            },
        }
    }

    /// The value of a column, where the row sets it.
    pub fn get(&self, key: &String) -> (r: Option<&Value>)
        ensures
            r matches Some(v) ==> self.columns().contains_key(key@) && self.columns()[key@] == *v,
            r is None ==> !self.columns().contains_key(key@),
    {
        match keyed_find(&self.cells, key) {
            Some(i) => {
                proof {
                    lemma_keyed_last(self.cells@, i as int, key@);
                }
                Some(&self.cells[i].value)
            },
            None => {
                proof {
                    lemma_keyed_absent(self.cells@, key@);
                }
                None
            },
        }
    }
}

/// Appends an M command to a row's `M` column, which holds at most
/// `MAX_M_COMMANDS`; one more fails with `TooManyMCommands`, naming the block.
pub fn insert_m_key(row: &mut Row, value: &str, preview: &str) -> (r: Result<(), ParsingError>)
    ensures
        final(row).columns() == old(row).columns(),
        old(row).wf() ==> final(row).wf(),
        old(row).m_codes.len() < MAX_M_COMMANDS ==> r is Ok && final(row).m_list() == old(
            row,
        ).m_list().push(value@),
        old(row).m_codes.len() >= MAX_M_COMMANDS ==> (r matches Err(e) && e.kind()
            == ErrKind::TooManyMCommands) && final(row).m_codes == old(row).m_codes,
{
    if row.m_codes.len() < MAX_M_COMMANDS {
        row.m_codes.push(String::from_str(value));
        assert(row.m_list() =~= old(row).m_list().push(value@));
        Ok(())
    } else {
        Err(ParsingError::TooManyMCommands { preview: String::from_str(preview) })
    }
}

} // verus!
