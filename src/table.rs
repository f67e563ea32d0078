//! The finalizer: turns the rows of a run into a typed table with ordered
//! columns and modal forward-fill.
use crate::assign::text_is;
use crate::ast::{group_column, group_is_modal, GGroup};
use crate::errors::{ErrKind, ParsingError};
use crate::num::{literal_value, parse_literal, SCALE};
use crate::keyed::lemma_keyed_domain;
use crate::row::{copy_strings, Cell, Row, Value, ValueView};
use vstd::prelude::*;

verus! {

/// The type of a column of the table.
#[derive(Clone, Copy, Debug, PartialEq, Eq, Structural)]
pub enum ColumnType {
    /// Whole numbers (block numbers).
    Int,
    /// Fixed-point numbers (axis positions).
    Float,
    Str,
    StrList,
}

/// The group whose commands go to column `k`, if any.
pub open spec fn group_of(k: Seq<char>) -> Option<GGroup> {
    if k == group_column(GGroup::Motion) {
        Some(GGroup::Motion)
    } else if k == group_column(GGroup::NonModalMotion) {
        Some(GGroup::NonModalMotion)
    } else if k == group_column(GGroup::WorkingArea) {
        Some(GGroup::WorkingArea)
    } else if k == group_column(GGroup::Plane) {
        Some(GGroup::Plane)
    } else if k == group_column(GGroup::RadiusCompensation) {
        Some(GGroup::RadiusCompensation)
    } else if k == group_column(GGroup::ZeroOffset) {
        Some(GGroup::ZeroOffset)
    } else if k == group_column(GGroup::FrameSuppression) {
        Some(GGroup::FrameSuppression)
    } else if k == group_column(GGroup::ExactStop) {
        Some(GGroup::ExactStop)
    } else if k == group_column(GGroup::ExactStopNonModal) {
        Some(GGroup::ExactStopNonModal)
    } else if k == group_column(GGroup::BlockChange) {
        Some(GGroup::BlockChange)
    } else if k == group_column(GGroup::Units) {
        Some(GGroup::Units)
    } else if k == group_column(GGroup::Dimensions) {
        Some(GGroup::Dimensions)
    } else if k == group_column(GGroup::FeedType) {
        Some(GGroup::FeedType)
    } else if k == group_column(GGroup::Acceleration) {
        Some(GGroup::Acceleration)
    } else {
        None
    }
}

/// The type of a column: `N` holds whole numbers; `T`, `function_call`,
/// `comment` and the G-group columns hold text; `M` holds lists of text;
/// every other column is an axis and holds numbers.
pub open spec fn column_kind(k: Seq<char>) -> ColumnType {
    if k == "N"@ {
        ColumnType::Int
    } else if k == "T"@ || k == "function_call"@ || k == "comment"@ {
        ColumnType::Str
    } else if k == "M"@ {
        ColumnType::StrList
    } else if group_of(k) is Some {
        ColumnType::Str
    } else {
        ColumnType::Float
    }
}

/// Whether forward-fill applies to a column: modal G groups and axes.
pub open spec fn fills(k: Seq<char>) -> bool {
    match group_of(k) {
        Some(g) => group_is_modal(g),
        None => column_kind(k) == ColumnType::Float,
    }
}

/// What a row holds in column `k`.
pub open spec fn raw_cell(row: Row, k: Seq<char>) -> Option<ValueView> {
    if k == "M"@ {
        if row.m_codes.len() > 0 {
            Some(ValueView::StrList(row.m_list()))
        } else {
            None
        }
    } else if row.columns().contains_key(k) {
        Some(row.columns()[k]@)
    } else {
        None
    }
}

/// A value cast to a column type; `None` where the cast fails.
pub open spec fn cast_cell(kind: ColumnType, v: ValueView) -> Option<ValueView> {
    match (kind, v) {
        (ColumnType::Int, ValueView::Int(x)) => Some(ValueView::Int(x)),
        (ColumnType::Int, ValueView::Str(s)) => match literal_value(s) {
            Some(x) => if x >= 0 && x % (SCALE as int) == 0 {
                Some(ValueView::Int(x / (SCALE as int)))
            } else {
                None
            },
            None => None,
        },
        (ColumnType::Float, ValueView::Num(x)) => Some(ValueView::Num(x)),
        (ColumnType::Str, ValueView::Str(s)) => Some(ValueView::Str(s)),
        (ColumnType::StrList, ValueView::StrList(l)) => Some(ValueView::StrList(l)),
        _ => None,
    }
}

/// Some row holds a value in column `k`.
pub open spec fn key_in_rows(rows: Seq<Row>, k: Seq<char>) -> bool {
    exists|i: int| 0 <= i < rows.len() && (#[trigger] raw_cell(rows[i], k)) is Some
}

/// Every value of column `k` casts to the column's type.
pub open spec fn casts_ok(rows: Seq<Row>, k: Seq<char>) -> bool {
    forall|i: int|
        0 <= i < rows.len() ==> (#[trigger] raw_cell(rows[i], k) matches Some(v) ==> cast_cell(
            column_kind(k),
            v,
        ) is Some)
}

/// The cells of column `k`, cast to its type.
pub open spec fn cast_column(rows: Seq<Row>, k: Seq<char>) -> Seq<Option<ValueView>> {
    Seq::new(
        rows.len(),
        |i: int|
            match raw_cell(rows[i], k) {
                Some(v) => cast_cell(column_kind(k), v),
                None => None,
            },
    )
}

/// The last value at or before position `i`.
pub open spec fn last_present(s: Seq<Option<ValueView>>, i: int) -> Option<ValueView>
    decreases i + 1,
{
    if i < 0 || i >= s.len() {
        None
    } else if s[i] is Some {
        s[i]
    } else {
        last_present(s, i - 1)
    }
}

/// Each empty cell takes the last value above it.
pub open spec fn forward_fill(s: Seq<Option<ValueView>>) -> Seq<Option<ValueView>> {
    Seq::new(s.len(), |i: int| last_present(s, i))
}

/// Forward-fill leaves every cell that holds a value as it is.
pub proof fn law_forward_fill_keeps_values(s: Seq<Option<ValueView>>, i: int)
    requires
        0 <= i < s.len(),
        s[i] is Some,
    ensures
        forward_fill(s)[i] == s[i],
{
}

/// The cells that the table holds in column `k`.
pub open spec fn expected_column(rows: Seq<Row>, k: Seq<char>, fill: bool) -> Seq<Option<ValueView>> {
    if fill && fills(k) {
        forward_fill(cast_column(rows, k))
    } else {
        cast_column(rows, k)
    }
}

/// The declared axes, in the order their columns take.
pub open spec fn axis_order() -> Seq<Seq<char>> {
    seq![
        "X"@, "Y"@, "Z"@, "A"@, "B"@, "C"@, "D"@, "E"@, "F"@, "S"@, "U"@, "V"@,
        "RA1"@, "RA2"@, "RA3"@, "RA4"@, "RA5"@, "RA6"@,
    ]
}

pub open spec fn index_in(s: Seq<Seq<char>>, k: Seq<char>, j: int) -> int
    decreases s.len() - j,
{
    if j < 0 || j >= s.len() {
        -1
    } else if s[j] == k {
        j
    } else {
        index_in(s, k, j + 1)
    }
}

pub open spec fn group_rank(g: GGroup) -> int {
    match g {
        GGroup::Motion => 0,
        GGroup::NonModalMotion => 1,
        GGroup::WorkingArea => 2,
        GGroup::Plane => 3,
        GGroup::RadiusCompensation => 4,
        GGroup::ZeroOffset => 5,
        GGroup::FrameSuppression => 6,
        GGroup::ExactStop => 7,
        GGroup::ExactStopNonModal => 8,
        GGroup::BlockChange => 9,
        GGroup::Units => 10,
        GGroup::Dimensions => 11,
        GGroup::FeedType => 12,
        GGroup::Acceleration => 13,
    }
}

/// The place of a column in the table: `N`, the declared axes in order, any
/// other axes, the G groups, then `T`, `M`, `function_call` and `comment`.
pub open spec fn rank(k: Seq<char>) -> int {
    if k == "N"@ {
        0
    } else if index_in(axis_order(), k, 0) >= 0 {
        1 + index_in(axis_order(), k, 0)
    } else if k == "T"@ {
        60
    } else if k == "M"@ {
        61
    } else if k == "function_call"@ {
        62
    } else if k == "comment"@ {
        63
    } else {
        match group_of(k) {
            Some(g) => 40 + group_rank(g),
            None => 30,
        }
    }
}

/// The group whose commands go to column `k`, if any.
pub fn column_group(k: &String) -> (r: Option<GGroup>)
    ensures
        r == group_of(k@),
{
    if text_is(k, GGroup::Motion.column()) {
        Some(GGroup::Motion)
    } else if text_is(k, GGroup::NonModalMotion.column()) {
        Some(GGroup::NonModalMotion)
    } else if text_is(k, GGroup::WorkingArea.column()) {
        Some(GGroup::WorkingArea)
    } else if text_is(k, GGroup::Plane.column()) {
        Some(GGroup::Plane)
    } else if text_is(k, GGroup::RadiusCompensation.column()) {
        Some(GGroup::RadiusCompensation)
    } else if text_is(k, GGroup::ZeroOffset.column()) {
        Some(GGroup::ZeroOffset)
    } else if text_is(k, GGroup::FrameSuppression.column()) {
        Some(GGroup::FrameSuppression)
    } else if text_is(k, GGroup::ExactStop.column()) {
        Some(GGroup::ExactStop)
    } else if text_is(k, GGroup::ExactStopNonModal.column()) {
        Some(GGroup::ExactStopNonModal)
    } else if text_is(k, GGroup::BlockChange.column()) {
        Some(GGroup::BlockChange)
    } else if text_is(k, GGroup::Units.column()) {
        Some(GGroup::Units)
    } else if text_is(k, GGroup::Dimensions.column()) {
        Some(GGroup::Dimensions)
    } else if text_is(k, GGroup::FeedType.column()) {
        Some(GGroup::FeedType)
    } else if text_is(k, GGroup::Acceleration.column()) {
        Some(GGroup::Acceleration)
    } else {
        None
    }
}

/// The type of column `k`.
pub fn column_type(k: &String) -> (r: ColumnType)
    ensures
        r == column_kind(k@),
{
    if text_is(k, "N") {
        ColumnType::Int
    } else if text_is(k, "T") || text_is(k, "function_call") || text_is(k, "comment") {
        ColumnType::Str
    } else if text_is(k, "M") {
        ColumnType::StrList
    } else if column_group(k).is_some() {
        ColumnType::Str
    } else {
        ColumnType::Float
    }
}

/// Whether forward-fill applies to column `k`.
pub fn column_fills(k: &String) -> (r: bool)
    ensures
        r == fills(k@),
{
    match column_group(k) {
        Some(g) => g.is_modal(),
        None => column_type(k) == ColumnType::Float,
    }
}

fn axis_order_names() -> (r: Vec<String>)
    ensures
        r@.map_values(|s: String| s@) == axis_order(),
{
    let r = vec![
        String::from_str("X"), String::from_str("Y"), String::from_str("Z"),
        String::from_str("A"), String::from_str("B"), String::from_str("C"),
        String::from_str("D"), String::from_str("E"), String::from_str("F"),
        String::from_str("S"), String::from_str("U"), String::from_str("V"),
        String::from_str("RA1"), String::from_str("RA2"), String::from_str("RA3"),
        String::from_str("RA4"), String::from_str("RA5"), String::from_str("RA6"),
    ];
    assert(r@.map_values(|s: String| s@) =~= axis_order());
    r
}

proof fn lemma_index_in(s: Seq<Seq<char>>, k: Seq<char>, j: int)
    requires
        0 <= j,
    ensures
        -1 <= index_in(s, k, j) < s.len(),
    decreases s.len() - j,
{
    if j < s.len() && s[j] != k {
        lemma_index_in(s, k, j + 1);
    }
}

fn group_rank_of(g: GGroup) -> (r: u64)
    ensures
        r == group_rank(g),
{
    match g {
        GGroup::Motion => 0,
        GGroup::NonModalMotion => 1,
        GGroup::WorkingArea => 2,
        GGroup::Plane => 3,
        GGroup::RadiusCompensation => 4,
        GGroup::ZeroOffset => 5,
        GGroup::FrameSuppression => 6,
        GGroup::ExactStop => 7,
        GGroup::ExactStopNonModal => 8,
        GGroup::BlockChange => 9,
        GGroup::Units => 10,
        GGroup::Dimensions => 11,
        GGroup::FeedType => 12,
        GGroup::Acceleration => 13,
    }
}

/// The place of column `k` in the table (see `rank`).
pub fn column_rank(k: &String) -> (r: u64)
    ensures
        r == rank(k@),
        r <= 63,
{
    if text_is(k, "N") {
        return 0;
    }
    let order = axis_order_names();
    let ghost ao = axis_order();
    let mut j: usize = 0;
    while j < order.len()
        invariant
            j <= order.len(),
            order@.map_values(|s: String| s@) == ao,
            ao == axis_order(),
            k@ != "N"@,
            index_in(ao, k@, 0) == index_in(ao, k@, j as int),
        decreases order.len() - j,
    {
        assert(ao[j as int] == order@[j as int]@);
        if order[j] == *k {
            return 1 + j as u64;
        }
        j += 1;
    }
    proof {
        lemma_index_in(ao, k@, 0);
    }
    if text_is(k, "T") {
        60
    } else if text_is(k, "M") {
        61
    } else if text_is(k, "function_call") {
        62
    } else if text_is(k, "comment") {
        63
    } else {
        match column_group(k) {
            Some(g) => 40 + group_rank_of(g),
            None => 30,
        }
    }
}

/// What a row holds in column `k`, copied.
pub fn row_cell(row: &Row, k: &String) -> (r: Option<Value>)
    ensures
        match r {
            Some(v) => raw_cell(*row, k@) == Some(v@),
            None => raw_cell(*row, k@) is None,
        },
{
    if text_is(k, "M") {
        if row.m_codes.len() > 0 {
            Some(Value::StrList(copy_strings(&row.m_codes)))
        } else {
            None
        }
    } else {
        match row.get(k) {
            Some(v) => Some(v.duplicate()),
            None => None,
        }
    }
}

/// A value cast to a column type (see `cast_cell`).
pub fn cast_value(kind: ColumnType, v: Value) -> (r: Option<Value>)
    ensures
        match r {
            Some(x) => cast_cell(kind, v@) == Some(x@),
            None => cast_cell(kind, v@) is None,
        },
{
    match (kind, v) {
        (ColumnType::Int, Value::Int(x)) => Some(Value::Int(x)),
        (ColumnType::Int, Value::Str(s)) => match parse_literal(s.as_str()) {
            Some(x) => if x >= 0 && x % SCALE == 0 {
                Some(Value::Int(x / SCALE))
            } else {
                None
            },
            None => None,
        },
        (ColumnType::Float, Value::Num(x)) => Some(Value::Num(x)),
        (ColumnType::Str, Value::Str(s)) => Some(Value::Str(s)),
        (ColumnType::StrList, Value::StrList(l)) => Some(Value::StrList(l)),
        _ => None,
    }
}

/// The views of a list of names hold no name twice.
pub open spec fn distinct_names(s: Seq<String>) -> bool {
    forall|a: int, b: int| 0 <= a < b < s.len() ==> (#[trigger] s[a])@ != (#[trigger] s[b])@
}

/// Some entry of the list is the name.
pub open spec fn contains_name(s: Seq<String>, k: Seq<char>) -> bool {
    exists|j: int| 0 <= j < s.len() && (#[trigger] s[j])@ == k
}

/// Where a name stands in a list, if it does.
fn position(names: &Vec<String>, k: &String) -> (r: Option<usize>)
    ensures
        r matches Some(j) ==> j < names.len() && names@[j as int]@ == k@,
        r is None ==> forall|j: int| 0 <= j < names.len() ==> (#[trigger] names@[j])@ != k@,
{
    let mut j: usize = 0;
    while j < names.len()
        invariant
            j <= names.len(),
            forall|i: int| 0 <= i < j ==> (#[trigger] names@[i])@ != k@,
        decreases names.len() - j,
    {
        if names[j] == *k {
            return Some(j);
        }
        j += 1;
    }
    None
}

/// The first cell from `q` on that names column `k` (`cells.len()` where none does).
pub open spec fn cell_index(cells: Seq<Cell>, k: Seq<char>, q: int) -> int
    decreases cells.len() - q,
{
    if q < 0 || q >= cells.len() {
        cells.len() as int
    } else if cells[q].key@ == k {
        q
    } else {
        cell_index(cells, k, q + 1)
    }
}

/// The first row from `i` on with a cell of column `k` (`rows.len()` where none has one).
pub open spec fn first_row(rows: Seq<Row>, k: Seq<char>, i: int) -> int
    decreases rows.len() - i,
{
    if i < 0 || i >= rows.len() {
        rows.len() as int
    } else if cell_index(rows[i].cells@, k, 0) < rows[i].cells@.len() {
        i
    } else {
        first_row(rows, k, i + 1)
    }
}

/// Column `a` first appears in the rows before column `b` does: in an
/// earlier row, or earlier in the same row.
pub open spec fn appears_before(rows: Seq<Row>, a: Seq<char>, b: Seq<char>) -> bool {
    let ra = first_row(rows, a, 0);
    let rb = first_row(rows, b, 0);
    ra < rb || (ra == rb && ra < rows.len() && cell_index(rows[ra].cells@, a, 0) < cell_index(
        rows[rb].cells@,
        b,
        0,
    ))
}

/// The names other than `M` stand in the order their columns first appear.
pub open spec fn encounter_ordered(rows: Seq<Row>, names: Seq<String>) -> bool {
    forall|x: int, y: int|
        0 <= x < y < names.len() && (#[trigger] names[x])@ != "M"@ && (#[trigger] names[y])@ != "M"@
            ==> appears_before(rows, names[x]@, names[y]@)
}

/// Name `u` stands before name `v` in the list.
pub open spec fn comes_before(names: Seq<String>, u: Seq<char>, v: Seq<char>) -> bool {
    exists|x: int, y: int| 0 <= x < y < names.len() && (#[trigger] names[x])@ == u && (#[trigger] names[y])@ == v
}

proof fn lemma_cell_index(cells: Seq<Cell>, k: Seq<char>, q0: int, q: int)
    requires
        0 <= q0 <= q <= cells.len(),
        q < cells.len() ==> cells[q].key@ == k,
        forall|q2: int| q0 <= q2 < q ==> (#[trigger] cells[q2]).key@ != k,
    ensures
        cell_index(cells, k, q0) == q,
    decreases q - q0,
{
    if q0 < q {
        lemma_cell_index(cells, k, q0 + 1, q);
    }
}

proof fn lemma_cell_index_bound(cells: Seq<Cell>, k: Seq<char>, q0: int)
    requires
        0 <= q0,
    ensures
        q0 <= cell_index(cells, k, q0) || cell_index(cells, k, q0) == cells.len(),
        cell_index(cells, k, q0) <= cells.len(),
        cell_index(cells, k, q0) < cells.len() ==> cells[cell_index(cells, k, q0)].key@ == k,
    decreases cells.len() - q0,
{
    if q0 < cells.len() && cells[q0].key@ != k {
        lemma_cell_index_bound(cells, k, q0 + 1);
    }
}

proof fn lemma_first_row(rows: Seq<Row>, k: Seq<char>, i0: int, i: int)
    requires
        0 <= i0 <= i < rows.len(),
        cell_index(rows[i].cells@, k, 0) < rows[i].cells@.len(),
        forall|r: int| i0 <= r < i ==> cell_index((#[trigger] rows[r]).cells@, k, 0) >= rows[r].cells@.len(),
    ensures
        first_row(rows, k, i0) == i,
    decreases i - i0,
{
    if i0 < i {
        lemma_first_row(rows, k, i0 + 1, i);
    }
}

proof fn lemma_first_row_bound(rows: Seq<Row>, k: Seq<char>, i0: int)
    requires
        0 <= i0,
    ensures
        first_row(rows, k, i0) <= rows.len(),
        first_row(rows, k, i0) < rows.len() ==> first_row(rows, k, i0) >= i0,
    decreases rows.len() - i0,
{
    if i0 < rows.len() && cell_index(rows[i0].cells@, k, 0) >= rows[i0].cells@.len() {
        lemma_first_row_bound(rows, k, i0 + 1);
    }
}

/// Every column that some row holds a value in, each once, in the order
/// they first appear (`M` last).
pub fn collect_columns(rows: &Vec<Row>) -> (r: Vec<String>)
    ensures
        distinct_names(r@),
        forall|j: int| 0 <= j < r.len() ==> key_in_rows(rows@, (#[trigger] r@[j])@),
        forall|k: Seq<char>| key_in_rows(rows@, k) ==> contains_name(r@, k),
        encounter_ordered(rows@, r@),
{
    let mut names: Vec<String> = Vec::new();
    let mut has_m = false;
    let mut i: usize = 0;
    while i < rows.len()
        invariant
            i <= rows.len(),
            distinct_names(names@),
            forall|j: int| 0 <= j < names.len() ==> (#[trigger] names@[j])@ != "M"@,
            forall|j: int| 0 <= j < names.len() ==> key_in_rows(rows@, (#[trigger] names@[j])@),
            forall|i2: int, q: int|
                0 <= i2 < i && 0 <= q < rows@[i2].cells.len() && (#[trigger] rows@[i2].cells@[q]).key@
                    != "M"@ ==> exists|j: int| 0 <= j < names.len() && (#[trigger] names@[j])@ == rows@[i2].cells@[q].key@,
            has_m <==> exists|i2: int| 0 <= i2 < i && (#[trigger] rows@[i2]).m_codes.len() > 0,
            forall|j: int| 0 <= j < names.len() ==> first_row(rows@, (#[trigger] names@[j])@, 0) < i,
            encounter_ordered(rows@, names@),
        decreases rows.len() - i,
    {
        let row = &rows[i];
        let mut q: usize = 0;
        while q < row.cells.len()
            invariant
                i < rows.len(),
                row == &rows@[i as int],
                q <= row.cells.len(),
                distinct_names(names@),
                forall|j: int| 0 <= j < names.len() ==> (#[trigger] names@[j])@ != "M"@,
                forall|j: int| 0 <= j < names.len() ==> key_in_rows(rows@, (#[trigger] names@[j])@),
                forall|i2: int, q2: int|
                    0 <= i2 < i && 0 <= q2 < rows@[i2].cells.len() && (#[trigger] rows@[i2].cells@[q2]).key@
                        != "M"@ ==> exists|j: int| 0 <= j < names.len() && (#[trigger] names@[j])@ == rows@[i2].cells@[q2].key@,
                forall|q2: int|
                    0 <= q2 < q && (#[trigger] row.cells@[q2]).key@ != "M"@ ==> exists|j: int| 0 <= j < names.len() && (#[trigger] names@[j])@ == row.cells@[q2].key@,
                forall|j: int| 0 <= j < names.len() ==> first_row(rows@, (#[trigger] names@[j])@, 0) < i || (
                first_row(rows@, names@[j]@, 0) == i && cell_index(rows@[i as int].cells@, names@[j]@, 0) < q),
                encounter_ordered(rows@, names@),
            decreases row.cells.len() - q,
        {
            let key = &row.cells[q].key;
            if !text_is(key, "M") {
                match position(&names, key) {
                    Some(_) => {},
                    None => {
                        proof {
                            lemma_keyed_domain(row.cells@, key@);
                            assert(raw_cell(rows@[i as int], key@) is Some);
                        }
                        proof {
                            assert forall|q2: int| 0 <= q2 < q implies (#[trigger] row.cells@[q2]).key@ != key@ by {
                                if row.cells@[q2].key@ != "M"@ {
                                    let j = choose|j: int| 0 <= j < names.len() && (#[trigger] names@[j])@ == row.cells@[q2].key@;
                                }
                            }
                            lemma_cell_index(row.cells@, key@, 0, q as int);
                            assert forall|r: int| 0 <= r < i implies cell_index((#[trigger] rows@[r]).cells@, key@, 0) >= rows@[r].cells@.len() by {
                                assert forall|q2: int| 0 <= q2 < rows@[r].cells@.len() implies (#[trigger] rows@[r].cells@[q2]).key@ != key@ by {
                                    if rows@[r].cells@[q2].key@ != "M"@ {
                                        let j = choose|j: int| 0 <= j < names.len() && (#[trigger] names@[j])@ == rows@[r].cells@[q2].key@;
                                    }
                                }
                                lemma_cell_index(rows@[r].cells@, key@, 0, rows@[r].cells@.len() as int);
                            }
                            lemma_first_row(rows@, key@, 0, i as int);
                        }
                        let ghost before = names@;
                        names.push(key.clone());
                        proof {
                            assert(names@[before.len() as int]@ == key@);
                            assert forall|j: int| 0 <= j < names.len() implies first_row(rows@, (#[trigger] names@[j])@, 0) < i || (
                            first_row(rows@, names@[j]@, 0) == i && cell_index(rows@[i as int].cells@, names@[j]@, 0) < q + 1) by {
                                if j < before.len() {
                                    assert(names@[j] == before[j]);
                                }
                            }
                            assert forall|x: int, y: int|
                                0 <= x < y < names.len() && (#[trigger] names@[x])@ != "M"@ && (#[trigger] names@[y])@ != "M"@
                                    implies appears_before(rows@, names@[x]@, names@[y]@) by {
                                assert(names@[x] == before[x]);
                                if y < before.len() {
                                    assert(names@[y] == before[y]);
                                }
                            }
                            assert forall|i2: int, q2: int|
                                0 <= i2 < i && 0 <= q2 < rows@[i2].cells.len() && (#[trigger] rows@[i2].cells@[q2]).key@
                                    != "M"@ implies exists|j: int| 0 <= j < names.len() && (#[trigger] names@[j])@ == rows@[i2].cells@[q2].key@ by {
                                let j = choose|j: int| 0 <= j < before.len() && (#[trigger] before[j])@ == rows@[i2].cells@[q2].key@;
                                assert(names@[j] == before[j]);
                            }
                            assert forall|q2: int|
                                0 <= q2 < q && (#[trigger] row.cells@[q2]).key@ != "M"@ implies exists|j: int| 0 <= j < names.len() && (#[trigger] names@[j])@ == row.cells@[q2].key@ by {
                                let j = choose|j: int| 0 <= j < before.len() && (#[trigger] before[j])@ == row.cells@[q2].key@;
                                assert(names@[j] == before[j]);
                            }
                        }
                    },
                }
            }
            q += 1;
        }
        if row.m_codes.len() > 0 {
            has_m = true;
        }
        i += 1;
    }
    let ghost pre = names@;
    if has_m {
        let ghost before = names@;
        let ghost w = choose|i2: int| 0 <= i2 < rows.len() && (#[trigger] rows@[i2]).m_codes.len() > 0;
        proof {
            reveal_strlit("M");
            assert(raw_cell(rows@[w], "M"@) is Some);
        }
        names.push(String::from_str("M"));
        proof {
            assert forall|j: int| 0 <= j < names.len() implies key_in_rows(rows@, (#[trigger] names@[j])@) by {
                if j < before.len() {
                    assert(names@[j] == before[j]);
                }
            }
        }
    }
    proof {
        assert forall|k: Seq<char>| key_in_rows(rows@, k) implies contains_name(names@, k) by {
            let i2 = choose|i2: int| 0 <= i2 < rows.len() && (#[trigger] raw_cell(rows@[i2], k)) is Some;
            if k == "M"@ {
                assert(rows@[i2].m_codes.len() > 0);
                assert(names@[names.len() - 1]@ == k);
            } else {
                lemma_keyed_domain(rows@[i2].cells@, k);
                let q2 = choose|q2: int| 0 <= q2 < rows@[i2].cells@.len() && (#[trigger] rows@[i2].cells@[q2]).key@ == k;
                assert(rows@[i2].cells@[q2].key@ != "M"@);
                let j = choose|j: int| 0 <= j < pre.len() && (#[trigger] pre[j])@ == rows@[i2].cells@[q2].key@;
                assert(names@[j] == pre[j]);
            }
        }
    }
    names
}

/// The names in order of `rank`, names of one rank in their given order.
pub fn order_columns(names: &Vec<String>) -> (r: Vec<String>)
    requires
        distinct_names(names@),
    ensures
        distinct_names(r@),
        forall|a: int| 0 <= a < r.len() ==> #[trigger] contains_name(names@, r@[a]@),
        forall|j: int| 0 <= j < names.len() ==> #[trigger] contains_name(r@, names@[j]@),
        forall|a: int, b: int| 0 <= a < b < r.len() ==> rank((#[trigger] r@[a])@) <= rank((#[trigger] r@[b])@),
        forall|a: int, b: int|
            0 <= a < b < r.len() && rank((#[trigger] r@[a])@) == rank((#[trigger] r@[b])@) ==> comes_before(
                names@,
                r@[a]@,
                r@[b]@,
            ),
{
    let mut out: Vec<String> = Vec::new();
    let ghost mut src: Seq<int> = Seq::empty();
    let mut rk: u64 = 0;
    while rk < 64
        invariant
            rk <= 64,
            distinct_names(names@),
            src.len() == out.len(),
            forall|a: int| 0 <= a < out.len() ==> 0 <= #[trigger] src[a] < names.len() && names@[src[a]]@ == out@[a]@,
            forall|a: int, b: int| 0 <= a < b < out.len() ==> (#[trigger] src[a]) != (#[trigger] src[b]),
            forall|a: int| 0 <= a < out.len() ==> rank((#[trigger] out@[a])@) < rk,
            forall|a: int, b: int| 0 <= a < b < out.len() ==> rank((#[trigger] out@[a])@) <= rank((#[trigger] out@[b])@),
            forall|j: int| 0 <= j < names.len() && rank((#[trigger] names@[j])@) < rk ==> exists|a: int| 0 <= a < out.len() && src[a] == j,
            forall|a: int, b: int| 0 <= a < b < out.len() && rank((#[trigger] out@[a])@) == rank((#[trigger] out@[b])@) ==> src[a] < src[b],
        decreases 64 - rk,
    {
        let mut j: usize = 0;
        while j < names.len()
            invariant
                rk < 64,
                j <= names.len(),
                distinct_names(names@),
                src.len() == out.len(),
                forall|a: int| 0 <= a < out.len() ==> 0 <= #[trigger] src[a] < names.len() && names@[src[a]]@ == out@[a]@,
                forall|a: int, b: int| 0 <= a < b < out.len() ==> (#[trigger] src[a]) != (#[trigger] src[b]),
                forall|a: int| 0 <= a < out.len() ==> rank((#[trigger] out@[a])@) <= rk,
                forall|a: int| 0 <= a < out.len() && rank((#[trigger] out@[a])@) == rk ==> src[a] < j,
                forall|a: int, b: int| 0 <= a < b < out.len() ==> rank((#[trigger] out@[a])@) <= rank((#[trigger] out@[b])@),
                forall|j2: int| 0 <= j2 < names.len() && rank((#[trigger] names@[j2])@) < rk ==> exists|a: int| 0 <= a < out.len() && src[a] == j2,
                forall|j2: int| 0 <= j2 < j && rank((#[trigger] names@[j2])@) == rk ==> exists|a: int| 0 <= a < out.len() && src[a] == j2,
                forall|a: int, b: int| 0 <= a < b < out.len() && rank((#[trigger] out@[a])@) == rank((#[trigger] out@[b])@) ==> src[a] < src[b],
            decreases names.len() - j,
        {
            if column_rank(&names[j]) == rk {
                let ghost before = out@;
                let ghost sb = src;
                out.push(names[j].clone());
                proof {
                    src = src.push(j as int);
                    assert(out@[before.len() as int]@ == names@[j as int]@);
                    assert forall|a: int| 0 <= a < out.len() implies 0 <= #[trigger] src[a] < names.len() && names@[src[a]]@ == out@[a]@ by {
                        if a < before.len() {
                            assert(out@[a] == before[a]);
                            assert(src[a] == sb[a]);
                        }
                    }
                    assert forall|a: int| 0 <= a < out.len() implies rank((#[trigger] out@[a])@) <= rk by {
                        if a < before.len() {
                            assert(out@[a] == before[a]);
                        }
                    }
                    assert forall|a: int, b: int| 0 <= a < b < out.len() implies (#[trigger] src[a]) != (#[trigger] src[b]) by {
                        if b == before.len() {
                            assert(src[a] == sb[a]);
                            assert(out@[a] == before[a]);
                            if rank(before[a]@) == rk {
                                assert(sb[a] < j);
                            } else {
                                assert(rank(names@[sb[a]]@) != rank(names@[j as int]@));
                            }
                        } else {
                            assert(src[a] == sb[a]);
                            assert(src[b] == sb[b]);
                        }
                    }
                    assert forall|a: int| 0 <= a < out.len() && rank((#[trigger] out@[a])@) == rk implies src[a] < j + 1 by {
                        if a < before.len() {
                            assert(out@[a] == before[a]);
                            assert(src[a] == sb[a]);
                        }
                    }
                    assert forall|a: int, b: int| 0 <= a < b < out.len() && rank((#[trigger] out@[a])@) == rank((#[trigger] out@[b])@) implies src[a] < src[b] by {
                        assert(out@[a] == before[a]);
                        assert(src[a] == sb[a]);
                        if b < before.len() {
                            assert(out@[b] == before[b]);
                            assert(src[b] == sb[b]);
                        } else {
                            assert(src[b] == j);
                        }
                    }
                    assert forall|a: int, b: int| 0 <= a < b < out.len() implies rank((#[trigger] out@[a])@) <= rank((#[trigger] out@[b])@) by {
                        assert(out@[a] == before[a]);
                        if b < before.len() {
                            assert(out@[b] == before[b]);
                        }
                    }
                    assert forall|j2: int| 0 <= j2 < names.len() && rank((#[trigger] names@[j2])@) < rk implies exists|a: int| 0 <= a < out.len() && src[a] == j2 by {
                        let a = choose|a: int| 0 <= a < before.len() && sb[a] == j2;
                        assert(src[a] == sb[a]);
                    }
                    assert forall|j2: int| 0 <= j2 < j + 1 && rank((#[trigger] names@[j2])@) == rk implies exists|a: int| 0 <= a < out.len() && src[a] == j2 by {
                        if j2 < j {
                            let a = choose|a: int| 0 <= a < before.len() && sb[a] == j2;
                            assert(src[a] == sb[a]);
                        } else {
                            assert(src[before.len() as int] == j2);
                        }
                    }
                }
            }
            j += 1;
        }
        rk += 1;
    }
    proof {
        assert forall|a: int, b: int| 0 <= a < b < out.len() implies (#[trigger] out@[a])@ != (#[trigger] out@[b])@ by {
            assert(src[a] != src[b]);
            if src[a] < src[b] {
                assert(names@[src[a]]@ != names@[src[b]]@);
            } else {
                assert(names@[src[b]]@ != names@[src[a]]@);
            }
        }
        assert forall|a: int, b: int|
            0 <= a < b < out.len() && rank((#[trigger] out@[a])@) == rank((#[trigger] out@[b])@) implies comes_before(
                names@,
                out@[a]@,
                out@[b]@,
            ) by {
            assert(names@[src[a]]@ == out@[a]@ && names@[src[b]]@ == out@[b]@);
        }
        assert forall|a: int| 0 <= a < out.len() implies #[trigger] contains_name(names@, out@[a]@) by {
            assert(names@[src[a]]@ == out@[a]@);
        }
        assert forall|j: int| 0 <= j < names.len() implies #[trigger] contains_name(out@, names@[j]@) by {
            let k = names@[j];
            assert(rank(k@) < 64) by {
                lemma_rank_bound(k@);
            }
            let a = choose|a: int| 0 <= a < out.len() && src[a] == j;
            assert(names@[j]@ == out@[a]@);
        }
    }
    out
}

proof fn lemma_rank_bound(k: Seq<char>)
    ensures
        0 <= rank(k) <= 63,
{
    lemma_index_in(axis_order(), k, 0);
}

pub open spec fn opt_view(o: Option<Value>) -> Option<ValueView> {
    match o {
        Some(v) => Some(v@),
        None => None,
    }
}

/// What a list of cells holds, as plain values.
pub open spec fn cells_view(s: Seq<Option<Value>>) -> Seq<Option<ValueView>> {
    s.map_values(|o: Option<Value>| opt_view(o))
}

fn duplicate_opt(o: &Option<Value>) -> (r: Option<Value>)
    ensures
        opt_view(r) == opt_view(*o),
{
    match o {
        Some(v) => Some(v.duplicate()),
        None => None,
    }
}

/// Fills each empty cell with the last value above it.
pub fn fill_forward(cells: &Vec<Option<Value>>) -> (r: Vec<Option<Value>>)
    ensures
        cells_view(r@) == forward_fill(cells_view(cells@)),
{
    let ghost cv = cells_view(cells@);
    let mut out: Vec<Option<Value>> = Vec::new();
    let mut last: Option<Value> = None;
    let mut i: usize = 0;
    while i < cells.len()
        invariant
            i <= cells.len(),
            cv == cells_view(cells@),
            out.len() == i,
            forall|j: int| 0 <= j < i ==> opt_view(#[trigger] out@[j]) == last_present(cv, j),
            opt_view(last) == last_present(cv, i - 1),
        decreases cells.len() - i,
    {
        assert(cv[i as int] == opt_view(cells@[i as int]));
        if cells[i].is_some() {
            last = duplicate_opt(&cells[i]);
        }
        out.push(duplicate_opt(&last));
        i += 1;
    }
    assert(cells_view(out@) =~= forward_fill(cv));
    out
}

/// One column of the table.
#[derive(Debug)]
pub struct Column {
    pub name: String,
    pub kind: ColumnType,
    pub cells: Vec<Option<Value>>,
}

/// Builds column `k` from the rows: each value cast to the column's type,
/// then filled forward where `fill` holds and the column is modal or an axis.
/// Fails where a value does not cast.
pub fn build_column(rows: &Vec<Row>, k: &String, fill: bool) -> (r: Result<Column, ParsingError>)
    ensures
        r is Ok <==> casts_ok(rows@, k@),
        r matches Ok(c) ==> c.name@ == k@ && c.kind == column_kind(k@) && cells_view(c.cells@)
            == expected_column(rows@, k@, fill),
        r matches Err(e) ==> e.kind() == ErrKind::ParseError,
{
    let kind = column_type(k);
    let mut cells: Vec<Option<Value>> = Vec::new();
    let mut i: usize = 0;
    while i < rows.len()
        invariant
            i <= rows.len(),
            kind == column_kind(k@),
            cells.len() == i,
            forall|j: int| 0 <= j < i ==> opt_view(#[trigger] cells@[j]) == cast_column(rows@, k@)[j],
            forall|j: int|
                0 <= j < i ==> (#[trigger] raw_cell(rows@[j], k@) matches Some(v) ==> cast_cell(
                    column_kind(k@),
                    v,
                ) is Some),
        decreases rows.len() - i,
    {
        match row_cell(&rows[i], k) {
            None => {
                cells.push(None);
            },
            Some(v) => match cast_value(kind, v) {
                Some(x) => {
                    cells.push(Some(x));
                },
                None => {
                    return Err(ParsingError::ParseError { message: k.clone() });
                },
            },
        }
        i += 1;
    }
    assert(cells_view(cells@) =~= cast_column(rows@, k@));
    if fill && column_fills(k) {
        let filled = fill_forward(&cells);
        Ok(Column { name: k.clone(), kind, cells: filled })
    } else {
        Ok(Column { name: k.clone(), kind, cells })
    }
}

/// The typed table that a run gives.
#[derive(Debug)]
pub struct Table {
    pub columns: Vec<Column>,
    pub row_count: usize,
}

/// Every value of every column casts to the column's type.
pub open spec fn all_cast(rows: Seq<Row>) -> bool {
    forall|k: Seq<char>| key_in_rows(rows, k) ==> #[trigger] casts_ok(rows, k)
}

/// A table holds the rows: one column for each column that some row holds a
/// value in, in `rank` order, each of the column's type and with the cells
/// `expected_column` gives.
pub open spec fn describes(t: Table, rows: Seq<Row>, fill: bool) -> bool {
    &&& t.row_count == rows.len()
    &&& forall|j: int| 0 <= j < t.columns.len() ==> key_in_rows(rows, (#[trigger] t.columns@[j]).name@)
    &&& forall|k: Seq<char>| key_in_rows(rows, k) ==> exists|j: int| 0 <= j < t.columns.len() && (#[trigger] t.columns@[j]).name@ == k
    &&& forall|a: int, b: int| 0 <= a < b < t.columns.len() ==> (#[trigger] t.columns@[a]).name@ != (#[trigger] t.columns@[b]).name@
        && rank(t.columns@[a].name@) <= rank(t.columns@[b].name@)
    &&& forall|a: int, b: int|
        0 <= a < b < t.columns.len() && rank((#[trigger] t.columns@[a]).name@) == rank((#[trigger] t.columns@[b]).name@)
            && t.columns@[a].name@ != "M"@ && t.columns@[b].name@ != "M"@ ==> appears_before(
            rows,
            t.columns@[a].name@,
            t.columns@[b].name@,
        )
    &&& forall|j: int| 0 <= j < t.columns.len() ==> {
        let c = #[trigger] t.columns@[j];
        &&& c.kind == column_kind(c.name@)
        &&& cells_view(c.cells@) == expected_column(rows, c.name@, fill)
    }
}

/// Turns the rows of a run into the table: one column for each column that
/// some row holds a value in, each value cast to its column's type, columns
/// in `rank` order, modal and axis columns filled forward unless
/// `disable_forward_fill`. Fails where a value does not cast.
pub fn sanitize_dataframe(rows: &Vec<Row>, disable_forward_fill: bool) -> (r: Result<Table, ParsingError>)
    ensures
        r is Ok <==> all_cast(rows@),
        r matches Ok(t) ==> describes(t, rows@, !disable_forward_fill),
{
    let names = collect_columns(rows);
    let ordered = order_columns(&names);
    let mut columns: Vec<Column> = Vec::new();
    let mut j: usize = 0;
    while j < ordered.len()
        invariant
            j <= ordered.len(),
            columns.len() == j,
            distinct_names(names@),
            distinct_names(ordered@),
            forall|a: int| 0 <= a < names.len() ==> key_in_rows(rows@, (#[trigger] names@[a])@),
            forall|k: Seq<char>| key_in_rows(rows@, k) ==> contains_name(names@, k),
            forall|a: int| 0 <= a < ordered.len() ==> #[trigger] contains_name(names@, ordered@[a]@),
            forall|a: int| 0 <= a < names.len() ==> #[trigger] contains_name(ordered@, names@[a]@),
            forall|a: int, b: int| 0 <= a < b < ordered.len() ==> rank((#[trigger] ordered@[a])@) <= rank((#[trigger] ordered@[b])@),
            encounter_ordered(rows@, names@),
            forall|a: int, b: int|
                0 <= a < b < ordered.len() && rank((#[trigger] ordered@[a])@) == rank((#[trigger] ordered@[b])@) ==> comes_before(
                    names@,
                    ordered@[a]@,
                    ordered@[b]@,
                ),
            forall|a: int| 0 <= a < j ==> (#[trigger] columns@[a]).name@ == ordered@[a]@
                && columns@[a].kind == column_kind(columns@[a].name@)
                && cells_view(columns@[a].cells@) == expected_column(rows@, columns@[a].name@, !disable_forward_fill)
                && casts_ok(rows@, columns@[a].name@),
        decreases ordered.len() - j,
    {
        match build_column(rows, &ordered[j], !disable_forward_fill) {
            Ok(c) => {
                columns.push(c);
            },
            Err(e) => {
                proof {
                    assert(contains_name(names@, ordered@[j as int]@));
                    let a = choose|a: int| 0 <= a < names.len() && (#[trigger] names@[a])@ == ordered@[j as int]@;
                    assert(key_in_rows(rows@, names@[a]@));
                }
                return Err(e);
            },
        }
        j += 1;
    }
    proof {
        assert forall|k: Seq<char>| key_in_rows(rows@, k) implies #[trigger] casts_ok(rows@, k) by {
            assert(contains_name(names@, k));
            let a = choose|a: int| 0 <= a < names.len() && (#[trigger] names@[a])@ == k;
            assert(contains_name(ordered@, names@[a]@));
            let b = choose|b: int| 0 <= b < ordered.len() && (#[trigger] ordered@[b])@ == names@[a]@;
            assert(columns@[b].name@ == ordered@[b]@);
        }
        assert forall|j: int| 0 <= j < columns.len() implies key_in_rows(rows@, (#[trigger] columns@[j]).name@) by {
            assert(contains_name(names@, ordered@[j]@));
            let a = choose|a: int| 0 <= a < names.len() && (#[trigger] names@[a])@ == ordered@[j]@;
        }
        assert forall|k: Seq<char>| key_in_rows(rows@, k) implies exists|j: int| 0 <= j < columns.len() && (#[trigger] columns@[j]).name@ == k by {
            let a = choose|a: int| 0 <= a < names.len() && (#[trigger] names@[a])@ == k;
            assert(contains_name(ordered@, names@[a]@));
            let b = choose|b: int| 0 <= b < ordered.len() && (#[trigger] ordered@[b])@ == names@[a]@;
            assert(columns@[b].name@ == k);
        }
        assert forall|a: int, b: int|
            0 <= a < b < columns.len() && rank((#[trigger] columns@[a]).name@) == rank((#[trigger] columns@[b]).name@)
                && columns@[a].name@ != "M"@ && columns@[b].name@ != "M"@ implies appears_before(
                rows@,
                columns@[a].name@,
                columns@[b].name@,
            ) by {
            assert(columns@[a].name@ == ordered@[a]@);
            assert(columns@[b].name@ == ordered@[b]@);
            assert(comes_before(names@, ordered@[a]@, ordered@[b]@));
            let (x, y) = choose|x: int, y: int| 0 <= x < y < names.len() && (#[trigger] names@[x])@ == ordered@[a]@ && (#[trigger] names@[y])@ == ordered@[b]@;
            assert(names@[x]@ != "M"@ && names@[y]@ != "M"@);
        }
        assert forall|a: int, b: int| 0 <= a < b < columns.len() implies (#[trigger] columns@[a]).name@ != (#[trigger] columns@[b]).name@
            && rank(columns@[a].name@) <= rank(columns@[b].name@) by {
            assert(columns@[a].name@ == ordered@[a]@);
            assert(columns@[b].name@ == ordered@[b]@);
        }
    }
    Ok(Table { columns, row_count: rows.len() })
}

} // verus!
