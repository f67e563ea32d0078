//! The interpreter state: variables, axes, frame translations and limits.
use crate::errors::ParsingError;
use crate::keyed::{keyed_find, keyed_map, keyed_set, lemma_keyed_absent, lemma_keyed_last, lemma_keyed_push, Keyed};
use crate::num::{in_range, NUM_MAX};
use vstd::prelude::*;

verus! {

/// A named value of a store.
pub type Entry = Keyed<i64>;

/// What a store maps each name to: a later entry of a name overrides an
/// earlier one.
pub open spec fn store_map(s: Seq<Entry>) -> Map<Seq<char>, int> {
    keyed_map(s).map_values(|v: i64| v as int)
}

proof fn lemma_store_push(s: Seq<Entry>, e: Entry)
    ensures
        store_map(s.push(e)) == store_map(s).insert(e.key@, e.value as int),
{
    lemma_keyed_push(s, e);
    assert(store_map(s.push(e)) =~= store_map(s).insert(e.key@, e.value as int));
}

/// The variables after each of `names`, read while undefined, became zero.
pub open spec fn zero_fill(m: Map<Seq<char>, int>, names: Seq<Seq<char>>) -> Map<Seq<char>, int>
    decreases names.len(),
{
    if names.len() == 0 {
        m
    } else {
        zero_fill(m.insert(names[0], 0), names.drop_first())
    }
}

/// Every value that a map holds is within the fixed-point range.
pub open spec fn values_in_range(m: Map<Seq<char>, int>) -> bool {
    forall|k: Seq<char>| #[trigger] m.contains_key(k) ==> in_range(m[k])
}

/// The value a store holds for a name.
fn store_get(s: &Vec<Entry>, k: &String) -> (r: Option<i64>)
    ensures
        r matches Some(v) ==> store_map(s@).contains_key(k@) && store_map(s@)[k@] == v as int,
        r is None ==> !store_map(s@).contains_key(k@),
{
    match keyed_find(s, k) {
        Some(i) => {
            proof {
                lemma_keyed_last(s@, i as int, k@);
            }
            Some(s[i].value)
        },
        None => {
            proof {
                lemma_keyed_absent(s@, k@);
            }
            None
        },
    }
}

/// Gives a name a value in a store.
fn store_set(s: &mut Vec<Entry>, k: &String, v: i64)
    ensures
        store_map(final(s)@) == store_map(old(s)@).insert(k@, v as int),
{
    keyed_set(s, k.clone(), v);
    assert(store_map(s@) =~= store_map(old(s)@).insert(k@, v as int));
}

/// The state as plain values.
pub struct StateModel {
    pub syms: Map<Seq<char>, int>,
    pub axs: Map<Seq<char>, int>,
    pub trs: Map<Seq<char>, int>,
    pub names: Seq<Seq<char>>,
    pub iteration_limit: nat,
    pub auto_init_variables: bool,
}

impl StateModel {
    pub open spec fn symbols(&self) -> Map<Seq<char>, int> {
        self.syms
    }

    pub open spec fn axis_values(&self) -> Map<Seq<char>, int> {
        self.axs
    }

    pub open spec fn translation_values(&self) -> Map<Seq<char>, int> {
        self.trs
    }

    pub open spec fn axis_names(&self) -> Seq<Seq<char>> {
        self.names
    }

    pub open spec fn is_axis_name(&self, k: Seq<char>) -> bool {
        self.names.contains(k)
    }

    /// The offset that applies to an axis: zero where none was set.
    pub open spec fn translation_of(&self, k: Seq<char>) -> int {
        if self.trs.contains_key(k) {
            self.trs[k]
        } else {
            0
        }
    }

    /// What expressions read: the variables and the reading mode.
    pub open spec fn env(&self) -> (Map<Seq<char>, int>, bool) {
        (self.syms, self.auto_init_variables)
    }

    pub open spec fn with_symbols(self, m: Map<Seq<char>, int>) -> StateModel {
        StateModel { syms: m, ..self }
    }

    pub open spec fn with_axes(self, m: Map<Seq<char>, int>) -> StateModel {
        StateModel { axs: m, ..self }
    }

    pub open spec fn with_translations(self, m: Map<Seq<char>, int>) -> StateModel {
        StateModel { trs: m, ..self }
    }
}

/// The state that a program run reads and changes.
#[derive(Debug)]
pub struct State {
    /// Variables, including the cells of arrays.
    pub symbol_table: Vec<Entry>,
    /// The commanded position of each axis, before translation.
    pub axes: Vec<Entry>,
    /// The frame offset of each axis.
    pub translations: Vec<Entry>,
    /// The declared axis names, in order.
    pub axis_set: Vec<String>,
    /// The most iterations a single loop may run.
    pub iteration_limit: usize,
    /// Whether an undefined variable reads as zero. Such a read defines the
    /// variable as zero once the evaluation that made it succeeds.
    pub auto_init_variables: bool,
}

impl State {
    /// The state as plain values.
    pub open spec fn model(&self) -> StateModel {
        StateModel {
            syms: self.symbols(),
            axs: self.axis_values(),
            trs: self.translation_values(),
            names: self.axis_names(),
            iteration_limit: self.iteration_limit as nat,
            auto_init_variables: self.auto_init_variables,
        }
    }

    pub open spec fn symbols(&self) -> Map<Seq<char>, int> {
        store_map(self.symbol_table@)
    }

    pub open spec fn axis_values(&self) -> Map<Seq<char>, int> {
        store_map(self.axes@)
    }

    pub open spec fn translation_values(&self) -> Map<Seq<char>, int> {
        store_map(self.translations@)
    }

    pub open spec fn axis_names(&self) -> Seq<Seq<char>> {
        self.axis_set@.map_values(|a: String| a@)
    }

    pub open spec fn is_axis_name(&self, k: Seq<char>) -> bool {
        self.axis_names().contains(k)
    }

    /// The offset that applies to an axis: zero where none was set.
    pub open spec fn translation_of(&self, k: Seq<char>) -> int {
        if self.translation_values().contains_key(k) {
            self.translation_values()[k]
        } else {
            0
        }
    }

    /// What reading a variable gives: its value, zero for an undefined one when
    /// undefined variables read as zero, and `None` otherwise.
    pub open spec fn read(&self, k: Seq<char>) -> Option<int> {
        if self.symbols().contains_key(k) {
            Some(self.symbols()[k])
        } else if self.auto_init_variables {
            Some(0)
        } else {
            None
        }
    }

    /// What expressions read: the variables and the reading mode.
    pub open spec fn env(&self) -> (Map<Seq<char>, int>, bool) {
        (self.symbols(), self.auto_init_variables)
    }

    /// Every stored value is within the fixed-point range, and the loop limit is positive.
    pub open spec fn wf(&self) -> bool {
        &&& values_in_range(self.symbols())
        &&& values_in_range(self.axis_values())
        &&& values_in_range(self.translation_values())
        &&& self.iteration_limit > 0
    }

    /// The same state but for the variables.
    pub open spec fn same_but_symbols(&self, other: &State) -> bool {
        &&& self.axis_values() == other.axis_values()
        &&& self.translation_values() == other.translation_values()
        &&& self.axis_names() == other.axis_names()
        &&& self.iteration_limit == other.iteration_limit
        &&& self.auto_init_variables == other.auto_init_variables
    }

    /// A fresh state with the given axes and loop limit, and nothing stored.
    pub fn new(axis_identifiers: Vec<String>, iteration_limit: usize) -> (r: State)
        requires
            iteration_limit > 0,
        ensures
            r.wf(),
            r.symbols() == Map::<Seq<char>, int>::empty(),
            r.symbol_table@ == Seq::<Entry>::empty(),
            r.axis_values() == Map::<Seq<char>, int>::empty(),
            r.translation_values() == Map::<Seq<char>, int>::empty(),
            r.axis_set == axis_identifiers,
            r.iteration_limit == iteration_limit,
            !r.auto_init_variables,
    {
        State {
            symbol_table: Vec::new(),
            axes: Vec::new(),
            translations: Vec::new(),
            axis_set: axis_identifiers,
            iteration_limit,
            auto_init_variables: false,
        }
    }

    /// Whether a name is a declared axis.
    pub fn is_axis(&self, name: &String) -> (r: bool)
        ensures
            r == self.is_axis_name(name@),
    {
        let mut i: usize = 0;
        while i < self.axis_set.len()
            invariant
                i <= self.axis_set.len(),
                forall|j: int| 0 <= j < i ==> self.axis_names()[j] != name@,
            decreases self.axis_set.len() - i,
        {
            if self.axis_set[i] == *name {
                assert(self.axis_names()[i as int] == name@);
                return true;
            }
            i += 1;
        }
        false
    }

    /// The value of a variable, where it has one.
    pub fn get_symbol(&self, name: &String) -> (r: Option<i64>)
        ensures
            r matches Some(v) ==> self.symbols().contains_key(name@) && self.symbols()[name@] == v,
            r is None ==> !self.symbols().contains_key(name@),
    {
        store_get(&self.symbol_table, name)
    }

    /// Reads a variable (see `read`).
    pub fn read_variable(&self, name: &String) -> (r: Option<i64>)
        ensures
            r matches Some(v) ==> self.read(name@) == Some(v as int),
            r is None ==> self.read(name@) is None,
    {
        match self.get_symbol(name) {
            Some(v) => Some(v),
            None => if self.auto_init_variables {
                Some(0)
            } else {
                None
            },
        }
    }

    /// Gives a variable a value.
    pub fn set_symbol(&mut self, name: &String, value: i64)
        requires
            old(self).wf(),
            in_range(value as int),
        ensures
            final(self).wf(),
            final(self).symbols() == old(self).symbols().insert(name@, value as int),
            final(self).same_but_symbols(old(self)),
    {
        store_set(&mut self.symbol_table, name, value);
    }

    /// Defines each of `names` as zero, in order: the variables that an
    /// evaluation read while undefined.
    pub fn fill_zeros(&mut self, names: &Vec<String>)
        requires
            old(self).wf(),
        ensures
            final(self).wf(),
            final(self).symbols() == zero_fill(old(self).symbols(), names@.map_values(|s: String| s@)),
            final(self).same_but_symbols(old(self)),
    {
        let ghost nv = names@.map_values(|s: String| s@);
        assert(nv.skip(0) =~= nv);
        let mut i: usize = 0;
        while i < names.len()
            invariant
                i <= names.len(),
                self.wf(),
                self.same_but_symbols(old(self)),
                nv == names@.map_values(|s: String| s@),
                zero_fill(old(self).symbols(), nv) == zero_fill(self.symbols(), nv.skip(i as int)),
            decreases names.len() - i,
        {
            proof {
                assert(nv.skip(i as int).drop_first() =~= nv.skip(i + 1));
                assert(nv.skip(i as int)[0] == names@[i as int]@);
            }
            self.set_symbol(&names[i], 0);
            i += 1;
        }
        assert(nv.skip(names.len() as int) =~= Seq::<Seq<char>>::empty());
    }

    /// Sets variables to starting values, in order.
    pub fn init_variables(&mut self, inits: Vec<Entry>)
        requires
            old(self).wf(),
            forall|i: int| 0 <= i < inits.len() ==> in_range((#[trigger] inits@[i]).value as int),
        ensures
            final(self).wf(),
            final(self).symbols() == store_map(old(self).symbol_table@ + inits@),
            final(self).same_but_symbols(old(self)),
    {
        let mut i: usize = 0;
        while i < inits.len()
            invariant
                i <= inits.len(),
                self.wf(),
                self.same_but_symbols(old(self)),
                forall|j: int| 0 <= j < inits.len() ==> in_range((#[trigger] inits@[j]).value as int),
                self.symbols() == store_map(old(self).symbol_table@ + inits@.take(i as int)),
            decreases inits.len() - i,
        {
            let e = &inits[i];
            self.set_symbol(&e.key, e.value);
            assert((old(self).symbol_table@ + inits@.take(i + 1)).drop_last() =~= old(self).symbol_table@
                + inits@.take(i as int));
            i += 1;
        }
        assert(inits@.take(inits.len() as int) =~= inits@);
    }

    /// The commanded position of an axis: zero where none was set.
    pub fn axis_position(&self, name: &String) -> (r: i64)
        ensures
            r == (if self.axis_values().contains_key(name@) {
                self.axis_values()[name@]
            } else {
                0
            }),
    {
        match store_get(&self.axes, name) {
            Some(v) => v,
            None => 0,
        }
    }

    /// The current offset of an axis: zero where none was set.
    pub fn get_translation(&self, name: &String) -> (r: i64)
        ensures
            r == self.translation_of(name@),
    {
        match store_get(&self.translations, name) {
            Some(v) => v,
            None => 0,
        }
    }

    /// Sets the offset of an axis.
    pub fn update_translation(&mut self, name: &String, value: i64)
        requires
            old(self).wf(),
            in_range(value as int),
        ensures
            final(self).wf(),
            final(self).translation_values() == old(self).translation_values().insert(
                name@,
                value as int,
            ),
            final(self).symbols() == old(self).symbols(),
            final(self).axis_values() == old(self).axis_values(),
            final(self).axis_names() == old(self).axis_names(),
            final(self).iteration_limit == old(self).iteration_limit,
            final(self).auto_init_variables == old(self).auto_init_variables,
    {
        store_set(&mut self.translations, name, value);
    }

    /// Records a commanded axis position and gives the position the row
    /// shows: the value plus the axis's offset where `translate` holds, else
    /// the value. Fails where that sum leaves the range.
    pub fn update_axis(&mut self, name: &String, value: i64, translate: bool) -> (r: Result<
        i64,
        ParsingError,
    >)
        requires
            old(self).wf(),
            in_range(value as int),
        ensures
            final(self).wf(),
            final(self).symbols() == old(self).symbols(),
            final(self).translation_values() == old(self).translation_values(),
            final(self).axis_names() == old(self).axis_names(),
            final(self).iteration_limit == old(self).iteration_limit,
            final(self).auto_init_variables == old(self).auto_init_variables,
            ({
                let shown = if translate {
                    value + old(self).translation_of(name@)
                } else {
                    value as int
                };
                &&& r matches Ok(v) ==> v == shown && in_range(shown)
                    && final(self).axis_values() == old(self).axis_values().insert(name@, value as int)
                &&& r matches Err(e) ==> !in_range(shown) && e is ArithmeticError
                    && final(self).axis_values() == old(self).axis_values()
            }),
    {
        let t = if translate {
            self.get_translation(name)
        } else {
            0
        };
        proof {
            if translate && self.translation_values().contains_key(name@) {
                assert(in_range(self.translation_values()[name@]));
            }
        }
        let shown = value as i128 + t as i128;
        if shown < -(NUM_MAX as i128) || shown > NUM_MAX as i128 {
            return Err(ParsingError::ArithmeticError { message: String::from_str("axis position out of range") });
        }
        store_set(&mut self.axes, name, value);
        Ok(shown as i64)
    }
}

} // verus!
