//! Keyed lists: lists of named values where a later entry of a name
//! overrides an earlier one. The state's stores and the rows use them.
use vstd::prelude::*;

verus! {

/// A named value.
#[derive(Debug)]
pub struct Keyed<V> {
    pub key: String,
    pub value: V,
}

/// What a keyed list maps each name to: a later entry of a name overrides an
/// earlier one.
pub open spec fn keyed_map<V>(s: Seq<Keyed<V>>) -> Map<Seq<char>, V>
    decreases s.len(),
{
    if s.len() == 0 {
        Map::empty()
    } else {
        keyed_map(s.drop_last()).insert(s.last().key@, s.last().value)
    }
}

/// Appending an entry sets its name.
pub proof fn lemma_keyed_push<V>(s: Seq<Keyed<V>>, e: Keyed<V>)
    ensures
        keyed_map(s.push(e)) == keyed_map(s).insert(e.key@, e.value),
{
    assert(s.push(e).drop_last() =~= s);
}

/// A list maps a name exactly where one of its entries has it.
pub proof fn lemma_keyed_domain<V>(s: Seq<Keyed<V>>, k: Seq<char>)
    ensures
        keyed_map(s).contains_key(k) <==> exists|j: int| 0 <= j < s.len() && (#[trigger] s[j]).key@ == k,
    decreases s.len(),
{
    if s.len() > 0 {
        lemma_keyed_domain(s.drop_last(), k);
        if exists|j: int| 0 <= j < s.drop_last().len() && (#[trigger] s.drop_last()[j]).key@ == k {
            let j = choose|j: int| 0 <= j < s.drop_last().len() && (#[trigger] s.drop_last()[j]).key@ == k;
            assert(s[j] == s.drop_last()[j]);
        }
        if exists|j: int| 0 <= j < s.len() && (#[trigger] s[j]).key@ == k {
            let j = choose|j: int| 0 <= j < s.len() && (#[trigger] s[j]).key@ == k;
            if j < s.len() - 1 {
                assert(s.drop_last()[j] == s[j]);
            }
        }
    }
}

pub proof fn lemma_keyed_absent<V>(s: Seq<Keyed<V>>, k: Seq<char>)
    requires
        forall|j: int| 0 <= j < s.len() ==> (#[trigger] s[j]).key@ != k,
    ensures
        !keyed_map(s).contains_key(k),
    decreases s.len(),
{
    if s.len() > 0 {
        assert forall|j: int| 0 <= j < s.drop_last().len() implies (#[trigger] s.drop_last()[j]).key@ != k by {
            assert(s.drop_last()[j] == s[j]);
        }
        lemma_keyed_absent(s.drop_last(), k);
    }
}

pub proof fn lemma_keyed_last<V>(s: Seq<Keyed<V>>, i: int, k: Seq<char>)
    requires
        0 <= i < s.len(),
        s[i].key@ == k,
        forall|j: int| i < j < s.len() ==> (#[trigger] s[j]).key@ != k,
    ensures
        keyed_map(s).contains_key(k),
        keyed_map(s)[k] == s[i].value,
    decreases s.len(),
{
    if i < s.len() - 1 {
        assert forall|j: int| i < j < s.drop_last().len() implies (#[trigger] s.drop_last()[j]).key@ != k by {
            assert(s.drop_last()[j] == s[j]);
        }
        lemma_keyed_last(s.drop_last(), i, k);
    }
}

pub proof fn lemma_keyed_update<V>(s: Seq<Keyed<V>>, i: int, e: Keyed<V>)
    requires
        0 <= i < s.len(),
        s[i].key@ == e.key@,
        forall|j: int| i < j < s.len() ==> (#[trigger] s[j]).key@ != e.key@,
    ensures
        keyed_map(s.update(i, e)) == keyed_map(s).insert(e.key@, e.value),
    decreases s.len(),
{
    let t = s.update(i, e);
    if i == s.len() - 1 {
        assert(t.drop_last() =~= s.drop_last());
        assert(keyed_map(t) =~= keyed_map(s).insert(e.key@, e.value));
    } else {
        assert(t.drop_last() =~= s.drop_last().update(i, e));
        assert forall|j: int| i < j < s.drop_last().len() implies (#[trigger] s.drop_last()[j]).key@ != e.key@ by {
            assert(s.drop_last()[j] == s[j]);
        }
        lemma_keyed_update(s.drop_last(), i, e);
        assert(keyed_map(t) =~= keyed_map(s).insert(e.key@, e.value));
    }
}

/// Index of the last entry of the name, if any.
pub fn keyed_find<V>(s: &Vec<Keyed<V>>, k: &String) -> (r: Option<usize>)
    ensures
        r matches Some(i) ==> i < s.len() && s@[i as int].key@ == k@ && (forall|j: int|
            i < j < s.len() ==> (#[trigger] s@[j]).key@ != k@),
        r is None ==> forall|j: int| 0 <= j < s.len() ==> (#[trigger] s@[j]).key@ != k@,
{
    let mut i: usize = s.len();
    while i > 0
        invariant
            i <= s.len(),
            forall|j: int| i <= j < s.len() ==> (#[trigger] s@[j]).key@ != k@,
        decreases i,
    {
        if s[i - 1].key == *k {
            return Some(i - 1);
        }
        i -= 1;
    }
    None
}

/// Gives a name a value in a keyed list.
pub fn keyed_set<V>(s: &mut Vec<Keyed<V>>, k: String, v: V)
    ensures
        keyed_map(final(s)@) == keyed_map(old(s)@).insert(k@, v),
{
    match keyed_find(s, &k) {
        Some(i) => {
            let e = Keyed { key: k, value: v };
            proof {
                lemma_keyed_update(old(s)@, i as int, e);
            }
            s.set(i, e);
        },
        None => {
            let e = Keyed { key: k, value: v };
            proof {
                lemma_keyed_push(old(s)@, e);
            }
            s.push(e);
        },
    }
}

} // verus!
