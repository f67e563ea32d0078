//! The names of array cells: `A[2]`, `B[1,0]`, `C[0,1,2]`.
use vstd::prelude::*;

verus! {

/// The character of a decimal digit.
pub open spec fn digit_char(d: int) -> char {
    if d == 0 {
        '0'
    } else if d == 1 {
        '1'
    } else if d == 2 {
        '2'
    } else if d == 3 {
        '3'
    } else if d == 4 {
        '4'
    } else if d == 5 {
        '5'
    } else if d == 6 {
        '6'
    } else if d == 7 {
        '7'
    } else if d == 8 {
        '8'
    } else {
        '9'
    }
}

/// A whole number written in decimal, without leading zeros.
pub open spec fn decimal(n: nat) -> Seq<char>
    decreases n,
{
    if n < 10 {
        seq![digit_char(n as int)]
    } else {
        decimal(n / 10) + seq![digit_char((n % 10) as int)]
    }
}

/// Indices written in decimal and separated by commas.
pub open spec fn index_list(idx: Seq<int>) -> Seq<char>
    decreases idx.len(),
{
    if idx.len() == 0 {
        Seq::empty()
    } else if idx.len() == 1 {
        decimal(idx[0] as nat)
    } else {
        index_list(idx.drop_last()) + seq![','] + decimal(idx.last() as nat)
    }
}

/// The name of one array cell.
pub open spec fn cell_name(id: Seq<char>, idx: Seq<int>) -> Seq<char> {
    id + seq!['['] + index_list(idx) + seq![']']
}

/// The number of cells of an array whose dimensions have these sizes.
pub open spec fn cell_count(sizes: Seq<int>) -> int
    decreases sizes.len(),
{
    if sizes.len() == 0 {
        1
    } else {
        cell_count(sizes.drop_last()) * sizes.last()
    }
}

/// The indices of the cell at position `p`, counting cells with the last
/// index varying fastest.
pub open spec fn cell_at(sizes: Seq<int>, p: int) -> Seq<int>
    decreases sizes.len(),
{
    if sizes.len() == 0 {
        Seq::empty()
    } else {
        cell_at(sizes.drop_last(), p / sizes.last()).push(p % sizes.last())
    }
}

/// The dimension sizes of an array whose largest indices are `bounds`.
pub open spec fn sizes_of(bounds: Seq<int>) -> Seq<int> {
    bounds.map_values(|b: int| b + 1)
}

/// Every cell of an array, in order: all index tuples from all zeros up to
/// `bounds`, the outermost index varying slowest.
pub open spec fn array_cells(id: Seq<char>, bounds: Seq<int>) -> Seq<Seq<char>> {
    Seq::new(
        cell_count(sizes_of(bounds)) as nat,
        |p: int| cell_name(id, cell_at(sizes_of(bounds), p)),
    )
}

fn digit_str(d: u64) -> (r: &'static str)
    requires
        d < 10,
    ensures
        r@ == seq![digit_char(d as int)],
{
    if d == 0 {
        proof {
            reveal_strlit("0");
        }
        "0"
    } else if d == 1 {
        proof {
            reveal_strlit("1");
        }
        "1"
    } else if d == 2 {
        proof {
            reveal_strlit("2");
        }
        "2"
    } else if d == 3 {
        proof {
            reveal_strlit("3");
        }
        "3"
    } else if d == 4 {
        proof {
            reveal_strlit("4");
        }
        "4"
    } else if d == 5 {
        proof {
            reveal_strlit("5");
        }
        "5"
    } else if d == 6 {
        proof {
            reveal_strlit("6");
        }
        "6"
    } else if d == 7 {
        proof {
            reveal_strlit("7");
        }
        "7"
    } else if d == 8 {
        proof {
            reveal_strlit("8");
        }
        "8"
    } else {
        proof {
            reveal_strlit("9");
        }
        "9"
    }
}

/// Appends a whole number in decimal.
pub fn push_decimal(s: &mut String, n: u64)
    ensures
        final(s)@ == old(s)@ + decimal(n as nat),
    decreases n,
{
    if n >= 10 {
        push_decimal(s, n / 10);
    }
    s.append(digit_str(n % 10));
    assert(final(s)@ =~= old(s)@ + decimal(n as nat));
}

/// The name of the array cell with the given indices.
pub fn cell_name_of(id: &String, idx: &Vec<u64>) -> (r: String)
    ensures
        r@ == cell_name(id@, idx@.map_values(|i: u64| i as int)),
{
    let ghost ix = idx@.map_values(|i: u64| i as int);
    let mut s = id.clone();
    proof {
        reveal_strlit("[");
        reveal_strlit(",");
        reveal_strlit("]");
    }
    s.append("[");
    let mut k: usize = 0;
    while k < idx.len()
        invariant
            k <= idx.len(),
            ix == idx@.map_values(|i: u64| i as int),
            s@ == id@ + seq!['['] + index_list(ix.take(k as int)),
        decreases idx.len() - k,
    {
        proof {
            reveal_strlit(",");
        }
        if k > 0 {
            s.append(",");
        }
        push_decimal(&mut s, idx[k]);
        proof {
            let t = ix.take(k + 1);
            assert(t.drop_last() =~= ix.take(k as int));
            assert(t.last() == ix[k as int]);
            assert(ix[k as int] == idx@[k as int] as int);
            assert((ix[k as int] as nat) == (idx@[k as int] as nat));
            if k == 0 {
                assert(index_list(ix.take(0)) =~= Seq::<char>::empty());
                assert(t[0] == ix[0]);
                assert(index_list(t) == decimal(idx@[0] as nat));
            } else {
                assert(index_list(t) == index_list(ix.take(k as int)) + seq![','] + decimal(idx@[k as int] as nat));
            }
        }
        assert(s@ =~= id@ + seq!['['] + index_list(ix.take(k + 1)));
        k += 1;
    }
    assert(ix.take(idx.len() as int) =~= ix);
    s.append("]");
    assert(s@ =~= cell_name(id@, ix));
    s
}

/// The most cells that an array may have: its cell count must fit in a
/// machine word.
pub const MAX_CELLS: u64 = 18446744073709551615;

proof fn lemma_cell_count_pos(sizes: Seq<int>)
    requires
        forall|i: int| 0 <= i < sizes.len() ==> sizes[i] >= 1,
    ensures
        cell_count(sizes) >= 1,
    decreases sizes.len(),
{
    if sizes.len() > 0 {
        lemma_cell_count_pos(sizes.drop_last());
        let c = cell_count(sizes.drop_last());
        assert(c * sizes.last() >= 1) by (nonlinear_arith)
            requires c >= 1, sizes.last() >= 1;
    }
}

/// The last cell of an array is the one at its largest indices.
pub proof fn lemma_last_cell(bounds: Seq<int>)
    requires
        forall|i: int| 0 <= i < bounds.len() ==> bounds[i] >= 0,
    ensures
        cell_at(sizes_of(bounds), cell_count(sizes_of(bounds)) - 1) == bounds,
    decreases bounds.len(),
{
    let sz = sizes_of(bounds);
    if bounds.len() > 0 {
        let b0 = bounds.drop_last();
        assert(sizes_of(b0) =~= sz.drop_last());
        lemma_last_cell(b0);
        assert forall|i: int| 0 <= i < sz.drop_last().len() implies sz.drop_last()[i] >= 1 by {
            assert(sz.drop_last()[i] == bounds[i] + 1);
        }
        lemma_cell_count_pos(sz.drop_last());
        let c = cell_count(sz.drop_last());
        let l = sz.last();
        assert(c * l - 1 == (c - 1) * l + (l - 1)) by (nonlinear_arith);
        vstd::arithmetic::div_mod::lemma_fundamental_div_mod_converse(c * l - 1, l, c - 1, l - 1);
        assert(cell_at(sz, c * l - 1) =~= bounds);
    } else {
        assert(cell_at(sz, 0) =~= bounds);
    }
}

/// The name that reads and single writes of an array reference use is the
/// last of the array's cells.
pub proof fn law_target_is_last_cell(id: Seq<char>, bounds: Seq<int>)
    requires
        forall|i: int| 0 <= i < bounds.len() ==> bounds[i] >= 0,
    ensures
        array_cells(id, bounds).len() >= 1,
        array_cells(id, bounds).last() == cell_name(id, bounds),
{
    let sz = sizes_of(bounds);
    assert forall|i: int| 0 <= i < sz.len() implies sz[i] >= 1 by {
        assert(sz[i] == bounds[i] + 1);
    }
    lemma_cell_count_pos(sz);
    lemma_last_cell(bounds);
}

/// The indices of the cell at position `p` (see `cell_at`).
fn cell_at_exec(sizes: &Vec<u64>, p: u64) -> (r: Vec<u64>)
    requires
        forall|i: int| 0 <= i < sizes.len() ==> sizes@[i] >= 1,
    ensures
        r@.map_values(|i: u64| i as int) == cell_at(sizes@.map_values(|i: u64| i as int), p as int),
{
    let ghost sz = sizes@.map_values(|i: u64| i as int);
    let n = sizes.len();
    let mut out: Vec<u64> = Vec::new();
    let mut k: usize = 0;
    while k < n
        invariant
            k <= n,
            n == sizes.len(),
            out.len() == k,
        decreases n - k,
    {
        out.push(0);
        k += 1;
    }
    let mut q: u64 = p;
    let mut k: usize = n;
    assert(sz.take(n as int) =~= sz);
    assert(out@.subrange(n as int, n as int).map_values(|i: u64| i as int) =~= Seq::<int>::empty());
    assert(cell_at(sz, p as int) =~= cell_at(sz.take(n as int), q as int) + Seq::<int>::empty());
    while k > 0
        invariant
            k <= n,
            n == sizes.len(),
            out.len() == n,
            sz == sizes@.map_values(|i: u64| i as int),
            forall|i: int| 0 <= i < sizes.len() ==> sizes@[i] >= 1,
            cell_at(sz, p as int) == cell_at(sz.take(k as int), q as int) + out@.subrange(
                k as int,
                n as int,
            ).map_values(|i: u64| i as int),
        decreases k,
    {
        let d = sizes[k - 1];
        let digit = q % d;
        let ghost before = out@;
        out.set(k - 1, digit);
        proof {
            let t = sz.take(k as int);
            assert(t.drop_last() =~= sz.take(k - 1));
            assert(t.last() == d as int);
            assert(out@.subrange(k - 1, n as int).map_values(|i: u64| i as int) =~= seq![digit as int]
                + before.subrange(k as int, n as int).map_values(|i: u64| i as int));
            assert(cell_at(t, q as int) == cell_at(sz.take(k - 1), (q / d) as int).push(digit as int));
            assert(cell_at(sz.take(k - 1), (q / d) as int).push(digit as int) + before.subrange(
                k as int,
                n as int,
            ).map_values(|i: u64| i as int) =~= cell_at(sz.take(k - 1), (q / d) as int)
                + out@.subrange(k - 1, n as int).map_values(|i: u64| i as int));
        }
        q = q / d;
        k -= 1;
    }
    assert(sz.take(0) =~= Seq::<int>::empty());
    assert(out@.subrange(0, n as int) =~= out@);
    assert(cell_at(sz, p as int) =~= out@.map_values(|i: u64| i as int));
    out
}

/// Every cell name of an array with largest indices `bounds`, in order;
/// `None` where the array would have more than `MAX_CELLS` cells.
pub fn array_cell_names(id: &String, bounds: &Vec<u64>) -> (r: Option<Vec<String>>)
    ensures
        r matches Some(v) ==> v@.map_values(|s: String| s@) == array_cells(
            id@,
            bounds@.map_values(|i: u64| i as int),
        ),
        r is Some ==> cell_count(sizes_of(bounds@.map_values(|i: u64| i as int))) <= MAX_CELLS,
        r is None ==> cell_count(sizes_of(bounds@.map_values(|i: u64| i as int))) > MAX_CELLS,
{
    let ghost bi = bounds@.map_values(|i: u64| i as int);
    let ghost sz = sizes_of(bi);
    let mut sizes: Vec<u64> = Vec::new();
    let mut total: u64 = 1;
    let mut k: usize = 0;
    while k < bounds.len()
        invariant
            k <= bounds.len(),
            bi == bounds@.map_values(|i: u64| i as int),
            sz == sizes_of(bi),
            sizes@.map_values(|i: u64| i as int) == sz.take(k as int),
            forall|i: int| 0 <= i < sizes.len() ==> sizes@[i] >= 1,
            total as int == cell_count(sz.take(k as int)),
            1 <= total <= MAX_CELLS,
        decreases bounds.len() - k,
    {
        let b = bounds[k];
        proof {
            assert(sz.take(k + 1).drop_last() =~= sz.take(k as int));
            assert(sz.take(k + 1).last() == b as int + 1);
        }
        if b >= MAX_CELLS {
            proof {
                assert(total * (b + 1) > MAX_CELLS) by (nonlinear_arith)
                    requires total >= 1, b >= MAX_CELLS;
                lemma_count_grows(sz, k as int + 1);
            }
            return None;
        }
        assert((total as u128) * (b as u128 + 1) <= 18446744073709551615 * 18446744073709551615 && (total as u128) * (b as u128 + 1) >= 1) by (nonlinear_arith)
            requires 1 <= total <= 18446744073709551615u64, b < 18446744073709551615u64;
        let t = total as u128 * (b as u128 + 1);
        if t > MAX_CELLS as u128 {
            proof {
                lemma_count_grows(sz, k as int + 1);
            }
            return None;
        }
        sizes.push(b + 1);
        total = t as u64;
        proof {
            assert(sizes@.map_values(|i: u64| i as int) =~= sz.take(k + 1));
        }
        k += 1;
    }
    assert(sz.take(bounds.len() as int) =~= sz);
    let mut names: Vec<String> = Vec::new();
    let mut p: u64 = 0;
    while p < total
        invariant
            p <= total,
            bi == bounds@.map_values(|i: u64| i as int),
            sz == sizes_of(bi),
            sizes@.map_values(|i: u64| i as int) == sz,
            forall|i: int| 0 <= i < sizes.len() ==> sizes@[i] >= 1,
            total as int == cell_count(sz),
            names.len() == p,
            forall|j: int| 0 <= j < p ==> (#[trigger] names@[j])@ == cell_name(id@, cell_at(sz, j)),
        decreases total - p,
    {
        let idx = cell_at_exec(&sizes, p);
        let name = cell_name_of(id, &idx);
        names.push(name);
        p += 1;
    }
    assert(names@.map_values(|s: String| s@) =~= array_cells(id@, bi));
    Some(names)
}

proof fn lemma_count_grows(sz: Seq<int>, k: int)
    requires
        0 <= k <= sz.len(),
        forall|i: int| 0 <= i < sz.len() ==> sz[i] >= 1,
    ensures
        cell_count(sz) >= cell_count(sz.take(k)),
    decreases sz.len() - k,
{
    if k < sz.len() {
        lemma_count_grows(sz, k + 1);
        assert(sz.take(k + 1).drop_last() =~= sz.take(k));
        assert forall|i: int| 0 <= i < sz.take(k).len() implies sz.take(k)[i] >= 1 by {
            assert(sz.take(k)[i] == sz[i]);
        }
        lemma_cell_count_pos(sz.take(k));
        let c = cell_count(sz.take(k));
        let l = sz[k];
        assert(c * l >= c) by (nonlinear_arith)
            requires c >= 1, l >= 1;
    } else {
        assert(sz.take(k) =~= sz);
    }
}

} // verus!
