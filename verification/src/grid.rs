//! Grids of marks: rows of flags that are set one by one, with a count of
//! the flags still unset, by which a search shows that it comes to an end;
//! and the sum of a grid of numbers, which goes down as the numbers do.

use vstd::prelude::*;

verus! {

/// The number of flags of a row that are not set.
pub open spec fn count_false(s: Seq<bool>) -> nat
    decreases s.len(),
{
    if s.len() == 0 {
        0
    } else {
        count_false(s.drop_last()) + if s.last() { 0nat } else { 1nat }
    }
}

/// The number of flags of a row that are set.
pub open spec fn count_true(s: Seq<bool>) -> nat
    decreases s.len(),
{
    if s.len() == 0 {
        0
    } else {
        count_true(s.drop_last()) + if s.last() { 1nat } else { 0nat }
    }
}

/// The number of flags of a grid that are not set.
pub open spec fn count_unmarked(g: Seq<Vec<bool>>) -> nat
    decreases g.len(),
{
    if g.len() == 0 {
        0
    } else {
        count_unmarked(g.drop_last()) + count_false(g.last()@)
    }
}

/// Setting a flag that was not set leaves one unset flag fewer.
pub proof fn lemma_count_false_update(s: Seq<bool>, j: int)
    requires
        0 <= j < s.len(),
        !s[j],
    ensures
        count_false(s.update(j, true)) + 1 == count_false(s),
    decreases s.len(),
{
    let t = s.update(j, true);
    if j == s.len() - 1 {
        assert(t.drop_last() =~= s.drop_last());
    } else {
        assert(t.drop_last() =~= s.drop_last().update(j, true));
        lemma_count_false_update(s.drop_last(), j);
    }
}

/// Setting a flag of a grid that was not set leaves one unset flag fewer.
pub proof fn lemma_count_unmarked_update(before: Seq<Vec<bool>>, after: Seq<Vec<bool>>, i: int, j: int)
    requires
        before.len() == after.len(),
        0 <= i < before.len(),
        0 <= j < before[i]@.len(),
        !before[i]@[j],
        after[i]@ == before[i]@.update(j, true),
        forall|k: int| 0 <= k < before.len() && k != i ==> after[k]@ == before[k]@,
    ensures
        count_unmarked(after) + 1 == count_unmarked(before),
    decreases before.len(),
{
    if i == before.len() - 1 {
        lemma_count_false_update(before[i]@, j);
        lemma_count_unmarked_same(before.drop_last(), after.drop_last());
    } else {
        lemma_count_unmarked_update(before.drop_last(), after.drop_last(), i, j);
    }
}

/// Grids with the same flags have the same count.
pub proof fn lemma_count_unmarked_same(a: Seq<Vec<bool>>, b: Seq<Vec<bool>>)
    requires
        a.len() == b.len(),
        forall|k: int| 0 <= k < a.len() ==> a[k]@ == b[k]@,
    ensures
        count_unmarked(a) == count_unmarked(b),
    decreases a.len(),
{
    if a.len() > 0 {
        lemma_count_unmarked_same(a.drop_last(), b.drop_last());
    }
}

/// The grid has `rows` rows of `cols` flags each.
pub open spec fn has_shape(g: Seq<Vec<bool>>, rows: int, cols: int) -> bool {
    &&& g.len() == rows
    &&& forall|i: int| 0 <= i < rows ==> (#[trigger] g[i])@.len() == cols
}

/// A grid of the given shape with no flag set.
pub fn blank(rows: usize, cols: usize) -> (g: Vec<Vec<bool>>)
    ensures
        has_shape(g@, rows as int, cols as int),
        forall|i: int, j: int| 0 <= i < rows && 0 <= j < cols ==> !(#[trigger] g@[i]@[j]),
{
    let mut g: Vec<Vec<bool>> = Vec::new();
    let mut i: usize = 0;
    while i < rows
        invariant
            i <= rows,
            has_shape(g@, i as int, cols as int),
            forall|a: int, b: int| 0 <= a < i && 0 <= b < cols ==> !(#[trigger] g@[a]@[b]),
        decreases rows - i,
    {
        let mut row: Vec<bool> = Vec::new();
        let mut j: usize = 0;
        while j < cols
            invariant
                j <= cols,
                row@.len() == j,
                forall|b: int| 0 <= b < j ==> !row@[b],
            decreases cols - j,
        {
            row.push(false);
            j += 1;
        }
        g.push(row);
        i += 1;
    }
    g
}

/// Sets one flag of a grid.
pub fn mark(g: &mut Vec<Vec<bool>>, i: usize, j: usize)
    requires
        i < old(g)@.len(),
        j < old(g)@[i as int]@.len(),
    ensures
        final(g)@.len() == old(g)@.len(),
        final(g)@[i as int]@ == old(g)@[i as int]@.update(j as int, true),
        forall|k: int| 0 <= k < old(g)@.len() && k != i ==> final(g)@[k] == old(g)@[k],
        forall|k: int| 0 <= k < old(g)@.len() ==> (#[trigger] final(g)@[k])@.len() == old(g)@[k]@.len(),
        !old(g)@[i as int]@[j as int] ==> count_unmarked(final(g)@) + 1 == count_unmarked(old(g)@),
{
    let ghost before = g@;
    g[i][j] = true;
    proof {
        if !before[i as int]@[j as int] {
            lemma_count_unmarked_update(before, g@, i as int, j as int);
        }
    }
}

/// Whether a flag of a grid is set.
pub fn is_marked(g: &Vec<Vec<bool>>, i: usize, j: usize) -> (r: bool)
    requires
        i < g@.len(),
        j < g@[i as int]@.len(),
    ensures
        r == g@[i as int]@[j as int],
{
    g[i][j]
}

/// The sum of the numbers of a row.
pub open spec fn sum_of(s: Seq<u32>) -> nat
    decreases s.len(),
{
    if s.len() == 0 {
        0
    } else {
        sum_of(s.drop_last()) + s.last() as nat
    }
}

/// The sum of the numbers of a grid.
pub open spec fn sum_of_rows(g: Seq<Vec<u32>>) -> nat
    decreases g.len(),
{
    if g.len() == 0 {
        0
    } else {
        sum_of_rows(g.drop_last()) + sum_of(g.last()@)
    }
}

/// A row with one number changed differs in its sum by as much.
pub proof fn lemma_sum_of_update(s: Seq<u32>, j: int, v: u32)
    requires
        0 <= j < s.len(),
    ensures
        sum_of(s.update(j, v)) + s[j] == sum_of(s) + v,
    decreases s.len(),
{
    let t = s.update(j, v);
    if j == s.len() - 1 {
        assert(t.drop_last() =~= s.drop_last());
    } else {
        assert(t.drop_last() =~= s.drop_last().update(j, v));
        lemma_sum_of_update(s.drop_last(), j, v);
    }
}

/// Grids with the same numbers have the same sum.
pub proof fn lemma_sum_of_rows_same(a: Seq<Vec<u32>>, b: Seq<Vec<u32>>)
    requires
        a.len() == b.len(),
        forall|k: int| 0 <= k < a.len() ==> a[k]@ == b[k]@,
    ensures
        sum_of_rows(a) == sum_of_rows(b),
    decreases a.len(),
{
    if a.len() > 0 {
        lemma_sum_of_rows_same(a.drop_last(), b.drop_last());
    }
}

/// A grid with one number changed differs in its sum by as much.
pub proof fn lemma_sum_of_rows_update(
    before: Seq<Vec<u32>>,
    after: Seq<Vec<u32>>,
    i: int,
    j: int,
    v: u32,
)
    requires
        before.len() == after.len(),
        0 <= i < before.len(),
        0 <= j < before[i]@.len(),
        after[i]@ == before[i]@.update(j, v),
        forall|k: int| 0 <= k < before.len() && k != i ==> after[k]@ == before[k]@,
    ensures
        sum_of_rows(after) + before[i]@[j] == sum_of_rows(before) + v,
    decreases before.len(),
{
    if i == before.len() - 1 {
        lemma_sum_of_update(before[i]@, j, v);
        lemma_sum_of_rows_same(before.drop_last(), after.drop_last());
    } else {
        lemma_sum_of_rows_update(before.drop_last(), after.drop_last(), i, j, v);
    }
}

} // verus!
