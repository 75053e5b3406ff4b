//! Counting the cells of a grid that satisfy a predicate, with the lemmas
//! that the board counters rest on.

use vstd::prelude::*;

verus! {

use crate::cell::Cell;

/// Number of cells in `s` that satisfy `f`.
pub open spec fn count_cells(s: Seq<Cell>, f: spec_fn(Cell) -> bool) -> nat
    decreases s.len(),
{
    if s.len() == 0 {
        0
    } else {
        count_cells(s.drop_last(), f) + if f(s.last()) {
            1nat
        } else {
            0nat
        }
    }
}

/// A count never exceeds the number of cells.
pub broadcast proof fn lemma_count_cells_le_len(s: Seq<Cell>, f: spec_fn(Cell) -> bool)
    ensures
        #[trigger] count_cells(s, f) <= s.len(),
    decreases s.len(),
{
    if s.len() > 0 {
        lemma_count_cells_le_len(s.drop_last(), f);
    }
}

/// A predicate no cell satisfies counts zero cells.
pub broadcast proof fn lemma_count_cells_zero(s: Seq<Cell>, f: spec_fn(Cell) -> bool)
    requires
        forall|i: int| 0 <= i < s.len() ==> !f(#[trigger] s[i]),
    ensures
        #[trigger] count_cells(s, f) == 0,
    decreases s.len(),
{
    if s.len() > 0 {
        assert(forall|i: int| 0 <= i < s.len() - 1 ==> #[trigger] s.drop_last()[i] == s[i]);
        lemma_count_cells_zero(s.drop_last(), f);
    }
}

/// Replacing one cell changes a count by the two cells' own contributions.
pub broadcast proof fn lemma_count_cells_update(
    s: Seq<Cell>,
    i: int,
    c: Cell,
    f: spec_fn(Cell) -> bool,
)
    requires
        0 <= i < s.len(),
    ensures
        #[trigger] count_cells(s.update(i, c), f) == count_cells(s, f) - (if f(s[i]) {
            1int
        } else {
            0int
        }) + (if f(c) {
            1int
        } else {
            0int
        }),
    decreases s.len(),
{
    let s2 = s.update(i, c);
    if i == s.len() - 1 {
        assert(s2.drop_last() =~= s.drop_last());
    } else {
        assert(s2.drop_last() =~= s.drop_last().update(i, c));
        assert(s2.last() == s.last());
        lemma_count_cells_update(s.drop_last(), i, c, f);
    }
}

/// When `f` implies `g`, the counts compare, and they are equal exactly when
/// every cell satisfying `g` also satisfies `f`.
pub broadcast proof fn lemma_count_cells_subset(
    s: Seq<Cell>,
    f: spec_fn(Cell) -> bool,
    g: spec_fn(Cell) -> bool,
)
    requires
        forall|c: Cell| #[trigger] f(c) ==> g(c),
    ensures
        #![trigger count_cells(s, f), count_cells(s, g)]
        count_cells(s, f) <= count_cells(s, g),
        (count_cells(s, f) == count_cells(s, g)) <==> (forall|i: int|
            0 <= i < s.len() && g(#[trigger] s[i]) ==> f(s[i])),
    decreases s.len(),
{
    if s.len() > 0 {
        let sp = s.drop_last();
        assert(forall|i: int| 0 <= i < sp.len() ==> #[trigger] sp[i] == s[i]);
        lemma_count_cells_subset(sp, f, g);
        assert(s.last() == s[s.len() - 1]);
        if count_cells(s, f) == count_cells(s, g) {
            assert(count_cells(sp, f) == count_cells(sp, g) && (g(s.last()) ==> f(s.last())));
            assert forall|i: int| 0 <= i < s.len() && g(#[trigger] s[i]) implies f(s[i]) by {
                if i < s.len() - 1 {
                    assert(sp[i] == s[i]);
                    assert(g(sp[i]) ==> f(sp[i]));
                }
            }
        }
        if forall|i: int| 0 <= i < s.len() && g(#[trigger] s[i]) ==> f(s[i]) {
            assert forall|i: int| 0 <= i < sp.len() && g(#[trigger] sp[i]) implies f(sp[i]) by {
                assert(sp[i] == s[i]);
                assert(g(s[i]) ==> f(s[i]));
            }
            assert(count_cells(sp, f) == count_cells(sp, g));
            assert(g(s[s.len() - 1]) ==> f(s[s.len() - 1]));
            assert(count_cells(s, f) == count_cells(s, g));
        }
    }
}

/// Number of positions a flood fill has not yet visited.
pub open spec fn count_unvisited(v: Seq<bool>) -> nat
    decreases v.len(),
{
    if v.len() == 0 {
        0
    } else {
        count_unvisited(v.drop_last()) + if v.last() {
            0nat
        } else {
            1nat
        }
    }
}

/// Visiting an unvisited position lowers the unvisited count by one.
pub proof fn lemma_count_unvisited_update(v: Seq<bool>, i: int)
    requires
        0 <= i < v.len(),
        !v[i],
    ensures
        count_unvisited(v.update(i, true)) == count_unvisited(v) - 1,
    decreases v.len(),
{
    let v2 = v.update(i, true);
    if i == v.len() - 1 {
        assert(v2.drop_last() =~= v.drop_last());
    } else {
        assert(v2.drop_last() =~= v.drop_last().update(i, true));
        assert(v2.last() == v.last());
        lemma_count_unvisited_update(v.drop_last(), i);
    }
}

/// Counts of a predicate and of its negation sum to the number of cells.
pub broadcast proof fn lemma_count_cells_complement(
    s: Seq<Cell>,
    f: spec_fn(Cell) -> bool,
    g: spec_fn(Cell) -> bool,
)
    requires
        forall|c: Cell| #[trigger] g(c) <==> !f(c),
    ensures
        #![trigger count_cells(s, f), count_cells(s, g)]
        count_cells(s, f) + count_cells(s, g) == s.len(),
    decreases s.len(),
{
    if s.len() > 0 {
        lemma_count_cells_complement(s.drop_last(), f, g);
    }
}

} // verus!
