//! Cell positions and the 8-neighbour relation.

use vstd::prelude::*;

verus! {

use vstd::seq_lib::lemma_seq_contains_after_push;

/// Cell position on the board, with 1-based coordinates.
#[derive(Debug, Copy, Clone, PartialEq, Eq, Hash, Structural)]
pub struct Pos {
    pub x: u8,
    pub y: u8,
}

/// Two distinct positions whose coordinates differ by at most one in each
/// direction: the 8-neighbour relation.
pub open spec fn is_adjacent(a: Pos, b: Pos) -> bool {
    &&& a != b
    &&& a.x <= b.x + 1
    &&& b.x <= a.x + 1
    &&& a.y <= b.y + 1
    &&& b.y <= a.y + 1
}

impl Pos {
    /// Both coordinates of a valid position are positive.
    pub open spec fn wf(self) -> bool {
        self.x >= 1 && self.y >= 1
    }

    /// The position lies on a grid with the given number of columns and rows.
    pub open spec fn in_grid(self, columns: u8, rows: u8) -> bool {
        1 <= self.x <= columns && 1 <= self.y <= rows
    }

    pub fn new(x: u8, y: u8) -> (p: Pos)
        requires
            x >= 1,
            y >= 1,
        ensures
            p == (Pos { x, y }),
    {
        Pos { x, y }
    }

    /// Build a position from a coordinate pair, rejecting zero coordinates.
    pub fn try_new(x: u8, y: u8) -> (p: Option<Pos>)
        ensures
            x >= 1 && y >= 1 ==> p == Some(Pos { x, y }),
            !(x >= 1 && y >= 1) ==> p is None,
    {
        if x >= 1 && y >= 1 {
            Some(Pos { x, y })
        } else {
            None
        }
    }

    /// The neighbours of this position that lie on a grid with `max_columns`
    /// columns and `max_rows` rows, each exactly once.
    pub fn adjacent(&self, max_rows: u8, max_columns: u8) -> (r: Vec<Pos>)
        requires
            self.wf(),
        ensures
            r@.no_duplicates(),
            forall|q: Pos|
                #![trigger r@.contains(q)]
                r@.contains(q) <==> is_adjacent(q, *self) && q.in_grid(max_columns, max_rows),
    {
        broadcast use lemma_seq_contains_after_push;

        let x = self.x;
        let y = self.y;
        let mut r: Vec<Pos> = Vec::new();
        if x >= 2 && y >= 2 && y - 1 <= max_rows && x - 1 <= max_columns {
            r.push(Pos { x: x - 1, y: y - 1 });
        }
        if y >= 2 && y - 1 <= max_rows && x <= max_columns {
            r.push(Pos { x, y: y - 1 });
        }
        if x < max_columns && y >= 2 && y - 1 <= max_rows {
            r.push(Pos { x: x + 1, y: y - 1 });
        }
        if x >= 2 && y <= max_rows && x - 1 <= max_columns {
            r.push(Pos { x: x - 1, y });
        }
        if x < max_columns && y <= max_rows {
            r.push(Pos { x: x + 1, y });
        }
        if x >= 2 && y < max_rows && x - 1 <= max_columns {
            r.push(Pos { x: x - 1, y: y + 1 });
        }
        if y < max_rows && x <= max_columns {
            r.push(Pos { x, y: y + 1 });
        }
        if x < max_columns && y < max_rows {
            r.push(Pos { x: x + 1, y: y + 1 });
        }
        proof {
            assert forall|q: Pos|
                r@.contains(q) <==> is_adjacent(q, *self) && q.in_grid(
                    max_columns,
                    max_rows,
                ) by {
                assert(!Seq::<Pos>::empty().contains(q));
            }
        }
        r
    }
}

} // verus!
