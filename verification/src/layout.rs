//! The layout of the drawing of a building: which texts go on which row.
use crate::building::Building;
use crate::visualization::{rows, Visualization, MAX_FACES};
use vstd::prelude::*;

verus! {

/// One row of the drawing of a building, from the top.
pub struct RowLayout {
    /// The floor whose label starts the row; `None` for the gap above a
    /// floor.
    pub label: Option<usize>,
    /// Per elevator: whether its car, rather than its shaft, shows here.
    pub cars: Vec<bool>,
    /// Per elevator, on a floor's row: how many faces show the people
    /// waiting for it there. Empty on a gap's row.
    pub faces: Vec<usize>,
    /// Per elevator, on a floor's row: whether the text of the people beyond
    /// the faces shows. Empty on a gap's row.
    pub more: Vec<bool>,
}

/// Blank rows above the building in a frame `height` rows high, two of
/// which go to its border: what the floors, two rows each, leave over.
pub open spec fn padding(height: int, floors: int) -> int {
    let inner = if height >= 2 { height - 2 } else { 0 };
    if inner >= 2 * floors { inner - 2 * floors } else { 0 }
}

/// The blank rows above the building.
pub fn padding_rows(height: u16, floors: usize) -> (r: u16)
    ensures
        r == padding(height as int, floors as int),
{
    let inner: u16 = if height >= 2 { height - 2 } else { 0 };
    if floors <= (inner / 2) as usize && 2 * floors <= inner as usize {
        inner - (2 * floors) as u16
    } else {
        0
    }
}

impl Visualization {
    /// The rows of the drawing of building `b`, from the top: per floor, a
    /// gap row and the floor's row (the top floor has no gap above it). In
    /// each row every elevator shows its car if it is on that row, else its
    /// shaft; a floor's row shows, per elevator, up to `MAX_FACES` faces for
    /// the people waiting for it and whether there are more.
    pub fn layout(&self, b: &Building) -> (r: Vec<RowLayout>)
        requires
            b.nfloors() >= 1,
            b.nfloors() * 2 <= usize::MAX,
            self.elevator_rows@.len() == b.nelevators(),
            forall|f: int| 0 <= f < b.nfloors() ==> (#[trigger] b.floors@[f]).people@.len() == b.nelevators(),
        ensures
            r@.len() == 2 * b.nfloors() - 1,
            forall|k: int|
                0 <= k < r@.len() ==> {
                    let row = 2 * b.nfloors() - 2 - k;
                    let l = #[trigger] r@[k];
                    &&& l.label == if row % 2 == 0 { Some((row / 2) as usize) } else { None }
                    &&& l.cars@.len() == b.nelevators()
                    &&& forall|e: int| 0 <= e < b.nelevators() ==> #[trigger] l.cars@[e] == (self.elevator_rows@[e] == row)
                    &&& l.faces@.len() == if row % 2 == 0 { b.nelevators() } else { 0 }
                    &&& l.more@.len() == l.faces@.len()
                    &&& forall|e: int|
                        0 <= e < l.faces@.len() ==> {
                            let n = b.floors@[row / 2].people@[e]@.len();
                            &&& #[trigger] l.faces@[e] == if n < MAX_FACES { n } else { MAX_FACES as nat }
                            &&& l.more@[e] == (n > MAX_FACES)
                        }
                },
    {
        let floors = b.floors.len();
        let ne = b.elevators.len();
        let rs = rows(floors);
        let mut out: Vec<RowLayout> = Vec::new();
        let mut k: usize = 0;
        while k < rs.len()
            invariant
                floors == b.nfloors(),
                ne == b.nelevators(),
                floors >= 1,
                floors * 2 <= usize::MAX,
                self.elevator_rows@.len() == ne,
                forall|f: int| 0 <= f < floors ==> (#[trigger] b.floors@[f]).people@.len() == ne,
                rs@.len() == 2 * floors - 1,
                forall|j: int|
                    0 <= j < rs@.len() ==> {
                        let row = 2 * floors - 2 - j;
                        #[trigger] rs@[j] == (row as usize, (row / 2) as usize, row % 2 == 0)
                    },
                k <= rs@.len(),
                out@.len() == k,
                forall|j: int|
                    0 <= j < k ==> {
                        let row = 2 * floors - 2 - j;
                        let l = #[trigger] out@[j];
                        &&& l.label == if row % 2 == 0 { Some((row / 2) as usize) } else { None }
                        &&& l.cars@.len() == ne
                        &&& forall|e: int| 0 <= e < ne ==> #[trigger] l.cars@[e] == (self.elevator_rows@[e] == row)
                        &&& l.faces@.len() == if row % 2 == 0 { ne as int } else { 0 }
                        &&& l.more@.len() == l.faces@.len()
                        &&& forall|e: int|
                            0 <= e < l.faces@.len() ==> {
                                let n = b.floors@[row / 2].people@[e]@.len();
                                &&& #[trigger] l.faces@[e] == if n < MAX_FACES { n } else { MAX_FACES as nat }
                                &&& l.more@[e] == (n > MAX_FACES)
                            }
                    },
            decreases rs@.len() - k,
        {
            let (row, floor, is_floor) = rs[k];
            let mut cars: Vec<bool> = Vec::new();
            let mut e: usize = 0;
            while e < ne
                invariant
                    ne == self.elevator_rows@.len(),
                    e <= ne,
                    cars@.len() == e,
                    forall|x: int| 0 <= x < e ==> #[trigger] cars@[x] == (self.elevator_rows@[x] == row),
                decreases ne - e,
            {
                cars.push(self.elevator_rows[e] == row as u64);
                e = e + 1;
            }
            let mut faces: Vec<usize> = Vec::new();
            let mut more: Vec<bool> = Vec::new();
            if is_floor {
                let ghost q = b.floors@[floor as int].people@;
                let mut e: usize = 0;
                while e < ne
                    invariant
                        q == b.floors@[floor as int].people@,
                        q.len() == ne,
                        floor < b.floors@.len(),
                        e <= ne,
                        faces@.len() == e,
                        more@.len() == e,
                        forall|x: int|
                            0 <= x < e ==> {
                                let n = q[x]@.len();
                                &&& #[trigger] faces@[x] == if n < MAX_FACES { n } else { MAX_FACES as nat }
                                &&& more@[x] == (n > MAX_FACES)
                            },
                    decreases ne - e,
                {
                    let n = b.floors[floor].people[e].len();
                    faces.push(if n < MAX_FACES { n } else { MAX_FACES });
                    more.push(n > MAX_FACES);
                    e = e + 1;
                }
            }
            out.push(RowLayout { label: if is_floor { Some(floor) } else { None }, cars, faces, more });
            k = k + 1;
        }
        out
    }
}

} // verus!
