use crate::building::Person;
use crate::simulation::Simulation;
use crate::traffic::Traffic;
use vstd::prelude::*;
use vstd::string::StringExecFns;

verus! {

/// The character of a decimal digit.
pub open spec fn digit(d: nat) -> char {
    (48 + d) as char
}

/// The decimal digits of `n`, most significant first.
pub open spec fn decimal(n: nat) -> Seq<char>
    decreases n,
{
    if n < 10 {
        seq![digit(n)]
    } else {
        decimal(n / 10).push(digit(n % 10))
    }
}

/// `n` written in decimal.
///
/// Calls `itoa::Buffer::format`, which writes an integer in decimal with
/// no sign, padding or separators; the contract states that.
#[verifier::external_body]
fn decimal_text(n: usize) -> (s: String)
    ensures
        s@ == decimal(n as nat),
{
    itoa::Buffer::new().format(n).to_owned()
}

/// The label of floor `i`: its number right-aligned in two places, then a
/// space.
pub open spec fn floor_label(i: nat) -> Seq<char> {
    let d = decimal(i);
    (if d.len() < 2 { seq![' '] + d } else { d }) + seq![' ']
}

/// The row of an elevator at `pos`: floors are on even rows, the gaps
/// between them on odd rows; the elevator shows on the nearest.
pub open spec fn elevator_row(pos: u64, tpf: u64) -> int {
    (pos * 2 + tpf / 2) / tpf as int
}

/// The text for an elevator with `n` passengers.
pub open spec fn passengers_text(n: nat) -> Seq<char> {
    seq!['['] + decimal(n) + seq![']', ' ']
}

/// The text for `n` more people than the faces shown.
pub open spec fn more_text(n: nat) -> Seq<char> {
    seq!['+'] + decimal(n)
}

/// Position of floor `f` and elevator `e` in a table with a row of
/// `elevators` cells per floor.
pub open spec fn cell(f: int, e: int, elevators: int) -> int {
    f * elevators + e
}

/// The faces shown per elevator and floor at most.
pub const MAX_FACES: usize = 6;

/// The text of a building's drawing: floor labels, the passengers of each
/// elevator, the people beyond those shown per floor and elevator, the
/// title, and the row of each elevator.
pub struct Visualization {
    pub floor_labels: Vec<String>,
    pub elevator_bufs: Vec<String>,
    pub plus_bufs: Vec<String>,
    pub title: String,
    pub elevator_rows: Vec<u64>,
}

/// `n` empty texts.
fn empty_texts(n: usize) -> (r: Vec<String>)
    ensures
        r@.len() == n,
        forall|i: int| 0 <= i < n ==> (#[trigger] r@[i])@ == Seq::<char>::empty(),
{
    let mut r: Vec<String> = Vec::new();
    let mut i: usize = 0;
    while i < n
        invariant
            i <= n,
            r@.len() == i,
            forall|j: int| 0 <= j < i ==> (#[trigger] r@[j])@ == Seq::<char>::empty(),
        decreases n - i,
    {
        r.push(String::new());
        i = i + 1;
    }
    r
}

/// Rows of the drawing from the top: the row number, the floor it belongs
/// to, and whether it is the floor itself rather than the gap above it.
pub fn rows(floors: usize) -> (r: Vec<(usize, usize, bool)>)
    requires
        1 <= floors,
        floors * 2 <= usize::MAX,
    ensures
        r@.len() == 2 * floors - 1,
        forall|k: int|
            0 <= k < r@.len() ==> {
                let row = 2 * floors - 2 - k;
                #[trigger] r@[k] == (row as usize, (row / 2) as usize, row % 2 == 0)
            },
{
    let n = floors * 2 - 1;
    let mut r: Vec<(usize, usize, bool)> = Vec::new();
    let mut k: usize = 0;
    while k < n
        invariant
            n == 2 * floors - 1,
            k <= n,
            r@.len() == k,
            forall|j: int|
                0 <= j < k ==> {
                    let row = 2 * floors - 2 - j;
                    #[trigger] r@[j] == (row as usize, (row / 2) as usize, row % 2 == 0)
                },
        decreases n - k,
    {
        let row = n - 1 - k;
        r.push((row, row / 2, row % 2 == 0));
        k = k + 1;
    }
    r
}

impl Visualization {
    /// The drawing of a building with `floors` floors and `elevators`
    /// elevators, before any update.
    pub fn new(floors: usize, elevators: usize) -> (v: Self)
        requires
            floors * elevators <= usize::MAX,
        ensures
            v.floor_labels@.len() == floors,
            forall|i: int| 0 <= i < floors ==> (#[trigger] v.floor_labels@[i])@ == floor_label(i as nat),
            v.elevator_bufs@.len() == elevators,
            forall|i: int| 0 <= i < elevators ==> (#[trigger] v.elevator_bufs@[i])@ == Seq::<char>::empty(),
            v.plus_bufs@.len() == floors * elevators,
            forall|i: int| 0 <= i < floors * elevators ==> (#[trigger] v.plus_bufs@[i])@ == Seq::<char>::empty(),
            v.title@ == Seq::<char>::empty(),
            v.elevator_rows@ == Seq::new(elevators as nat, |i: int| 0u64),
    {
        let mut floor_labels: Vec<String> = Vec::new();
        let mut i: usize = 0;
        while i < floors
            invariant
                i <= floors,
                floor_labels@.len() == i,
                forall|j: int| 0 <= j < i ==> (#[trigger] floor_labels@[j])@ == floor_label(j as nat),
            decreases floors - i,
        {
            let digits = decimal_text(i);
            let mut label = String::new();
            proof {
                reveal_strlit(" ");
            }
            if digits.as_str().unicode_len() < 2 {
                label.append(" ");
            }
            label.append(digits.as_str());
            label.append(" ");
            proof {
                assert(label@ =~= floor_label(i as nat));
            }
            floor_labels.push(label);
            i = i + 1;
        }
        let mut elevator_rows: Vec<u64> = Vec::new();
        let mut j: usize = 0;
        while j < elevators
            invariant
                j <= elevators,
                elevator_rows@ == Seq::new(j as nat, |i: int| 0u64),
            decreases elevators - j,
        {
            elevator_rows.push(0);
            proof {
                assert(elevator_rows@ =~= Seq::new((j + 1) as nat, |i: int| 0u64));
            }
            j = j + 1;
        }
        Visualization {
            floor_labels,
            elevator_bufs: empty_texts(elevators),
            plus_bufs: empty_texts(floors * elevators),
            title: String::new(),
            elevator_rows,
        }
    }

    /// Sets the title for the policy called `name`.
    fn title(&mut self, name: &str)
        ensures
            final(self).title@ == "Visualization ("@ + name@ + ")"@,
            final(self).floor_labels == old(self).floor_labels,
            final(self).elevator_bufs == old(self).elevator_bufs,
            final(self).plus_bufs == old(self).plus_bufs,
            final(self).elevator_rows == old(self).elevator_rows,
    {
        let mut t = String::new();
        t.append("Visualization (");
        t.append(name);
        t.append(")");
        proof {
            assert(t@ =~= "Visualization ("@ + name@ + ")"@);
        }
        self.title = t;
    }

    /// Brings the drawing up to date with the simulation of the policy
    /// called `name`: each elevator's row and passenger count, and for each
    /// floor and elevator the number of waiting people beyond those shown.
    pub fn update<T: Traffic>(&mut self, sim: &Simulation<T>, name: &str)
        requires
            sim.wf(),
            sim.building.nfloors() >= 1,
            old(self).elevator_rows@.len() == sim.building.nelevators(),
            old(self).elevator_bufs@.len() == sim.building.nelevators(),
            old(self).plus_bufs@.len() == sim.building.nfloors() * sim.building.nelevators(),
        ensures
            final(self).title@ == "Visualization ("@ + name@ + ")"@,
            final(self).floor_labels == old(self).floor_labels,
            final(self).elevator_rows@.len() == sim.building.nelevators(),
            final(self).elevator_bufs@.len() == sim.building.nelevators(),
            final(self).plus_bufs@.len() == old(self).plus_bufs@.len(),
            forall|e: int|
                0 <= e < sim.building.nelevators() ==> {
                    let el = sim.building.elevators@[e];
                    &&& #[trigger] final(self).elevator_rows@[e] == elevator_row(el.pos, sim.building.time_per_floor)
                    &&& final(self).elevator_bufs@[e]@ == passengers_text(el.passengers@.len())
                },
            forall|f: int, e: int|
                0 <= f < sim.building.nfloors() && 0 <= e < sim.building.nelevators() ==> (#[trigger] final(self).plus_bufs@[cell(f, e, sim.building.nelevators())])@ == if sim.building.floors@[f].people@[e]@.len()
                    > MAX_FACES {
                    more_text((sim.building.floors@[f].people@[e]@.len() - MAX_FACES) as nat)
                } else {
                    old(self).plus_bufs@[cell(f, e, sim.building.nelevators())]@
                },
    {
        let building = &sim.building;
        let floors = building.num_floors();
        let tpf = building.time_per_floor();
        let ne = building.elevators.len();
        let mut i: usize = 0;
        while i < ne
            invariant
                sim.wf(),
                building == sim.building,
                building.nfloors() >= 1,
                tpf == building.time_per_floor,
                ne == building.nelevators(),
                i <= ne,
                self.elevator_rows@.len() == ne,
                self.elevator_bufs@.len() == ne,
                self.plus_bufs == old(self).plus_bufs,
                self.floor_labels == old(self).floor_labels,
                forall|e: int|
                    0 <= e < i ==> {
                        let el = building.elevators@[e];
                        &&& #[trigger] self.elevator_rows@[e] == elevator_row(el.pos, tpf)
                        &&& self.elevator_bufs@[e]@ == passengers_text(el.passengers@.len())
                    },
            decreases ne - i,
        {
            let e = &building.elevators[i];
            proof {
                assert(building.elevator_ok(building.elevators@[i as int]));
                crate::building::lemma_floor_position(
                    building.nfloors() - 1,
                    building.nfloors(),
                    tpf as int,
                );
            }
            let row = (e.pos * 2 + tpf / 2) / tpf;
            self.elevator_rows.set(i, row);
            let count = decimal_text(e.passengers.len());
            let mut buf = String::new();
            buf.append("[");
            buf.append(count.as_str());
            buf.append("] ");
            proof {
                reveal_strlit("[");
                reveal_strlit("] ");
                assert(buf@ =~= passengers_text(e.passengers@.len()));
            }
            self.elevator_bufs.set(i, buf);
            i = i + 1;
        }
        assert(forall|e: int|
            0 <= e < ne ==> {
                let el = building.elevators@[e];
                &&& #[trigger] self.elevator_rows@[e] == elevator_row(el.pos, tpf)
                &&& self.elevator_bufs@[e]@ == passengers_text(el.passengers@.len())
            });
        let ghost rows_done = self.elevator_rows;
        let ghost bufs_done = self.elevator_bufs;
        let total = self.plus_bufs.len();
        let mut f: usize = 0;
        while f < floors
            invariant
                sim.wf(),
                building == sim.building,
                floors == building.nfloors(),
                ne == building.nelevators(),
                f <= floors,
                total == floors * ne,
                self.plus_bufs@.len() == floors * ne,
                self.elevator_rows == rows_done,
                self.elevator_bufs == bufs_done,
                self.floor_labels == old(self).floor_labels,
                forall|g: int, e: int|
                    0 <= g < floors && 0 <= e < ne ==> (#[trigger] self.plus_bufs@[cell(g, e, ne as int)])@ == if g < f
                        && building.floors@[g].people@[e]@.len() > MAX_FACES {
                        more_text((building.floors@[g].people@[e]@.len() - MAX_FACES) as nat)
                    } else {
                        old(self).plus_bufs@[cell(g, e, ne as int)]@
                    },
            decreases floors - f,
        {
            let mut e: usize = 0;
            while e < ne
                invariant
                    sim.wf(),
                    building == sim.building,
                    floors == building.nfloors(),
                    ne == building.nelevators(),
                    f < floors,
                    e <= ne,
                    total == floors * ne,
                    self.plus_bufs@.len() == floors * ne,
                    self.elevator_rows == rows_done,
                    self.elevator_bufs == bufs_done,
                    self.floor_labels == old(self).floor_labels,
                    forall|g: int, x: int|
                        0 <= g < floors && 0 <= x < ne ==> (#[trigger] self.plus_bufs@[cell(g, x, ne as int)])@ == if (g < f
                            || (g == f && x < e)) && building.floors@[g].people@[x]@.len() > MAX_FACES {
                            more_text((building.floors@[g].people@[x]@.len() - MAX_FACES) as nat)
                        } else {
                            old(self).plus_bufs@[cell(g, x, ne as int)]@
                        },
                decreases ne - e,
            {
                proof {
                    assert(building.floor_ok(f as int));
                    lemma_cell(f as int, e as int, floors as int, ne as int);
                }
                let count = building.waiting_for_elevator(f, e);
                if count > MAX_FACES {
                    let i = f * ne + e;
                    let more = decimal_text(count - MAX_FACES);
                    let mut buf = String::new();
                    buf.append("+");
                    buf.append(more.as_str());
                    proof {
                        reveal_strlit("+");
                        assert(buf@ =~= more_text((count - MAX_FACES) as nat));
                    }
                    let ghost before = self.plus_bufs@;
                    self.plus_bufs.set(i, buf);
                    proof {
                        assert(cell(f as int, e as int, ne as int) == i);
                        assert(self.plus_bufs@[i as int]@ == more_text((count - MAX_FACES) as nat));
                        assert forall|g: int, x: int|
                            0 <= g < floors && 0 <= x < ne && (g != f || x != e) implies #[trigger] self.plus_bufs@[cell(
                            g,
                            x,
                            ne as int,
                        )] == before[cell(g, x, ne as int)] by {
                            lemma_cell_distinct(g, x, f as int, e as int, ne as int);
                            lemma_cell(g, x, floors as int, ne as int);
                        }
                    }
                }
                e = e + 1;
            }
            f = f + 1;
        }
        self.title(name);
    }
}

/// The cell of floor `f` and elevator `e` lies in the table.
proof fn lemma_cell(f: int, e: int, floors: int, elevators: int)
    by (nonlinear_arith)
    requires
        0 <= f < floors,
        0 <= e < elevators,
    ensures
        0 <= f * elevators + e < floors * elevators,
{
}

/// Different cells of the table have different positions.
proof fn lemma_cell_distinct(g: int, x: int, f: int, e: int, elevators: int)
    by (nonlinear_arith)
    requires
        0 <= x < elevators,
        0 <= e < elevators,
        g != f || x != e,
    ensures
        g * elevators + x != f * elevators + e,
{
}

} // verus!
