pub mod bogo;
pub mod chatgpt;
pub mod gemini;
pub mod gemini2;
pub mod greedy_utilitarian;
pub mod scan;
pub mod simple;

pub use bogo::Bogo;
pub use chatgpt::OpenAi;
pub use gemini::Gemini;
pub use gemini2::Gemini2;
pub use greedy_utilitarian::GreedyUtilitarian;
pub use scan::Scan;
pub use simple::Simple;

use crate::building::{Building, Person};
use crate::policy::{Decision, Policy};
use vstd::prelude::*;

verus! {

/// The names of all policies.
pub const ALL: [&'static str; 7] = ["Bogo", "OpenAi", "Gemini", "Gemini2", "GreedyUtilitarian", "Scan", "Simple"];

/// The policies that run when none are named.
pub const DEFAULT: [&'static str; 3] = ["GreedyUtilitarian", "Gemini2", "OpenAi"];

/// One of the policies, chosen by name.
pub enum AnyPolicy {
    Bogo(Bogo),
    OpenAi(OpenAi),
    Gemini(Gemini),
    Gemini2(Gemini2),
    GreedyUtilitarian(GreedyUtilitarian),
    Scan(Scan),
    Simple(Simple),
}

/// The policy called `name` can control a building of this shape.
pub open spec fn supports_named(name: Seq<char>, floors: int, elevators: int) -> bool {
    ||| name == "Bogo"@ && Bogo::supports(floors, elevators)
    ||| name == "OpenAi"@ && OpenAi::supports(floors, elevators)
    ||| name == "Gemini"@ && Gemini::supports(floors, elevators)
    ||| name == "Gemini2"@ && Gemini2::supports(floors, elevators)
    ||| name == "GreedyUtilitarian"@ && GreedyUtilitarian::supports(floors, elevators)
    ||| name == "Scan"@ && Scan::supports(floors, elevators)
    ||| name == "Simple"@ && Simple::supports(floors, elevators)
}

impl AnyPolicy {
    /// The name of the policy.
    pub open spec fn spec_name(&self) -> Seq<char> {
        match self {
            AnyPolicy::Bogo(_) => "Bogo"@,
            AnyPolicy::OpenAi(_) => "OpenAi"@,
            AnyPolicy::Gemini(_) => "Gemini"@,
            AnyPolicy::Gemini2(_) => "Gemini2"@,
            AnyPolicy::GreedyUtilitarian(_) => "GreedyUtilitarian"@,
            AnyPolicy::Scan(_) => "Scan"@,
            AnyPolicy::Simple(_) => "Simple"@,
        }
    }
}

/// The policies have different names.
proof fn lemma_names_distinct()
    ensures
        "Bogo"@ != "OpenAi"@ && "Bogo"@ != "Gemini"@ && "Bogo"@ != "Gemini2"@ && "Bogo"@ != "GreedyUtilitarian"@
            && "Bogo"@ != "Scan"@ && "Bogo"@ != "Simple"@,
        "OpenAi"@ != "Gemini"@ && "OpenAi"@ != "Gemini2"@ && "OpenAi"@ != "GreedyUtilitarian"@ && "OpenAi"@ != "Scan"@
            && "OpenAi"@ != "Simple"@,
        "Gemini"@ != "Gemini2"@ && "Gemini"@ != "GreedyUtilitarian"@ && "Gemini"@ != "Scan"@ && "Gemini"@ != "Simple"@,
        "Gemini2"@ != "GreedyUtilitarian"@ && "Gemini2"@ != "Scan"@ && "Gemini2"@ != "Simple"@,
        "GreedyUtilitarian"@ != "Scan"@ && "GreedyUtilitarian"@ != "Simple"@,
        "Scan"@ != "Simple"@,
{
    reveal_strlit("Bogo");
    reveal_strlit("OpenAi");
    reveal_strlit("Gemini");
    reveal_strlit("Gemini2");
    reveal_strlit("GreedyUtilitarian");
    reveal_strlit("Scan");
    reveal_strlit("Simple");
    assert("Bogo"@.len() == 4 && "Bogo"@[0] == 'B');
    assert("OpenAi"@.len() == 6 && "OpenAi"@[0] == 'O');
    assert("Gemini"@.len() == 6 && "Gemini"@[0] == 'G');
    assert("Gemini2"@.len() == 7);
    assert("GreedyUtilitarian"@.len() == 17);
    assert("Scan"@.len() == 4 && "Scan"@[0] == 'S');
    assert("Simple"@.len() == 6 && "Simple"@[0] == 'S');
}

/// `a` and `b` are the same text.
fn same_name(a: &str, b: &str) -> (r: bool)
    ensures
        r == (a@ == b@),
{
    a.to_owned() == b.to_owned()
}

/// The policy called `name` for building `b`; `None` when no policy has
/// that name or the policy cannot control a building of its shape.
pub fn new(name: &str, b: &Building) -> (r: Option<AnyPolicy>)
    requires
        b.runnable(),
    ensures
        r is Some <==> supports_named(name@, b.nfloors(), b.nelevators()),
        r matches Some(p) ==> p.spec_name() == name@ && p.inv(b.nfloors(), b.nelevators(), b.prev_time as int),
{
    let floors = b.floors.len();
    let elevators = b.elevators.len();
    proof {
        lemma_names_distinct();
    }
    if same_name(name, "Bogo") {
        if floors >= 2 && elevators <= floors {
            Some(AnyPolicy::Bogo(Bogo::new(b)))
        } else {
            None
        }
    } else if same_name(name, "OpenAi") {
        if 1 <= floors && floors <= 64 {
            Some(AnyPolicy::OpenAi(OpenAi::new(b)))
        } else {
            None
        }
    } else if same_name(name, "Gemini") {
        if floors >= 1 {
            Some(AnyPolicy::Gemini(Gemini::new(b)))
        } else {
            None
        }
    } else if same_name(name, "Gemini2") {
        if floors >= 1 {
            Some(AnyPolicy::Gemini2(Gemini2::new(b)))
        } else {
            None
        }
    } else if same_name(name, "GreedyUtilitarian") {
        if floors.checked_mul(floors).is_some() {
            Some(AnyPolicy::GreedyUtilitarian(GreedyUtilitarian::new(b)))
        } else {
            None
        }
    } else if same_name(name, "Scan") {
        if floors >= 2 {
            Some(AnyPolicy::Scan(Scan::new(b)))
        } else {
            None
        }
    } else if same_name(name, "Simple") {
        if floors >= 1 {
            Some(AnyPolicy::Simple(Simple::new(b)))
        } else {
            None
        }
    } else {
        None
    }
}

impl Policy for AnyPolicy {
    open spec fn supports(floors: int, elevators: int) -> bool {
        ||| Bogo::supports(floors, elevators)
        ||| OpenAi::supports(floors, elevators)
        ||| Gemini::supports(floors, elevators)
        ||| Gemini2::supports(floors, elevators)
        ||| GreedyUtilitarian::supports(floors, elevators)
        ||| Scan::supports(floors, elevators)
        ||| Simple::supports(floors, elevators)
    }

    open spec fn inv(&self, floors: int, elevators: int, now: int) -> bool {
        match self {
            AnyPolicy::Bogo(p) => p.inv(floors, elevators, now),
            AnyPolicy::OpenAi(p) => p.inv(floors, elevators, now),
            AnyPolicy::Gemini(p) => p.inv(floors, elevators, now),
            AnyPolicy::Gemini2(p) => p.inv(floors, elevators, now),
            AnyPolicy::GreedyUtilitarian(p) => p.inv(floors, elevators, now),
            AnyPolicy::Scan(p) => p.inv(floors, elevators, now),
            AnyPolicy::Simple(p) => p.inv(floors, elevators, now),
        }
    }

    /// The policy of this name decides, as its own `request` does.
    open spec fn requested(&self, after: &Self, b: &Building, d0: &Decision, d1: &Decision, person: &Person, e: usize) -> bool {
        match (*self, *after) {
            (AnyPolicy::Bogo(p0), AnyPolicy::Bogo(p1)) => p0.requested(&p1, b, d0, d1, person, e),
            (AnyPolicy::OpenAi(p0), AnyPolicy::OpenAi(p1)) => p0.requested(&p1, b, d0, d1, person, e),
            (AnyPolicy::Gemini(p0), AnyPolicy::Gemini(p1)) => p0.requested(&p1, b, d0, d1, person, e),
            (AnyPolicy::Gemini2(p0), AnyPolicy::Gemini2(p1)) => p0.requested(&p1, b, d0, d1, person, e),
            (AnyPolicy::GreedyUtilitarian(p0), AnyPolicy::GreedyUtilitarian(p1)) => p0.requested(&p1, b, d0, d1, person, e),
            (AnyPolicy::Scan(p0), AnyPolicy::Scan(p1)) => p0.requested(&p1, b, d0, d1, person, e),
            (AnyPolicy::Simple(p0), AnyPolicy::Simple(p1)) => p0.requested(&p1, b, d0, d1, person, e),
            _ => false,
        }
    }

    /// The policy of this name decides, as its own `arrival` does.
    open spec fn arrived(&self, after: &Self, b: &Building, d0: &Decision, d1: &Decision, elevator: usize) -> bool {
        match (*self, *after) {
            (AnyPolicy::Bogo(p0), AnyPolicy::Bogo(p1)) => p0.arrived(&p1, b, d0, d1, elevator),
            (AnyPolicy::OpenAi(p0), AnyPolicy::OpenAi(p1)) => p0.arrived(&p1, b, d0, d1, elevator),
            (AnyPolicy::Gemini(p0), AnyPolicy::Gemini(p1)) => p0.arrived(&p1, b, d0, d1, elevator),
            (AnyPolicy::Gemini2(p0), AnyPolicy::Gemini2(p1)) => p0.arrived(&p1, b, d0, d1, elevator),
            (AnyPolicy::GreedyUtilitarian(p0), AnyPolicy::GreedyUtilitarian(p1)) => p0.arrived(&p1, b, d0, d1, elevator),
            (AnyPolicy::Scan(p0), AnyPolicy::Scan(p1)) => p0.arrived(&p1, b, d0, d1, elevator),
            (AnyPolicy::Simple(p0), AnyPolicy::Simple(p1)) => p0.arrived(&p1, b, d0, d1, elevator),
            _ => false,
        }
    }

    /// No policy acts on a wait coming due.
    open spec fn wait_handled(&self, after: &Self, b: &Building, d0: &Decision, d1: &Decision, elevator: usize) -> bool {
        *after == *self && *d1 == *d0
    }

    proof fn lemma_inv_later(&self, floors: int, elevators: int, t1: int, t2: int) {
        match self {
            AnyPolicy::Bogo(p) => p.lemma_inv_later(floors, elevators, t1, t2),
            AnyPolicy::OpenAi(p) => p.lemma_inv_later(floors, elevators, t1, t2),
            AnyPolicy::Gemini(p) => p.lemma_inv_later(floors, elevators, t1, t2),
            AnyPolicy::Gemini2(p) => p.lemma_inv_later(floors, elevators, t1, t2),
            AnyPolicy::GreedyUtilitarian(p) => p.lemma_inv_later(floors, elevators, t1, t2),
            AnyPolicy::Scan(p) => p.lemma_inv_later(floors, elevators, t1, t2),
            AnyPolicy::Simple(p) => p.lemma_inv_later(floors, elevators, t1, t2),
        }
    }

    proof fn lemma_inv_supports(&self, floors: int, elevators: int, now: int) {
        match self {
            AnyPolicy::Bogo(p) => p.lemma_inv_supports(floors, elevators, now),
            AnyPolicy::OpenAi(p) => p.lemma_inv_supports(floors, elevators, now),
            AnyPolicy::Gemini(p) => p.lemma_inv_supports(floors, elevators, now),
            AnyPolicy::Gemini2(p) => p.lemma_inv_supports(floors, elevators, now),
            AnyPolicy::GreedyUtilitarian(p) => p.lemma_inv_supports(floors, elevators, now),
            AnyPolicy::Scan(p) => p.lemma_inv_supports(floors, elevators, now),
            AnyPolicy::Simple(p) => p.lemma_inv_supports(floors, elevators, now),
        }
    }

    /// The simple policy where it can run; the greedy one on a building
    /// without floors.
    fn new(b: &Building) -> (p: Self)
        ensures
            p.spec_name() == (if b.nfloors() >= 1 { "Simple"@ } else { "GreedyUtilitarian"@ }),
    {
        if b.floors.len() >= 1 {
            AnyPolicy::Simple(Simple::new(b))
        } else {
            AnyPolicy::GreedyUtilitarian(GreedyUtilitarian::new(b))
        }
    }

    fn request(&mut self, b: &Building, decision: &mut Decision, person: &Person) -> (e: usize) {
        match self {
            AnyPolicy::Bogo(p) => p.request(b, decision, person),
            AnyPolicy::OpenAi(p) => p.request(b, decision, person),
            AnyPolicy::Gemini(p) => p.request(b, decision, person),
            AnyPolicy::Gemini2(p) => p.request(b, decision, person),
            AnyPolicy::GreedyUtilitarian(p) => p.request(b, decision, person),
            AnyPolicy::Scan(p) => p.request(b, decision, person),
            AnyPolicy::Simple(p) => p.request(b, decision, person),
        }
    }

    fn arrival(&mut self, b: &Building, decision: &mut Decision, elevator: usize) {
        match self {
            AnyPolicy::Bogo(p) => p.arrival(b, decision, elevator),
            AnyPolicy::OpenAi(p) => p.arrival(b, decision, elevator),
            AnyPolicy::Gemini(p) => p.arrival(b, decision, elevator),
            AnyPolicy::Gemini2(p) => p.arrival(b, decision, elevator),
            AnyPolicy::GreedyUtilitarian(p) => p.arrival(b, decision, elevator),
            AnyPolicy::Scan(p) => p.arrival(b, decision, elevator),
            AnyPolicy::Simple(p) => p.arrival(b, decision, elevator),
        }
    }

    fn waited(&mut self, b: &Building, decision: &mut Decision, elevator: usize) {
        match self {
            AnyPolicy::Bogo(p) => p.waited(b, decision, elevator),
            AnyPolicy::OpenAi(p) => p.waited(b, decision, elevator),
            AnyPolicy::Gemini(p) => p.waited(b, decision, elevator),
            AnyPolicy::Gemini2(p) => p.waited(b, decision, elevator),
            AnyPolicy::GreedyUtilitarian(p) => p.waited(b, decision, elevator),
            AnyPolicy::Scan(p) => p.waited(b, decision, elevator),
            AnyPolicy::Simple(p) => p.waited(b, decision, elevator),
        }
    }
}

} // verus!
