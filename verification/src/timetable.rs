//! The fixed archipelago: island names, the directed ferry services and the
//! rule that tells when a ferry next leaves.

use vstd::prelude::*;
use vstd::arithmetic::div_mod::{lemma_fundamental_div_mod, lemma_mod_multiples_basic, lemma_mod_pos_bound};

verus! {

/// Number of islands on the map.
pub const ISLAND_COUNT: usize = 6;

/// Number of directed ferry services in the timetable.
pub const FERRY_COUNT: usize = 8;

/// The last minute of the day; nothing departs or arrives later.
pub const DAY_END: u32 = 1440;

/// A directed ferry service: it leaves `from` at minute `first` and then every
/// `every` minutes, and reaches `to` after `travel` minutes.
#[derive(Clone, Copy)]
pub struct Ferry {
    pub from: usize,
    pub to: usize,
    pub first: u32,
    pub every: u32,
    pub travel: u32,
}

/// The timetable, entry by entry.
pub open spec fn spec_ferry(i: int) -> Ferry {
    if i == 0 {
        Ferry { from: 0, to: 1, first: 0, every: 30, travel: 20 }
    } else if i == 1 {
        Ferry { from: 1, to: 0, first: 10, every: 30, travel: 20 }
    } else if i == 2 {
        Ferry { from: 1, to: 2, first: 5, every: 40, travel: 25 }
    } else if i == 3 {
        Ferry { from: 2, to: 3, first: 0, every: 60, travel: 30 }
    } else if i == 4 {
        Ferry { from: 3, to: 4, first: 15, every: 45, travel: 20 }
    } else if i == 5 {
        Ferry { from: 4, to: 5, first: 0, every: 50, travel: 35 }
    } else if i == 6 {
        Ferry { from: 0, to: 5, first: 20, every: 90, travel: 80 }
    } else {
        Ferry { from: 2, to: 0, first: 30, every: 75, travel: 45 }
    }
}

/// Entry `i` of the timetable.
pub fn ferry(i: usize) -> (f: Ferry)
    requires
        i < FERRY_COUNT,
    ensures
        f == spec_ferry(i as int),
{
    if i == 0 {
        Ferry { from: 0, to: 1, first: 0, every: 30, travel: 20 }
    } else if i == 1 {
        Ferry { from: 1, to: 0, first: 10, every: 30, travel: 20 }
    } else if i == 2 {
        Ferry { from: 1, to: 2, first: 5, every: 40, travel: 25 }
    } else if i == 3 {
        Ferry { from: 2, to: 3, first: 0, every: 60, travel: 30 }
    } else if i == 4 {
        Ferry { from: 3, to: 4, first: 15, every: 45, travel: 20 }
    } else if i == 5 {
        Ferry { from: 4, to: 5, first: 0, every: 50, travel: 35 }
    } else if i == 6 {
        Ferry { from: 0, to: 5, first: 20, every: 90, travel: 80 }
    } else {
        Ferry { from: 2, to: 0, first: 30, every: 75, travel: 45 }
    }
}

/// Every timetable entry joins two distinct islands of the map, runs at a
/// positive interval and takes a positive time.
pub proof fn lemma_ferry_well_formed(i: int)
    requires
        0 <= i < FERRY_COUNT,
    ensures
        spec_ferry(i).from < ISLAND_COUNT,
        spec_ferry(i).to < ISLAND_COUNT,
        spec_ferry(i).from != spec_ferry(i).to,
        spec_ferry(i).every > 0,
        spec_ferry(i).travel > 0,
{
}

/// No two timetable entries serve the same ordered pair of islands.
pub proof fn lemma_ferry_unique(i: int, j: int)
    requires
        0 <= i < FERRY_COUNT,
        0 <= j < FERRY_COUNT,
        spec_ferry(i).from == spec_ferry(j).from,
        spec_ferry(i).to == spec_ferry(j).to,
    ensures
        i == j,
{
}

/// The names of the islands, by index.
pub open spec fn spec_island_name(i: int) -> Seq<char> {
    if i == 0 {
        seq!['A', 's', 't', 'e', 'r']
    } else if i == 1 {
        seq!['B', 'r', 'a', 'm', 'b', 'l', 'e']
    } else if i == 2 {
        seq!['C', 'o', 'v', 'e']
    } else if i == 3 {
        seq!['D', 'r', 'i', 'f', 't']
    } else if i == 4 {
        seq!['E', 'm', 'b', 'e', 'r']
    } else {
        seq!['F', 'e', 'n', 'n']
    }
}

/// The name of island `i`.
pub fn island_name(i: usize) -> (name: &'static str)
    requires
        i < ISLAND_COUNT,
    ensures
        name@ == spec_island_name(i as int),
{
    if i == 0 {
        let s = "Aster";
        proof { reveal_strlit("Aster"); }
        assert(s@ =~= spec_island_name(0));
        s
    } else if i == 1 {
        let s = "Bramble";
        proof { reveal_strlit("Bramble"); }
        assert(s@ =~= spec_island_name(1));
        s
    } else if i == 2 {
        let s = "Cove";
        proof { reveal_strlit("Cove"); }
        assert(s@ =~= spec_island_name(2));
        s
    } else if i == 3 {
        let s = "Drift";
        proof { reveal_strlit("Drift"); }
        assert(s@ =~= spec_island_name(3));
        s
    } else if i == 4 {
        let s = "Ember";
        proof { reveal_strlit("Ember"); }
        assert(s@ =~= spec_island_name(4));
        s
    } else {
        let s = "Fenn";
        proof { reveal_strlit("Fenn"); }
        assert(s@ =~= spec_island_name(5));
        s
    }
}

/// `d` is a minute at which ferry `f` leaves: its first departure, or a whole
/// number of intervals after it.
pub open spec fn scheduled(f: Ferry, d: int) -> bool {
    &&& f.first <= d
    &&& (d - f.first) % (f.every as int) == 0
}

/// The first scheduled departure of `f` at or after minute `r`.
pub open spec fn next_departure(f: Ferry, r: int) -> int {
    if r <= f.first {
        f.first as int
    } else {
        f.first + ((r - f.first + f.every - 1) / (f.every as int)) * f.every
    }
}

/// `next_departure` is scheduled, not before `r`, and no scheduled departure
/// at or after `r` comes before it.
pub proof fn lemma_next_departure(f: Ferry, r: int)
    requires
        f.every > 0,
    ensures
        scheduled(f, next_departure(f, r)),
        r <= next_departure(f, r),
        forall|d: int| scheduled(f, d) && r <= d ==> next_departure(f, r) <= d,
{
    let e = f.every as int;
    let first = f.first as int;
    if r <= first {
        assert(0int % e == 0) by {
            lemma_mod_multiples_basic(0, e);
        }
        assert forall|d: int| scheduled(f, d) && r <= d implies next_departure(f, r) <= d by {}
    } else {
        let x = r - first;
        let k = (x + e - 1) / e;
        let m = (x + e - 1) % e;
        lemma_fundamental_div_mod(x + e - 1, e);
        lemma_mod_pos_bound(x + e - 1, e);
        assert(x + e - 1 == k * e + m) by(nonlinear_arith)
            requires
                x + e - 1 == e * k + m,
        ;
        assert(k * e >= x);
        assert((k * e) % e == 0) by {
            lemma_mod_multiples_basic(k, e);
        }
        assert(next_departure(f, r) == first + k * e);
        assert(next_departure(f, r) - first == k * e);
        assert forall|d: int| scheduled(f, d) && r <= d implies next_departure(f, r) <= d by {
            let j = (d - first) / e;
            lemma_fundamental_div_mod(d - first, e);
            assert(d - first == j * e) by(nonlinear_arith)
                requires
                    d - first == e * j + (d - first) % e,
                    (d - first) % e == 0,
            ;
            assert(k * e <= j * e) by(nonlinear_arith)
                requires
                    x + e - 1 == k * e + m,
                    0 <= m < e,
                    x <= j * e,
                    e > 0,
            ;
        }
    }
}

/// The next departure of `ferry` at or after minute `now`, if it leaves
/// within the day.
pub fn depart(now: u32, ferry: Ferry) -> (r: Option<u32>)
    requires
        ferry.every > 0,
    ensures
        match r {
            Some(d) => {
                &&& scheduled(ferry, d as int)
                &&& now <= d <= DAY_END
                &&& forall|e: int| scheduled(ferry, e) && now <= e ==> d <= e
                &&& d == next_departure(ferry, now as int)
            },
            None => forall|e: int| scheduled(ferry, e) && now <= e ==> e > DAY_END,
        },
{
    proof {
        lemma_next_departure(ferry, now as int);
    }
    let first = ferry.first as u64;
    let every = ferry.every as u64;
    let now64 = now as u64;
    let d: u64 = if now64 <= first {
        first
    } else {
        let x: u64 = now64 - first + every - 1;
        let k: u64 = x / every;
        proof {
            lemma_fundamental_div_mod(x as int, every as int);
            lemma_mod_pos_bound(x as int, every as int);
            assert(k * every <= x) by(nonlinear_arith)
                requires
                    x == every * k + (x % every),
                    0 <= x % every,
            ;
        }
        first + k * every
    };
    assert(d == next_departure(ferry, now as int));
    if d <= 1440 {
        Some(d as u32)
    } else {
        None
    }
}

} // verus!
