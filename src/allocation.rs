use vstd::prelude::*;

use rand::seq::SliceRandom;

use crate::error::SeatError;
use crate::labels::{label_of, seat_label};

verus! {

/// What a sequence of strings holds, as character sequences.
pub open spec fn views(s: Seq<String>) -> Seq<Seq<char>> {
    s.map_values(|x: String| x@)
}

/// A seating plan as pairs of character sequences.
pub open spec fn pairs_view(s: Seq<(String, String)>) -> Seq<(Seq<char>, Seq<char>)> {
    s.map_values(|p: (String, String)| (p.0@, p.1@))
}

/// The labels that a caller excludes, duplicates collapsed.
pub open spec fn excluded_set(excluded: Seq<String>) -> Set<Seq<char>> {
    views(excluded).to_set()
}

/// Whether `students` fit into `capacity` seats once the labels of `ex` are taken out.
pub open spec fn fits(students: nat, capacity: nat, ex: Set<Seq<char>>) -> bool {
    students + ex.len() <= capacity
}

/// Whether seat `o` takes the next student, given the seats already taken among `1..o`.
pub open spec fn takes_student(prefix: char, k: nat, ex: Set<Seq<char>>, o: nat, taken: nat) -> bool {
    !ex.contains(label_of(prefix, o)) && taken < k
}

/// The seats among `1..=i`, in ascending order, that receive one of `k` students: the free
/// ones, that is not excluded, up to the `k`-th.
pub open spec fn seated(prefix: char, k: nat, ex: Set<Seq<char>>, i: nat) -> Seq<nat>
    decreases i,
{
    if i == 0 {
        Seq::empty()
    } else {
        let s = seated(prefix, k, ex, (i - 1) as nat);
        if takes_student(prefix, k, ex, i, s.len()) {
            s.push(i)
        } else {
            s
        }
    }
}

/// The seats among `1..=i`, in ascending order, that stay empty.
pub open spec fn unseated(prefix: char, k: nat, ex: Set<Seq<char>>, i: nat) -> Seq<nat>
    decreases i,
{
    if i == 0 {
        Seq::empty()
    } else {
        let u = unseated(prefix, k, ex, (i - 1) as nat);
        if takes_student(prefix, k, ex, i, seated(prefix, k, ex, (i - 1) as nat).len()) {
            u
        } else {
            u.push(i)
        }
    }
}

/// The pairs of the seated students: the `j`-th free seat gets the `j`-th name.
pub open spec fn paired_block(names: Seq<Seq<char>>, s: Seq<nat>, prefix: char) -> Seq<(Seq<char>, Seq<char>)> {
    Seq::new(s.len(), |j: int| (label_of(prefix, s[j]), names[j]))
}

/// The pairs of the seats left empty.
pub open spec fn filler_block(u: Seq<nat>, prefix: char) -> Seq<(Seq<char>, Seq<char>)> {
    Seq::new(u.len(), |j: int| (label_of(prefix, u[j]), Seq::<char>::empty()))
}

/// The seating of `names`, in this order, over seats `1..=capacity`: the seated pairs in
/// ascending seat order, then each remaining seat with an empty name.
pub open spec fn seating(names: Seq<Seq<char>>, capacity: nat, ex: Set<Seq<char>>, prefix: char) -> Seq<(Seq<char>, Seq<char>)> {
    paired_block(names, seated(prefix, names.len(), ex, capacity), prefix)
        + filler_block(unseated(prefix, names.len(), ex, capacity), prefix)
}

/// Whether `e` reports that `students` did not fit.
pub open spec fn is_capacity_failure(e: SeatError, students: nat, capacity: nat, ex: Set<Seq<char>>) -> bool {
    match e {
        SeatError::CapacityFailure { students: s, seats: c, excluded: x } =>
            s == students && c == capacity && x == ex.len(),
        _ => false,
    }
}

fn contains_str(v: &Vec<String>, s: &String) -> (r: bool)
    ensures
        r == views(v@).contains(s@),
{
    let mut i: usize = 0;
    while i < v.len()
        invariant
            i <= v@.len(),
            forall|j: int| 0 <= j < i ==> v@[j]@ != s@,
        decreases v@.len() - i,
    {
        if v[i] == *s {
            assert(views(v@)[i as int] == s@);
            return true;
        }
        i = i + 1;
    }
    proof {
        if views(v@).contains(s@) {
            let j = choose|j: int| 0 <= j < views(v@).len() && views(v@)[j] == s@;
            assert(v@[j]@ == s@);
        }
    }
    false
}

/// The excluded labels with duplicates taken out.
fn distinct_labels(excluded: &[String]) -> (r: Vec<String>)
    ensures
        views(r@).no_duplicates(),
        views(r@).to_set() == excluded_set(excluded@),
{
    let mut r: Vec<String> = Vec::new();
    let mut i: usize = 0;
    while i < excluded.len()
        invariant
            i <= excluded@.len(),
            views(r@).no_duplicates(),
            views(r@).to_set() == views(excluded@.subrange(0, i as int)).to_set(),
        decreases excluded@.len() - i,
    {
        let ghost before = views(r@);
        let ghost prev = views(excluded@.subrange(0, i as int));
        let e = &excluded[i];
        let ghost now = views(excluded@.subrange(0, i + 1));
        assert(now =~= prev.push(e@));
        if !contains_str(&r, e) {
            r.push(e.clone());
            assert(views(r@) =~= before.push(e@));
            proof {
                assert(views(r@).no_duplicates()) by {
                    assert forall|a: int, b: int| 0 <= a < b < views(r@).len() implies views(r@)[a] != views(r@)[b] by {
                        if b == before.len() {
                            assert(views(r@)[a] == before[a]);
                        } else {
                            assert(views(r@)[a] == before[a] && views(r@)[b] == before[b]);
                        }
                    }
                }
                assert forall|x: Seq<char>| views(r@).to_set().contains(x) == now.to_set().contains(x) by {
                    if views(r@).contains(x) {
                        let q = choose|q: int| 0 <= q < views(r@).len() && views(r@)[q] == x;
                        if q < before.len() {
                            assert(before[q] == x);
                            assert(prev.to_set().contains(x));
                            let t = choose|t: int| 0 <= t < prev.len() && prev[t] == x;
                            assert(now[t] == x);
                        } else {
                            assert(now[prev.len() as int] == x);
                        }
                    }
                    if now.contains(x) {
                        let q = choose|q: int| 0 <= q < now.len() && now[q] == x;
                        if q < prev.len() {
                            assert(prev[q] == x);
                            assert(before.to_set().contains(x));
                            let t = choose|t: int| 0 <= t < before.len() && before[t] == x;
                            assert(views(r@)[t] == x);
                        } else {
                            assert(views(r@)[before.len() as int] == x);
                        }
                    }
                }
                assert(views(r@).to_set() =~= now.to_set());
            }
        } else {
            proof {
                assert forall|x: Seq<char>| before.to_set().contains(x) == now.to_set().contains(x) by {
                    if now.contains(x) {
                        let q = choose|q: int| 0 <= q < now.len() && now[q] == x;
                        if q < prev.len() {
                            assert(prev[q] == x);
                            assert(prev.to_set().contains(x));
                        }
                    }
                    if before.contains(x) {
                        assert(prev.to_set().contains(x));
                        let t = choose|t: int| 0 <= t < prev.len() && prev[t] == x;
                        assert(now[t] == x);
                    }
                }
                assert(before.to_set() =~= now.to_set());
            }
        }
        i = i + 1;
    }
    assert(excluded@.subrange(0, excluded@.len() as int) =~= excluded@);
    r
}

/// The seating of `shuffled`, in this order, over the seats labelled `prefix` followed by
/// `1..=max_seats`, leaving out the `excluded` labels. Fails when the students outnumber the
/// seats that are left.
pub fn allocate_shuffled(shuffled: &[String], max_seats: usize, excluded: &[String], prefix: char)
    -> (r: Result<Vec<(String, String)>, SeatError>)
    ensures
        match r {
            Ok(v) => fits(shuffled@.len(), max_seats as nat, excluded_set(excluded@))
                && pairs_view(v@) == seating(views(shuffled@), max_seats as nat, excluded_set(excluded@), prefix),
            Err(e) => !fits(shuffled@.len(), max_seats as nat, excluded_set(excluded@))
                && is_capacity_failure(e, shuffled@.len(), max_seats as nat, excluded_set(excluded@)),
        },
{
    let distinct = distinct_labels(excluded);
    let ghost ex = excluded_set(excluded@);
    proof {
        views(distinct@).unique_seq_to_set();
    }
    let k = shuffled.len();
    if distinct.len() > max_seats || k > max_seats - distinct.len() {
        return Err(SeatError::CapacityFailure { students: k, seats: max_seats, excluded: distinct.len() });
    }
    let ghost names = views(shuffled@);
    let mut paired: Vec<(String, String)> = Vec::new();
    let mut filler: Vec<(String, String)> = Vec::new();
    let mut j: usize = 0;
    let mut i: usize = 0;
    while i < max_seats
        invariant
            i <= max_seats,
            k == shuffled@.len(),
            names == views(shuffled@),
            views(distinct@).to_set() == ex,
            j as nat == seated(prefix, k as nat, ex, i as nat).len(),
            j <= k,
            pairs_view(paired@) == paired_block(names, seated(prefix, k as nat, ex, i as nat), prefix),
            pairs_view(filler@) == filler_block(unseated(prefix, k as nat, ex, i as nat), prefix),
        decreases max_seats - i,
    {
        let label = seat_label(prefix, i + 1);
        let ghost s = seated(prefix, k as nat, ex, i as nat);
        let ghost u = unseated(prefix, k as nat, ex, i as nat);
        let free = !contains_str(&distinct, &label);
        proof {
            assert(views(distinct@).contains(label@) == views(distinct@).to_set().contains(label@));
        }
        let ghost lv = label@;
        let ghost pv0 = pairs_view(paired@);
        let ghost fv0 = pairs_view(filler@);
        if free && j < k {
            let name = shuffled[j].clone();
            assert(name@ == names[j as int]);
            paired.push((label, name));
            proof {
                assert(pairs_view(paired@) =~= pv0.push((lv, names[j as int])));
                assert(seated(prefix, k as nat, ex, (i + 1) as nat) == s.push((i + 1) as nat));
                assert(pairs_view(paired@) =~= paired_block(names, s.push((i + 1) as nat), prefix));
            }
            j = j + 1;
        } else {
            filler.push((label, String::new()));
            proof {
                assert(pairs_view(filler@) =~= fv0.push((lv, Seq::<char>::empty())));
                assert(unseated(prefix, k as nat, ex, (i + 1) as nat) == u.push((i + 1) as nat));
                assert(pairs_view(filler@) =~= filler_block(u.push((i + 1) as nat), prefix));
            }
        }
        i = i + 1;
    }
    let ghost pv = pairs_view(paired@);
    let ghost fv = pairs_view(filler@);
    paired.append(&mut filler);
    assert(pairs_view(paired@) =~= pv + fv);
    Ok(paired)
}

/// The prefix of the seat labels that `assign_students_to_tags` hands out.
pub const SEAT_PREFIX: char = 'A';

/// Relies on rand's `SliceRandom::shuffle`, driven by the thread-local generator of
/// `rand::rng`: it only swaps elements, so the same strings remain, in some order.
#[verifier::external_body]
fn shuffle_names(v: &mut Vec<String>)
    ensures
        final(v)@.len() == old(v)@.len(),
        views(final(v)@).to_multiset() == views(old(v)@).to_multiset(),
{
    v.shuffle(&mut rand::rng());
}

fn copy_names(students: &[String]) -> (r: Vec<String>)
    ensures
        views(r@) == views(students@),
{
    let mut r: Vec<String> = Vec::new();
    let mut i: usize = 0;
    while i < students.len()
        invariant
            i <= students@.len(),
            views(r@) == views(students@.subrange(0, i as int)),
        decreases students@.len() - i,
    {
        let ghost before = views(r@);
        r.push(students[i].clone());
        assert(views(r@) =~= before.push(students@[i as int]@));
        assert(views(students@.subrange(0, i + 1)) =~= views(students@.subrange(0, i as int)).push(students@[i as int]@));
        i = i + 1;
    }
    assert(students@.subrange(0, students@.len() as int) =~= students@);
    r
}

/// Seats the `students` in a random order over the seats labelled `prefix` followed by
/// `1..=max_seats`, leaving out the `excluded` labels: the seating of some rearrangement of
/// the students. Fails, before any shuffling, when they outnumber the seats that are left.
pub fn allocate(students: &[String], max_seats: usize, excluded: &[String], prefix: char)
    -> (r: Result<Vec<(String, String)>, SeatError>)
    ensures
        match r {
            Ok(v) => fits(students@.len(), max_seats as nat, excluded_set(excluded@))
                && exists|s: Seq<Seq<char>>|
                    s.len() == students@.len()
                    && #[trigger] s.to_multiset() == views(students@).to_multiset()
                    && pairs_view(v@) == seating(s, max_seats as nat, excluded_set(excluded@), prefix),
            Err(e) => !fits(students@.len(), max_seats as nat, excluded_set(excluded@))
                && is_capacity_failure(e, students@.len(), max_seats as nat, excluded_set(excluded@)),
        },
{
    let mut shuffled = copy_names(students);
    proof {
        assert(views(shuffled@).len() == students@.len());
    }
    shuffle_names(&mut shuffled);
    let ghost s = views(shuffled@);
    let r = allocate_shuffled(shuffled.as_slice(), max_seats, excluded, prefix);
    proof {
        assert(s.len() == students@.len());
        assert(s.to_multiset() == views(students@).to_multiset());
    }
    r
}

/// Seats the `students` at random over the seats `A001`, `A002`, ... up to `max_seats`,
/// leaving out the `excluded` labels.
pub fn assign_students_to_tags(students: &[String], max_seats: usize, excluded: &[String])
    -> (r: Result<Vec<(String, String)>, SeatError>)
    ensures
        match r {
            Ok(v) => fits(students@.len(), max_seats as nat, excluded_set(excluded@))
                && exists|s: Seq<Seq<char>>|
                    s.len() == students@.len()
                    && #[trigger] s.to_multiset() == views(students@).to_multiset()
                    && pairs_view(v@) == seating(s, max_seats as nat, excluded_set(excluded@), SEAT_PREFIX),
            Err(e) => !fits(students@.len(), max_seats as nat, excluded_set(excluded@))
                && is_capacity_failure(e, students@.len(), max_seats as nat, excluded_set(excluded@)),
        },
{
    allocate(students, max_seats, excluded, SEAT_PREFIX)
}

} // verus!
