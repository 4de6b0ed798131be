use vstd::prelude::*;

use umya_spreadsheet::Style;

use crate::allocation::{
    excluded_set, filler_block, fits, paired_block, seated, seating, takes_student, unseated,
};
use crate::labels::{label_has_row, label_of, lemma_label_injective, lemma_label_row, row_of};
use crate::sheet::{seat_cell, styled, written};

verus! {

/// The labels of a seating, in order.
pub open spec fn labels_of(r: Seq<(Seq<char>, Seq<char>)>) -> Seq<Seq<char>> {
    r.map_values(|p: (Seq<char>, Seq<char>)| p.0)
}

/// The occupants of a seating, in order; an empty one stands for a free seat.
pub open spec fn occupants_of(r: Seq<(Seq<char>, Seq<char>)>) -> Seq<Seq<char>> {
    r.map_values(|p: (Seq<char>, Seq<char>)| p.1)
}

/// The labels of seats `1..=capacity`.
pub open spec fn universe(prefix: char, capacity: nat) -> Seq<Seq<char>> {
    Seq::new(capacity, |i: int| label_of(prefix, (i + 1) as nat))
}

/// The names that are not empty, in order.
pub open spec fn nonempty_names(ns: Seq<Seq<char>>) -> Seq<Seq<char>>
    decreases ns.len(),
{
    if ns.len() == 0 {
        ns
    } else if ns.last().len() > 0 {
        nonempty_names(ns.drop_last()).push(ns.last())
    } else {
        nonempty_names(ns.drop_last())
    }
}

proof fn lemma_plan(prefix: char, k: nat, ex: Set<Seq<char>>, i: nat)
    ensures
        ({
            let s = seated(prefix, k, ex, i);
            let u = unseated(prefix, k, ex, i);
            &&& s.len() + u.len() == i
            &&& s.len() <= k
            &&& forall|q: int| 0 <= q < s.len() ==> 1 <= #[trigger] s[q] <= i && !ex.contains(label_of(prefix, s[q]))
            &&& forall|q: int| 0 <= q < u.len() ==> 1 <= #[trigger] u[q] <= i
            &&& forall|a: int, b: int| 0 <= a < b < s.len() ==> s[a] < s[b]
            &&& forall|a: int, b: int| 0 <= a < b < u.len() ==> u[a] < u[b]
            &&& forall|a: int, b: int| 0 <= a < s.len() && 0 <= b < u.len() ==> s[a] != u[b]
            &&& forall|o: nat| 1 <= o <= i ==> s.contains(o) || u.contains(o)
            &&& s.len() < k ==> forall|q: int| 0 <= q < u.len() ==> ex.contains(label_of(prefix, #[trigger] u[q]))
            &&& forall|q: int| 0 <= q < u.len() && !ex.contains(label_of(prefix, #[trigger] u[q]))
                ==> s.len() == k && forall|p: int| 0 <= p < s.len() ==> s[p] < u[q]
        }),
    decreases i,
{
    if i > 0 {
        let j = (i - 1) as nat;
        lemma_plan(prefix, k, ex, j);
        let s0 = seated(prefix, k, ex, j);
        let u0 = unseated(prefix, k, ex, j);
        let s = seated(prefix, k, ex, i);
        let u = unseated(prefix, k, ex, i);
        if takes_student(prefix, k, ex, i, s0.len()) {
            assert(s == s0.push(i) && u == u0);
            assert forall|o: nat| 1 <= o <= i implies s.contains(o) || u.contains(o) by {
                if o == i {
                    assert(s[s0.len() as int] == o);
                } else if s0.contains(o) {
                    let q = choose|q: int| 0 <= q < s0.len() && s0[q] == o;
                    assert(s[q] == o);
                }
            }
        } else {
            assert(s == s0 && u == u0.push(i));
            assert forall|o: nat| 1 <= o <= i implies s.contains(o) || u.contains(o) by {
                if o == i {
                    assert(u[u0.len() as int] == o);
                } else if u0.contains(o) {
                    let q = choose|q: int| 0 <= q < u0.len() && u0[q] == o;
                    assert(u[q] == o);
                }
            }
        }
    }
}

/// The seats that receive students are the first free ones: they are free and ascending,
/// and a free seat that stays empty comes after all of them and only once all `k` students
/// are seated. Every other seat stays empty, each seat of `1..=capacity` falling in exactly
/// one of the two groups.
pub proof fn lemma_seated_are_first_free(prefix: char, k: nat, ex: Set<Seq<char>>, capacity: nat)
    ensures
        ({
            let s = seated(prefix, k, ex, capacity);
            let u = unseated(prefix, k, ex, capacity);
            &&& s.len() <= k
            &&& forall|q: int| 0 <= q < s.len() ==> 1 <= #[trigger] s[q] <= capacity && !ex.contains(label_of(prefix, s[q]))
            &&& forall|a: int, b: int| 0 <= a < b < s.len() ==> s[a] < s[b]
            &&& forall|a: int, b: int| 0 <= a < b < u.len() ==> u[a] < u[b]
            &&& forall|o: nat| 1 <= o <= capacity ==> (s.contains(o) != u.contains(o))
            &&& forall|q: int| 0 <= q < u.len() && !ex.contains(label_of(prefix, #[trigger] u[q]))
                ==> s.len() == k && forall|p: int| 0 <= p < s.len() ==> s[p] < u[q]
        }),
{
    lemma_plan(prefix, k, ex, capacity);
    let s = seated(prefix, k, ex, capacity);
    let u = unseated(prefix, k, ex, capacity);
    assert forall|o: nat| 1 <= o <= capacity implies (s.contains(o) != u.contains(o)) by {
        if s.contains(o) && u.contains(o) {
            let a = choose|a: int| 0 <= a < s.len() && s[a] == o;
            let b = choose|b: int| 0 <= b < u.len() && u[b] == o;
        }
    }
}

/// The seat number behind position `a` of a seating.
spec fn seat_at(s: Seq<nat>, u: Seq<nat>, a: int) -> nat {
    if a < s.len() { s[a] } else { u[a - s.len()] }
}

/// A seating lists each seat of `1..=capacity` exactly once: `capacity` pairs whose labels
/// are the labels of all seats, none twice.
pub proof fn lemma_seating_covers_all_seats(names: Seq<Seq<char>>, capacity: nat, ex: Set<Seq<char>>, prefix: char)
    ensures
        seating(names, capacity, ex, prefix).len() == capacity,
        labels_of(seating(names, capacity, ex, prefix)).no_duplicates(),
        labels_of(seating(names, capacity, ex, prefix)).to_set() == universe(prefix, capacity).to_set(),
{
    let k = names.len();
    lemma_plan(prefix, k, ex, capacity);
    let s = seated(prefix, k, ex, capacity);
    let u = unseated(prefix, k, ex, capacity);
    let r = seating(names, capacity, ex, prefix);
    let ls = labels_of(r);
    assert forall|a: int| 0 <= a < ls.len() implies #[trigger] ls[a] == label_of(prefix, seat_at(s, u, a))
        && 1 <= seat_at(s, u, a) <= capacity by {
        if a < s.len() {
            assert(r[a] == paired_block(names, s, prefix)[a]);
        } else {
            assert(r[a] == filler_block(u, prefix)[a - s.len()]);
            assert(1 <= u[a - s.len()]);
        }
    }
    assert forall|a: int, b: int| 0 <= a < b < ls.len() implies ls[a] != ls[b] by {
        assert(seat_at(s, u, a) != seat_at(s, u, b));
        if ls[a] == ls[b] {
            lemma_label_injective(prefix, seat_at(s, u, a), seat_at(s, u, b));
        }
    }
    let uni = universe(prefix, capacity);
    assert forall|x: Seq<char>| ls.to_set().contains(x) == uni.to_set().contains(x) by {
        if ls.contains(x) {
            let a = choose|a: int| 0 <= a < ls.len() && ls[a] == x;
            assert(uni[seat_at(s, u, a) - 1] == x);
        }
        if uni.contains(x) {
            let i = choose|i: int| 0 <= i < uni.len() && uni[i] == x;
            let o = (i + 1) as nat;
            if s.contains(o) {
                let q = choose|q: int| 0 <= q < s.len() && s[q] == o;
                assert(ls[q] == x);
            } else {
                let q = choose|q: int| 0 <= q < u.len() && u[q] == o;
                assert(ls[q + s.len()] == x);
            }
        }
    }
    assert(ls.to_set() =~= uni.to_set());
}

/// No excluded label is paired with a name: every pair of a seating whose label is excluded
/// has an empty occupant.
pub proof fn lemma_excluded_seats_stay_empty(names: Seq<Seq<char>>, capacity: nat, ex: Set<Seq<char>>, prefix: char)
    ensures
        forall|a: int| 0 <= a < seating(names, capacity, ex, prefix).len()
            && ex.contains(#[trigger] seating(names, capacity, ex, prefix)[a].0)
            ==> seating(names, capacity, ex, prefix)[a].1.len() == 0,
{
    let k = names.len();
    lemma_plan(prefix, k, ex, capacity);
    let s = seated(prefix, k, ex, capacity);
    let u = unseated(prefix, k, ex, capacity);
    let r = seating(names, capacity, ex, prefix);
    assert forall|a: int| 0 <= a < r.len() && ex.contains(#[trigger] r[a].0) implies r[a].1.len() == 0 by {
        if a < s.len() {
            assert(r[a] == paired_block(names, s, prefix)[a]);
        } else {
            assert(r[a] == filler_block(u, prefix)[a - s.len()]);
        }
    }
}

proof fn lemma_seats_enough(k: nat, capacity: nat, excluded: Seq<String>, prefix: char)
    requires
        fits(k, capacity, excluded_set(excluded)),
    ensures
        seated(prefix, k, excluded_set(excluded), capacity).len() == k,
{
    let ex = excluded_set(excluded);
    lemma_plan(prefix, k, ex, capacity);
    let s = seated(prefix, k, ex, capacity);
    let u = unseated(prefix, k, ex, capacity);
    if s.len() < k {
        let lu = u.map_values(|o: nat| label_of(prefix, o));
        assert forall|a: int, b: int| 0 <= a < b < lu.len() implies lu[a] != lu[b] by {
            if lu[a] == lu[b] {
                lemma_label_injective(prefix, u[a], u[b]);
            }
        }
        lu.unique_seq_to_set();
        assert forall|x: Seq<char>| lu.to_set().contains(x) implies ex.contains(x) by {
            let a = choose|a: int| 0 <= a < lu.len() && lu[a] == x;
            assert(ex.contains(label_of(prefix, u[a])));
        }
        vstd::set_lib::lemma_len_subset(lu.to_set(), ex);
    }
}

proof fn lemma_nonempty_concat(a: Seq<Seq<char>>, b: Seq<Seq<char>>)
    ensures
        nonempty_names(a + b) == nonempty_names(a) + nonempty_names(b),
    decreases b.len(),
{
    if b.len() == 0 {
        assert(a + b =~= a);
        assert(nonempty_names(a) + nonempty_names(b) =~= nonempty_names(a));
    } else {
        assert((a + b).drop_last() =~= a + b.drop_last());
        lemma_nonempty_concat(a, b.drop_last());
        if b.last().len() > 0 {
            assert(nonempty_names(a) + nonempty_names(b) =~= (nonempty_names(a) + nonempty_names(b.drop_last())).push(b.last()));
        }
    }
}

proof fn lemma_nonempty_all(a: Seq<Seq<char>>)
    requires
        forall|i: int| 0 <= i < a.len() ==> (#[trigger] a[i]).len() > 0,
    ensures
        nonempty_names(a) == a,
    decreases a.len(),
{
    if a.len() > 0 {
        lemma_nonempty_all(a.drop_last());
        assert(a.drop_last().push(a.last()) =~= a);
    }
}

proof fn lemma_nonempty_none(a: Seq<Seq<char>>)
    requires
        forall|i: int| 0 <= i < a.len() ==> (#[trigger] a[i]).len() == 0,
    ensures
        nonempty_names(a) == Seq::<Seq<char>>::empty(),
    decreases a.len(),
{
    if a.len() > 0 {
        lemma_nonempty_none(a.drop_last());
    }
}

/// When the roster fits and holds no empty name, the non-empty occupants of the seating of a
/// rearrangement `shuffled` of `roster` are, counted with multiplicity, the roster's names.
pub proof fn lemma_occupants_are_roster(
    roster: Seq<Seq<char>>,
    shuffled: Seq<Seq<char>>,
    capacity: nat,
    excluded: Seq<String>,
    prefix: char,
)
    requires
        shuffled.to_multiset() == roster.to_multiset(),
        shuffled.len() == roster.len(),
        fits(roster.len(), capacity, excluded_set(excluded)),
        forall|i: int| 0 <= i < roster.len() ==> (#[trigger] roster[i]).len() > 0,
    ensures
        nonempty_names(occupants_of(seating(shuffled, capacity, excluded_set(excluded), prefix))).to_multiset()
            == roster.to_multiset(),
{
    let ex = excluded_set(excluded);
    let k = shuffled.len();
    lemma_seats_enough(k, capacity, excluded, prefix);
    let s = seated(prefix, k, ex, capacity);
    let u = unseated(prefix, k, ex, capacity);
    let occ = occupants_of(seating(shuffled, capacity, ex, prefix));
    let empties = occupants_of(filler_block(u, prefix));
    assert(occ =~= shuffled + empties);
    assert forall|i: int| 0 <= i < shuffled.len() implies (#[trigger] shuffled[i]).len() > 0 by {
        vstd::seq_lib::to_multiset_contains(shuffled, shuffled[i]);
        vstd::seq_lib::to_multiset_contains(roster, shuffled[i]);
        let j = choose|j: int| 0 <= j < roster.len() && roster[j] == shuffled[i];
        assert(roster[j].len() > 0);
    }
    lemma_nonempty_concat(shuffled, empties);
    lemma_nonempty_all(shuffled);
    lemma_nonempty_none(empties);
    assert(nonempty_names(occ) =~= shuffled);
}

proof fn lemma_written_cells(m: Map<(u32, u32), Seq<char>>, a: Seq<(Seq<char>, Seq<char>)>)
    requires
        forall|x: int, y: int| 0 <= x < y < a.len() ==> seat_cell(a[x]) != seat_cell(a[y]),
    ensures
        forall|j: int| 0 <= j < a.len() ==> written(m, a).contains_key(#[trigger] seat_cell(a[j]))
            && written(m, a)[seat_cell(a[j])] == a[j].1,
    decreases a.len(),
{
    if a.len() > 0 {
        let b = a.drop_last();
        lemma_written_cells(m, b);
        assert forall|j: int| 0 <= j < a.len() implies written(m, a).contains_key(#[trigger] seat_cell(a[j]))
            && written(m, a)[seat_cell(a[j])] == a[j].1 by {
            if j < b.len() {
                assert(b[j] == a[j]);
            }
        }
    }
}

/// Writing pairs leaves every cell that no pair's label names as it was: its text and its
/// style, present or absent.
pub proof fn lemma_write_touches_only_seat_cells(
    texts: Map<(u32, u32), Seq<char>>,
    styles: Map<(u32, u32), Style>,
    a: Seq<(Seq<char>, Seq<char>)>,
    st: Style,
    k: (u32, u32),
)
    requires
        forall|j: int| 0 <= j < a.len() ==> #[trigger] seat_cell(a[j]) != k,
    ensures
        written(texts, a).contains_key(k) == texts.contains_key(k),
        texts.contains_key(k) ==> written(texts, a)[k] == texts[k],
        styled(styles, a, st).contains_key(k) == styles.contains_key(k),
        styles.contains_key(k) ==> styled(styles, a, st)[k] == styles[k],
    decreases a.len(),
{
    if a.len() > 0 {
        let b = a.drop_last();
        assert forall|j: int| 0 <= j < b.len() implies #[trigger] seat_cell(b[j]) != k by {
            assert(b[j] == a[j]);
        }
        assert(seat_cell(a[a.len() - 1]) != k);
        lemma_write_touches_only_seat_cells(texts, styles, b, st, k);
    }
}

/// When no two pairs name the same cell, the order of the pairs does not matter: two
/// orderings of the same pairs leave the same texts and the same styles.
pub proof fn lemma_write_order_irrelevant(
    texts: Map<(u32, u32), Seq<char>>,
    styles: Map<(u32, u32), Style>,
    a: Seq<(Seq<char>, Seq<char>)>,
    b: Seq<(Seq<char>, Seq<char>)>,
    st: Style,
)
    requires
        a.len() == b.len(),
        a.to_set() == b.to_set(),
        forall|x: int, y: int| 0 <= x < y < a.len() ==> seat_cell(a[x]) != seat_cell(a[y]),
    ensures
        written(texts, a) == written(texts, b),
        styled(styles, a, st) == styled(styles, b, st),
{
    assert(a.no_duplicates());
    a.unique_seq_to_set();
    b.lemma_no_dup_set_cardinality();
    assert forall|x: int, y: int| 0 <= x < y < b.len() implies seat_cell(b[x]) != seat_cell(b[y]) by {
        assert(b.to_set().contains(b[x]) && b.to_set().contains(b[y]));
        assert(a.to_set().contains(b[x]) && a.to_set().contains(b[y]));
        let p = choose|p: int| 0 <= p < a.len() && a[p] == b[x];
        let q = choose|q: int| 0 <= q < a.len() && a[q] == b[y];
        if p < q {
            assert(seat_cell(a[p]) != seat_cell(a[q]));
        } else if q < p {
            assert(seat_cell(a[q]) != seat_cell(a[p]));
        }
    }
    assert forall|k: (u32, u32)| #[trigger] written(texts, a).contains_key(k) == written(texts, b).contains_key(k)
        && (written(texts, a).contains_key(k) ==> written(texts, a)[k] == written(texts, b)[k]) by {
        lemma_same_cell(texts, styles, a, b, st, k);
    }
    assert forall|k: (u32, u32)| #[trigger] styled(styles, a, st).contains_key(k) == styled(styles, b, st).contains_key(k)
        && (styled(styles, a, st).contains_key(k) ==> styled(styles, a, st)[k] == styled(styles, b, st)[k]) by {
        lemma_same_cell(texts, styles, a, b, st, k);
    }
    assert(written(texts, a) =~= written(texts, b));
    assert(styled(styles, a, st) =~= styled(styles, b, st));
}

proof fn lemma_same_cell(
    texts: Map<(u32, u32), Seq<char>>,
    styles: Map<(u32, u32), Style>,
    a: Seq<(Seq<char>, Seq<char>)>,
    b: Seq<(Seq<char>, Seq<char>)>,
    st: Style,
    k: (u32, u32),
)
    requires
        a.to_set() == b.to_set(),
        forall|x: int, y: int| 0 <= x < y < a.len() ==> seat_cell(a[x]) != seat_cell(a[y]),
        forall|x: int, y: int| 0 <= x < y < b.len() ==> seat_cell(b[x]) != seat_cell(b[y]),
    ensures
        written(texts, a).contains_key(k) == written(texts, b).contains_key(k),
        written(texts, a).contains_key(k) ==> written(texts, a)[k] == written(texts, b)[k],
        styled(styles, a, st).contains_key(k) == styled(styles, b, st).contains_key(k),
        styled(styles, a, st).contains_key(k) ==> styled(styles, a, st)[k] == styled(styles, b, st)[k],
{
    lemma_written_cells(texts, a);
    lemma_written_cells(texts, b);
    lemma_styled_cells(styles, a, st);
    lemma_styled_cells(styles, b, st);
    if exists|j: int| 0 <= j < a.len() && seat_cell(a[j]) == k {
        let j = choose|j: int| 0 <= j < a.len() && seat_cell(a[j]) == k;
        assert(a.to_set().contains(a[j]));
        let i = choose|i: int| 0 <= i < b.len() && b[i] == a[j];
        assert(seat_cell(b[i]) == k);
    } else if exists|i: int| 0 <= i < b.len() && seat_cell(b[i]) == k {
        let i = choose|i: int| 0 <= i < b.len() && seat_cell(b[i]) == k;
        assert(b.to_set().contains(b[i]));
        let j = choose|j: int| 0 <= j < a.len() && a[j] == b[i];
        assert(seat_cell(a[j]) == k);
    } else {
        lemma_write_touches_only_seat_cells(texts, styles, a, st, k);
        lemma_write_touches_only_seat_cells(texts, styles, b, st, k);
    }
}

proof fn lemma_styled_cells(m: Map<(u32, u32), Style>, a: Seq<(Seq<char>, Seq<char>)>, st: Style)
    ensures
        forall|j: int| 0 <= j < a.len() ==> styled(m, a, st).contains_key(#[trigger] seat_cell(a[j]))
            && styled(m, a, st)[seat_cell(a[j])] == st,
    decreases a.len(),
{
    if a.len() > 0 {
        let b = a.drop_last();
        lemma_styled_cells(m, b, st);
        assert forall|j: int| 0 <= j < a.len() implies styled(m, a, st).contains_key(#[trigger] seat_cell(a[j]))
            && styled(m, a, st)[seat_cell(a[j])] == st by {
            if j < b.len() {
                assert(b[j] == a[j]);
            }
        }
    }
}

/// Writing a seating of at most `u32::MAX` seats, then reading the first-column cell of the
/// row that each label names, gives back that pair's name, in the style the write was given.
pub proof fn lemma_write_then_read(
    names: Seq<Seq<char>>,
    capacity: nat,
    ex: Set<Seq<char>>,
    prefix: char,
    texts: Map<(u32, u32), Seq<char>>,
    styles: Map<(u32, u32), Style>,
    st: Style,
)
    requires
        capacity <= u32::MAX,
    ensures
        forall|j: int| 0 <= j < seating(names, capacity, ex, prefix).len()
            ==> label_has_row(#[trigger] seating(names, capacity, ex, prefix)[j].0)
            && written(texts, seating(names, capacity, ex, prefix)).contains_key((1, row_of(seating(names, capacity, ex, prefix)[j].0) as u32))
            && written(texts, seating(names, capacity, ex, prefix))[(1, row_of(seating(names, capacity, ex, prefix)[j].0) as u32)]
                == seating(names, capacity, ex, prefix)[j].1
            && styled(styles, seating(names, capacity, ex, prefix), st)[(1, row_of(seating(names, capacity, ex, prefix)[j].0) as u32)] == st,
{
    let r = seating(names, capacity, ex, prefix);
    lemma_seating_covers_all_seats(names, capacity, ex, prefix);
    let ls = labels_of(r);
    let uni = universe(prefix, capacity);
    assert forall|j: int| 0 <= j < r.len() implies label_has_row(#[trigger] r[j].0)
        && row_of(r[j].0) >= 1 && label_of(prefix, row_of(r[j].0)) == r[j].0 by {
        assert(ls[j] == r[j].0);
        assert(ls.to_set().contains(r[j].0));
        assert(uni.to_set().contains(r[j].0));
        let i = choose|i: int| 0 <= i < uni.len() && uni[i] == r[j].0;
        lemma_label_row(prefix, (i + 1) as nat);
    }
    assert forall|x: int, y: int| 0 <= x < y < r.len() implies seat_cell(r[x]) != seat_cell(r[y]) by {
        assert(ls[x] == r[x].0 && ls[y] == r[y].0);
        assert(ls[x] != ls[y]);
    }
    lemma_written_cells(texts, r);
    lemma_styled_cells(styles, r, st);
}

} // verus!
