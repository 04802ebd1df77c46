use vstd::prelude::*;
use rand::seq::SliceRandom;
use vstd::set_lib::FiniteRange;
use crate::student::{Student, scores_of};

verus! {

/// Number of display tiers.
pub const TIER_COUNT: usize = 5;

/// Lowest score of a non-empty sequence.
pub open spec fn min_score(scores: Seq<usize>) -> int
    decreases scores.len(),
{
    if scores.len() <= 1 {
        if scores.len() == 0 { 0 } else { scores[0] as int }
    } else {
        let m = min_score(scores.drop_last());
        if (scores.last() as int) < m { scores.last() as int } else { m }
    }
}

/// Highest score of a non-empty sequence.
pub open spec fn max_score(scores: Seq<usize>) -> int
    decreases scores.len(),
{
    if scores.len() <= 1 {
        if scores.len() == 0 { 0 } else { scores[0] as int }
    } else {
        let m = max_score(scores.drop_last());
        if (scores.last() as int) > m { scores.last() as int } else { m }
    }
}

/// Lottery tickets of a student with `score`, when scores range over `[lo, hi]`.
pub open spec fn tickets(score: int, lo: int, hi: int) -> int {
    (hi - lo) - (score - lo) + 1
}

/// The bag before shuffling: each index `i` repeated `tickets` times, in index order.
pub open spec fn ticket_bag(scores: Seq<usize>, lo: int, hi: int) -> Seq<usize>
    decreases scores.len(),
{
    if scores.len() == 0 {
        Seq::empty()
    } else {
        let i = (scores.len() - 1) as usize;
        ticket_bag(scores.drop_last(), lo, hi) + Seq::new(
            tickets(scores.last() as int, lo, hi) as nat,
            |j: int| i,
        )
    }
}

/// How often `v` occurs in `s`.
pub open spec fn occurrences(s: Seq<usize>, v: usize) -> nat
    decreases s.len(),
{
    if s.len() == 0 {
        0
    } else {
        occurrences(s.drop_last(), v) + if s.last() == v { 1nat } else { 0nat }
    }
}

/// The distinct values of `s`, each at its first occurrence, in encounter order.
pub open spec fn first_seen(s: Seq<usize>) -> Seq<usize>
    decreases s.len(),
{
    if s.len() == 0 {
        Seq::empty()
    } else {
        let d = first_seen(s.drop_last());
        if d.contains(s.last()) { d } else { d.push(s.last()) }
    }
}

/// `s` holds each of `0..n` exactly once.
pub open spec fn is_permutation(s: Seq<usize>, n: nat) -> bool {
    &&& s.len() == n
    &&& s.no_duplicates()
    &&& forall|k: int| 0 <= k < s.len() ==> (#[trigger] s[k] as int) < n
    &&& forall|i: usize| (i as int) < n ==> #[trigger] s.contains(i)
}

/// Display tier of `score` when scores range over `[lo, hi]`: the ratio of
/// `score - lo` to the range, scaled to `0..TIER_COUNT` and rounded half up;
/// tier 0 for everybody when all scores are equal.
pub open spec fn tier_of(score: int, lo: int, hi: int) -> int {
    if hi == lo {
        0
    } else {
        (2 * (TIER_COUNT - 1) * (score - lo) + (hi - lo)) / (2 * (hi - lo))
    }
}

proof fn lemma_min_max_bounds(scores: Seq<usize>)
    requires
        scores.len() > 0,
    ensures
        forall|k: int| 0 <= k < scores.len() ==>
            min_score(scores) <= #[trigger] scores[k] <= max_score(scores),
        exists|k: int| 0 <= k < scores.len() && scores[k] == min_score(scores),
        exists|k: int| 0 <= k < scores.len() && scores[k] == max_score(scores),
    decreases scores.len(),
{
    if scores.len() > 1 {
        lemma_min_max_bounds(scores.drop_last());
        assert forall|k: int| 0 <= k < scores.len() implies
            min_score(scores) <= #[trigger] scores[k] <= max_score(scores) by {
            if k < scores.len() - 1 {
                assert(scores[k] == scores.drop_last()[k]);
            }
        }
        let kmin = choose|k: int| 0 <= k < scores.drop_last().len() && scores.drop_last()[k]
            == min_score(scores.drop_last());
        let kmax = choose|k: int| 0 <= k < scores.drop_last().len() && scores.drop_last()[k]
            == max_score(scores.drop_last());
        assert(scores[kmin] == scores.drop_last()[kmin]);
        assert(scores[kmax] == scores.drop_last()[kmax]);
    } else {
        assert(scores[0] == min_score(scores));
    }
}

/// Lowest and highest participation score of a non-empty registry.
pub fn score_bounds(students: &Vec<Student>) -> (r: (usize, usize))
    requires
        students.len() > 0,
    ensures
        r.0 == min_score(scores_of(students@)),
        r.1 == max_score(scores_of(students@)),
{
    let ghost scores = scores_of(students@);
    let mut lo: usize = students[0].participation_score;
    let mut hi: usize = students[0].participation_score;
    let mut i: usize = 1;
    assert(scores.take(1) =~= seq![scores[0]]);
    while i < students.len()
        invariant
            1 <= i <= students.len(),
            scores == scores_of(students@),
            lo == min_score(scores.take(i as int)),
            hi == max_score(scores.take(i as int)),
        decreases students.len() - i,
    {
        let s = students[i].participation_score;
        assert(scores.take(i + 1).drop_last() =~= scores.take(i as int));
        if s < lo {
            lo = s;
        }
        if s > hi {
            hi = s;
        }
        i += 1;
    }
    assert(scores.take(i as int) =~= scores);
    (lo, hi)
}


/// Fills the ticket bag: index `i` once per lottery ticket of student `i`.
pub fn fill_bag(students: &Vec<Student>, lo: usize, hi: usize) -> (bag: Vec<usize>)
    requires
        forall|k: int| 0 <= k < students.len() ==>
            lo <= (#[trigger] students[k]).participation_score <= hi,
    ensures
        bag@ == ticket_bag(scores_of(students@), lo as int, hi as int),
{
    let ghost scores = scores_of(students@);
    let mut bag: Vec<usize> = Vec::new();
    let mut i: usize = 0;
    while i < students.len()
        invariant
            i <= students.len(),
            scores == scores_of(students@),
            forall|k: int| 0 <= k < students.len() ==>
                lo <= (#[trigger] students[k]).participation_score <= hi,
            bag@ == ticket_bag(scores.take(i as int), lo as int, hi as int),
        decreases students.len() - i,
    {
        let ghost base = bag@;
        let chances: usize = hi - students[i].participation_score;
        let mut t: usize = 0;
        loop
            invariant_except_break
                t <= chances,
                bag@ == base + Seq::new(t as nat, |j: int| i),
            ensures
                bag@ == base + Seq::new(chances as nat + 1, |j: int| i),
            decreases chances - t,
        {
            bag.push(i);
            assert(bag@ =~= base + Seq::new(t as nat + 1, |j: int| i));
            if t == chances {
                break;
            }
            t += 1;
        }
        assert(scores.take(i + 1).drop_last() =~= scores.take(i as int));
        assert(scores.take(i + 1).last() == students[i as int].participation_score);
        i += 1;
    }
    assert(scores.take(i as int) =~= scores);
    bag
}

/// Relies on rand's `SliceRandom::shuffle` with the thread-local generator:
/// it only swaps elements, so the bag keeps exactly what it held.
#[verifier::external_body]
fn shuffle_bag(bag: &mut Vec<usize>)
    ensures
        final(bag)@.to_multiset() == old(bag)@.to_multiset(),
{
    let mut rng = rand::thread_rng();
    bag.shuffle(&mut rng);
}

/// The distinct values of `bag`, each kept at its first occurrence.
pub fn first_occurrences(bag: &Vec<usize>, n: usize) -> (order: Vec<usize>)
    requires
        forall|k: int| 0 <= k < bag.len() ==> (#[trigger] bag[k]) < n,
    ensures
        order@ == first_seen(bag@),
{
    let mut seen: Vec<bool> = Vec::new();
    let mut v: usize = 0;
    while v < n
        invariant
            v <= n,
            seen.len() == v,
            forall|w: int| 0 <= w < v ==> !(#[trigger] seen[w]),
        decreases n - v,
    {
        seen.push(false);
        v += 1;
    }
    let mut order: Vec<usize> = Vec::new();
    let mut k: usize = 0;
    while k < bag.len()
        invariant
            k <= bag.len(),
            seen.len() == n,
            forall|j: int| 0 <= j < bag.len() ==> (#[trigger] bag[j]) < n,
            order@ == first_seen(bag@.take(k as int)),
            forall|w: int| 0 <= w < n ==> (#[trigger] seen[w] <==> order@.contains(w as usize)),
        decreases bag.len() - k,
    {
        let x = bag[k];
        assert(bag@.take(k + 1).drop_last() =~= bag@.take(k as int));
        assert(bag@.take(k + 1).last() == x);
        if !seen[x] {
            let ghost prev = order@;
            let ghost prev_seen = seen@;
            order.push(x);
            seen.set(x, true);
            assert(order@ == prev.push(x));
            assert forall|w: int| 0 <= w < n implies
                (#[trigger] seen[w] <==> order@.contains(w as usize)) by {
                if w != x as int {
                    assert(seen[w] == prev_seen[w]);
                    if prev.contains(w as usize) {
                        let j = choose|j: int| 0 <= j < prev.len() && prev[j] == w as usize;
                        assert(order@[j] == w as usize);
                    }
                    if order@.contains(w as usize) {
                        let j = choose|j: int| 0 <= j < order@.len() && order@[j] == w as usize;
                        assert(j < order@.len() - 1);
                        assert(prev[j] == w as usize);
                    }
                } else {
                    assert(order@[order@.len() - 1] == x);
                }
            }
        }
        k += 1;
    }
    assert(bag@.take(k as int) =~= bag@);
    order
}

/// Display tier of a student: see `tier_of`.
pub fn tier(score: usize, lo: usize, hi: usize) -> (r: usize)
    requires
        lo <= score <= hi,
    ensures
        r == tier_of(score as int, lo as int, hi as int),
        r < TIER_COUNT,
{
    if hi == lo {
        0
    } else {
        let x: u128 = (score - lo) as u128;
        let range: u128 = (hi - lo) as u128;
        let r = (2 * (TIER_COUNT as u128 - 1) * x + range) / (2 * range);
        assert(r < 5) by (nonlinear_arith)
            requires
                r == (8 * x + range) / (2 * range),
                x <= range,
                range > 0,
        {
            assert(8 * x + range < 5 * (2 * range));
        }
        r as usize
    }
}

proof fn lemma_first_seen(s: Seq<usize>)
    ensures
        first_seen(s).no_duplicates(),
        forall|v: usize| #[trigger] first_seen(s).contains(v) <==> s.contains(v),
    decreases s.len(),
{
    if s.len() > 0 {
        let p = s.drop_last();
        lemma_first_seen(p);
        let d = first_seen(p);
        assert forall|v: usize| #[trigger] first_seen(s).contains(v) <==> s.contains(v) by {
            if s.contains(v) {
                let j = choose|j: int| 0 <= j < s.len() && s[j] == v;
                if j < s.len() - 1 {
                    assert(p[j] == v);
                }
            }
            if p.contains(v) {
                let j = choose|j: int| 0 <= j < p.len() && p[j] == v;
                assert(s[j] == v);
            }
            if !d.contains(s.last()) {
                assert(d.push(s.last())[d.len() as int] == s.last());
                if d.push(s.last()).contains(v) {
                    let j = choose|j: int| 0 <= j < d.len() + 1 && d.push(s.last())[j] == v;
                    if j < d.len() {
                        assert(d[j] == v);
                    }
                }
                if d.contains(v) {
                    let j = choose|j: int| 0 <= j < d.len() && d[j] == v;
                    assert(d.push(s.last())[j] == v);
                }
            }
        }
    }
}

proof fn lemma_ticket_bag_members(scores: Seq<usize>, lo: int, hi: int)
    requires
        scores.len() <= usize::MAX,
        forall|k: int| 0 <= k < scores.len() ==> lo <= #[trigger] scores[k] <= hi,
    ensures
        forall|v: usize| #[trigger] ticket_bag(scores, lo, hi).contains(v) <==> (v as int) < scores.len(),
    decreases scores.len(),
{
    if scores.len() > 0 {
        let p = scores.drop_last();
        assert forall|k: int| 0 <= k < p.len() implies lo <= #[trigger] p[k] <= hi by {
            assert(p[k] == scores[k]);
        }
        lemma_ticket_bag_members(p, lo, hi);
        let a = ticket_bag(p, lo, hi);
        let i = (scores.len() - 1) as usize;
        let b = Seq::new(tickets(scores.last() as int, lo, hi) as nat, |j: int| i);
        assert(ticket_bag(scores, lo, hi) == a + b);
        assert forall|v: usize| #[trigger] (a + b).contains(v) <==> (v as int) < scores.len() by {
            if (a + b).contains(v) {
                let j = choose|j: int| 0 <= j < (a + b).len() && (a + b)[j] == v;
                if j < a.len() {
                    assert(a[j] == v);
                    assert(a.contains(v));
                }
            }
            if (v as int) < scores.len() - 1 {
                assert(a.contains(v));
                let j = choose|j: int| 0 <= j < a.len() && a[j] == v;
                assert((a + b)[j] == v);
            } else if (v as int) == scores.len() - 1 {
                assert(scores[scores.len() - 1] <= hi);
                assert((a + b)[a.len() as int] == v);
            }
        }
    }
}

proof fn lemma_occurrences_concat(a: Seq<usize>, b: Seq<usize>, v: usize)
    ensures
        occurrences(a + b, v) == occurrences(a, v) + occurrences(b, v),
    decreases b.len(),
{
    if b.len() > 0 {
        assert((a + b).drop_last() =~= a + b.drop_last());
        lemma_occurrences_concat(a, b.drop_last(), v);
    } else {
        assert(a + b =~= a);
    }
}

proof fn lemma_occurrences_repeat(n: nat, x: usize, v: usize)
    ensures
        occurrences(Seq::new(n, |j: int| x), v) == if x == v { n } else { 0 },
    decreases n,
{
    if n > 0 {
        assert(Seq::new(n, |j: int| x).drop_last() =~= Seq::new((n - 1) as nat, |j: int| x));
        lemma_occurrences_repeat((n - 1) as nat, x, v);
    }
}

proof fn lemma_ticket_bag_counts(scores: Seq<usize>, lo: int, hi: int)
    requires
        scores.len() <= usize::MAX,
        forall|k: int| 0 <= k < scores.len() ==> lo <= #[trigger] scores[k] <= hi,
    ensures
        forall|i: usize| (i as int) < scores.len() ==>
            occurrences(#[trigger] ticket_bag(scores, lo, hi), i) == tickets(scores[i as int] as int, lo, hi),
    decreases scores.len(),
{
    if scores.len() > 0 {
        let p = scores.drop_last();
        assert forall|k: int| 0 <= k < p.len() implies lo <= #[trigger] p[k] <= hi by {
            assert(p[k] == scores[k]);
        }
        lemma_ticket_bag_counts(p, lo, hi);
        let last = (scores.len() - 1) as usize;
        let t = tickets(scores.last() as int, lo, hi);
        assert(lo <= scores[last as int] <= hi);
        assert forall|i: usize| (i as int) < scores.len() implies
            occurrences(#[trigger] ticket_bag(scores, lo, hi), i) == tickets(scores[i as int] as int, lo, hi) by {
            lemma_occurrences_concat(ticket_bag(p, lo, hi), Seq::new(t as nat, |j: int| last), i);
            lemma_occurrences_repeat(t as nat, last, i);
            if i != last {
                assert(p[i as int] == scores[i as int]);
            } else {
                lemma_ticket_bag_members(p, lo, hi);
                if occurrences(ticket_bag(p, lo, hi), i) > 0 {
                    lemma_occurrences_member(ticket_bag(p, lo, hi), i);
                }
            }
        }
    }
}

proof fn lemma_occurrences_member(s: Seq<usize>, v: usize)
    requires
        occurrences(s, v) > 0,
    ensures
        s.contains(v),
    decreases s.len(),
{
    if s.last() == v {
        assert(s[s.len() - 1] == v);
    } else {
        lemma_occurrences_member(s.drop_last(), v);
        let j = choose|j: int| 0 <= j < s.len() - 1 && s.drop_last()[j] == v;
        assert(s[j] == v);
    }
}

/// Every shuffle of the ticket bag of a non-empty registry, reduced to first
/// occurrences, visits each student exactly once.
pub proof fn lemma_order_is_permutation(scores: Seq<usize>, bag: Seq<usize>)
    requires
        0 < scores.len() <= usize::MAX,
        bag.to_multiset() == ticket_bag(scores, min_score(scores), max_score(scores)).to_multiset(),
    ensures
        is_permutation(first_seen(bag), scores.len()),
{
    let lo = min_score(scores);
    let hi = max_score(scores);
    let n = scores.len();
    lemma_min_max_bounds(scores);
    lemma_ticket_bag_members(scores, lo, hi);
    lemma_first_seen(bag);
    let tb = ticket_bag(scores, lo, hi);
    let order = first_seen(bag);
    assert forall|v: usize| #[trigger] bag.contains(v) <==> (v as int) < n by {
        bag.to_multiset_ensures();
        tb.to_multiset_ensures();
        assert(bag.to_multiset().count(v) == tb.to_multiset().count(v));
        assert(bag.contains(v) <==> tb.contains(v));
    }
    assert forall|k: int| 0 <= k < order.len() implies (#[trigger] order[k] as int) < n by {
        assert(order.contains(order[k]));
    }
    assert(order.to_set() =~= usize::range_set(0, n as usize)) by {
        assert forall|v: usize| order.to_set().contains(v) <==> usize::range_set(0, n as usize).contains(v) by {
            assert(order.to_set().contains(v) <==> order.contains(v));
        }
    }
    order.unique_seq_to_set();
    usize::range_properties(0, n as usize);
}

/// Lottery law: the lowest-scoring students hold `range + 1` tickets each, the
/// highest-scoring exactly one, and with all scores equal everyone holds one.
pub proof fn lemma_ticket_counts(scores: Seq<usize>)
    requires
        0 < scores.len() <= usize::MAX,
    ensures
        ({
            let lo = min_score(scores);
            let hi = max_score(scores);
            let bag = ticket_bag(scores, lo, hi);
            &&& forall|i: usize| (i as int) < scores.len() ==>
                occurrences(bag, i) == #[trigger] tickets(scores[i as int] as int, lo, hi)
            &&& forall|i: usize| (i as int) < scores.len() && scores[i as int] == lo ==>
                #[trigger] occurrences(bag, i) == hi - lo + 1
            &&& forall|i: usize| (i as int) < scores.len() && scores[i as int] == hi ==>
                #[trigger] occurrences(bag, i) == 1
            &&& lo == hi ==> forall|i: usize| (i as int) < scores.len() ==>
                #[trigger] occurrences(bag, i) == 1
        }),
{
    let lo = min_score(scores);
    let hi = max_score(scores);
    lemma_min_max_bounds(scores);
    lemma_ticket_bag_counts(scores, lo, hi);
}

/// `b` is `a` with at most its display tier changed.
pub open spec fn same_record(a: Student, b: Student) -> bool {
    &&& a.name == b.name
    &&& a.email == b.email
    &&& a.participation_score == b.participation_score
    &&& a.deferrals == b.deferrals
    &&& a.absent == b.absent
    &&& a.answered_today == b.answered_today
}

/// `after` is `before` with every display tier recomputed from the scores.
pub open spec fn retiered(before: Seq<Student>, after: Seq<Student>) -> bool {
    let lo = min_score(scores_of(before));
    let hi = max_score(scores_of(before));
    &&& after.len() == before.len()
    &&& forall|i: int| 0 <= i < before.len() ==> same_record(before[i], #[trigger] after[i])
        && after[i].color == tier_of(before[i].participation_score as int, lo, hi)
}

/// `order` is what some shuffle of the ticket bag of `students` leaves after
/// dropping repeats.
pub open spec fn drawn_order(students: Seq<Student>, order: Seq<usize>) -> bool {
    let scores = scores_of(students);
    exists|bag: Seq<usize>|
        bag.to_multiset() == ticket_bag(scores, min_score(scores), max_score(scores)).to_multiset()
            && order == first_seen(bag)
}

/// Every student's display tier matches the current scores.
pub open spec fn tiers_current(students: Seq<Student>) -> bool {
    let scores = scores_of(students);
    forall|k: int| 0 <= k < students.len() ==> (#[trigger] students[k]).color == tier_of(
        students[k].participation_score as int,
        min_score(scores),
        max_score(scores),
    )
}

/// Recomputed tiers are current: the scores they came from are the scores kept.
pub proof fn lemma_retiered_current(before: Seq<Student>, after: Seq<Student>)
    requires
        retiered(before, after),
    ensures
        tiers_current(after),
{
    assert(scores_of(before) =~= scores_of(after)) by {
        assert forall|k: int| 0 <= k < before.len() implies scores_of(before)[k] == scores_of(
            after,
        )[k] by {
            assert(same_record(before[k], after[k]));
        }
    }
}

/// A fresh weighted call order: the ticket bag, shuffled, reduced to the
/// first occurrence of each student.
pub fn draw_order(students: &Vec<Student>) -> (order: Vec<usize>)
    ensures
        drawn_order(students@, order@),
        is_permutation(order@, students.len() as nat),
{
    let ghost scores = scores_of(students@);
    if students.len() == 0 {
        let order: Vec<usize> = Vec::new();
        assert(Seq::<usize>::empty().to_multiset() == ticket_bag(scores, min_score(scores), max_score(scores)).to_multiset());
        assert(order@ == first_seen(Seq::<usize>::empty()));
        return order;
    }
    let (lo, hi) = score_bounds(students);
    proof {
        lemma_min_max_bounds(scores);
        assert forall|k: int| 0 <= k < students.len() implies
            lo <= (#[trigger] students[k]).participation_score <= hi by {
            assert(scores[k] == students[k].participation_score);
        }
    }
    let mut bag = fill_bag(students, lo, hi);
    shuffle_bag(&mut bag);
    proof {
        lemma_ticket_bag_members(scores, lo as int, hi as int);
        assert forall|k: int| 0 <= k < bag.len() implies (#[trigger] bag[k]) < students.len() by {
            bag@.to_multiset_ensures();
            let tb = ticket_bag(scores, lo as int, hi as int);
            tb.to_multiset_ensures();
            assert(bag@.contains(bag[k]));
            assert(bag@.to_multiset().count(bag[k]) == tb.to_multiset().count(bag[k]));
            assert(tb.contains(bag[k]));
        }
    }
    let order = first_occurrences(&bag, students.len());
    proof {
        lemma_order_is_permutation(scores, bag@);
    }
    order
}

/// Recomputes every student's display tier from the current scores.
pub fn assign_tiers(students: &mut Vec<Student>)
    ensures
        retiered(old(students)@, final(students)@),
        tiers_current(final(students)@),
{
    let ghost before = students@;
    let ghost scores = scores_of(before);
    if students.len() == 0 {
        return;
    }
    let (lo, hi) = score_bounds(students);
    proof {
        lemma_min_max_bounds(scores);
    }
    let mut i: usize = 0;
    while i < students.len()
        invariant
            students.len() == before.len(),
            i <= students.len(),
            lo == min_score(scores),
            hi == max_score(scores),
            scores == scores_of(before),
            forall|k: int| 0 <= k < scores.len() ==> lo <= #[trigger] scores[k] <= hi,
            forall|k: int| 0 <= k < i ==> same_record(before[k], #[trigger] students@[k])
                && students@[k].color == tier_of(before[k].participation_score as int, lo as int, hi as int),
            forall|k: int| i <= k < students.len() ==> #[trigger] students@[k] == before[k],
        decreases students.len() - i,
    {
        let score = students[i].participation_score;
        assert(scores[i as int] == score);
        let t = tier(score, lo, hi);
        students[i].color = t;
        i += 1;
    }
    proof {
        lemma_retiered_current(before, students@);
    }
}

} // verus!
