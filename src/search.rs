use vstd::prelude::*;
use fuzzy_matcher::FuzzyMatcher;
use fuzzy_matcher::skim::SkimMatcherV2;
use crate::student::Student;

verus! {

/// What `str::to_lowercase` makes of a text.
pub uninterp spec fn lower_of(s: Seq<char>) -> Seq<char>;

/// What a default `SkimMatcherV2` scores for `pattern` against `choice`.
pub uninterp spec fn skim_score_of(choice: Seq<char>, pattern: Seq<char>) -> Option<i64>;

/// `c` is an ASCII capital letter.
pub open spec fn is_ascii_upper(c: char) -> bool {
    'A' <= c <= 'Z'
}

/// `c` with ASCII capitals folded to small letters, as a code point.
pub open spec fn ascii_fold(c: char) -> u32 {
    if is_ascii_upper(c) { (c as u32 + 32) as u32 } else { c as u32 }
}

/// `c` and `p` are equal, ignoring ASCII case unless `case_sensitive`.
pub open spec fn chars_match(c: char, p: char, case_sensitive: bool) -> bool {
    if case_sensitive { c == p } else { ascii_fold(c) == ascii_fold(p) }
}

/// `pattern` occurs in `choice` as a subsequence, character by character.
pub open spec fn is_subsequence(pattern: Seq<char>, choice: Seq<char>, case_sensitive: bool) -> bool {
    exists|at: Seq<int>|
        at.len() == pattern.len() && (forall|k: int| 0 <= k < at.len() ==> 0 <= #[trigger] at[k]
            < choice.len() && chars_match(choice[at[k]], pattern[k], case_sensitive)) && (forall|
            j: int,
            k: int,
        | 0 <= j < k < at.len() ==> #[trigger] at[j] < #[trigger] at[k])
}

/// A name lowered to `choice` is kept for a query lowered to `pattern`.
pub open spec fn name_matches(choice: Seq<char>, pattern: Seq<char>) -> bool {
    pattern.len() == 0 || is_subsequence(pattern, choice, false)
}

/// Relies on `str::to_lowercase`: the result depends on the characters alone,
/// and every ASCII capital is lowered.
#[verifier::external_body]
fn lowercase(s: &str) -> (r: String)
    ensures
        r@ == lower_of(s@),
        forall|k: int| 0 <= k < r@.len() ==> !is_ascii_upper(#[trigger] r@[k]),
{
    s.to_lowercase()
}

/// Relies on `SkimMatcherV2::fuzzy_match` of fuzzy-matcher with its default
/// settings, which depends on the two texts alone: `Some(0)` for an empty
/// pattern, else a score exactly when the pattern is a subsequence of the
/// choice, ignoring ASCII case unless the pattern holds an ASCII capital.
#[verifier::external_body]
fn skim_score(choice: &str, pattern: &str) -> (r: Option<i64>)
    ensures
        r == skim_score_of(choice@, pattern@),
        pattern@.len() == 0 ==> r == Some(0i64),
        pattern@.len() > 0 ==> (r is Some <==> is_subsequence(
            pattern@,
            choice@,
            exists|k: int| 0 <= k < pattern@.len() && is_ascii_upper(#[trigger] pattern@[k]),
        )),
{
    SkimMatcherV2::default().fuzzy_match(choice, pattern)
}

/// The search score of each student of `students` for `query`, ignoring case.
pub open spec fn match_scores(students: Seq<Student>, query: Seq<char>) -> Seq<Option<i64>> {
    Seq::new(
        students.len(),
        |i: int| skim_score_of(lower_of(students[i].name@), lower_of(query)),
    )
}

/// Score of entry `a`, 0 where it did not match.
pub open spec fn score_at(scores: Seq<Option<i64>>, a: usize) -> int {
    match scores[a as int] {
        Some(x) => x as int,
        None => 0,
    }
}

/// `a` ranks before `b`: a higher score, or an equal score and an earlier index.
pub open spec fn ranks_before(scores: Seq<Option<i64>>, a: usize, b: usize) -> bool {
    score_at(scores, a) > score_at(scores, b) || (score_at(scores, a) == score_at(scores, b)
        && a < b)
}

/// Every pair of entries of `r` is in ranking order.
pub open spec fn ranked_pairwise(r: Seq<usize>, scores: Seq<Option<i64>>) -> bool {
    forall|j: int, k: int| 0 <= j < k < r.len() ==> ranks_before(scores, #[trigger] r[j], #[trigger] r[k])
}

/// `r` lists exactly the indices whose score is present, by descending score,
/// equal scores in index order.
pub open spec fn is_ranking(r: Seq<usize>, scores: Seq<Option<i64>>) -> bool {
    &&& forall|k: int| 0 <= k < r.len() ==> (#[trigger] r[k] as int) < scores.len()
        && scores[r[k] as int] is Some
    &&& forall|i: usize| (i as int) < scores.len() && (#[trigger] scores[i as int]) is Some
        ==> r.contains(i)
    &&& ranked_pairwise(r, scores)
}

/// The indices of the present scores, ranked: see `is_ranking`.
pub fn rank_matches(scores: &Vec<Option<i64>>) -> (r: Vec<usize>)
    ensures
        is_ranking(r@, scores@),
{
    let mut r: Vec<usize> = Vec::new();
    let mut i: usize = 0;
    while i < scores.len()
        invariant
            i <= scores.len(),
            forall|k: int| 0 <= k < r.len() ==> (#[trigger] r[k] as int) < i
                && scores[r[k] as int] is Some,
            forall|v: usize| (v as int) < i && (#[trigger] scores[v as int]) is Some
                ==> r@.contains(v),
            ranked_pairwise(r@, scores@),
        decreases scores.len() - i,
    {
        match scores[i] {
            None => {},
            Some(s) => {
                let mut p: usize = 0;
                loop
                    invariant
                        i < scores.len(),
                        p <= r.len(),
                        forall|k: int| 0 <= k < r.len() ==> (#[trigger] r[k] as int) < i
                            && scores[r[k] as int] is Some,
                        forall|k: int| 0 <= k < p ==> score_at(scores@, #[trigger] r[k]) >= s,
                    ensures
                        p <= r.len(),
                        forall|k: int| 0 <= k < p ==> score_at(scores@, #[trigger] r[k]) >= s,
                        p < r.len() ==> score_at(scores@, r[p as int]) < s,
                    decreases r.len() - p,
                {
                    if p == r.len() {
                        break;
                    }
                    let below = match scores[r[p]] {
                        Some(t) => t < s,
                        None => false,
                    };
                    if below {
                        break;
                    }
                    p += 1;
                }
                let ghost prev = r@;
                r.insert(p, i);
                assert(score_at(scores@, i) == s);
                assert(ranked_pairwise(r@, scores@)) by {
                    assert forall|j: int, k: int| 0 <= j < k < r.len() implies ranks_before(
                        scores@,
                        #[trigger] r[j],
                        #[trigger] r[k],
                    ) by {
                        if k < p {
                            assert(r[j] == prev[j] && r[k] == prev[k]);
                        } else if k == p {
                            assert(r[j] == prev[j]);
                        } else if j == p {
                            assert(r[k] == prev[k - 1]);
                            assert(score_at(scores@, prev[p as int]) < s);
                            if k - 1 > p {
                                assert(ranks_before(scores@, prev[p as int], prev[k - 1]));
                            }
                        } else if j < p {
                            assert(r[j] == prev[j] && r[k] == prev[k - 1]);
                        } else {
                            assert(r[j] == prev[j - 1] && r[k] == prev[k - 1]);
                        }
                    }
                }
                assert forall|v: usize| (v as int) < i + 1 && (#[trigger] scores[v as int]) is Some
                    implies r@.contains(v) by {
                    if v == i {
                        assert(r[p as int] == i);
                    } else {
                        let j = choose|j: int| 0 <= j < prev.len() && prev[j] == v;
                        if j < p {
                            assert(r[j] == v);
                        } else {
                            assert(r[j + 1] == v);
                        }
                    }
                }
            },
        }
        i += 1;
    }
    r
}

/// The search score of each student for `query`, both lowered first.
pub fn score_students(students: &Vec<Student>, query: &str) -> (r: Vec<Option<i64>>)
    ensures
        r@ == match_scores(students@, query@),
        forall|i: int| 0 <= i < students.len() ==> ((#[trigger] r@[i]) is Some <==> name_matches(
            lower_of(students@[i].name@),
            lower_of(query@),
        )),
{
    let pattern = lowercase(query);
    let mut r: Vec<Option<i64>> = Vec::new();
    let mut i: usize = 0;
    while i < students.len()
        invariant
            i <= students.len(),
            pattern@ == lower_of(query@),
            forall|k: int| 0 <= k < pattern@.len() ==> !is_ascii_upper(#[trigger] pattern@[k]),
            r@ == match_scores(students@, query@).take(i as int),
            forall|j: int| 0 <= j < i ==> ((#[trigger] r@[j]) is Some <==> name_matches(
                lower_of(students@[j].name@),
                lower_of(query@),
            )),
        decreases students.len() - i,
    {
        let name = lowercase(students[i].name.as_str());
        let score = skim_score(name.as_str(), pattern.as_str());
        r.push(score);
        assert(r@[i as int] == score);
        assert(r@ =~= match_scores(students@, query@).take(i + 1));
        i += 1;
    }
    assert(r@ =~= match_scores(students@, query@));
    r
}

/// The students whose name matches `query`, best match first; equal scores
/// keep registry order.
pub fn search(students: &Vec<Student>, query: &str) -> (r: Vec<usize>)
    ensures
        is_ranking(r@, match_scores(students@, query@)),
        forall|i: usize| (i as int) < students.len() ==> (#[trigger] r@.contains(i) <==> name_matches(
            lower_of(students@[i as int].name@),
            lower_of(query@),
        )),
{
    let scores = score_students(students, query);
    let r = rank_matches(&scores);
    assert forall|i: usize| (i as int) < students.len() implies (#[trigger] r@.contains(i)
        <==> name_matches(lower_of(students@[i as int].name@), lower_of(query@))) by {
        assert(scores@[i as int] is Some <==> name_matches(
            lower_of(students@[i as int].name@),
            lower_of(query@),
        ));
        if r@.contains(i) {
            let k = choose|k: int| 0 <= k < r@.len() && r@[k] == i;
            assert(scores@[r@[k] as int] is Some);
        }
    }
    r
}

proof fn lemma_ranked_unique(r1: Seq<usize>, r2: Seq<usize>, scores: Seq<Option<i64>>)
    requires
        ranked_pairwise(r1, scores),
        ranked_pairwise(r2, scores),
        forall|v: usize| r1.contains(v) <==> r2.contains(v),
    ensures
        r1 == r2,
    decreases r1.len(),
{
    if r1.len() == 0 {
        if r2.len() > 0 {
            assert(r2.contains(r2[0]));
        }
        assert(r1 =~= r2);
    } else {
        assert(r1.contains(r1[0]));
        let m = choose|m: int| 0 <= m < r2.len() && r2[m] == r1[0];
        assert(r2.contains(r2[0]));
        let l = choose|l: int| 0 <= l < r1.len() && r1[l] == r2[0];
        if m > 0 {
            assert(ranks_before(scores, r2[0], r2[m]));
            if l > 0 {
                assert(ranks_before(scores, r1[0], r1[l]));
            }
        }
        let t1 = r1.drop_first();
        let t2 = r2.drop_first();
        assert forall|v: usize| t1.contains(v) <==> t2.contains(v) by {
            if t1.contains(v) {
                let j = choose|j: int| 0 <= j < t1.len() && t1[j] == v;
                assert(r1[j + 1] == v);
                assert(ranks_before(scores, r1[0], r1[j + 1]));
                assert(r2.contains(v));
                let k = choose|k: int| 0 <= k < r2.len() && r2[k] == v;
                assert(k != 0);
                assert(t2[k - 1] == v);
            }
            if t2.contains(v) {
                let j = choose|j: int| 0 <= j < t2.len() && t2[j] == v;
                assert(r2[j + 1] == v);
                assert(ranks_before(scores, r2[0], r2[j + 1]));
                assert(r1.contains(v));
                let k = choose|k: int| 0 <= k < r1.len() && r1[k] == v;
                assert(k != 0);
                assert(t1[k - 1] == v);
            }
        }
        assert(ranked_pairwise(t1, scores)) by {
            assert forall|j: int, k: int| 0 <= j < k < t1.len() implies ranks_before(
                scores,
                #[trigger] t1[j],
                #[trigger] t1[k],
            ) by {
                assert(t1[j] == r1[j + 1] && t1[k] == r1[k + 1]);
            }
        }
        assert(ranked_pairwise(t2, scores)) by {
            assert forall|j: int, k: int| 0 <= j < k < t2.len() implies ranks_before(
                scores,
                #[trigger] t2[j],
                #[trigger] t2[k],
            ) by {
                assert(t2[j] == r2[j + 1] && t2[k] == r2[k + 1]);
            }
        }
        lemma_ranked_unique(t1, t2, scores);
        assert(r1 =~= r2) by {
            assert forall|k: int| 0 <= k < r1.len() implies r1[k] == r2[k] by {
                if k > 0 {
                    assert(r1[k] == t1[k - 1]);
                    assert(r2[k] == t2[k - 1]);
                }
            }
        }
    }
}

/// There is one ranking of a given set of scores: searching twice with the
/// same query over the same names gives the same list.
pub proof fn lemma_ranking_deterministic(r1: Seq<usize>, r2: Seq<usize>, scores: Seq<Option<i64>>)
    requires
        is_ranking(r1, scores),
        is_ranking(r2, scores),
    ensures
        r1 == r2,
{
    assert forall|v: usize| r1.contains(v) <==> r2.contains(v) by {
        if r1.contains(v) {
            let j = choose|j: int| 0 <= j < r1.len() && r1[j] == v;
            assert(scores[v as int] is Some);
        }
        if r2.contains(v) {
            let j = choose|j: int| 0 <= j < r2.len() && r2[j] == v;
            assert(scores[v as int] is Some);
        }
    }
    lemma_ranked_unique(r1, r2, scores);
}

} // verus!
