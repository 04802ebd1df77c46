use vstd::prelude::*;
use vstd::string::StrSliceExecFns;
use crate::student::{Student, keys_unique, find_key};

verus! {

/// One record of the seed data, its fields as read.
pub struct Row {
    pub name: String,
    pub email: String,
    pub participation_score: String,
    pub deferrals: String,
    pub absent: String,
}

/// Why a load failed.
#[derive(PartialEq, Eq, Structural, Clone, Copy, Debug)]
pub enum LoadError {
    /// A numeric field of the record at this position does not parse.
    MalformedRow(usize),
}

/// A White_Space character of Unicode, as `char::is_whitespace` reports it.
pub open spec fn is_white_space(c: char) -> bool {
    ||| '\u{9}' <= c <= '\u{d}'
    ||| c == ' '
    ||| c == '\u{85}'
    ||| c == '\u{a0}'
    ||| c == '\u{1680}'
    ||| '\u{2000}' <= c <= '\u{200a}'
    ||| c == '\u{2028}'
    ||| c == '\u{2029}'
    ||| c == '\u{202f}'
    ||| c == '\u{205f}'
    ||| c == '\u{3000}'
}

/// `t` is `s` without its leading and trailing white space.
pub open spec fn is_trim_of(t: Seq<char>, s: Seq<char>) -> bool {
    exists|i: int, j: int|
        0 <= i <= j <= s.len() && t == s.subrange(i, j)
            && (forall|k: int| 0 <= k < i ==> is_white_space(#[trigger] s[k]))
            && (forall|k: int| j <= k < s.len() ==> is_white_space(#[trigger] s[k]))
            && (i < j ==> !is_white_space(s[i]) && !is_white_space(s[j - 1]))
}

/// Relies on `str::trim`: leading and trailing White_Space characters are removed.
#[verifier::external_body]
fn trimmed(s: &str) -> (r: String)
    ensures
        is_trim_of(r@, s@),
{
    s.trim().to_string()
}

/// Value of the digit `c` (`0`-`9`, then `a`-`f` or `A`-`F` from ten on);
/// 16 for any other character.
pub open spec fn digit_value(c: char) -> nat {
    if '0' <= c <= '9' {
        (c as nat - '0' as nat) as nat
    } else if 'a' <= c <= 'f' {
        (c as nat - 'a' as nat + 10) as nat
    } else if 'A' <= c <= 'F' {
        (c as nat - 'A' as nat + 10) as nat
    } else {
        16
    }
}

/// Value of a string of digits in base `radix`.
pub open spec fn digits_value(s: Seq<char>, radix: nat) -> nat
    decreases s.len(),
{
    if s.len() == 0 {
        0
    } else {
        digits_value(s.drop_last(), radix) * radix + digit_value(s.last())
    }
}

/// A non-negative count as `usize::from_str_radix` reads it: an optional `+`,
/// then one or more digits of base `radix`, with a value that fits.
pub open spec fn radix_count_of(s: Seq<char>, radix: nat) -> Option<usize> {
    let d = if s.len() > 0 && s[0] == '+' { s.drop_first() } else { s };
    if d.len() > 0 && (forall|k: int| 0 <= k < d.len() ==> digit_value(#[trigger] d[k]) < radix)
        && digits_value(d, radix) <= usize::MAX {
        Some(digits_value(d, radix) as usize)
    } else {
        None
    }
}

/// A decimal count as `usize::from_str` reads it.
pub open spec fn count_of(s: Seq<char>) -> Option<usize> {
    radix_count_of(s, 10)
}

/// A count field of the seed data: hexadecimal after a `0x` prefix, else decimal.
pub open spec fn field_count_of(s: Seq<char>) -> Option<usize> {
    if s.len() >= 2 && s[0] == '0' && s[1] == 'x' {
        radix_count_of(s.skip(2), 16)
    } else {
        count_of(s)
    }
}

/// Relies on `str::parse::<usize>` (`usize::from_str`).
#[verifier::external_body]
fn parse_count(s: &str) -> (r: Option<usize>)
    ensures
        r == count_of(s@),
{
    s.parse::<usize>().ok()
}

/// Relies on `usize::from_str_radix` with base 16.
#[verifier::external_body]
fn parse_hex_count(s: &str) -> (r: Option<usize>)
    ensures
        r == radix_count_of(s@, 16),
{
    usize::from_str_radix(s, 16).ok()
}

/// Reads a count field: see `field_count_of`.
pub fn read_count(s: &str) -> (r: Option<usize>)
    ensures
        r == field_count_of(s@),
{
    let n = s.unicode_len();
    if n >= 2 && s.get_char(0) == '0' && s.get_char(1) == 'x' {
        let digits = s.substring_char(2, n);
        assert(digits@ =~= s@.skip(2));
        parse_hex_count(digits)
    } else {
        parse_count(s)
    }
}

/// All three numeric fields of `row` parse.
pub open spec fn row_parses(row: Row) -> bool {
    &&& field_count_of(row.participation_score@) is Some
    &&& field_count_of(row.deferrals@) is Some
    &&& field_count_of(row.absent@) is Some
}

/// `st` is the student that `row` describes, with no answers yet and tier 0.
pub open spec fn from_row(st: Student, row: Row) -> bool {
    &&& is_trim_of(st.name@, row.name@)
    &&& is_trim_of(st.email@, row.email@)
    &&& Some(st.participation_score) == field_count_of(row.participation_score@)
    &&& Some(st.deferrals) == field_count_of(row.deferrals@)
    &&& Some(st.absent) == field_count_of(row.absent@)
    &&& st.answered_today == 0
    &&& st.color == 0
}

/// `st` comes from the last of the first `n` rows that carries its key.
pub open spec fn from_last_row(st: Student, rows: Seq<Row>, n: int) -> bool {
    exists|r: int|
        0 <= r < n && from_row(st, #[trigger] rows[r])
            && (forall|q: int| r < q < n ==> !is_trim_of(st.email@, #[trigger] rows[q].email@))
}

/// Some student of `students` has the trimmed form of `key` as key.
pub open spec fn has_key(students: Seq<Student>, key: Seq<char>) -> bool {
    exists|k: int| 0 <= k < students.len() && is_trim_of(#[trigger] students[k].email@, key)
}

/// `students` holds one entry per key among the first `n` rows, each made
/// from the last of those rows whose trimmed key it is.
pub open spec fn registry_of_rows(students: Seq<Student>, rows: Seq<Row>, n: int) -> bool {
    &&& keys_unique(students)
    &&& forall|k: int| 0 <= k < students.len() ==> from_last_row(#[trigger] students[k], rows, n)
    &&& forall|r: int| 0 <= r < n ==> has_key(students, #[trigger] rows[r].email@)
}

proof fn lemma_trim_unique(t1: Seq<char>, t2: Seq<char>, s: Seq<char>)
    requires
        is_trim_of(t1, s),
        is_trim_of(t2, s),
    ensures
        t1 == t2,
{
    let (i1, j1) = choose|i: int, j: int|
        0 <= i <= j <= s.len() && t1 == s.subrange(i, j)
            && (forall|k: int| 0 <= k < i ==> is_white_space(#[trigger] s[k]))
            && (forall|k: int| j <= k < s.len() ==> is_white_space(#[trigger] s[k]))
            && (i < j ==> !is_white_space(s[i]) && !is_white_space(s[j - 1]));
    let (i2, j2) = choose|i: int, j: int|
        0 <= i <= j <= s.len() && t2 == s.subrange(i, j)
            && (forall|k: int| 0 <= k < i ==> is_white_space(#[trigger] s[k]))
            && (forall|k: int| j <= k < s.len() ==> is_white_space(#[trigger] s[k]))
            && (i < j ==> !is_white_space(s[i]) && !is_white_space(s[j - 1]));
    if i1 < j1 && i2 < j2 {
        assert(i1 == i2 && j1 == j2);
    } else if i1 < j1 {
        assert(!is_white_space(s[i1]));
        if i1 < i2 {
        } else {
            assert(j2 <= i1);
        }
    } else if i2 < j2 {
        assert(!is_white_space(s[i2]));
        if i2 < i1 {
        } else {
            assert(j1 <= i2);
        }
    }
    assert(t1 =~= t2);
}

/// Builds the registry from the seed rows: a row whose key repeats an
/// earlier one replaces it. Fails at the first row with a numeric field that
/// does not parse.
pub fn load(rows: &Vec<Row>) -> (r: Result<Vec<Student>, LoadError>)
    ensures
        match r {
            Ok(students) => (forall|k: int| 0 <= k < rows.len() ==> row_parses(#[trigger] rows@[k]))
                && registry_of_rows(students@, rows@, rows.len() as int),
            Err(LoadError::MalformedRow(i)) => (i as int) < rows.len() && !row_parses(rows@[i as int])
                && forall|k: int| 0 <= k < i ==> row_parses(#[trigger] rows@[k]),
        },
{
    let mut students: Vec<Student> = Vec::new();
    let mut i: usize = 0;
    while i < rows.len()
        invariant
            i <= rows.len(),
            forall|k: int| 0 <= k < i ==> row_parses(#[trigger] rows@[k]),
            registry_of_rows(students@, rows@, i as int),
        decreases rows.len() - i,
    {
        let row = &rows[i];
        let participation_score = match read_count(row.participation_score.as_str()) {
            Some(v) => v,
            None => {
                return Err(LoadError::MalformedRow(i));
            },
        };
        let deferrals = match read_count(row.deferrals.as_str()) {
            Some(v) => v,
            None => {
                return Err(LoadError::MalformedRow(i));
            },
        };
        let absent = match read_count(row.absent.as_str()) {
            Some(v) => v,
            None => {
                return Err(LoadError::MalformedRow(i));
            },
        };
        let email = trimmed(row.email.as_str());
        let st = Student {
            name: trimmed(row.name.as_str()),
            email,
            participation_score,
            deferrals,
            absent,
            answered_today: 0,
            color: 0,
        };
        assert(from_row(st, rows@[i as int]));
        let ghost prev = students@;
        match find_key(&students, &st.email) {
            Some(k) => {
                students.set(k, st);
                proof {
                    lemma_replace_keeps(prev, students@, rows@, i as int, k as int);
                }
            },
            None => {
                students.push(st);
                proof {
                    assert(students@.drop_last() =~= prev);
                    lemma_push_keeps(prev, students@, rows@, i as int);
                }
            },
        }
        i += 1;
    }
    Ok(students)
}

proof fn lemma_replace_keeps(prev: Seq<Student>, next: Seq<Student>, rows: Seq<Row>, i: int, k: int)
    requires
        0 <= i < rows.len(),
        0 <= k < prev.len(),
        registry_of_rows(prev, rows, i),
        next == prev.update(k, next[k]),
        from_row(next[k], rows[i]),
        prev[k].email@ == next[k].email@,
    ensures
        registry_of_rows(next, rows, i + 1),
{
    assert forall|a: int, b: int|
        0 <= a < next.len() && 0 <= b < next.len() && a != b
            implies #[trigger] next[a].email@ != #[trigger] next[b].email@ by {
        assert(prev[a].email@ == next[a].email@);
        assert(prev[b].email@ == next[b].email@);
    }
    assert forall|m: int| 0 <= m < next.len() implies from_last_row(#[trigger] next[m], rows, i + 1) by {
        if m == k {
            assert(from_row(next[m], rows[i]));
        } else {
            assert(from_last_row(prev[m], rows, i));
            let r = choose|r: int|
                0 <= r < i && from_row(prev[m], #[trigger] rows[r])
                    && (forall|q: int| r < q < i ==> !is_trim_of(prev[m].email@, #[trigger] rows[q].email@));
            assert(next[m] == prev[m]);
            if is_trim_of(next[m].email@, rows[i].email@) {
                lemma_trim_unique(next[m].email@, next[k].email@, rows[i].email@);
            }
            assert(forall|q: int| r < q < i + 1 ==> !is_trim_of(next[m].email@, #[trigger] rows[q].email@));
        }
    }
    assert forall|r: int| 0 <= r < i + 1 implies has_key(next, #[trigger] rows[r].email@) by {
        if r == i {
            assert(is_trim_of(next[k].email@, rows[r].email@));
        } else {
            assert(has_key(prev, rows[r].email@));
            let m = choose|m: int| 0 <= m < prev.len() && is_trim_of(#[trigger] prev[m].email@, rows[r].email@);
            assert(next[m].email@ == prev[m].email@);
        }
    }
}

proof fn lemma_push_keeps(prev: Seq<Student>, next: Seq<Student>, rows: Seq<Row>, i: int)
    requires
        0 <= i < rows.len(),
        registry_of_rows(prev, rows, i),
        next.len() == prev.len() + 1,
        next.drop_last() == prev,
        from_row(next.last(), rows[i]),
        forall|m: int| 0 <= m < prev.len() ==> (#[trigger] prev[m]).email@ != next.last().email@,
    ensures
        registry_of_rows(next, rows, i + 1),
{
    let n = prev.len() as int;
    assert forall|a: int, b: int|
        0 <= a < next.len() && 0 <= b < next.len() && a != b
            implies #[trigger] next[a].email@ != #[trigger] next[b].email@ by {
        if a < n {
            assert(next[a] == prev[a]);
        }
        if b < n {
            assert(next[b] == prev[b]);
        }
    }
    assert forall|m: int| 0 <= m < next.len() implies from_last_row(#[trigger] next[m], rows, i + 1) by {
        if m == n {
            assert(from_row(next[m], rows[i]));
        } else {
            assert(from_last_row(prev[m], rows, i));
            let r = choose|r: int|
                0 <= r < i && from_row(prev[m], #[trigger] rows[r])
                    && (forall|q: int| r < q < i ==> !is_trim_of(prev[m].email@, #[trigger] rows[q].email@));
            assert(next[m] == prev[m]);
            if is_trim_of(next[m].email@, rows[i].email@) {
                lemma_trim_unique(next[m].email@, next[n].email@, rows[i].email@);
            }
            assert(forall|q: int| r < q < i + 1 ==> !is_trim_of(next[m].email@, #[trigger] rows[q].email@));
        }
    }
    assert forall|r: int| 0 <= r < i + 1 implies has_key(next, #[trigger] rows[r].email@) by {
        if r == i {
            assert(is_trim_of(next[n].email@, rows[r].email@));
        } else {
            assert(has_key(prev, rows[r].email@));
            let m = choose|m: int| 0 <= m < prev.len() && is_trim_of(#[trigger] prev[m].email@, rows[r].email@);
            assert(next[m] == prev[m]);
        }
    }
}

} // verus!
