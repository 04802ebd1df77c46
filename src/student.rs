use vstd::prelude::*;

verus! {

/// One student of the registry, identified by `email`.
#[derive(Clone, Debug)]
pub struct Student {
    pub name: String,
    pub email: String,
    pub participation_score: usize,
    pub deferrals: usize,
    pub absent: usize,
    /// Answers recorded since the process started.
    pub answered_today: usize,
    /// Display tier, recomputed whenever the order is regenerated.
    pub color: usize,
}

/// The participation scores of `students`, in registry order.
pub open spec fn scores_of(students: Seq<Student>) -> Seq<usize> {
    students.map_values(|s: Student| s.participation_score)
}

/// No two students share a key.
pub open spec fn keys_unique(students: Seq<Student>) -> bool {
    forall|i: int, j: int|
        0 <= i < students.len() && 0 <= j < students.len() && i != j
            ==> #[trigger] students[i].email@ != #[trigger] students[j].email@
}

/// Index of the student whose key is `key`.
pub fn find_key(students: &Vec<Student>, key: &String) -> (r: Option<usize>)
    ensures
        match r {
            Some(k) => (k as int) < students.len() && students@[k as int].email@ == key@,
            None => forall|k: int| 0 <= k < students.len()
                ==> (#[trigger] students@[k]).email@ != key@,
        },
{
    let mut i: usize = 0;
    while i < students.len()
        invariant
            i <= students.len(),
            forall|k: int| 0 <= k < i ==> (#[trigger] students@[k]).email@ != key@,
        decreases students.len() - i,
    {
        if students[i].email == *key {
            return Some(i);
        }
        i += 1;
    }
    None
}

impl Student {
    /// A copy of this student, field for field.
    pub fn snapshot(&self) -> (r: Student)
        ensures
            r == *self,
    {
        Student {
            name: self.name.clone(),
            email: self.email.clone(),
            participation_score: self.participation_score,
            deferrals: self.deferrals,
            absent: self.absent,
            answered_today: self.answered_today,
            color: self.color,
        }
    }
}

} // verus!
