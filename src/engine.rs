use vstd::prelude::*;
use crate::student::{Student, keys_unique, find_key};
use crate::order::{
    is_permutation, retiered, same_record, tiers_current, drawn_order, draw_order, assign_tiers,
};
use crate::search::{match_scores, is_ranking, search, lemma_ranking_deterministic};
use crate::text::{MAX_TEXT_CHARS, text_of, byte_offset};
use vstd::utf8::encode_utf8;

verus! {

/// What the main screen shows beneath any student popup.
#[derive(PartialEq, Eq, Structural, Clone, Copy, Debug)]
pub enum DisplayMode {
    Command,
    Searching,
}

/// The mode that decides what the operator's input means.
#[derive(PartialEq, Eq, Structural, Clone, Copy, Debug)]
pub enum InputMode {
    Command,
    Searching,
    Student,
}

/// An operator command, as the input source delivers it.
#[derive(PartialEq, Eq, Structural, Clone, Copy, Debug)]
pub enum Action {
    Quit,
    Reshuffle,
    BeginSearch,
    Up,
    Down,
    Confirm,
    Escape,
    Insert(char),
    Backspace,
    Left,
    Right,
    Answer,
    Absent,
    Defer,
}

/// The view shown for `input` over the registry: the call order itself for an
/// empty query, else the ranked matches.
pub open spec fn view_fresh(
    students: Seq<Student>,
    order: Seq<usize>,
    input: Seq<char>,
    view: Seq<usize>,
) -> bool {
    if input.len() == 0 {
        view == order
    } else {
        is_ranking(view, match_scores(students, input))
    }
}

/// The selection is absent exactly on an empty view, else an index into it.
pub open spec fn selection_ok(view: Seq<usize>, selection: Option<usize>) -> bool {
    match selection {
        None => view.len() == 0,
        Some(i) => (i as int) < view.len(),
    }
}

/// `after` is `before` with one more point and one more answer today for the
/// student whose key is `key`, every other counter unchanged (display tiers aside).
pub open spec fn answered(before: Seq<Student>, after: Seq<Student>, key: Seq<char>) -> bool {
    &&& after.len() == before.len()
    &&& forall|k: int| 0 <= k < before.len() ==> {
        let b = #[trigger] before[k];
        let a = after[k];
        &&& a.name == b.name
        &&& a.email == b.email
        &&& a.deferrals == b.deferrals
        &&& a.absent == b.absent
        &&& if b.email@ == key {
            &&& a.participation_score == b.participation_score + 1
            &&& a.answered_today == b.answered_today + 1
        } else {
            &&& a.participation_score == b.participation_score
            &&& a.answered_today == b.answered_today
        }
    }
}

/// The selection one entry up, where there is one above.
pub open spec fn selection_up(selection: Option<usize>) -> Option<usize> {
    match selection {
        Some(i) if i > 0 => Some((i - 1) as usize),
        other => other,
    }
}

/// The selection one entry down, where there is one below.
pub open spec fn selection_down(view: Seq<usize>, selection: Option<usize>) -> Option<usize> {
    match selection {
        Some(i) if i + 1 < view.len() => Some((i + 1) as usize),
        other => other,
    }
}

/// The selection after a reset: the first entry, if any.
pub open spec fn first_selection(view: Seq<usize>) -> Option<usize> {
    if view.len() > 0 { Some(0) } else { None }
}

/// The popup content that confirming the selection opens: a copy of the
/// selected student, or nothing without a selection.
pub open spec fn selected_copy(a: App) -> Option<Student> {
    match a.selection {
        None => None,
        Some(i) => Some(a.students@[a.view@[i as int] as int]),
    }
}

/// The view of `b` is recomputed from its registry, order and query, and the
/// selection is back on the first entry.
pub open spec fn refreshed(b: App) -> bool {
    &&& view_fresh(b.students@, b.order@, b.input@, b.view@)
    &&& b.selection == first_selection(b.view@)
}

/// `b` is `a` with the selection one entry up.
pub open spec fn moved_up(a: App, b: App) -> bool {
    b == (App { selection: selection_up(a.selection), ..a })
}

/// `b` is `a` with the selection one entry down.
pub open spec fn moved_down(a: App, b: App) -> bool {
    b == (App { selection: selection_down(a.view@, a.selection), ..a })
}

/// `b` is `a` with the screen switched to searching.
pub open spec fn begun_search(a: App, b: App) -> bool {
    b == (App { display_mode: DisplayMode::Searching, ..a })
}

/// `b` is `a` with the popup opened on the selected student.
pub open spec fn confirmed(a: App, b: App) -> bool {
    b == (App { student_display: selected_copy(a), ..a })
}

/// `b` is `a` with the popup closed.
pub open spec fn popup_closed(a: App, b: App) -> bool {
    b == (App { student_display: None, ..a })
}

/// `b` is `a` with the query cursor one character left, stopping at the start.
pub open spec fn cursor_moved_left(a: App, b: App) -> bool {
    b == (App {
        character_index: if a.character_index > 0 {
            (a.character_index - 1) as usize
        } else {
            0
        },
        ..a
    })
}

/// `b` is `a` with the query cursor one character right, stopping at the end.
pub open spec fn cursor_moved_right(a: App, b: App) -> bool {
    b == (App {
        character_index: if a.character_index < a.input.len() {
            (a.character_index + 1) as usize
        } else {
            a.character_index
        },
        ..a
    })
}

/// Registry, order, screen mode and popup are the same in `a` and `b`.
pub open spec fn same_registry_and_modes(a: App, b: App) -> bool {
    &&& b.students == a.students
    &&& b.order == a.order
    &&& b.display_mode == a.display_mode
    &&& b.student_display == a.student_display
}

/// `b` is `a` with `c` typed at the cursor and the view refreshed.
pub open spec fn char_entered(a: App, b: App, c: char) -> bool {
    &&& same_registry_and_modes(a, b)
    &&& b.input@ == a.input@.insert(a.character_index as int, c)
    &&& b.character_index == a.character_index + 1
    &&& refreshed(b)
}

/// `b` is `a` with the character left of the cursor deleted, if any, and the
/// view refreshed.
pub open spec fn char_deleted(a: App, b: App) -> bool {
    &&& same_registry_and_modes(a, b)
    &&& if a.character_index != 0 {
        &&& b.input@ == a.input@.remove(a.character_index - 1)
        &&& b.character_index == a.character_index - 1
    } else {
        &&& b.input == a.input
        &&& b.character_index == 0
    }
    &&& refreshed(b)
}

/// `b` is `a` with the query emptied and the view refreshed.
pub open spec fn query_cleared(a: App, b: App) -> bool {
    &&& same_registry_and_modes(a, b)
    &&& b.input@.len() == 0
    &&& b.character_index == 0
    &&& b.view@ == a.order@
    &&& refreshed(b)
}

/// `b` is `a` back in command mode with the query emptied and the view refreshed.
pub open spec fn search_ended(a: App, b: App) -> bool {
    &&& b.students == a.students
    &&& b.order == a.order
    &&& b.student_display == a.student_display
    &&& b.display_mode == DisplayMode::Command
    &&& b.input@.len() == 0
    &&& b.character_index == 0
    &&& b.view@ == a.order@
    &&& refreshed(b)
}

/// `b` is `a` with tiers recomputed, a new call order drawn and the view refreshed.
pub open spec fn reshuffled(a: App, b: App) -> bool {
    &&& retiered(a.students@, b.students@)
    &&& tiers_current(b.students@)
    &&& drawn_order(b.students@, b.order@)
    &&& b.input == a.input
    &&& b.character_index == a.character_index
    &&& b.display_mode == a.display_mode
    &&& b.student_display == a.student_display
    &&& refreshed(b)
}

/// `b` is `a` after the inspected student answered: their live entry gains a
/// point and an answer today, tiers and order are drawn anew, the view is
/// refreshed and the popup is closed, back in the mode it was opened from.
pub open spec fn answer_recorded(a: App, b: App) -> bool {
    &&& a.student_display is Some
    &&& answered(a.students@, b.students@, a.student_display->Some_0.email@)
    &&& tiers_current(b.students@)
    &&& drawn_order(b.students@, b.order@)
    &&& b.input == a.input
    &&& b.character_index == a.character_index
    &&& b.display_mode == a.display_mode
    &&& b.student_display is None
    &&& refreshed(b)
}

/// What `action` does to `a` in the mode in force; a command that means
/// nothing there leaves the state as it was.
pub open spec fn transition(a: App, action: Action, b: App) -> bool {
    match a.mode() {
        InputMode::Command => match action {
            Action::BeginSearch => begun_search(a, b),
            Action::Reshuffle => reshuffled(a, b),
            Action::Up => moved_up(a, b),
            Action::Down => moved_down(a, b),
            Action::Confirm => confirmed(a, b),
            _ => b == a,
        },
        InputMode::Searching => match action {
            Action::Confirm => confirmed(a, b),
            Action::Up => moved_up(a, b),
            Action::Down => moved_down(a, b),
            Action::Insert(c) => char_entered(a, b, c),
            Action::Backspace => char_deleted(a, b),
            Action::Left => cursor_moved_left(a, b),
            Action::Right => cursor_moved_right(a, b),
            Action::Escape => search_ended(a, b),
            _ => b == a,
        },
        InputMode::Student => match action {
            Action::Answer => answer_recorded(a, b),
            Action::Absent | Action::Defer | Action::Escape => popup_closed(a, b),
            _ => b == a,
        },
    }
}

/// What `a` guarantees carries over to `b` where only the query, its cursor,
/// the view or the selection changed.
proof fn lemma_frame(a: App, b: App)
    requires
        a.registry_wf(),
        b.students == a.students,
        b.order == a.order,
        b.character_index <= b.input.len(),
        b.input.len() <= MAX_TEXT_CHARS,
        b.student_display == a.student_display,
    ensures
        b.registry_wf(),
        is_permutation(a.order@, a.students.len() as nat) ==> b.base_wf(),
        b.input == a.input && b.view == a.view && b.selection == a.selection && a.wf() ==> b.wf(),
{
    if b.student_display is Some {
        let e = b.student_display->Some_0.email@;
        let i = choose|i: int| 0 <= i < a.students.len() && (#[trigger] a.students[i]).email@ == e;
        assert(b.students[i].email@ == e);
    }
}

/// The state of the roster engine.
pub struct App {
    /// Current text of the query.
    pub input: Vec<char>,
    /// Cursor position in the query, in characters.
    pub character_index: usize,
    /// How the main screen is shown.
    pub display_mode: DisplayMode,
    /// Frozen copy of the student being inspected, if any.
    pub student_display: Option<Student>,
    /// The registry; an index into it identifies a student.
    pub students: Vec<Student>,
    /// The weighted call order.
    pub order: Vec<usize>,
    /// The list shown to the operator.
    pub view: Vec<usize>,
    /// Offset of the selected entry into the view.
    pub selection: Option<usize>,
}

impl App {
    /// The registry, the query and the popup are consistent.
    pub open spec fn registry_wf(&self) -> bool {
        &&& keys_unique(self.students@)
        &&& self.character_index <= self.input.len()
        &&& self.input.len() <= MAX_TEXT_CHARS
        &&& self.student_display matches Some(s) ==> exists|i: int|
            0 <= i < self.students.len() && (#[trigger] self.students[i]).email@ == s.email@
    }

    /// Everything but the view and the selection is consistent.
    pub open spec fn base_wf(&self) -> bool {
        &&& self.registry_wf()
        &&& is_permutation(self.order@, self.students.len() as nat)
    }

    /// The invariant of the engine.
    pub open spec fn wf(&self) -> bool {
        &&& self.base_wf()
        &&& view_fresh(self.students@, self.order@, self.input@, self.view@)
        &&& selection_ok(self.view@, self.selection)
    }

    /// The mode in force: a student popup takes precedence over the screen's mode.
    pub open spec fn mode(&self) -> InputMode {
        match self.student_display {
            Some(_) => InputMode::Student,
            None => match self.display_mode {
                DisplayMode::Command => InputMode::Command,
                DisplayMode::Searching => InputMode::Searching,
            },
        }
    }

    /// The engine over a freshly loaded registry, with a first call order drawn.
    pub fn new(students: Vec<Student>) -> (r: App)
        requires
            keys_unique(students@),
        ensures
            r.wf(),
            retiered(students@, r.students@),
            tiers_current(r.students@),
            drawn_order(r.students@, r.order@),
            r.input@.len() == 0,
            r.character_index == 0,
            r.display_mode == DisplayMode::Command,
            r.student_display is None,
            r.view@ == r.order@,
            r.selection == first_selection(r.view@),
    {
        let mut s = App {
            input: Vec::new(),
            character_index: 0,
            display_mode: DisplayMode::Command,
            student_display: None,
            students,
            order: Vec::new(),
            view: Vec::new(),
            selection: None,
        };
        s.randomize();
        s
    }

    /// Recomputes the display tiers, draws a new call order and refreshes the view.
    pub fn randomize(&mut self)
        requires
            old(self).registry_wf(),
        ensures
            final(self).wf(),
            reshuffled(*old(self), *final(self)),
    {
        let ghost before = self.students@;
        assign_tiers(&mut self.students);
        self.order = draw_order(&self.students);
        proof {
            let after = self.students@;
            assert forall|i: int, j: int|
                0 <= i < after.len() && 0 <= j < after.len() && i != j
                    implies #[trigger] after[i].email@ != #[trigger] after[j].email@ by {
                assert(same_record(before[i], after[i]));
                assert(same_record(before[j], after[j]));
            }
            if self.student_display is Some {
                let e = self.student_display->Some_0.email@;
                let i = choose|i: int| 0 <= i < before.len() && (#[trigger] before[i]).email@ == e;
                assert(same_record(before[i], after[i]));
            }
        }
        self.update_student_view();
    }

    /// The registry changed: everything derived from it is recomputed.
    pub fn update_data(&mut self)
        requires
            old(self).registry_wf(),
        ensures
            final(self).wf(),
            reshuffled(*old(self), *final(self)),
    {
        self.randomize();
    }

    /// Moves the selection one entry up, if there is one above.
    pub fn move_selection_up(&mut self)
        requires
            old(self).wf(),
        ensures
            final(self).wf(),
            moved_up(*old(self), *final(self)),
    {
        let ghost pre = *self;
        match self.selection {
            None => {},
            Some(sel) => {
                if sel > 0 {
                    self.selection = Some(sel - 1);
                }
            },
        }
        proof {
            lemma_frame(pre, *self);
        }
    }

    /// Moves the selection one entry down, if there is one below.
    pub fn move_selection_down(&mut self)
        requires
            old(self).wf(),
        ensures
            final(self).wf(),
            moved_down(*old(self), *final(self)),
    {
        let ghost pre = *self;
        match self.selection {
            None => {},
            Some(sel) => {
                if sel < self.view.len() - 1 {
                    self.selection = Some(sel + 1);
                }
            },
        }
        proof {
            lemma_frame(pre, *self);
        }
    }

    /// The list shown to the operator, as indices into the registry.
    pub fn students_view(&self) -> (r: &Vec<usize>)
        ensures
            r == &self.view,
    {
        &self.view
    }

    /// The student under the selection.
    pub fn selected_student(&self) -> (r: Option<&Student>)
        requires
            self.wf(),
        ensures
            r == match self.selection {
                None => None,
                Some(i) => Some(&self.students@[self.view@[i as int] as int]),
            },
    {
        match self.selection {
            None => None,
            Some(sel) => {
                proof {
                    self.lemma_view_in_registry();
                }
                Some(&self.students[self.view[sel]])
            },
        }
    }

    proof fn lemma_view_in_registry(&self)
        requires
            self.wf(),
        ensures
            forall|k: int| 0 <= k < self.view.len() ==> (#[trigger] self.view@[k] as int) < self.students.len(),
    {
        if self.input.len() != 0 {
            assert(match_scores(self.students@, self.input@).len() == self.students.len());
        }
    }


    /// `pos`, held inside the query.
    pub fn clamp_cursor(&self, pos: usize) -> (r: usize)
        ensures
            r == if pos <= self.input.len() { pos } else { self.input.len() },
    {
        if pos <= self.input.len() {
            pos
        } else {
            self.input.len()
        }
    }

    /// Moves the query cursor one character left, stopping at the start.
    pub fn move_cursor_left(&mut self)
        requires
            old(self).wf(),
        ensures
            final(self).wf(),
            cursor_moved_left(*old(self), *final(self)),
    {
        let ghost pre = *self;
        let moved = self.character_index.saturating_sub(1);
        self.character_index = self.clamp_cursor(moved);
        proof {
            lemma_frame(pre, *self);
        }
    }

    /// Moves the query cursor one character right, stopping at the end.
    pub fn move_cursor_right(&mut self)
        requires
            old(self).wf(),
        ensures
            final(self).wf(),
            cursor_moved_right(*old(self), *final(self)),
    {
        let ghost pre = *self;
        let moved = self.character_index.saturating_add(1);
        self.character_index = self.clamp_cursor(moved);
        proof {
            lemma_frame(pre, *self);
        }
    }

    /// Byte offset of the cursor in the UTF-8 text of the query.
    pub fn byte_index(&self) -> (r: usize)
        requires
            self.registry_wf(),
        ensures
            r == encode_utf8(self.input@.take(self.character_index as int)).len(),
    {
        byte_offset(&self.input, self.character_index)
    }

    /// Inserts `new_char` at the cursor, moves the cursor past it and refreshes the view.
    pub fn enter_char(&mut self, new_char: char)
        requires
            old(self).wf(),
            old(self).input.len() < MAX_TEXT_CHARS,
        ensures
            final(self).wf(),
            char_entered(*old(self), *final(self), new_char),
    {
        let ghost pre = *self;
        let index = self.character_index;
        self.input.insert(index, new_char);
        self.move_cursor_right_unchecked();
        proof {
            lemma_frame(pre, *self);
        }
        self.update_student_view();
    }

    fn move_cursor_right_unchecked(&mut self)
        requires
            old(self).character_index < old(self).input.len(),
        ensures
            final(self).character_index == old(self).character_index + 1,
            final(self).input == old(self).input,
            final(self).students == old(self).students,
            final(self).order == old(self).order,
            final(self).view == old(self).view,
            final(self).selection == old(self).selection,
            final(self).display_mode == old(self).display_mode,
            final(self).student_display == old(self).student_display,
    {
        let moved = self.character_index.saturating_add(1);
        self.character_index = self.clamp_cursor(moved);
    }

    /// Deletes the character left of the cursor, if any, and refreshes the view.
    pub fn delete_char(&mut self)
        requires
            old(self).wf(),
        ensures
            final(self).wf(),
            char_deleted(*old(self), *final(self)),
    {
        let ghost pre = *self;
        if self.character_index != 0 {
            let current_index = self.character_index;
            self.input.remove(current_index - 1);
            self.character_index = current_index - 1;
        }
        proof {
            lemma_frame(pre, *self);
        }
        self.update_student_view();
    }

    /// Puts the query cursor at the start.
    pub fn reset_cursor(&mut self)
        requires
            old(self).wf(),
        ensures
            final(self).wf(),
            final(self).character_index == 0,
            final(self).input == old(self).input,
            final(self).students == old(self).students,
            final(self).order == old(self).order,
            final(self).view == old(self).view,
            final(self).selection == old(self).selection,
            final(self).display_mode == old(self).display_mode,
            final(self).student_display == old(self).student_display,
    {
        let ghost pre = *self;
        self.character_index = 0;
        proof {
            lemma_frame(pre, *self);
        }
    }

    /// Empties the query and refreshes the view.
    pub fn input_clear(&mut self)
        requires
            old(self).wf(),
        ensures
            final(self).wf(),
            query_cleared(*old(self), *final(self)),
    {
        let ghost pre = *self;
        self.input.clear();
        self.character_index = 0;
        proof {
            lemma_frame(pre, *self);
        }
        self.update_student_view();
    }


    /// Opens the popup on a copy of the selected student; without a selection nothing opens.
    pub fn display_selected_student(&mut self)
        requires
            old(self).wf(),
        ensures
            final(self).wf(),
            confirmed(*old(self), *final(self)),
    {
        let snapshot = match self.selected_student() {
            None => None,
            Some(s) => Some(s.snapshot()),
        };
        proof {
            self.lemma_view_in_registry();
        }
        self.student_display = snapshot;
        proof {
            if let Some(i) = self.selection {
                let k = self.view@[i as int] as int;
                assert(self.students@[k].email@ == self.student_display->Some_0.email@);
            }
        }
    }

    /// The mode in force.
    pub fn input_mode(&self) -> (r: InputMode)
        ensures
            r == self.mode(),
    {
        if self.student_display.is_some() {
            return InputMode::Student;
        }
        match self.display_mode {
            DisplayMode::Command => InputMode::Command,
            DisplayMode::Searching => InputMode::Searching,
        }
    }

    /// Shows the query box for typing.
    pub fn begin_search(&mut self)
        requires
            old(self).wf(),
        ensures
            final(self).wf(),
            begun_search(*old(self), *final(self)),
    {
        let ghost pre = *self;
        self.display_mode = DisplayMode::Searching;
        proof {
            lemma_frame(pre, *self);
        }
    }

    /// Leaves the search: back to commands, with the query cleared.
    pub fn end_search(&mut self)
        requires
            old(self).wf(),
        ensures
            final(self).wf(),
            search_ended(*old(self), *final(self)),
    {
        let ghost pre = *self;
        self.display_mode = DisplayMode::Command;
        proof {
            lemma_frame(pre, *self);
        }
        self.input_clear();
    }

    /// Closes the popup without recording anything.
    pub fn student_escape(&mut self)
        requires
            old(self).wf(),
        ensures
            final(self).wf(),
            popup_closed(*old(self), *final(self)),
    {
        self.student_display = None;
    }

    /// The inspected student is absent: the popup closes, no counter changes.
    pub fn student_absent(&mut self)
        requires
            old(self).wf(),
        ensures
            final(self).wf(),
            popup_closed(*old(self), *final(self)),
    {
        self.student_escape();
    }

    /// The inspected student defers: the popup closes, no counter changes.
    pub fn student_defer(&mut self)
        requires
            old(self).wf(),
        ensures
            final(self).wf(),
            popup_closed(*old(self), *final(self)),
    {
        self.student_escape();
    }

    /// Index of the student whose key is `key`.
    pub fn find_student(&self, key: &String) -> (r: Option<usize>)
        requires
            keys_unique(self.students@),
        ensures
            match r {
                Some(k) => (k as int) < self.students.len() && self.students@[k as int].email@ == key@,
                None => forall|k: int| 0 <= k < self.students.len()
                    ==> (#[trigger] self.students@[k]).email@ != key@,
            },
    {
        find_key(&self.students, key)
    }

    /// The live counters of the inspected student can take one more answer.
    pub open spec fn answer_fits(&self) -> bool {
        self.student_display matches Some(s) ==> forall|k: int|
            0 <= k < self.students.len() && (#[trigger] self.students@[k]).email@ == s.email@
                ==> self.students@[k].participation_score < usize::MAX
                && self.students@[k].answered_today < usize::MAX
    }

    /// The inspected student answered: their live entry gains one point and
    /// one answer today, the call order is drawn anew and the popup closes.
    pub fn student_answer(&mut self)
        requires
            old(self).wf(),
            old(self).student_display is Some,
            old(self).answer_fits(),
        ensures
            final(self).wf(),
            answer_recorded(*old(self), *final(self)),
    {
        let ghost before = self.students@;
        let ghost email = self.student_display->Some_0.email@;
        let found = match &self.student_display {
            Some(s) => self.find_student(&s.email),
            None => None,
        };
        proof {
            // The invariant places the snapshot's key in the registry.
            if found is None {
                let i = choose|i: int| 0 <= i < before.len() && (#[trigger] before[i]).email@ == email;
                assert(before[i].email@ == email);
            }
        }
        let k = found.unwrap();
        let score = self.students[k].participation_score;
        let today = self.students[k].answered_today;
        self.students[k].participation_score = score + 1;
        self.students[k].answered_today = today + 1;
        let ghost bumped = self.students@;
        proof {
            assert forall|i: int, j: int|
                0 <= i < bumped.len() && 0 <= j < bumped.len() && i != j
                    implies #[trigger] bumped[i].email@ != #[trigger] bumped[j].email@ by {
                assert(bumped[i].email == before[i].email);
                assert(bumped[j].email == before[j].email);
            }
            assert(bumped[k as int].email@ == email);
            assert(keys_unique(bumped));
        }
        self.update_data();
        self.student_escape();
    }

    /// Carries out one operator command in the mode in force; a command that
    /// means nothing there changes nothing. Returns whether the operator quit.
    pub fn apply(&mut self, action: Action) -> (quit: bool)
        requires
            old(self).wf(),
            old(self).answer_fits(),
            old(self).input.len() < MAX_TEXT_CHARS,
        ensures
            final(self).wf(),
            quit == (old(self).mode() == InputMode::Command && action == Action::Quit),
            transition(*old(self), action, *final(self)),
    {
        match self.input_mode() {
            InputMode::Command => match action {
                Action::BeginSearch => self.begin_search(),
                Action::Reshuffle => self.randomize(),
                Action::Quit => {
                    return true;
                },
                Action::Down => self.move_selection_down(),
                Action::Up => self.move_selection_up(),
                Action::Confirm => self.display_selected_student(),
                _ => {},
            },
            InputMode::Searching => match action {
                Action::Confirm => self.display_selected_student(),
                Action::Up => self.move_selection_up(),
                Action::Down => self.move_selection_down(),
                Action::Insert(c) => self.enter_char(c),
                Action::Backspace => self.delete_char(),
                Action::Left => self.move_cursor_left(),
                Action::Right => self.move_cursor_right(),
                Action::Escape => self.end_search(),
                _ => {},
            },
            InputMode::Student => match action {
                Action::Defer => self.student_defer(),
                Action::Absent => self.student_absent(),
                Action::Answer => self.student_answer(),
                Action::Escape => self.student_escape(),
                _ => {},
            },
        }
        false
    }


    /// The query as text.
    pub fn query(&self) -> (r: String)
        ensures
            r@ == self.input@,
    {
        text_of(&self.input)
    }

    /// The keys of the view, in order.
    pub fn view_keys(&self) -> (r: Vec<String>)
        requires
            self.wf(),
        ensures
            r.len() == self.view.len(),
            forall|k: int| 0 <= k < r.len() ==> (#[trigger] r@[k])@ == self.students@[self.view@[k] as int].email@,
    {
        proof {
            self.lemma_view_in_registry();
        }
        keys_at(&self.students, &self.view)
    }

    /// The keys of the call order, in order.
    pub fn order_keys(&self) -> (r: Vec<String>)
        requires
            self.wf(),
        ensures
            r.len() == self.order.len(),
            forall|k: int| 0 <= k < r.len() ==> (#[trigger] r@[k])@ == self.students@[self.order@[k] as int].email@,
    {
        keys_at(&self.students, &self.order)
    }

    /// Recomputes the view from the query and resets the selection: the call
    /// order itself for an empty query, else the ranked matches.
    pub fn update_student_view(&mut self)
        requires
            old(self).base_wf(),
        ensures
            final(self).wf(),
            same_registry_and_modes(*old(self), *final(self)),
            final(self).input == old(self).input,
            final(self).character_index == old(self).character_index,
            refreshed(*final(self)),
    {
        if self.input.len() != 0 {
            let q = text_of(&self.input);
            self.view = search(&self.students, q.as_str());
        } else {
            self.view = self.order.clone();
            assert(self.view@ =~= self.order@);
        }
        self.selection_reset();
    }

    /// Selects the first entry of the view, or nothing when it is empty.
    pub fn selection_reset(&mut self)
        ensures
            final(self).selection == first_selection(old(self).view@),
            final(self).students == old(self).students,
            final(self).order == old(self).order,
            final(self).view == old(self).view,
            final(self).input == old(self).input,
            final(self).character_index == old(self).character_index,
            final(self).display_mode == old(self).display_mode,
            final(self).student_display == old(self).student_display,
    {
        if self.view.len() > 0 {
            self.selection = Some(0);
        } else {
            self.selection = None;
        }
    }
}

/// The keys of `students` at `indices`.
fn keys_at(students: &Vec<Student>, indices: &Vec<usize>) -> (r: Vec<String>)
    requires
        forall|k: int| 0 <= k < indices.len() ==> (#[trigger] indices@[k] as int) < students.len(),
    ensures
        r.len() == indices.len(),
        forall|k: int| 0 <= k < r.len() ==> (#[trigger] r@[k])@ == students@[indices@[k] as int].email@,
{
    let mut r: Vec<String> = Vec::new();
    let mut i: usize = 0;
    while i < indices.len()
        invariant
            i <= indices.len(),
            r.len() == i,
            forall|k: int| 0 <= k < indices.len() ==> (#[trigger] indices@[k] as int) < students.len(),
            forall|k: int| 0 <= k < r.len() ==> (#[trigger] r@[k])@ == students@[indices@[k] as int].email@,
        decreases indices.len() - i,
    {
        r.push(students[indices[i]].email.clone());
        i += 1;
    }
    r
}

/// Filtering is a function of the registry, the order and the query:
/// two views computed from the same three are the same sequence.
pub proof fn lemma_view_idempotent(
    students: Seq<Student>,
    order: Seq<usize>,
    input: Seq<char>,
    first: Seq<usize>,
    second: Seq<usize>,
)
    requires
        view_fresh(students, order, input, first),
        view_fresh(students, order, input, second),
    ensures
        first == second,
{
    if input.len() != 0 {
        lemma_ranking_deterministic(first, second, match_scores(students, input));
    }
}

/// Whatever operation last ran, the selection is absent exactly when the view
/// is empty, and otherwise points into it.
pub proof fn lemma_selection_clamped(app: App)
    requires
        app.wf(),
    ensures
        app.selection is None <==> app.view.len() == 0,
        app.selection matches Some(i) ==> i < app.view.len(),
{
}

} // verus!
