//! People's assignments to structures and their professions.
use vstd::prelude::*;

verus! {

/// The professions a person can have.
#[derive(Clone, Copy, Debug, PartialEq, Eq, Structural)]
pub enum Profession {
    Forager,
    Porter,
}

/// A person's assignment to a structure.
#[derive(Clone, Copy, Debug, PartialEq, Eq, Structural)]
pub struct Assignment {
    pub structure: usize,
    pub profession: Profession,
}

/// What a person carries of their work: the assignment, and the profession
/// marker (forager or porter) that the systems look for.
#[derive(Clone, Copy, Debug, PartialEq, Eq, Structural)]
pub struct PersonWork {
    pub assignment: Option<Assignment>,
    pub marker: Option<Profession>,
}

/// Sent when a person's assignment changed.
#[derive(Clone, Copy, Debug, PartialEq, Eq, Structural)]
pub struct PersonAssignmentChanged {
    pub person: usize,
}

impl PersonWork {
    pub fn new() -> (r: PersonWork)
        ensures
            r.assignment is None,
            r.marker is None,
    {
        PersonWork { assignment: None, marker: None }
    }

    /// Assigns the person to a structure with a profession; the old marker is
    /// replaced by the new profession's.
    pub fn assign(&mut self, person: usize, structure: usize, profession: Profession) -> (changed:
        PersonAssignmentChanged)
        ensures
            final(self).assignment == Some(Assignment { structure, profession }),
            final(self).marker == Some(profession),
            changed == (PersonAssignmentChanged { person }),
    {
        self.marker = None;
        self.assignment = Some(Assignment { structure, profession });
        self.marker = Some(profession);
        PersonAssignmentChanged { person }
    }

    /// Unassigning removes the assignment and the profession marker, so the
    /// person no longer counts among the structure's assignees.
    pub fn unassign(&mut self, person: usize) -> (changed: PersonAssignmentChanged)
        ensures
            final(self).assignment is None,
            final(self).marker is None,
            changed == (PersonAssignmentChanged { person }),
    {
        self.assignment = None;
        self.marker = None;
        PersonAssignmentChanged { person }
    }

    /// A person forages when marked a forager with an assignment, and is
    /// looking for a deposit when not foraging one yet.
    pub fn seeks_deposit(&self, forages: bool) -> (r: bool)
        ensures
            r == (self.marker == Some(Profession::Forager) && self.assignment is Some && !forages),
    {
        self.marker == Some(Profession::Forager) && self.assignment.is_some() && !forages
    }
}

} // verus!
