//! The diagnostics that sorting and shape inference collect.

use vstd::prelude::*;

use crate::nodes::config::{ConfigError, ConfigErrorView};
use crate::nodes::ident::{names, HandleKey, HandleRef, Id, Name};

verus! {

/// One diagnostic on a blueprint.
#[derive(Debug, PartialEq)]
pub enum LintError {
    Cycle { edges: Vec<Id> },
    MismatchedTypes { edge: Id },
    UnInferrableTensorShape { handle: HandleRef },
    ConfigError(ConfigError),
}

/// A diagnostic as contracts see it.
pub enum LintErrorView {
    Cycle { edges: Seq<Name> },
    MismatchedTypes { edge: Name },
    UnInferrableTensorShape { handle: HandleKey },
    ConfigError(ConfigErrorView),
}

impl View for LintError {
    type V = LintErrorView;

    open spec fn view(&self) -> LintErrorView {
        match self {
            LintError::Cycle { edges } => LintErrorView::Cycle { edges: names(edges@) },
            LintError::MismatchedTypes { edge } => LintErrorView::MismatchedTypes { edge: edge@ },
            LintError::UnInferrableTensorShape { handle } => LintErrorView::UnInferrableTensorShape {
                handle: handle@,
            },
            LintError::ConfigError(error) => LintErrorView::ConfigError(error@),
        }
    }
}

/// A copy of a list of identifiers.
pub fn clone_ids(ids: &Vec<Id>) -> (copy: Vec<Id>)
    ensures
        copy@ == ids@,
{
    let mut copy: Vec<Id> = Vec::new();
    let mut i: usize = 0;
    while i < ids.len()
        invariant
            i <= ids.len(),
            copy@ == ids@.take(i as int),
        decreases ids.len() - i,
    {
        copy.push(ids[i].clone());
        i += 1;
    }
    proof {
        assert(ids@.take(i as int) == ids@);
    }
    copy
}

impl Clone for LintError {
    fn clone(&self) -> (error: LintError)
        ensures
            error@ == self@,
    {
        match self {
            LintError::Cycle { edges } => LintError::Cycle { edges: clone_ids(edges) },
            LintError::MismatchedTypes { edge } => LintError::MismatchedTypes { edge: edge.clone() },
            LintError::UnInferrableTensorShape { handle } => LintError::UnInferrableTensorShape {
                handle: handle.clone(),
            },
            LintError::ConfigError(error) => LintError::ConfigError(error.clone()),
        }
    }
}

/// The diagnostics collected so far, oldest first.
#[derive(Debug, PartialEq)]
pub struct LintOutput {
    pub errors: Vec<LintError>,
}

impl View for LintOutput {
    type V = Seq<LintErrorView>;

    open spec fn view(&self) -> Seq<LintErrorView> {
        Seq::new(self.errors@.len(), |i: int| self.errors@[i]@)
    }
}

impl Clone for LintOutput {
    fn clone(&self) -> (lint: LintOutput)
        ensures
            lint@ == self@,
    {
        let mut errors: Vec<LintError> = Vec::new();
        let mut i: usize = 0;
        while i < self.errors.len()
            invariant
                i <= self.errors.len(),
                errors@.len() == i,
                forall|j: int| 0 <= j < i ==> errors@[j]@ == self.errors@[j]@,
            decreases self.errors.len() - i,
        {
            errors.push(self.errors[i].clone());
            i += 1;
        }
        let lint = LintOutput { errors };
        proof {
            assert(lint@ =~= self@);
        }
        lint
    }
}

impl Default for LintOutput {
    fn default() -> (lint: LintOutput)
        ensures
            lint@ == Seq::<LintErrorView>::empty(),
    {
        let lint = LintOutput { errors: Vec::new() };
        proof {
            assert(lint@ =~= Seq::<LintErrorView>::empty());
        }
        lint
    }
}

impl LintOutput {
    /// Adds a diagnostic after those that are there.
    pub fn push_error(&mut self, error: LintError)
        ensures
            final(self)@ == old(self)@.push(error@),
            final(self).errors@ == old(self).errors@.push(error),
    {
        self.errors.push(error);
        proof {
            assert(self@ =~= old(self)@.push(error@));
        }
    }

    /// Whether anything stands in the way of going on: any diagnostic does.
    pub fn has_blocking_errors(&self) -> (blocking: bool)
        ensures
            blocking == (self@.len() > 0),
    {
        return !self.errors.is_empty();
    }
}

} // verus!
