//! `==` and `<` on measures, values, assignments and games.

use core::cmp::Ordering;
use vstd::prelude::*;
use vstd::std_specs::cmp::{PartialEqSpecImpl, PartialOrdSpecImpl};
use crate::lattice::{eq_upto, greater_value, gt_upto, same_value, span};
use crate::pg::{same_graph, same_progress, Game, Measure, MeasureT, Progress};

verus! {

impl PartialEq for Measure {
    /// Two measures are equal where they agree at every odd position.
    fn eq(&self, other: &Measure) -> (r: bool) {
        self.same(other)
    }
}

impl PartialEqSpecImpl for Measure {
    open spec fn obeys_eq_spec() -> bool {
        true
    }

    open spec fn eq_spec(&self, other: &Measure) -> bool {
        eq_upto(self@, other@, span(self@, other@))
    }
}

impl PartialOrd for Measure {
    /// The order of two measures, compared over all positions.
    fn partial_cmp(&self, other: &Measure) -> (r: Option<Ordering>) {
        if self.same(other) {
            Some(Ordering::Equal)
        } else if self.exceeds(other) {
            Some(Ordering::Greater)
        } else {
            Some(Ordering::Less)
        }
    }
}

impl PartialOrdSpecImpl for Measure {
    open spec fn obeys_partial_cmp_spec() -> bool {
        true
    }

    open spec fn partial_cmp_spec(&self, other: &Measure) -> Option<Ordering> {
        if eq_upto(self@, other@, span(self@, other@)) {
            Some(Ordering::Equal)
        } else if gt_upto(self@, other@, span(self@, other@)) {
            Some(Ordering::Greater)
        } else {
            Some(Ordering::Less)
        }
    }
}

impl PartialEq for MeasureT {
    /// `Top` equals `Top` alone; two measures are equal where they agree at
    /// every odd position.
    fn eq(&self, other: &MeasureT) -> (r: bool) {
        self.same(other)
    }
}

impl PartialEqSpecImpl for MeasureT {
    open spec fn obeys_eq_spec() -> bool {
        true
    }

    open spec fn eq_spec(&self, other: &MeasureT) -> bool {
        same_value(self@, other@)
    }
}

impl PartialOrd for MeasureT {
    /// The order of two values: `Top` is above every measure.
    fn partial_cmp(&self, other: &MeasureT) -> (r: Option<Ordering>) {
        if self.same(other) {
            Some(Ordering::Equal)
        } else if self.exceeds(other) {
            Some(Ordering::Greater)
        } else {
            Some(Ordering::Less)
        }
    }
}

impl PartialOrdSpecImpl for MeasureT {
    open spec fn obeys_partial_cmp_spec() -> bool {
        true
    }

    open spec fn partial_cmp_spec(&self, other: &MeasureT) -> Option<Ordering> {
        if same_value(self@, other@) {
            Some(Ordering::Equal)
        } else if greater_value(self@, other@) {
            Some(Ordering::Greater)
        } else {
            Some(Ordering::Less)
        }
    }
}

impl PartialEq for Progress {
    /// Two assignments are equal where they speak of the same vertices and
    /// give each the same value.
    fn eq(&self, other: &Progress) -> (r: bool) {
        self.same(other)
    }
}

impl PartialEqSpecImpl for Progress {
    open spec fn obeys_eq_spec() -> bool {
        true
    }

    open spec fn eq_spec(&self, other: &Progress) -> bool {
        same_progress(self@, other@)
    }
}

impl PartialEq for Game {
    /// Two games are equal where they are the same graph.
    fn eq(&self, other: &Game) -> (r: bool) {
        self.same(other)
    }
}

impl PartialEqSpecImpl for Game {
    open spec fn obeys_eq_spec() -> bool {
        true
    }

    open spec fn eq_spec(&self, other: &Game) -> bool {
        same_graph(self@, other@)
    }
}

} // verus!
