pub mod hint;
pub mod node;

use hint::{hints_fit, initial_hints, Hint};
use vstd::prelude::*;

verus! {

/// One line of a puzzle: its hints, in order, each with its candidate windows.
pub struct Line {
    hints: Vec<Hint>,
}

impl View for Line {
    type V = Seq<Hint>;

    closed spec fn view(&self) -> Seq<Hint> {
        self.hints@
    }
}

impl Line {
    /// A line of `length` cells whose runs have the lengths `hints`, each
    /// hint with its initial window.
    pub fn new(hints: &[usize], length: usize) -> (r: Line)
        requires
            hints_fit(hints@, length as int),
        ensures
            initial_hints(r@, hints@, length as int),
    {
        Line { hints: Hint::gen(hints, length) }
    }

    /// The hints of the line, in order.
    pub fn hints(&self) -> (r: &Vec<Hint>)
        ensures
            r@ == self@,
    {
        &self.hints
    }
}

} // verus!
