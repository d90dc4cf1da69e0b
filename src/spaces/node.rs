use vstd::prelude::*;

verus! {

/// The known state of one cell of a line.
#[derive(PartialEq, Eq, Structural, Debug, Clone, Copy)]
pub enum NodeSoln {
    UNKNOWN,
    EMPTY,
    FILLED,
}

/// One cell of a line. It starts unknown and is solved at most once, to
/// filled or to empty.
#[derive(Debug)]
pub struct Node {
    solution: NodeSoln,
}

impl View for Node {
    type V = NodeSoln;

    closed spec fn view(&self) -> NodeSoln {
        self.solution
    }
}

impl Node {
    /// A fresh, unsolved cell.
    pub fn new() -> (r: Node)
        ensures
            r@ == NodeSoln::UNKNOWN,
    {
        Node { solution: NodeSoln::UNKNOWN }
    }

    /// Marks an unsolved cell as filled.
    pub fn solve_filled(&mut self)
        requires
            old(self)@ == NodeSoln::UNKNOWN,
        ensures
            final(self)@ == NodeSoln::FILLED,
    {
        self.solve(true);
    }

    /// Marks an unsolved cell as empty.
    pub fn solve_empty(&mut self)
        requires
            old(self)@ == NodeSoln::UNKNOWN,
        ensures
            final(self)@ == NodeSoln::EMPTY,
    {
        self.solve(false);
    }

    /// Solves an unsolved cell: filled when `filled` holds, empty otherwise.
    /// A cell is never solved twice.
    pub fn solve(&mut self, filled: bool)
        requires
            old(self)@ == NodeSoln::UNKNOWN,
        ensures
            final(self)@ == (if filled {
                NodeSoln::FILLED
            } else {
                NodeSoln::EMPTY
            }),
    {
        self.solution = if filled {
            NodeSoln::FILLED
        } else {
            NodeSoln::EMPTY
        };
    }

    /// Whether the cell has been solved.
    pub fn is_solved(&self) -> (r: bool)
        ensures
            r == (self@ != NodeSoln::UNKNOWN),
    {
        self.solution != NodeSoln::UNKNOWN
    }

    /// Whether a solved cell is filled.
    pub fn solution_is_filled(&self) -> (r: bool)
        requires
            self@ != NodeSoln::UNKNOWN,
        ensures
            r == (self@ == NodeSoln::FILLED),
    {
        self.solution == NodeSoln::FILLED
    }

    /// Whether a solved cell is empty.
    pub fn solution_is_empty(&self) -> (r: bool)
        requires
            self@ != NodeSoln::UNKNOWN,
        ensures
            r == (self@ == NodeSoln::EMPTY),
    {
        self.solution == NodeSoln::EMPTY
    }
}

} // verus!
