//! Single-line constraint engine for nonogram puzzles: per-hint candidate
//! windows, a feasibility test for a window, and a splitter that narrows a
//! window to the sub-windows that can still hold a hint's run.
pub mod spaces;
