use super::node::{Node, NodeSoln};
use std::collections::VecDeque;
use vstd::prelude::*;

verus! {

/// A candidate window: the cells `offset .. offset + length` of a line.
#[derive(Debug, Clone, Copy, PartialEq, Eq, Structural)]
pub struct HSoln {
    pub offset: usize,
    pub length: usize,
}

/// One hint of a line: the length of its run, and the windows in which that
/// run may still lie.
pub struct Hint {
    pub hint: usize,
    pub solutions: Vec<HSoln>,
}

/// An ordered list of disjoint, non-touching runs `(start, end)` of
/// positions (both ends included), built by adding positions in increasing
/// order: a position next to the last run extends it, any other starts a new
/// run.
pub struct RangeQueue {
    queue: VecDeque<(usize, usize)>,
}

/// The state of the cell at position `k` of window `w`.
pub open spec fn cell_at(c: Seq<Node>, w: HSoln, k: int) -> NodeSoln {
    c[w.offset + k]@
}

/// Whether a run of `h` cells may start at position `s` of window `w`: it lies
/// inside the window, covers no empty cell, and no filled cell of the window
/// touches it on either side.
pub open spec fn fits_at(c: Seq<Node>, w: HSoln, h: int, s: int) -> bool {
    &&& 0 <= s
    &&& s + h <= w.length
    &&& forall|k: int| s <= k < s + h ==> #[trigger] cell_at(c, w, k) != NodeSoln::EMPTY
    &&& (s == 0 || cell_at(c, w, s - 1) != NodeSoln::FILLED)
    &&& (s + h == w.length || cell_at(c, w, s + h) != NodeSoln::FILLED)
}

/// Whether position `k` of window `w` is a filled cell of the window.
pub open spec fn filled_at(c: Seq<Node>, w: HSoln, k: int) -> bool {
    0 <= k < w.length && cell_at(c, w, k) == NodeSoln::FILLED
}

/// Whether window `w` passes the window check for a run of `h` cells: it
/// holds no empty cell; its first filled cell lies before position `h`; every
/// filled cell lies less than `h` after any earlier one; and where it holds
/// two or more filled cells, the last of them lies at most `h` from the start
/// and at most `h` from the end of the window.
pub open spec fn window_ok(c: Seq<Node>, w: HSoln, h: int) -> bool {
    &&& forall|k: int| 0 <= k < w.length ==> #[trigger] cell_at(c, w, k) != NodeSoln::EMPTY
    &&& forall|f: int|
        #[trigger] filled_at(c, w, f) && (forall|k: int| 0 <= k < f ==> !filled_at(c, w, k)) ==> f
            < h
    &&& forall|i: int, j: int|
        #[trigger] filled_at(c, w, i) && #[trigger] filled_at(c, w, j) && i < j ==> j - i < h
    &&& forall|i: int, l: int|
        #[trigger] filled_at(c, w, i) && #[trigger] filled_at(c, w, l) && i < l && (forall|k: int|
            l < k < w.length ==> !filled_at(c, w, k)) ==> w.length - l <= h && l <= h
}

/// Cells that the runs `hs` take when each is followed by one separating cell.
pub open spec fn spaced_len(hs: Seq<usize>) -> int
    decreases hs.len(),
{
    if hs.len() == 0 {
        0
    } else {
        spaced_len(hs.drop_last()) + hs.last() + 1
    }
}

/// How far every run of `hs` may slide in a line of `n` cells: what is left
/// once the runs stand packed to the left with one cell between neighbours.
pub open spec fn slack(hs: Seq<usize>, n: int) -> int {
    n - (spaced_len(hs) - 1)
}

/// The leftmost cell at which run `i` of `hs` may start.
pub open spec fn min_offset(hs: Seq<usize>, i: int) -> int {
    spaced_len(hs.take(i))
}

/// Whether the runs `hs` fit in a line of `n` cells: there is at least one
/// run, and the runs with one cell between neighbours take at most `n` cells.
pub open spec fn hints_fit(hs: Seq<usize>, n: int) -> bool {
    hs.len() >= 1 && spaced_len(hs) - 1 <= n
}

/// `r` holds, for each run of `hs` in order, that run with its one initial
/// window: from its leftmost start, and as long as the run plus the slack.
pub open spec fn initial_hints(r: Seq<Hint>, hs: Seq<usize>, n: int) -> bool {
    &&& r.len() == hs.len()
    &&& forall|i: int|
        0 <= i < r.len() ==> {
            &&& (#[trigger] r[i]).hint == hs[i]
            &&& r[i].solutions@.len() == 1
            &&& r[i].solutions@[0].offset == min_offset(hs, i)
            &&& r[i].solutions@[0].length == hs[i] + slack(hs, n)
        }
}

proof fn lemma_spaced_step(hs: Seq<usize>, i: int)
    requires
        0 <= i < hs.len(),
    ensures
        min_offset(hs, i + 1) == min_offset(hs, i) + hs[i] + 1,
{
    assert(hs.take(i + 1).drop_last() =~= hs.take(i));
}

proof fn lemma_spaced_mono(hs: Seq<usize>, j: int, k: int)
    requires
        0 <= j <= k <= hs.len(),
    ensures
        min_offset(hs, j) + (k - j) <= min_offset(hs, k),
    decreases k - j,
{
    if j < k {
        lemma_spaced_step(hs, k - 1);
        lemma_spaced_mono(hs, j, k - 1);
    }
}

/// Leftmost starts grow with the run's place, and every run with the slack
/// added after it ends inside a line of `n` cells.
proof fn lemma_offsets_bounded(hs: Seq<usize>, n: int)
    requires
        hints_fit(hs, n),
    ensures
        forall|i: int, j: int|
            0 <= i <= j < hs.len() ==> #[trigger] min_offset(hs, i) <= #[trigger] min_offset(hs, j),
        forall|i: int|
            0 <= i < hs.len() ==> 0 <= #[trigger] min_offset(hs, i) && min_offset(hs, i) + hs[i]
                + slack(hs, n) <= n,
        slack(hs, n) >= 0,
{
    assert(hs.take(hs.len() as int) =~= hs);
    assert forall|i: int, j: int| 0 <= i <= j < hs.len() implies #[trigger] min_offset(hs, i) <= #[trigger] min_offset(
        hs,
        j,
    ) by {
        lemma_spaced_mono(hs, i, j);
    }
    assert forall|i: int| 0 <= i < hs.len() implies 0 <= #[trigger] min_offset(hs, i) && min_offset(hs, i)
        + hs[i] + slack(hs, n) <= n by {
        lemma_spaced_mono(hs, 0, i);
        lemma_spaced_step(hs, i);
        lemma_spaced_mono(hs, i + 1, hs.len() as int);
    }
    lemma_spaced_mono(hs, 0, hs.len() - 1);
    lemma_spaced_step(hs, hs.len() - 1);
}

/// First start position, relative to `w`, that sub-window `v` stands for.
pub open spec fn first_start(v: HSoln, w: HSoln) -> int {
    v.offset - w.offset
}

/// Last start position, relative to `w`, that sub-window `v` stands for when
/// it holds runs of `h` cells.
pub open spec fn last_start(v: HSoln, w: HSoln, h: int) -> int {
    v.offset - w.offset + v.length - h
}

/// `r` lists, left to right, one sub-window of `w` for each maximal stretch of
/// consecutive start positions at which a run of `h` cells fits; a sub-window
/// spans every cell that some run of its stretch may cover.
pub open spec fn is_split(r: Seq<HSoln>, c: Seq<Node>, w: HSoln, h: int) -> bool {
    &&& forall|i: int|
        0 <= i < r.len() ==> {
            &&& w.offset <= (#[trigger] r[i]).offset
            &&& r[i].offset + r[i].length <= w.offset + w.length
            &&& r[i].length >= h
            &&& forall|s: int|
                first_start(r[i], w) <= s <= last_start(r[i], w, h) ==> fits_at(c, w, h, s)
            &&& (first_start(r[i], w) == 0 || !fits_at(c, w, h, first_start(r[i], w) - 1))
            &&& !fits_at(c, w, h, last_start(r[i], w, h) + 1)
        }
    &&& forall|i: int|
        0 <= i < r.len() - 1 ==> last_start(#[trigger] r[i], w, h) + 1 < first_start(r[i + 1], w)
    &&& forall|s: int|
        #[trigger] fits_at(c, w, h, s) ==> exists|i: int|
            0 <= i < r.len() && first_start(#[trigger] r[i], w) <= s <= last_start(r[i], w, h)
}

/// The runs of `q` are ordered, and between two of them lies at least one
/// position that neither holds.
pub open spec fn runs_wf(q: Seq<(usize, usize)>) -> bool {
    &&& forall|i: int| 0 <= i < q.len() ==> (#[trigger] q[i]).0 <= q[i].1
    &&& forall|i: int| 0 <= i < q.len() - 1 ==> (#[trigger] q[i]).1 + 1 < q[i + 1].0
}

impl View for RangeQueue {
    type V = Seq<(usize, usize)>;

    closed spec fn view(&self) -> Seq<(usize, usize)> {
        self.queue@
    }
}

impl RangeQueue {
    /// An empty queue.
    pub fn new() -> (r: RangeQueue)
        ensures
            r@ == Seq::<(usize, usize)>::empty(),
    {
        RangeQueue { queue: VecDeque::new() }
    }

    /// Adds `value`, which lies past every run: it extends the last run when
    /// it follows that run directly, and starts a run of its own otherwise.
    pub fn push(&mut self, value: usize)
        requires
            runs_wf(old(self)@),
            old(self)@.len() > 0 ==> old(self)@.last().1 < value,
        ensures
            runs_wf(final(self)@),
            old(self)@.len() > 0 && old(self)@.last().1 + 1 == value ==> final(self)@ == old(
                self,
            )@.update(old(self)@.len() - 1, (old(self)@.last().0, value)),
            !(old(self)@.len() > 0 && old(self)@.last().1 + 1 == value) ==> final(self)@ == old(
                self,
            )@.push((value, value)),
    {
        let n = self.queue.len();
        if n > 0 && self.queue[n - 1].1 + 1 == value {
            let (start, _) = self.queue.pop_back().unwrap();
            self.queue.push_back((start, value));
        } else {
            self.queue.push_back((value, value));
        }
    }

    /// Whether the queue holds no run.
    pub fn is_empty(&self) -> (r: bool)
        ensures
            r == (self@.len() == 0),
    {
        self.queue.len() == 0
    }

    /// The first run, if any.
    pub fn front(&self) -> (r: Option<(usize, usize)>)
        ensures
            self@.len() == 0 ==> r.is_none(),
            self@.len() > 0 ==> r == Some(self@[0]),
    {
        if self.queue.len() == 0 {
            None
        } else {
            Some(self.queue[0])
        }
    }

    /// The last run, if any.
    pub fn back(&self) -> (r: Option<(usize, usize)>)
        ensures
            self@.len() == 0 ==> r.is_none(),
            self@.len() > 0 ==> r == Some(self@.last()),
    {
        let n = self.queue.len();
        if n == 0 {
            None
        } else {
            Some(self.queue[n - 1])
        }
    }

    /// Removes and returns the first run, if any.
    pub fn pop(&mut self) -> (r: Option<(usize, usize)>)
        ensures
            old(self)@.len() == 0 ==> r.is_none() && final(self)@ == old(self)@,
            old(self)@.len() > 0 ==> r == Some(old(self)@[0]) && final(self)@ == old(
                self,
            )@.drop_first(),
    {
        self.queue.pop_front()
    }

    /// Empties the queue, turning each run `(a, b)` of start positions, in
    /// order, into the window that runs of `hint` cells starting at those
    /// positions may cover, shifted by `offset`.
    pub fn harvest(&mut self, offset: usize, hint: usize) -> (r: Vec<HSoln>)
        requires
            runs_wf(old(self)@),
            forall|i: int|
                0 <= i < old(self)@.len() ==> offset + (#[trigger] old(self)@[i]).1 + hint
                    <= usize::MAX,
        ensures
            final(self)@.len() == 0,
            r@.len() == old(self)@.len(),
            forall|k: int|
                0 <= k < r@.len() ==> (#[trigger] r@[k]).offset == offset + old(self)@[k].0
                    && r@[k].length == old(self)@[k].1 - old(self)@[k].0 + hint,
    {
        let ghost q0 = self@;
        let mut out: Vec<HSoln> = Vec::new();
        while !self.is_empty()
            invariant
                runs_wf(q0),
                forall|i: int| 0 <= i < q0.len() ==> offset + (#[trigger] q0[i]).1 + hint <= usize::MAX,
                out@.len() <= q0.len(),
                self@ == q0.subrange(out@.len() as int, q0.len() as int),
                forall|k: int|
                    0 <= k < out@.len() ==> (#[trigger] out@[k]).offset == offset + q0[k].0
                        && out@[k].length == q0[k].1 - q0[k].0 + hint,
            decreases self@.len(),
        {
            let ghost k = out@.len() as int;
            assert(q0[k] == self@[0]);
            let (a, b) = self.pop().unwrap();
            out.push(HSoln { offset: offset + a, length: b - a + hint });
            assert(self@ =~= q0.subrange(out@.len() as int, q0.len() as int));
        }
        out
    }
}

/// Whether the cell at `i` is known to be empty.
fn known_empty(nodes: &[Node], i: usize) -> (r: bool)
    requires
        i < nodes@.len(),
    ensures
        r == (nodes@[i as int]@ == NodeSoln::EMPTY),
{
    nodes[i].is_solved() && nodes[i].solution_is_empty()
}

/// Whether the cell at `i` is known to be filled.
fn known_filled(nodes: &[Node], i: usize) -> (r: bool)
    requires
        i < nodes@.len(),
    ensures
        r == (nodes@[i as int]@ == NodeSoln::FILLED),
{
    nodes[i].is_solved() && nodes[i].solution_is_filled()
}

/// What the start-position queue of `split` holds once the positions below
/// `n` have been scanned: the maximal stretches of positions below `n` at
/// which a run of `h` cells fits in `w`.
pub open spec fn stretches_below(
    q: Seq<(usize, usize)>,
    c: Seq<Node>,
    w: HSoln,
    h: int,
    n: int,
) -> bool {
    &&& runs_wf(q)
    &&& forall|i: int| 0 <= i < q.len() ==> (#[trigger] q[i]).1 < n
    &&& forall|i: int|
        0 <= i < q.len() ==> forall|t: int|
            (#[trigger] q[i]).0 <= t <= q[i].1 ==> #[trigger] fits_at(c, w, h, t)
    &&& forall|i: int|
        0 <= i < q.len() ==> (#[trigger] q[i]).0 == 0 || !fits_at(c, w, h, q[i].0 - 1)
    &&& forall|i: int|
        0 <= i < q.len() ==> (#[trigger] q[i]).1 + 1 >= n || !fits_at(c, w, h, q[i].1 + 1)
    &&& forall|t: int|
        0 <= t < n && #[trigger] fits_at(c, w, h, t) ==> exists|i: int|
            0 <= i < q.len() && (#[trigger] q[i]).0 <= t <= q[i].1
}

/// Scanning a start position at which the run fits extends the last stretch
/// or opens a new one.
proof fn lemma_stretch_grows(
    q: Seq<(usize, usize)>,
    q2: Seq<(usize, usize)>,
    c: Seq<Node>,
    w: HSoln,
    h: int,
    s: int,
)
    requires
        stretches_below(q, c, w, h, s),
        fits_at(c, w, h, s),
        0 <= s <= usize::MAX,
        q.len() > 0 && q.last().1 + 1 == s ==> q2 == q.update(q.len() - 1, (q.last().0, s as usize)),
        !(q.len() > 0 && q.last().1 + 1 == s) ==> q2 == q.push((s as usize, s as usize)),
    ensures
        stretches_below(q2, c, w, h, s + 1),
{
    let n = q.len();
    if !(n > 0 && q.last().1 + 1 == s) && s > 0 && fits_at(c, w, h, s - 1) {
        let i = choose|i: int| 0 <= i < q.len() && (#[trigger] q[i]).0 <= s - 1 <= q[i].1;
        if i < n - 1 {
            assert(q[i + 1].1 < s);
        }
    }
    assert forall|i: int| 0 <= i < q2.len() - 1 implies (#[trigger] q2[i]).1 + 1 < q2[i + 1].0 by {
        assert(q[i].1 + 1 < q[i + 1].0 || i == n - 1);
    }
    assert forall|t: int| 0 <= t < s + 1 && #[trigger] fits_at(c, w, h, t) implies exists|i: int|
        0 <= i < q2.len() && (#[trigger] q2[i]).0 <= t <= q2[i].1 by {
        if t == s {
            assert(q2[q2.len() - 1].0 <= t <= q2[q2.len() - 1].1);
        } else {
            let i = choose|i: int| 0 <= i < q.len() && (#[trigger] q[i]).0 <= t <= q[i].1;
            assert(q2[i].0 <= t <= q2[i].1);
        }
    }
    assert forall|i: int| 0 <= i < q2.len() implies (#[trigger] q2[i]).1 + 1 >= s + 1 || !fits_at(
        c,
        w,
        h,
        q2[i].1 + 1,
    ) by {
        if i < n - 1 {
            assert(q[i + 1].1 < s);
        }
    }
    assert forall|i: int| 0 <= i < q2.len() implies forall|t: int|
        (#[trigger] q2[i]).0 <= t <= q2[i].1 ==> #[trigger] fits_at(c, w, h, t) by {
        if i < n {
            assert(forall|t: int| q[i].0 <= t <= q[i].1 ==> #[trigger] fits_at(c, w, h, t));
        }
    }
}

/// Scanning a start position at which the run does not fit leaves the
/// stretches as they are.
proof fn lemma_stretch_stays(q: Seq<(usize, usize)>, c: Seq<Node>, w: HSoln, h: int, s: int)
    requires
        stretches_below(q, c, w, h, s),
        !fits_at(c, w, h, s),
    ensures
        stretches_below(q, c, w, h, s + 1),
{
    assert forall|t: int| 0 <= t < s + 1 && #[trigger] fits_at(c, w, h, t) implies exists|i: int|
        0 <= i < q.len() && (#[trigger] q[i]).0 <= t <= q[i].1 by {}
}

/// For runs that fit a line, the initial windows start in non-decreasing
/// order, each is as long as its run plus the slack of the line, and none
/// reaches past the end of the line.
pub proof fn lemma_initial_windows(r: Seq<Hint>, hs: Seq<usize>, n: int)
    requires
        hints_fit(hs, n),
        initial_hints(r, hs, n),
    ensures
        forall|i: int, j: int|
            0 <= i <= j < r.len() ==> (#[trigger] r[i]).solutions@[0].offset <= (
            #[trigger] r[j]).solutions@[0].offset,
        forall|i: int|
            0 <= i < r.len() ==> (#[trigger] r[i]).solutions@[0].length == r[i].hint + slack(hs, n)
                && r[i].solutions@[0].offset + r[i].solutions@[0].length <= n,
{
    lemma_offsets_bounded(hs, n);
    assert forall|i: int, j: int| 0 <= i <= j < r.len() implies (#[trigger] r[i]).solutions@[0].offset
        <= (#[trigger] r[j]).solutions@[0].offset by {
        assert(min_offset(hs, i) <= min_offset(hs, j));
    }
    assert forall|i: int| 0 <= i < r.len() implies (#[trigger] r[i]).solutions@[0].length == r[i].hint
        + slack(hs, n) && r[i].solutions@[0].offset + r[i].solutions@[0].length <= n by {
        assert(0 <= min_offset(hs, i));
    }
}

/// The window check depends on the window, the cells and the run length
/// alone: two checks of one window over unchanged cells agree.
pub proof fn lemma_check_repeatable(w: HSoln, c: Seq<Node>, h: usize, r1: bool, r2: bool)
    requires
        r1 == window_ok(c, w, h as int),
        r2 == window_ok(c, w, h as int),
    ensures
        r1 == r2,
{
}

/// A window that holds an empty cell fails the window check.
pub proof fn lemma_empty_cell_fails(w: HSoln, c: Seq<Node>, h: usize, k: int)
    requires
        0 <= k < w.length,
        cell_at(c, w, k) == NodeSoln::EMPTY,
    ensures
        !window_ok(c, w, h as int),
{
}

/// Every sub-window of a split contains its first start position.
proof fn lemma_split_entry_fits(r: Seq<HSoln>, c: Seq<Node>, w: HSoln, h: int, i: int)
    requires
        is_split(r, c, w, h),
        0 <= i < r.len(),
    ensures
        fits_at(c, w, h, first_start(r[i], w)),
        first_start(r[i], w) <= last_start(r[i], w, h),
{
    assert(r[i].length >= h);
}

/// A window with no solved cell splits into the window itself when it is at
/// least as long as the run, and into nothing when it is shorter.
pub proof fn lemma_split_unsolved(r: Seq<HSoln>, c: Seq<Node>, w: HSoln, h: usize)
    requires
        w.offset + w.length <= c.len(),
        forall|k: int| 0 <= k < w.length ==> #[trigger] cell_at(c, w, k) == NodeSoln::UNKNOWN,
        is_split(r, c, w, h as int),
    ensures
        w.length >= h ==> r == seq![w],
        w.length < h ==> r.len() == 0,
{
    let hh = h as int;
    if w.length >= h {
        assert(fits_at(c, w, hh, 0));
        let i = choose|i: int|
            0 <= i < r.len() && first_start(#[trigger] r[i], w) <= 0 <= last_start(r[i], w, hh);
        lemma_split_entry_fits(r, c, w, hh, i);
        assert(fits_at(c, w, hh, last_start(r[i], w, hh)));
        if last_start(r[i], w, hh) + 1 <= w.length - hh {
            assert(fits_at(c, w, hh, last_start(r[i], w, hh) + 1));
        }
        if i + 1 < r.len() {
            lemma_split_entry_fits(r, c, w, hh, i + 1);
            assert(last_start(r[i], w, hh) + 1 < first_start(r[i + 1], w));
        }
        if i > 0 {
            lemma_split_entry_fits(r, c, w, hh, i - 1);
            assert(last_start(r[i - 1], w, hh) + 1 < first_start(r[i], w));
        }
        assert(r.len() == 1);
        assert(r =~= seq![w]);
    } else {
        if r.len() > 0 {
            lemma_split_entry_fits(r, c, w, hh, 0);
        }
    }
}

/// A window whose cells are all empty splits into nothing, for runs of at
/// least one cell.
pub proof fn lemma_split_all_empty(r: Seq<HSoln>, c: Seq<Node>, w: HSoln, h: usize)
    requires
        h >= 1,
        forall|k: int| 0 <= k < w.length ==> #[trigger] cell_at(c, w, k) == NodeSoln::EMPTY,
        is_split(r, c, w, h as int),
    ensures
        r.len() == 0,
{
    if r.len() > 0 {
        lemma_split_entry_fits(r, c, w, h as int, 0);
        assert(cell_at(c, w, first_start(r[0], w)) == NodeSoln::EMPTY);
    }
}

impl HSoln {
    /// The window `offset .. offset + length`.
    pub fn new(offset: usize, length: usize) -> (r: HSoln)
        ensures
            r == (HSoln { offset, length }),
    {
        HSoln { offset, length }
    }

    /// The window check: whether a run of `hint` cells may still be placed
    /// in this window given the known cells of `nodes`.
    pub fn is_valid(&self, nodes: &[Node], hint: usize) -> (r: bool)
        requires
            self.offset + self.length <= nodes@.len(),
        ensures
            r == window_ok(nodes@, *self, hint as int),
    {
        let ghost c = nodes@;
        let ghost w = *self;
        let ghost h = hint as int;
        let total = nodes.len();
        let off = self.offset;
        let len = self.length;
        let mut min_filled: Option<usize> = None;
        let mut max_filled: Option<usize> = None;
        let mut i: usize = 0;
        while i < len
            invariant
                i <= len,
                off + len <= c.len(),
                c.len() == total,
                c == nodes@,
                w == *self,
                h == hint,
                off == w.offset,
                len == w.length,
                forall|k: int| 0 <= k < i ==> #[trigger] cell_at(c, w, k) != NodeSoln::EMPTY,
                min_filled is None ==> max_filled is None,
                min_filled is None ==> forall|k: int| 0 <= k < i ==> !#[trigger] filled_at(c, w, k),
                min_filled matches Some(f) ==> {
                    &&& f < i
                    &&& filled_at(c, w, f as int)
                    &&& f < hint
                    &&& forall|k: int| 0 <= k < f ==> !#[trigger] filled_at(c, w, k)
                    &&& forall|k: int| f < k < i && #[trigger] filled_at(c, w, k) ==> k - f < hint
                },
                min_filled matches Some(f) ==> (max_filled is None ==> forall|k: int|
                    f < k < i ==> !#[trigger] filled_at(c, w, k)),
                min_filled matches Some(f) ==> (max_filled matches Some(l) ==> {
                    &&& f < l < i
                    &&& filled_at(c, w, l as int)
                    &&& forall|k: int| l < k < i ==> !#[trigger] filled_at(c, w, k)
                }),
            decreases len - i,
        {
            if known_empty(nodes, off + i) {
                assert(cell_at(c, w, i as int) == NodeSoln::EMPTY);
                return false;
            }
            if known_filled(nodes, off + i) {
                assert(filled_at(c, w, i as int));
                match min_filled {
                    Some(f) => {
                        if i - f >= hint {
                            assert(filled_at(c, w, f as int));
                            return false;
                        }
                        max_filled = Some(i);
                    },
                    None => {
                        if i >= hint {
                            return false;
                        }
                        min_filled = Some(i);
                    },
                }
            }
            i += 1;
        }
        match max_filled {
            Some(l) => {
                let r = !(len - l > hint || l > hint);
                proof {
                    let f = min_filled->Some_0;
                    assert(filled_at(c, w, f as int));
                    assert(filled_at(c, w, l as int));
                }
                r
            },
            None => true,
        }
    }

    /// Splits this window into the sub-windows that can still hold a run of
    /// `hint` cells, given the known cells of `nodes`: one sub-window for each
    /// maximal stretch of start positions at which such a run covers no empty
    /// cell and touches no filled cell of the window, left to right.
    pub fn split(&self, nodes: &[Node], hint: usize) -> (r: Vec<HSoln>)
        requires
            self.offset + self.length <= nodes@.len(),
        ensures
            is_split(r@, nodes@, *self, hint as int),
            forall|i: int|
                0 <= i < r@.len() ==> self.offset <= (#[trigger] r@[i]).offset && r@[i].offset
                    + r@[i].length <= self.offset + self.length && r@[i].length >= hint,
    {
        let ghost c = nodes@;
        let ghost w = *self;
        let ghost h = hint as int;
        let total = nodes.len();
        let off = self.offset;
        let len = self.length;
        if hint > len {
            let out: Vec<HSoln> = Vec::new();
            assert forall|s: int| fits_at(c, w, h, s) implies exists|i: int|
                0 <= i < out@.len() && first_start(#[trigger] out@[i], w) <= s <= last_start(
                    out@[i],
                    w,
                    h,
                ) by {}
            return out;
        }
        let last = len - hint;
        // cells clear_from .. j hold no empty cell, and the one before is empty
        let mut clear_from: usize = 0;
        let mut j: usize = 0;
        while j < hint
            invariant
                j <= hint,
                hint <= len,
                off + len <= c.len(),
                c.len() == total,
                c == nodes@,
                w == *self,
                h == hint,
                off == w.offset,
                len == w.length,
                clear_from <= j,
                forall|k: int| clear_from <= k < j ==> #[trigger] cell_at(c, w, k) != NodeSoln::EMPTY,
                clear_from == 0 || cell_at(c, w, clear_from - 1) == NodeSoln::EMPTY,
            decreases hint - j,
        {
            if known_empty(nodes, off + j) {
                clear_from = j + 1;
            }
            j += 1;
        }
        let mut ranges = RangeQueue::new();
        let mut s: usize = 0;
        loop
            invariant_except_break
                s <= last,
                clear_from <= s + hint,
                forall|k: int|
                    clear_from <= k < s + hint ==> #[trigger] cell_at(c, w, k) != NodeSoln::EMPTY,
                clear_from == 0 || cell_at(c, w, clear_from - 1) == NodeSoln::EMPTY,
                stretches_below(ranges@, c, w, h, s as int),
            invariant
                last == len - hint,
                hint <= len,
                off + len <= c.len(),
                c.len() == total,
                c == nodes@,
                w == *self,
                h == hint,
                off == w.offset,
                len == w.length,
            ensures
                stretches_below(ranges@, c, w, h, last + 1),
            decreases last - s,
        {
            let ok = clear_from <= s && (s == 0 || !known_filled(nodes, off + s - 1)) && (s == last
                || !known_filled(nodes, off + s + hint));
            proof {
                if clear_from > s {
                    assert(cell_at(c, w, clear_from - 1) == NodeSoln::EMPTY);
                }
                assert(ok == fits_at(c, w, h, s as int));
            }
            let ghost q = ranges@;
            if ok {
                ranges.push(s);
                proof {
                    lemma_stretch_grows(q, ranges@, c, w, h, s as int);
                }
            } else {
                proof {
                    lemma_stretch_stays(q, c, w, h, s as int);
                }
            }
            if s == last {
                break;
            }
            if known_empty(nodes, off + s + hint) {
                clear_from = s + hint + 1;
            }
            s += 1;
        }
        let ghost q0 = ranges@;
        let out = ranges.harvest(off, hint);
        proof {
            assert(out@.len() == q0.len());
            assert forall|i: int| 0 <= i < out@.len() implies first_start(#[trigger] out@[i], w) == q0[i].0
                && last_start(out@[i], w, h) == q0[i].1 by {}
            assert forall|t: int| #[trigger] fits_at(c, w, h, t) implies exists|i: int|
                0 <= i < out@.len() && first_start(#[trigger] out@[i], w) <= t <= last_start(out@[i], w, h) by {
                let i = choose|i: int| 0 <= i < q0.len() && (#[trigger] q0[i]).0 <= t <= q0[i].1;
                assert(first_start(out@[i], w) <= t <= last_start(out@[i], w, h));
            }
            assert forall|i: int| 0 <= i < out@.len() implies w.offset <= (#[trigger] out@[i]).offset
                && out@[i].offset + out@[i].length <= w.offset + w.length && out@[i].length >= h
                && (forall|s: int| first_start(out@[i], w) <= s <= last_start(out@[i], w, h) ==> fits_at(c, w, h, s))
                && (first_start(out@[i], w) == 0 || !fits_at(c, w, h, first_start(out@[i], w) - 1))
                && !fits_at(c, w, h, last_start(out@[i], w, h) + 1) by {
                assert(fits_at(c, w, h, q0[i].1 as int));
            }
            assert forall|i: int| 0 <= i < out@.len() - 1 implies last_start(#[trigger] out@[i], w, h) + 1
                < first_start(out@[i + 1], w) by {
                assert(q0[i].1 + 1 < q0[i + 1].0);
            }
        }
        out
    }
}

impl Hint {
    /// The hints of a line of `nodes` cells whose runs have the lengths
    /// `hints`, in order, each with its initial window.
    pub fn gen(hints: &[usize], nodes: usize) -> (r: Vec<Hint>)
        requires
            hints_fit(hints@, nodes as int),
        ensures
            initial_hints(r@, hints@, nodes as int),
    {
        let ghost hs = hints@;
        proof {
            lemma_offsets_bounded(hs, nodes as int);
        }
        let n = hints.len();
        // cells taken by the first `i` runs and the separators between them
        let mut used: usize = hints[0];
        proof {
            lemma_spaced_step(hs, 0);
        }
        let mut i: usize = 1;
        while i < n
            invariant
                hs == hints@,
                n == hs.len(),
                1 <= i <= n,
                hints_fit(hs, nodes as int),
                used == min_offset(hs, i as int) - 1,
            decreases n - i,
        {
            proof {
                lemma_spaced_step(hs, i as int);
                lemma_spaced_mono(hs, i + 1, n as int);
                assert(hs.take(n as int) =~= hs);
            }
            used = used + hints[i] + 1;
            i += 1;
        }
        proof {
            assert(hs.take(n as int) =~= hs);
            assert(hs.take(1).drop_last() =~= hs.take(0));
        }
        let length = nodes - used;
        let mut result: Vec<Hint> = Vec::with_capacity(n);
        let mut offset: usize = 0;
        let mut k: usize = 0;
        while k < n
            invariant
                hs == hints@,
                n == hs.len(),
                k <= n,
                hints_fit(hs, nodes as int),
                length == slack(hs, nodes as int),
                k < n ==> offset == min_offset(hs, k as int),
                result@.len() == k,
                forall|j: int|
                    0 <= j < k ==> {
                        &&& (#[trigger] result@[j]).hint == hs[j]
                        &&& result@[j].solutions@.len() == 1
                        &&& result@[j].solutions@[0].offset == min_offset(hs, j)
                        &&& result@[j].solutions@[0].length == hs[j] + slack(hs, nodes as int)
                    },
            decreases n - k,
        {
            let hint = hints[k];
            proof {
                lemma_offsets_bounded(hs, nodes as int);
                assert(min_offset(hs, k as int) + hs[k as int] + slack(hs, nodes as int) <= nodes);
                if k + 1 < n {
                    assert(min_offset(hs, k + 1) + hs[k + 1] + slack(hs, nodes as int) <= nodes);
                }
            }
            result.push(Hint { hint, solutions: vec![HSoln { offset, length: length + hint }] });
            if k + 1 < n {
                proof {
                    lemma_spaced_step(hs, k as int);
                }
                offset = offset + hint + 1;
            }
            k += 1;
        }
        result
    }
}

} // verus!
