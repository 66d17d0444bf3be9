use vstd::prelude::*;
use crate::geometry::{CoordinatePair, CurrentLine, Polyline, lines_view};

verus! {

/// The kinds of drawing command that are recognised but not flattened.
#[derive(Debug, PartialEq, Eq, Structural, Clone, Copy)]
pub enum CurveKind {
    CurveTo,
    SmoothCurveTo,
    Quadratic,
    SmoothQuadratic,
    EllipticalArc,
}

/// One drawing command of a path, with coordinates as binary64 bit patterns.
#[derive(Debug, PartialEq, Eq, Structural, Clone, Copy)]
pub enum SegmentData {
    MoveTo { x: u64, y: u64 },
    LineTo { x: u64, y: u64 },
    HorizontalLineTo { x: u64 },
    VerticalLineTo { y: u64 },
    ClosePath,
    Unsupported(CurveKind),
}

/// Why the interpretation of a path stopped early.
#[derive(Debug, PartialEq, Eq, Structural, Clone, Copy)]
pub enum PathError {
    /// A horizontal or vertical line with no current point.
    InvalidState,
    /// A close of a line with fewer than two points.
    Close,
    /// A curve command.
    Unsupported(CurveKind),
}

/// The interpreter's state: the line under construction, the lines already
/// completed, and whether an error stopped the path.
pub struct PathState {
    pub current: Seq<CoordinatePair>,
    pub lines: Seq<Seq<CoordinatePair>>,
    pub stopped: bool,
}

pub open spec fn pair(x: u64, y: u64) -> CoordinatePair {
    CoordinatePair { x, y }
}

/// The error that a command raises on the given line, if any.
pub open spec fn segment_error(current: Seq<CoordinatePair>, data: SegmentData) -> Option<PathError> {
    match data {
        SegmentData::HorizontalLineTo { .. } | SegmentData::VerticalLineTo { .. } => {
            if current.len() == 0 {
                Some(PathError::InvalidState)
            } else {
                None
            }
        },
        SegmentData::ClosePath => if current.len() < 2 {
            Some(PathError::Close)
        } else {
            None
        },
        SegmentData::Unsupported(kind) => Some(PathError::Unsupported(kind)),
        _ => None,
    }
}

/// One command applied to a state that is not stopped.
pub open spec fn step(current: Seq<CoordinatePair>, lines: Seq<Seq<CoordinatePair>>, data: SegmentData) -> PathState {
    if segment_error(current, data) is Some {
        PathState { current, lines, stopped: true }
    } else {
        match data {
            SegmentData::MoveTo { x, y } => if current.len() > 1 {
                PathState { current: seq![pair(x, y)], lines: lines.push(current), stopped: false }
            } else {
                PathState { current: current.push(pair(x, y)), lines, stopped: false }
            },
            SegmentData::LineTo { x, y } => PathState { current: current.push(pair(x, y)), lines, stopped: false },
            SegmentData::HorizontalLineTo { x } => PathState {
                current: current.push(pair(x, current.last().y)),
                lines,
                stopped: false,
            },
            SegmentData::VerticalLineTo { y } => PathState {
                current: current.push(pair(current.last().x, y)),
                lines,
                stopped: false,
            },
            _ => PathState { current: current.push(current[0]), lines, stopped: false },
        }
    }
}

pub open spec fn initial_state() -> PathState {
    PathState { current: Seq::empty(), lines: Seq::empty(), stopped: false }
}

/// The state after the commands of `tokens`, in order; once stopped, the
/// remaining commands are ignored.
pub open spec fn run(tokens: Seq<SegmentData>) -> PathState
    decreases tokens.len(),
{
    if tokens.len() == 0 {
        initial_state()
    } else {
        let s = run(tokens.drop_last());
        if s.stopped {
            s
        } else {
            step(s.current, s.lines, tokens.last())
        }
    }
}

/// The polylines of a path: the completed lines, then the last line if valid.
pub open spec fn interpret(tokens: Seq<SegmentData>) -> Seq<Seq<CoordinatePair>> {
    let s = run(tokens);
    if s.current.len() > 1 {
        s.lines.push(s.current)
    } else {
        s.lines
    }
}

/// Applies one command to the line under construction, moving a completed
/// line to `lines` at a move. On an error nothing changes.
pub fn parse_segment_data(data: &SegmentData, current_line: &mut CurrentLine, lines: &mut Vec<Polyline>) -> (r: Result<(), PathError>)
    ensures
        r == (match segment_error(old(current_line)@, *data) {
            Some(e) => Err(e),
            None => Ok(()),
        }),
        final(current_line)@ == step(old(current_line)@, lines_view(old(lines)@), *data).current,
        lines_view(final(lines)@) == step(old(current_line)@, lines_view(old(lines)@), *data).lines,
{
    match data {
        SegmentData::MoveTo { x, y } => {
            if current_line.is_valid() {
                let done = current_line.finish();
                lines.push(done);
                assert(lines_view(lines@) =~= lines_view(old(lines)@).push(old(current_line)@));
            }
            current_line.add(CoordinatePair::new(*x, *y));
            assert(current_line@ =~= step(old(current_line)@, lines_view(old(lines)@), *data).current);
        },
        SegmentData::LineTo { x, y } => {
            current_line.add(CoordinatePair::new(*x, *y));
        },
        SegmentData::HorizontalLineTo { x } => {
            match current_line.last_y() {
                Some(y) => current_line.add(CoordinatePair::new(*x, y)),
                None => {
                    return Err(PathError::InvalidState);
                },
            }
        },
        SegmentData::VerticalLineTo { y } => {
            match current_line.last_x() {
                Some(x) => current_line.add(CoordinatePair::new(x, *y)),
                None => {
                    return Err(PathError::InvalidState);
                },
            }
        },
        SegmentData::ClosePath => {
            if current_line.close().is_err() {
                return Err(PathError::Close);
            }
        },
        SegmentData::Unsupported(kind) => {
            return Err(PathError::Unsupported(*kind));
        },
    }
    Ok(())
}

/// Turns the commands of one path into polylines. Interpretation stops at the
/// first error; the lines completed before it are kept.
pub fn interpret_segments(tokens: &Vec<SegmentData>) -> (r: Vec<Polyline>)
    ensures
        lines_view(r@) == interpret(tokens@),
{
    let mut lines: Vec<Polyline> = Vec::new();
    let mut line = CurrentLine::new();
    let mut stopped = false;
    let mut i: usize = 0;
    assert(tokens@.take(0) =~= Seq::<SegmentData>::empty());
    assert(lines_view(lines@) =~= Seq::<Seq<CoordinatePair>>::empty());
    while i < tokens.len()
        invariant
            i <= tokens.len(),
            line@ == run(tokens@.take(i as int)).current,
            lines_view(lines@) == run(tokens@.take(i as int)).lines,
            stopped == run(tokens@.take(i as int)).stopped,
        decreases tokens.len() - i,
    {
        assert(tokens@.take(i + 1).drop_last() =~= tokens@.take(i as int));
        if !stopped {
            let res = parse_segment_data(&tokens[i], &mut line, &mut lines);
            if res.is_err() {
                stopped = true;
            }
        }
        i += 1;
    }
    assert(tokens@.take(i as int) =~= tokens@);
    if line.is_valid() {
        let last = line.finish();
        lines.push(last);
        assert(lines_view(lines@) =~= interpret(tokens@));
    }
    lines
}

/// Once a path has stopped, the commands after it change nothing.
pub proof fn lemma_stopped_persists(tokens: Seq<SegmentData>, k: int)
    requires
        0 <= k <= tokens.len(),
        run(tokens.take(k)).stopped,
    ensures
        run(tokens) == run(tokens.take(k)),
    decreases tokens.len(),
{
    if tokens.len() == k {
        assert(tokens.take(k) =~= tokens);
    } else {
        assert(tokens.drop_last().take(k) =~= tokens.take(k));
        lemma_stopped_persists(tokens.drop_last(), k);
    }
}

proof fn lemma_run_lines_valid(tokens: Seq<SegmentData>)
    ensures
        forall|i: int| 0 <= i < run(tokens).lines.len() ==> #[trigger] run(tokens).lines[i].len() > 1,
    decreases tokens.len(),
{
    if tokens.len() > 0 {
        let s = run(tokens.drop_last());
        lemma_run_lines_valid(tokens.drop_last());
        if !s.stopped {
            let n = step(s.current, s.lines, tokens.last());
            assert forall|i: int| 0 <= i < n.lines.len() implies #[trigger] n.lines[i].len() > 1 by {
                if i < s.lines.len() {
                    assert(s.lines[i].len() > 1);
                }
            }
        }
    }
}

/// Every polyline that a path yields holds more than one point.
pub proof fn lemma_interpret_valid(tokens: Seq<SegmentData>)
    ensures
        forall|i: int| 0 <= i < interpret(tokens).len() ==> #[trigger] interpret(tokens)[i].len() > 1,
{
    lemma_run_lines_valid(tokens);
}

/// A horizontal or vertical line as the first command of a path fails with
/// an invalid state, and the path yields no polyline.
pub proof fn lemma_leading_axis_line_fails(tokens: Seq<SegmentData>)
    requires
        tokens.len() > 0,
        tokens[0] is HorizontalLineTo || tokens[0] is VerticalLineTo,
    ensures
        segment_error(Seq::empty(), tokens[0]) == Some(PathError::InvalidState),
        interpret(tokens) == Seq::<Seq<CoordinatePair>>::empty(),
{
    let first = tokens.take(1);
    assert(first.drop_last() =~= Seq::<SegmentData>::empty());
    assert(run(first.drop_last()) == initial_state());
    assert(first.last() == tokens[0]);
    assert(run(first) == step(Seq::empty(), Seq::empty(), tokens[0]));
    lemma_stopped_persists(tokens, 1);
}

/// The point that a move or a line command goes to.
pub open spec fn target(t: SegmentData) -> CoordinatePair {
    match t {
        SegmentData::MoveTo { x, y } => pair(x, y),
        SegmentData::LineTo { x, y } => pair(x, y),
        _ => pair(0, 0),
    }
}

/// A move followed by straight lines only.
pub open spec fn is_open_run(prefix: Seq<SegmentData>) -> bool {
    &&& prefix.len() > 0
    &&& prefix[0] is MoveTo
    &&& forall|i: int| 0 < i < prefix.len() ==> #[trigger] prefix[i] is LineTo
}

proof fn lemma_open_run_state(prefix: Seq<SegmentData>)
    requires
        is_open_run(prefix),
    ensures
        run(prefix).current == prefix.map_values(|t: SegmentData| target(t)),
        run(prefix).lines.len() == 0,
        !run(prefix).stopped,
    decreases prefix.len(),
{
    let shorter = prefix.drop_last();
    if prefix.len() > 1 {
        assert(is_open_run(shorter)) by {
            assert forall|i: int| 0 < i < shorter.len() implies #[trigger] shorter[i] is LineTo by {
                assert(prefix[i] is LineTo);
            }
        }
        lemma_open_run_state(shorter);
        assert(prefix.last() is LineTo);
    } else {
        assert(shorter =~= Seq::<SegmentData>::empty());
        assert(run(shorter) == initial_state());
        assert(prefix.last() is MoveTo);
    }
    let s = run(shorter);
    assert(run(prefix) == step(s.current, s.lines, prefix.last()));
    assert(run(prefix).current =~= prefix.map_values(|t: SegmentData| target(t)));
}

/// A curve after a move and straight lines ends the path: the N points
/// before it form one polyline when N > 1 and none otherwise, and the
/// commands after it are discarded.
pub proof fn lemma_unsupported_truncates(prefix: Seq<SegmentData>, kind: CurveKind, rest: Seq<SegmentData>)
    requires
        is_open_run(prefix),
    ensures
        interpret(prefix.push(SegmentData::Unsupported(kind)) + rest) == (if prefix.len() > 1 {
            seq![prefix.map_values(|t: SegmentData| target(t))]
        } else {
            Seq::<Seq<CoordinatePair>>::empty()
        }),
{
    let stop = prefix.push(SegmentData::Unsupported(kind));
    let all = stop + rest;
    lemma_open_run_state(prefix);
    assert(stop.drop_last() =~= prefix);
    assert(all.take(stop.len() as int) =~= stop);
    lemma_stopped_persists(all, stop.len() as int);
    let pts = prefix.map_values(|t: SegmentData| target(t));
    if prefix.len() > 1 {
        assert(Seq::<Seq<CoordinatePair>>::empty().push(pts) =~= seq![pts]);
    }
}

/// The number of points of the subpath under way: the commands since the
/// last move, that move included.
pub open spec fn open_length(tokens: Seq<SegmentData>) -> nat
    decreases tokens.len(),
{
    if tokens.len() == 0 {
        0
    } else if tokens.last() is MoveTo {
        1
    } else {
        open_length(tokens.drop_last()) + 1
    }
}

/// The number of subpaths of more than one point that a later move ended.
pub open spec fn closed_subpaths(tokens: Seq<SegmentData>) -> nat
    decreases tokens.len(),
{
    if tokens.len() == 0 {
        0
    } else {
        closed_subpaths(tokens.drop_last()) + if tokens.last() is MoveTo && open_length(tokens.drop_last()) > 1 {
            1nat
        } else {
            0nat
        }
    }
}

/// The number of move-delimited subpaths whose final point count exceeds one.
pub open spec fn subpath_count(tokens: Seq<SegmentData>) -> nat {
    closed_subpaths(tokens) + if open_length(tokens) > 1 {
        1nat
    } else {
        0nat
    }
}

/// A path of moves, lines and closes on which no command fails: horizontal
/// and vertical lines follow a point, a close follows two, and no move
/// follows a subpath of a single point (such a point would join the next
/// subpath).
pub open spec fn is_plain_path(tokens: Seq<SegmentData>) -> bool
    decreases tokens.len(),
{
    tokens.len() == 0 || (is_plain_path(tokens.drop_last()) && match tokens.last() {
        SegmentData::MoveTo { .. } => open_length(tokens.drop_last()) != 1,
        SegmentData::LineTo { .. } => true,
        SegmentData::HorizontalLineTo { .. } => open_length(tokens.drop_last()) >= 1,
        SegmentData::VerticalLineTo { .. } => open_length(tokens.drop_last()) >= 1,
        SegmentData::ClosePath => open_length(tokens.drop_last()) >= 2,
        SegmentData::Unsupported(_) => false,
    })
}

proof fn lemma_plain_path_state(tokens: Seq<SegmentData>)
    requires
        is_plain_path(tokens),
    ensures
        !run(tokens).stopped,
        run(tokens).current.len() == open_length(tokens),
        run(tokens).lines.len() == closed_subpaths(tokens),
    decreases tokens.len(),
{
    if tokens.len() > 0 {
        lemma_plain_path_state(tokens.drop_last());
        let s = run(tokens.drop_last());
        assert(run(tokens) == step(s.current, s.lines, tokens.last()));
    }
}

/// The points of the subpath under way, built from the commands since the
/// last move alone: a move starts it, a line adds its end, a horizontal or
/// vertical line keeps one coordinate of the last point, a close repeats the
/// first point.
pub open spec fn open_points(tokens: Seq<SegmentData>) -> Seq<CoordinatePair>
    decreases tokens.len(),
{
    if tokens.len() == 0 {
        Seq::empty()
    } else {
        let prev = open_points(tokens.drop_last());
        match tokens.last() {
            SegmentData::MoveTo { x, y } => seq![pair(x, y)],
            SegmentData::LineTo { x, y } => prev.push(pair(x, y)),
            SegmentData::HorizontalLineTo { x } => prev.push(pair(x, prev.last().y)),
            SegmentData::VerticalLineTo { y } => prev.push(pair(prev.last().x, y)),
            _ => prev.push(prev[0]),
        }
    }
}

/// The points of each subpath that a later move ended, when it has more
/// than one point, in order.
pub open spec fn closed_subpath_points(tokens: Seq<SegmentData>) -> Seq<Seq<CoordinatePair>>
    decreases tokens.len(),
{
    if tokens.len() == 0 {
        Seq::empty()
    } else {
        let prev = closed_subpath_points(tokens.drop_last());
        if tokens.last() is MoveTo && open_points(tokens.drop_last()).len() > 1 {
            prev.push(open_points(tokens.drop_last()))
        } else {
            prev
        }
    }
}

/// The points of every move-delimited subpath with more than one point, in
/// order.
pub open spec fn subpath_points(tokens: Seq<SegmentData>) -> Seq<Seq<CoordinatePair>> {
    if open_points(tokens).len() > 1 {
        closed_subpath_points(tokens).push(open_points(tokens))
    } else {
        closed_subpath_points(tokens)
    }
}

proof fn lemma_open_length(tokens: Seq<SegmentData>)
    requires
        is_plain_path(tokens),
    ensures
        open_points(tokens).len() == open_length(tokens),
        run(tokens).current == open_points(tokens),
        run(tokens).lines == closed_subpath_points(tokens),
    decreases tokens.len(),
{
    if tokens.len() > 0 {
        lemma_open_length(tokens.drop_last());
        lemma_plain_path_state(tokens.drop_last());
        let s = run(tokens.drop_last());
        assert(run(tokens) == step(s.current, s.lines, tokens.last()));
    }
}

/// On a path of moves, lines and closes on which no command fails, the
/// polylines are the points of the move-delimited subpaths that hold more
/// than one point, in order.
pub proof fn lemma_polylines_are_subpaths(tokens: Seq<SegmentData>)
    requires
        is_plain_path(tokens),
    ensures
        interpret(tokens) == subpath_points(tokens),
{
    lemma_open_length(tokens);
}

/// On a path of moves, lines and closes on which no command fails, the
/// number of polylines is the number of move-delimited subpaths whose final
/// point count exceeds one.
pub proof fn lemma_polyline_count(tokens: Seq<SegmentData>)
    requires
        is_plain_path(tokens),
    ensures
        interpret(tokens).len() == subpath_count(tokens),
{
    lemma_plain_path_state(tokens);
}

} // verus!
