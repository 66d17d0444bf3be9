use vstd::prelude::*;

verus! {

/// A point; `x` and `y` hold the bit patterns of binary64 coordinates.
#[derive(Debug, PartialEq, Eq, Structural, Clone, Copy)]
pub struct CoordinatePair {
    pub x: u64,
    pub y: u64,
}

impl CoordinatePair {
    pub fn new(x: u64, y: u64) -> (r: CoordinatePair)
        ensures
            r == (CoordinatePair { x, y }),
    {
        CoordinatePair { x, y }
    }
}

/// An ordered sequence of points; emitted polylines hold more than one point.
pub type Polyline = Vec<CoordinatePair>;

/// The points of each polyline of a sequence.
pub open spec fn lines_view(v: Seq<Polyline>) -> Seq<Seq<CoordinatePair>> {
    v.map_values(|l: Polyline| l@)
}

/// The message of a failed `close`.
pub open spec fn close_error_message() -> Seq<char> {
    "Lines with less than 2 coordinate pairs cannot be closed."@
}

/// The polyline under construction.
#[derive(Debug)]
pub struct CurrentLine {
    line: Polyline,
}

impl View for CurrentLine {
    type V = Seq<CoordinatePair>;

    closed spec fn view(&self) -> Seq<CoordinatePair> {
        self.line@
    }
}

impl CurrentLine {
    pub fn new() -> (r: CurrentLine)
        ensures
            r@ == Seq::<CoordinatePair>::empty(),
    {
        CurrentLine { line: Vec::new() }
    }

    /// Appends a point.
    pub fn add(&mut self, pair: CoordinatePair)
        ensures
            final(self)@ == old(self)@.push(pair),
    {
        self.line.push(pair);
    }

    /// A line is valid when it holds more than one point.
    pub fn is_valid(&self) -> (r: bool)
        ensures
            r == (self@.len() > 1),
    {
        self.line.len() > 1
    }

    /// The x coordinate of the last point, if there is one.
    pub fn last_x(&self) -> (r: Option<u64>)
        ensures
            r == (if self@.len() == 0 { None } else { Some(self@.last().x) }),
    {
        if self.line.len() == 0 {
            None
        } else {
            Some(self.line[self.line.len() - 1].x)
        }
    }

    /// The y coordinate of the last point, if there is one.
    pub fn last_y(&self) -> (r: Option<u64>)
        ensures
            r == (if self@.len() == 0 { None } else { Some(self@.last().y) }),
    {
        if self.line.len() == 0 {
            None
        } else {
            Some(self.line[self.line.len() - 1].y)
        }
    }

    /// Closes the line by appending its first point; a line of fewer than
    /// two points cannot be closed and is left as it is.
    pub fn close(&mut self) -> (r: Result<(), String>)
        ensures
            old(self)@.len() < 2 ==> final(self)@ == old(self)@,
            old(self)@.len() < 2 ==> (r matches Err(e) && e@ == close_error_message()),
            old(self)@.len() >= 2 ==> r is Ok && final(self)@ == old(self)@.push(old(self)@[0]),
            old(self)@.len() >= 2 ==> final(self)@.len() == old(self)@.len() + 1
                && final(self)@.last() == final(self)@[0],
    {
        if self.line.len() < 2 {
            proof {
                reveal_strlit("Lines with less than 2 coordinate pairs cannot be closed.");
            }
            Err("Lines with less than 2 coordinate pairs cannot be closed.".to_owned())
        } else {
            let first = self.line[0];
            self.line.push(first);
            Ok(())
        }
    }

    /// Hands out the points gathered so far and leaves the line empty.
    pub fn finish(&mut self) -> (r: Polyline)
        ensures
            r@ == old(self)@,
            final(self)@ == Seq::<CoordinatePair>::empty(),
    {
        let mut tmp: Polyline = Vec::new();
        std::mem::swap(&mut self.line, &mut tmp);
        tmp
    }
}

} // verus!
