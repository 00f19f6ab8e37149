//! Touchscreen samples.
//!
//! The video core fills a buffer with the points that are touched. A poll
//! takes what the buffer holds, if it was filled since the last poll, and
//! keeps up to two points of it.

use vstd::prelude::*;

verus! {

/// Maximum number of touch points tracked by the video core.
pub const MAX_POINTS: usize = 10;

/// Invalid points length used by the video core as a poor man's lock.
pub const INVALID_POINTS: u8 = 99;

/// Touch sensor's width.
pub const WIDTH: usize = 800;

/// Touch sensor's height.
pub const HEIGHT: usize = 480;

/// Set touch buffer property tag.
pub const SET_TOUCHBUF_TAG: u32 = 0x4801F;

/// Information about an individual point.
#[derive(Clone, Copy, Debug)]
pub struct Point {
    /// Most significant byte of the horizontal coordinate.
    pub x_msb: u8,
    /// Least significant byte of the horizontal coordinate.
    pub x_lsb: u8,
    /// Most significant byte of the vertical coordinate.
    pub y_msb: u8,
    /// Least significant byte of the vertical coordinate.
    pub y_lsb: u8,
}

/// Touchscreen driver.
#[derive(Debug)]
pub struct Touch {
    /// Saved touch points for comparison, as column and row of the sensor,
    /// rows counted from the bottom.
    saved: [Option<(usize, usize)>; 2],
}

/// A ten-bit coordinate from its two bytes.
pub open spec fn coordinate(msb: u8, lsb: u8) -> int {
    (msb as int % 4) * 256 + lsb as int
}

/// The position of a point on the sensor: its column, and its row counted
/// from the bottom.
pub open spec fn position(point: Point) -> (int, int) {
    (coordinate(point.x_msb, point.x_lsb), HEIGHT - coordinate(point.y_msb, point.y_lsb))
}

/// What is saved of a buffer with the given number of points, if the buffer
/// was filled: the first two points of one or two, nothing of any other
/// number.
pub open spec fn sampled(len: u8, points: Seq<Point>) -> Seq<Option<(int, int)>> {
    if len == 1 {
        seq![Some(position(points[0])), None]
    } else if len == 2 {
        seq![Some(position(points[0])), Some(position(points[1]))]
    } else {
        seq![None, None]
    }
}

/// Computes a ten-bit coordinate from its two bytes.
pub fn decode(msb: u8, lsb: u8) -> (val: usize)
    ensures
        val == coordinate(msb, lsb),
        val < 1024,
{
    let low: usize = lsb as usize;
    let high: usize = msb as usize;
    let val: usize = low | ((high & 0x3) << 8);
    assert(val == (high % 4) * 256 + low) by (bit_vector)
        requires
            low < 256,
            high < 256,
            val == low | ((high & 0x3) << 8),
    ;
    val
}

impl Touch {
    /// The saved points.
    pub closed spec fn view(&self) -> Seq<Option<(int, int)>> {
        seq![
            match self.saved[0] {
                Some(p) => Some((p.0 as int, p.1 as int)),
                None => None,
            },
            match self.saved[1] {
                Some(p) => Some((p.0 as int, p.1 as int)),
                None => None,
            },
        ]
    }

    /// Creates and initializes a new touchscreen driver, without saved
    /// points.
    pub fn new() -> (touch: Touch)
        ensures
            touch@ == seq![None::<(int, int)>, None::<(int, int)>],
    {
        Touch { saved: [None, None] }
    }

    /// Returns the saved points.
    pub fn saved(&self) -> (saved: [Option<(usize, usize)>; 2])
        ensures
            self@ == seq![
                match saved[0] {
                    Some(p) => Some((p.0 as int, p.1 as int)),
                    None => None,
                },
                match saved[1] {
                    Some(p) => Some((p.0 as int, p.1 as int)),
                    None => None,
                },
            ],
    {
        self.saved
    }

    /// Takes what the touchscreen buffer holds and updates the saved state
    /// when new information is available.
    ///
    /// * `points_len`: Number of touch points in the buffer; a number above
    ///   the maximum says that the buffer was not filled since the last poll.
    /// * `points`: The points of the buffer. Of one or two points, none lies
    ///   beyond the last row of the sensor.
    ///
    /// Returns whether the buffer was filled; it is then to be marked as
    /// taken.
    pub fn poll(&mut self, points_len: u8, points: &Vec<Point>) -> (taken: bool)
        requires
            points@.len() == MAX_POINTS,
            forall|i: int|
                0 <= i < points_len <= 2 ==> coordinate(
                    (#[trigger] points@[i]).y_msb,
                    points@[i].y_lsb,
                ) <= HEIGHT,
        ensures
            taken == (points_len <= MAX_POINTS),
            taken ==> final(self)@ == sampled(points_len, points@),
            !taken ==> final(self)@ == old(self)@,
    {
        if points_len as usize > MAX_POINTS {
            return false;
        }
        // We're only interested in information containing at most two touch points.
        if points_len < 1 || points_len > 2 {
            self.saved = [None, None];
            assert(self@ =~= sampled(points_len, points@));
            return true;
        }
        let first = Self::locate(&points[0]);
        let second = if points_len == 2 {
            Some(Self::locate(&points[1]))
        } else {
            None
        };
        self.saved = [Some(first), second];
        assert(self@ =~= sampled(points_len, points@));
        true
    }

    /// Computes the position of a point on the sensor.
    pub fn locate(point: &Point) -> (at: (usize, usize))
        requires
            coordinate(point.y_msb, point.y_lsb) <= HEIGHT,
        ensures
            (at.0 as int, at.1 as int) == position(*point),
    {
        let x: usize = decode(point.x_msb, point.x_lsb);
        let y: usize = decode(point.y_msb, point.y_lsb);
        (x, HEIGHT - y)
    }
}

} // verus!
