//! Level-by-level tile iteration over per-zoom index ranges.

use vstd::prelude::*;
use crate::tile::Tile;
use crate::tms::MinMax;

verus! {

/// Level-by-level iterator: yields every tile of each zoom's inclusive
/// index ranges, rows innermost, then columns, then zooms.
#[derive(Debug)]
pub struct XyzIterator {
    /// Current zoom.
    pub z: u8,
    /// Current column.
    pub x: u64,
    /// Current row.
    pub y: u64,
    /// First zoom of the range.
    pub z_min: u8,
    /// Last zoom of the range.
    pub z_max: u8,
    /// Inclusive tile-index ranges, one per zoom starting at `z_min`.
    pub limits: Vec<MinMax>,
    /// Whether the sequence is exhausted.
    pub finished: bool,
}

/// Whether every per-zoom range is nonempty on both axes.
pub open spec fn spec_limits_wf(limits: Seq<MinMax>) -> bool {
    forall|i: int|
        0 <= i < limits.len() ==> (#[trigger] limits[i].x_min <= limits[i].x_max
            && limits[i].y_min <= limits[i].y_max)
}

impl XyzIterator {
    /// Well-formed cursor: unless finished, the zoom range is covered by the
    /// limits, every range is nonempty, and the cursor lies within the
    /// current zoom's ranges.
    pub open spec fn wf(self) -> bool {
        !self.finished ==> {
            &&& self.z_min <= self.z <= self.z_max
            &&& self.z_max - self.z_min < self.limits@.len()
            &&& spec_limits_wf(self.limits@)
            &&& self.limits@[self.z - self.z_min].x_min <= self.x <= self.limits@[self.z
                - self.z_min].x_max
            &&& self.limits@[self.z - self.z_min].y_min <= self.y <= self.limits@[self.z
                - self.z_min].y_max
        }
    }

    /// The tile under the cursor.
    pub open spec fn spec_current(self) -> Tile {
        Tile { x: self.x, y: self.y, z: self.z }
    }

    /// Build an iterator from a zoom range and per-zoom limits.
    ///
    /// An inverted zoom range or an empty limits list gives an immediately
    /// exhausted iterator, never an error. A limits list shorter than the
    /// zoom range truncates the range to the available entries.
    pub fn new(z_min: u8, z_max: u8, limits: Vec<MinMax>) -> (r: XyzIterator)
        requires
            spec_limits_wf(limits@),
        ensures
            r.wf(),
            r.finished <==> (z_min > z_max || limits@.len() == 0),
            !r.finished ==> {
                &&& r.z == z_min && r.z_min == z_min
                &&& r.z_max == if z_max - z_min < limits@.len() - 1 {
                    z_max as int
                } else {
                    z_min + limits@.len() - 1
                }
                &&& r.x == limits@[0].x_min && r.y == limits@[0].y_min
                &&& r.limits@ == limits@
            },
    {
        if z_min <= z_max && limits.len() > 0 {
            let span: u64 = limits.len() as u64 - 1;
            let z_span: u64 = (z_max - z_min) as u64;
            let z_max_trunc: u8 = if z_span < span {
                z_max
            } else {
                z_min + span as u8
            };
            let x = limits[0].x_min;
            let y = limits[0].y_min;
            XyzIterator { z: z_min, x, y, z_min, z_max: z_max_trunc, limits, finished: false }
        } else {
            XyzIterator {
                z: 0,
                x: 0,
                y: 0,
                z_min: 0,
                z_max: 0,
                limits: Vec::new(),
                finished: true,
            }
        }
    }

    /// Yield the tile under the cursor and advance: the row to its maximum,
    /// then the column, then the zoom; after the last tile the iterator is
    /// exhausted and yields nothing forever.
    pub fn next(&mut self) -> (r: Option<Tile>)
        requires
            old(self).wf(),
        ensures
            final(self).wf(),
            old(self).finished ==> r is None && *final(self) == *old(self),
            !old(self).finished ==> {
                let lim = old(self).limits@[old(self).z - old(self).z_min];
                &&& r == Some(old(self).spec_current())
                &&& if old(self).y < lim.y_max {
                    *final(self) == (XyzIterator { y: (old(self).y + 1) as u64, ..*old(self) })
                } else if old(self).x < lim.x_max {
                    *final(self) == (XyzIterator {
                        x: (old(self).x + 1) as u64,
                        y: lim.y_min,
                        ..*old(self)
                    })
                } else if old(self).z < old(self).z_max {
                    *final(self) == (XyzIterator {
                        z: (old(self).z + 1) as u8,
                        x: old(self).limits@[old(self).z + 1 - old(self).z_min].x_min,
                        y: old(self).limits@[old(self).z + 1 - old(self).z_min].y_min,
                        ..*old(self)
                    })
                } else {
                    *final(self) == (XyzIterator { finished: true, ..*old(self) })
                }
            },
    {
        if self.finished {
            return None;
        }
        let current = Tile { x: self.x, y: self.y, z: self.z };
        let idx = (self.z - self.z_min) as usize;
        let limit = self.limits[idx];
        if self.y < limit.y_max {
            self.y = self.y + 1;
        } else if self.x < limit.x_max {
            self.x = self.x + 1;
            self.y = limit.y_min;
        } else if self.z < self.z_max {
            self.z = self.z + 1;
            let next_idx = (self.z - self.z_min) as usize;
            let next_limit = self.limits[next_idx];
            self.x = next_limit.x_min;
            self.y = next_limit.y_min;
        } else {
            self.finished = true;
        }
        Some(current)
    }
}

} // verus!
