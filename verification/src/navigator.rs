use vstd::prelude::*;

use crate::geometry::Point;

verus! {

/// A path to follow, as the points of a polyline.
#[derive(Clone, Debug)]
pub struct Path {
    pub pos: Vec<Point>,
}

impl Path {
    pub fn from_points(points: Vec<Point>) -> (p: Path)
        ensures
            p.pos@ == points@,
    {
        Path { pos: points }
    }

    pub fn len(&self) -> (n: usize)
        ensures
            n == self.pos@.len(),
    {
        self.pos.len()
    }

    pub fn points(&self) -> (r: &Vec<Point>)
        ensures
            r@ == self.pos@,
    {
        &self.pos
    }

    /// The segments searched for the one closest to the walker: those from
    /// `hint - window` (or the first) to `hint + window` (or the last), both
    /// included, as the first and last segment index. Segment `i` joins point
    /// `i` to point `i + 1`. `None` when the path has no segment or the range
    /// is empty.
    pub fn segment_window(&self, hint: usize, window: usize) -> (r: Option<(usize, usize)>)
        requires
            self.pos@.len() >= 2 ==> hint + window <= usize::MAX,
        ensures
            r == (if self.pos@.len() < 2 {
                None
            } else {
                let lo = if hint >= window { hint - window } else { 0 };
                let hi = if hint + window <= self.pos@.len() - 2 { hint + window } else { self.pos@.len() - 2 };
                if lo <= hi { Some((lo as usize, hi as usize)) } else { None }
            }),
    {
        let n = self.pos.len();
        if n < 2 {
            return None;
        }
        let lo = hint.saturating_sub(window);
        let top = hint + window;
        let hi = if top <= n - 2 {
            top
        } else {
            n - 2
        };
        if lo <= hi {
            Some((lo, hi))
        } else {
            None
        }
    }
}

/// What the navigator knows: where the walker is and faces, where it wants to
/// go, and the path it follows with the index of the segment it was last on.
pub struct NavState {
    pub position: Option<Point>,
    pub heading: Option<Point>,
    pub goal: Option<Point>,
    pub path: Option<Path>,
    pub path_idx: usize,
}

/// What a position update leaves to do.
pub struct PositionOutcome {
    /// The state changed and must be shown again.
    pub dirty: bool,
    /// A path must be computed between these two points.
    pub plan: Option<(Point, Point)>,
}

impl NavState {
    /// The spacing, in metres, beyond which the walker is off its path.
    pub const REPLAN_THRESHOLD_M: u32 = 0x3fc0_0000;

    /// How many segments on each side of the last one the closest segment is
    /// searched among.
    pub const SEARCH_WINDOW: usize = 5;

    pub fn new() -> (s: NavState)
        ensures
            s.position is None,
            s.heading is None,
            s.goal is None,
            s.path is None,
            s.path_idx == 0,
    {
        NavState { position: None, heading: None, goal: None, path: None, path_idx: 0 }
    }

    /// Whether the path must be computed again. `closest` is what the search
    /// for the closest segment of the path gave: the segment's index and
    /// whether the walker is farther from it than `REPLAN_THRESHOLD_M`, or
    /// `None` when no segment was found. Without a path a new one is always
    /// needed; otherwise the segment found becomes the current one.
    pub fn need_replan(&mut self, closest: Option<(usize, bool)>) -> (r: bool)
        ensures
            final(self).position == old(self).position,
            final(self).heading == old(self).heading,
            final(self).goal == old(self).goal,
            final(self).path == old(self).path,
            r == match (old(self).path, closest) {
                (None, _) => true,
                (Some(_), Some((_, far))) => far,
                (Some(_), None) => true,
            },
            final(self).path_idx == match (old(self).path, closest) {
                (Some(_), Some((idx, _))) => idx,
                _ => old(self).path_idx,
            },
    {
        match &self.path {
            None => true,
            Some(_) => match closest {
                Some((idx, far)) => {
                    self.path_idx = idx;
                    far
                },
                None => true,
            },
        }
    }

    /// Takes a new position and heading. When a goal is set and the path must
    /// be computed again (see `need_replan`), asks for a path from the new
    /// position to the goal.
    pub fn on_position(&mut self, pos: Point, head: Point, closest: Option<(usize, bool)>) -> (r:
        PositionOutcome)
        ensures
            final(self).position == Some(pos),
            final(self).heading == Some(head),
            final(self).goal == old(self).goal,
            final(self).path == old(self).path,
            r.dirty,
            r.plan == match old(self).goal {
                None => None,
                Some(g) => if (match (old(self).path, closest) {
                    (None, _) => true,
                    (Some(_), Some((_, far))) => far,
                    (Some(_), None) => true,
                }) { Some((pos, g)) } else { None },
            },
            final(self).path_idx == match (old(self).goal, old(self).path, closest) {
                (Some(_), Some(_), Some((idx, _))) => idx,
                _ => old(self).path_idx,
            },
    {
        self.position = Some(pos);
        self.heading = Some(head);
        let plan = match self.goal {
            None => None,
            Some(g) => {
                if self.need_replan(closest) {
                    Some((pos, g))
                } else {
                    None
                }
            },
        };
        PositionOutcome { dirty: true, plan }
    }

    /// Takes a new goal. When the position is known, asks for a path from it to
    /// the goal, and the state must be shown again.
    pub fn on_click(&mut self, goal: Point) -> (r: Option<(Point, Point)>)
        ensures
            final(self).goal == Some(goal),
            final(self).position == old(self).position,
            final(self).heading == old(self).heading,
            final(self).path == old(self).path,
            final(self).path_idx == old(self).path_idx,
            r == match old(self).position {
                Some(p) => Some((p, goal)),
                None => None,
            },
    {
        self.goal = Some(goal);
        match self.position {
            Some(p) => Some((p, goal)),
            None => None,
        }
    }

    /// Installs a freshly computed path (or none, when no path was found) and
    /// restarts from its first segment.
    pub fn set_path(&mut self, path: Option<Path>)
        ensures
            final(self).path == path,
            final(self).path_idx == 0,
            final(self).position == old(self).position,
            final(self).heading == old(self).heading,
            final(self).goal == old(self).goal,
    {
        self.path = path;
        self.path_idx = 0;
    }
}

} // verus!
