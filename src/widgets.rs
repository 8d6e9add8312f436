//! State of the terminal views that is not drawing.
use vstd::prelude::*;

verus! {

/// Keys the terminal views react to.
#[derive(Copy, Clone, Debug, PartialEq, Eq, Structural)]
pub enum Control {
    Up,
    Down,
    Top,
    Bottom,
}

/// The frames-per-second corner.
pub struct FpsOverlay {}

impl FpsOverlay {
    pub fn new() -> (r: Self) {
        FpsOverlay {  }
    }
}

/// The times of the latest frames, in nanoseconds on a monotonic clock,
/// oldest first, at most `num_frames` of them.
pub struct FpsOverlayState {
    pub num_frames: usize,
    pub frames: Vec<u64>,
}

impl FpsOverlayState {
    pub fn new(num_frames: usize) -> (r: Self)
        ensures
            r.num_frames == num_frames,
            r.frames@.len() == 0,
    {
        FpsOverlayState { num_frames, frames: Vec::with_capacity(num_frames) }
    }

    /// Records a frame drawn at `now`, dropping the oldest beyond
    /// `num_frames`.
    pub fn record_frame(&mut self, now: u64)
        requires
            old(self).frames@.len() <= old(self).num_frames,
        ensures
            final(self).num_frames == old(self).num_frames,
            old(self).frames@.len() < old(self).num_frames ==> final(self).frames@ == old(
                self,
            ).frames@.push(now),
            old(self).frames@.len() >= old(self).num_frames ==> final(self).frames@ == old(
                self,
            ).frames@.push(now).drop_first(),
    {
        let ghost pushed = self.frames@.push(now);
        self.frames.push(now);
        if self.frames.len() > self.num_frames {
            self.frames.remove(0);
            assert(self.frames@ =~= pushed.drop_first());
        }
    }

    /// Frames per second over the recorded frames, rounded down; nothing
    /// with fewer than two frames or none of time between them.
    pub fn fps(&self) -> (r: Option<u64>)
        ensures
            self.frames@.len() < 2 || self.frames@.last() <= self.frames@[0] ==> r is None,
            self.frames@.len() >= 2 && self.frames@.last() > self.frames@[0] ==> r == Some(
                if frame_rate(self.frames@) > u64::MAX {
                    u64::MAX
                } else {
                    frame_rate(self.frames@) as u64
                },
            ),
    {
        let n = self.frames.len();
        if n < 2 {
            return None;
        }
        let first = self.frames[0];
        let last = self.frames[n - 1];
        if last <= first {
            return None;
        }
        let span = (last - first) as u128;
        let count = n as u128 * 1_000_000_000u128;
        let v = count / span;
        assert(v <= count) by (nonlinear_arith)
            requires
                span >= 1,
                v == count / span,
        ;
        assert(v == frame_rate(self.frames@));
        if v > u64::MAX as u128 {
            return Some(u64::MAX);
        }
        Some(v as u64)
    }
}

/// Frames per second over the frame times `f`, rounded down.
pub open spec fn frame_rate(f: Seq<u64>) -> int {
    (f.len() * 1_000_000_000) as int / (f.last() - f[0]) as int
}

/// The status line.
pub struct StatusBar {}

impl StatusBar {
    pub fn new() -> (r: Self) {
        StatusBar {  }
    }
}

/// A list with at most one selected item.
pub struct StatefulList<T> {
    pub selected: Option<usize>,
    pub items: Vec<T>,
}

/// The selection after moving down in a list of `len` items from
/// `selected`: the next item, wrapping to the first.
pub open spec fn next_selection(selected: Option<usize>, len: int) -> Option<usize> {
    match selected {
        Some(i) => if len == 0 {
            None
        } else {
            Some(if i >= len - 1 { 0 } else { (i + 1) as usize })
        },
        None => if len == 0 { None } else { Some(0) },
    }
}

/// The selection after moving up: the previous item, wrapping to the last.
pub open spec fn previous_selection(selected: Option<usize>, len: int) -> Option<usize> {
    match selected {
        Some(i) => Some(if i == 0 { (len - 1) as usize } else { (i - 1) as usize }),
        None => if len == 0 { None } else { Some(0) },
    }
}

impl<T> StatefulList<T> {
    /// The selection names an item.
    pub open spec fn wf(&self) -> bool {
        self.selected matches Some(i) ==> i < self.items@.len()
    }

    pub fn with_items(items: Vec<T>) -> (r: Self)
        ensures
            r.wf(),
            r.selected is None,
            r.items@ == items@,
    {
        StatefulList { selected: None, items }
    }

    pub fn next(&mut self)
        requires
            old(self).selected matches Some(i) ==> i <= old(self).items@.len(),
        ensures
            final(self).wf(),
            final(self).items@ == old(self).items@,
            final(self).selected == next_selection(old(self).selected, old(self).items@.len() as int),
    {
        let len = self.items.len();
        self.selected = match self.selected {
            Some(i) => if len == 0 {
                None
            } else if i >= len - 1 {
                Some(0)
            } else {
                Some(i + 1)
            },
            None => if len == 0 {
                None
            } else {
                Some(0)
            },
        };
    }

    pub fn previous(&mut self)
        requires
            old(self).wf(),
        ensures
            final(self).wf(),
            final(self).items@ == old(self).items@,
            final(self).selected == previous_selection(
                old(self).selected,
                old(self).items@.len() as int,
            ),
    {
        let len = self.items.len();
        self.selected = match self.selected {
            Some(i) => Some(
                if i == 0 {
                    len - 1
                } else {
                    i - 1
                },
            ),
            None => if len == 0 {
                None
            } else {
                Some(0)
            },
        };
    }

    pub fn unselect(&mut self)
        ensures
            final(self).selected is None,
            final(self).items@ == old(self).items@,
    {
        self.selected = None;
    }

    /// Removes the selected item, then selects the one after it, or nothing
    /// when the list is left empty.
    pub fn delete_selected(&mut self)
        requires
            old(self).wf(),
        ensures
            final(self).wf(),
            old(self).selected is None ==> final(self).selected is None && final(self).items@
                == old(self).items@,
            old(self).selected matches Some(i) ==> {
                &&& final(self).items@ == old(self).items@.remove(i as int)
                &&& final(self).selected == next_selection(
                    Some(i),
                    old(self).items@.len() - 1,
                )
            },
    {
        if let Some(index) = self.selected {
            self.items.remove(index);
            if self.items.len() == 0 {
                self.selected = None;
            } else {
                self.next();
            }
        }
    }

    /// The selected item.
    pub fn selected(&self) -> (r: Option<&T>)
        requires
            self.wf(),
        ensures
            self.selected matches Some(i) ==> r == Some(&self.items@[i as int]),
            self.selected is None ==> r is None,
    {
        match self.selected {
            Some(i) => Some(&self.items[i]),
            None => None,
        }
    }
}

/// How the log view keeps its rows in place.
#[derive(Clone, Copy, Debug, PartialEq, Eq, Structural)]
pub enum Anchor {
    /// Follow the newest entries.
    Autoscroll,
    /// Keep this entry on the last row.
    Bottom(usize),
    /// Keep this entry on the first row.
    Top(usize),
}

/// Selection and scrolling of the log view.
#[derive(Clone, Copy, Debug, PartialEq, Eq, Structural)]
pub struct LogScroll {
    pub selected: Option<usize>,
    pub anchor: Anchor,
}

/// The entries shown on `height` rows of `len` entries, as a start and an
/// end, kept within the entries.
pub open spec fn visible_rows(anchor: Anchor, len: int, height: int) -> (int, int) {
    if len <= height {
        (0, len)
    } else {
        match anchor {
            Anchor::Autoscroll => (len - height, len),
            Anchor::Top(i) => if i + height <= len {
                (i as int, i + height)
            } else {
                (len - height, len)
            },
            Anchor::Bottom(i) => if i + 1 <= height {
                (0, height)
            } else if i + 1 <= len {
                (i + 1 - height, i + 1)
            } else {
                (len - height, len)
            },
        }
    }
}

impl LogScroll {
    pub fn new() -> (r: Self)
        ensures
            r.selected is None,
            r.anchor == Anchor::Autoscroll,
    {
        LogScroll { selected: None, anchor: Anchor::Autoscroll }
    }

    /// Moves the selection over `len` entries: up and down by one, to the
    /// first entry, or back to following the newest.
    pub fn control(&mut self, control: Control, len: usize)
        ensures
            final(self).selected == match control {
                Control::Up => match old(self).selected {
                    Some(s) => Some(if s == 0 { 0 } else { (s - 1) as usize }),
                    None => if len > 0 { Some((len - 1) as usize) } else { None },
                },
                Control::Down => match old(self).selected {
                    Some(s) => if len == 0 {
                        Some(s)
                    } else if s + 1 < len {
                        Some((s + 1) as usize)
                    } else {
                        Some((len - 1) as usize)
                    },
                    None => None,
                },
                Control::Bottom => None,
                Control::Top => if len > 0 { Some(0) } else { old(self).selected },
            },
            final(self).anchor == if control == Control::Bottom {
                Anchor::Autoscroll
            } else {
                old(self).anchor
            },
    {
        match control {
            Control::Up => {
                if let Some(s) = self.selected {
                    self.selected = Some(s.saturating_sub(1));
                } else if len > 0 {
                    self.selected = Some(len - 1);
                }
            },
            Control::Down => {
                if let Some(s) = self.selected {
                    if len > 0 {
                        self.selected = Some(
                            if s < len - 1 {
                                s + 1
                            } else {
                                len - 1
                            },
                        );
                    }
                }
            },
            Control::Bottom => {
                self.selected = None;
                self.anchor = Anchor::Autoscroll;
            },
            Control::Top => {
                if len > 0 {
                    self.selected = Some(0);
                }
            },
        }
    }

    /// The entries shown on `height` rows of `len` entries.
    pub fn rows_to_display(&self, len: usize, height: usize) -> (r: (usize, usize))
        ensures
            r.0 == visible_rows(self.anchor, len as int, height as int).0,
            r.1 == visible_rows(self.anchor, len as int, height as int).1,
            r.0 <= r.1 <= len,
    {
        if len <= height {
            return (0, len);
        }
        match self.anchor {
            Anchor::Autoscroll => (len - height, len),
            Anchor::Top(i) => if i <= len - height {
                (i, i + height)
            } else {
                (len - height, len)
            },
            Anchor::Bottom(i) => if i < height {
                (0, height)
            } else if i < len {
                (i + 1 - height, i + 1)
            } else {
                (len - height, len)
            },
        }
    }

    /// Moves the anchor so that the selected entry is shown on `height`
    /// rows of `len` entries.
    pub fn follow_selection(&mut self, len: usize, height: usize)
        ensures
            final(self).selected == old(self).selected,
            final(self).anchor == match old(self).selected {
                Some(s) => if s < visible_rows(old(self).anchor, len as int, height as int).0 {
                    Anchor::Top(s)
                } else if s >= visible_rows(old(self).anchor, len as int, height as int).1 {
                    Anchor::Bottom(s)
                } else {
                    old(self).anchor
                },
                None => old(self).anchor,
            },
    {
        let (start, end) = self.rows_to_display(len, height);
        if let Some(s) = self.selected {
            if s < start {
                self.anchor = Anchor::Top(s);
            } else if s >= end {
                self.anchor = Anchor::Bottom(s);
            }
        }
    }
}

} // verus!
