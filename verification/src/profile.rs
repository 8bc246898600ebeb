//! Times of frames: the last one, the sums and the averages.
use vstd::prelude::*;

verus! {

/// How long the parts of something took, in nanoseconds.
#[derive(Clone, Copy, Debug, PartialEq, Eq, Structural)]
pub struct Times {
    pub clear: u128,
    pub compose: u128,
    pub render: u128,
    pub status: u128,
    pub flush: u128,
    pub total: u128,
}

/// How long one frame took, and the size of its picture.
#[derive(Clone, Copy, Debug, PartialEq, Eq, Structural)]
pub struct FrameSample {
    pub times: Times,
    pub img_w: u32,
    pub img_h: u32,
}

/// The frames so far: how many, how long they took together, and the last one.
#[derive(Clone, Copy, Debug, PartialEq, Eq, Structural)]
pub struct FrameStats {
    pub frames: u32,
    pub sums: Times,
    pub last: Option<FrameSample>,
}

impl Times {
    /// The sums of two times can be held.
    pub open spec fn can_add(self, other: Times) -> bool {
        &&& self.clear + other.clear <= u128::MAX
        &&& self.compose + other.compose <= u128::MAX
        &&& self.render + other.render <= u128::MAX
        &&& self.status + other.status <= u128::MAX
        &&& self.flush + other.flush <= u128::MAX
        &&& self.total + other.total <= u128::MAX
    }

    /// Part by part, the sum of two times.
    pub open spec fn plus(self, other: Times) -> Times {
        Times {
            clear: (self.clear + other.clear) as u128,
            compose: (self.compose + other.compose) as u128,
            render: (self.render + other.render) as u128,
            status: (self.status + other.status) as u128,
            flush: (self.flush + other.flush) as u128,
            total: (self.total + other.total) as u128,
        }
    }
}

impl FrameStats {
    /// No frames yet.
    pub fn new() -> (r: FrameStats)
        ensures
            r.frames == 0,
            r.sums == (Times { clear: 0, compose: 0, render: 0, status: 0, flush: 0, total: 0 }),
            r.last is None,
    {
        FrameStats {
            frames: 0,
            sums: Times { clear: 0, compose: 0, render: 0, status: 0, flush: 0, total: 0 },
            last: None,
        }
    }

    /// Takes one more frame into account; says whether its times could be added.
    pub fn record(&mut self, sample: FrameSample) -> (added: bool)
        ensures
            added == (old(self).frames < u32::MAX && old(self).sums.can_add(sample.times)),
            *final(self) == if added {
                FrameStats {
                    frames: (old(self).frames + 1) as u32,
                    sums: old(self).sums.plus(sample.times),
                    last: Some(sample),
                }
            } else {
                *old(self)
            },
    {
        let t = sample.times;
        let s = self.sums;
        if self.frames == u32::MAX || t.clear > u128::MAX - s.clear || t.compose > u128::MAX
            - s.compose || t.render > u128::MAX - s.render || t.status > u128::MAX - s.status
            || t.flush > u128::MAX - s.flush || t.total > u128::MAX - s.total {
            return false;
        }
        self.frames = self.frames + 1;
        self.sums = Times {
            clear: s.clear + t.clear,
            compose: s.compose + t.compose,
            render: s.render + t.render,
            status: s.status + t.status,
            flush: s.flush + t.flush,
            total: s.total + t.total,
        };
        self.last = Some(sample);
        true
    }

    /// The average times of a frame, rounded down; none if there was no frame.
    pub fn averages(&self) -> (r: Option<Times>)
        ensures
            match r {
                Some(t) => self.frames > 0 && t == (Times {
                    clear: self.sums.clear / self.frames as u128,
                    compose: self.sums.compose / self.frames as u128,
                    render: self.sums.render / self.frames as u128,
                    status: self.sums.status / self.frames as u128,
                    flush: self.sums.flush / self.frames as u128,
                    total: self.sums.total / self.frames as u128,
                }),
                None => self.frames == 0,
            },
    {
        if self.frames == 0 {
            return None;
        }
        let n: u128 = self.frames as u128;
        Some(
            Times {
                clear: self.sums.clear / n,
                compose: self.sums.compose / n,
                render: self.sums.render / n,
                status: self.sums.status / n,
                flush: self.sums.flush / n,
                total: self.sums.total / n,
            },
        )
    }
}

/// Times are added part by part, and in any order.
pub proof fn law_times_add_up(a: Times, b: Times)
    requires
        a.can_add(b),
    ensures
        a.plus(b).clear == a.clear + b.clear,
        a.plus(b).compose == a.compose + b.compose,
        a.plus(b).render == a.render + b.render,
        a.plus(b).status == a.status + b.status,
        a.plus(b).flush == a.flush + b.flush,
        a.plus(b).total == a.total + b.total,
        a.plus(b) == b.plus(a),
{
}

/// Times cannot be added only if one of their sums is too large to be held.
pub proof fn law_times_can_be_added(a: Times, b: Times)
    ensures
        a.can_add(b) <==> a.clear + b.clear < 0x1_0000_0000_0000_0000_0000_0000_0000_0000
            && a.compose + b.compose < 0x1_0000_0000_0000_0000_0000_0000_0000_0000 && a.render
            + b.render < 0x1_0000_0000_0000_0000_0000_0000_0000_0000 && a.status + b.status
            < 0x1_0000_0000_0000_0000_0000_0000_0000_0000 && a.flush + b.flush
            < 0x1_0000_0000_0000_0000_0000_0000_0000_0000 && a.total + b.total
            < 0x1_0000_0000_0000_0000_0000_0000_0000_0000,
{
}

} // verus!
