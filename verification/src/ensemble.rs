//! The frame bookkeeping of the ensemble of experts.
//!
//! The ensemble first buffers a warm-up of frames and, once it has them all,
//! replays them to the experts; after that every frame is scored. It counts
//! the scored frames, the frames with at least one anomaly and the anomalies,
//! and every so many scored frames it resets its quietest experts.
use vstd::prelude::*;

verus! {

/// Number of channels, one expert each.
pub const ENSEMBLE_SIZE: usize = 20;

/// Frames buffered before scoring starts.
pub const WARM_UP_FRAMES: usize = 400;

/// Scored frames between two resets of the quietest experts.
pub const RESET_PERIOD: usize = 5000;

/// What to do with a frame.
pub enum FramePhase {
    /// Store the frame in warm-up slot `slot`; when `replay` is set, the
    /// warm-up is complete and every buffered frame goes to the experts now.
    WarmUp { slot: usize, replay: bool },
    /// Score the frame.
    Scoring,
}

/// The counters of an ensemble.
pub struct FrameCounters {
    initialized: bool,
    init_count: usize,
    frame_counter: usize,
    anomaly_frames: usize,
    total_anomalies: usize,
    pending: bool,
}

impl FrameCounters {
    /// Whether the warm-up is over.
    pub closed spec fn warmed_up(&self) -> bool {
        self.initialized
    }

    /// Frames buffered for the warm-up.
    pub closed spec fn buffered(&self) -> nat {
        self.init_count as nat
    }

    /// Frames scored.
    pub closed spec fn frames(&self) -> nat {
        self.frame_counter as nat
    }

    /// Scored frames with at least one anomaly.
    pub closed spec fn frames_with_anomaly(&self) -> nat {
        self.anomaly_frames as nat
    }

    /// Anomalies over all scored frames.
    pub closed spec fn anomalies(&self) -> nat {
        self.total_anomalies as nat
    }

    /// Whether the last frame started is being scored and its anomalies are
    /// not counted yet.
    pub closed spec fn pending(&self) -> bool {
        self.pending
    }

    /// Scored frames whose anomalies have been counted.
    pub open spec fn counted(&self) -> nat {
        if self.pending() {
            (self.frames() - 1) as nat
        } else {
            self.frames()
        }
    }

    /// The warm-up ends exactly when its frames are all buffered, nothing
    /// is scored before that, at most every counted frame holds an anomaly
    /// and a frame holds at most one anomaly per channel.
    pub open spec fn wf(&self) -> bool {
        &&& self.buffered() <= WARM_UP_FRAMES
        &&& self.warmed_up() <==> self.buffered() == WARM_UP_FRAMES
        &&& !self.warmed_up() ==> self.frames() == 0 && !self.pending()
        &&& self.pending() ==> self.frames() > 0
        &&& self.frames_with_anomaly() <= self.counted()
        &&& self.anomalies() <= ENSEMBLE_SIZE * self.counted()
    }

    /// Counters of a new ensemble.
    pub fn new() -> (c: Self)
        ensures
            c.wf(),
            !c.warmed_up(),
            c.buffered() == 0,
            c.frames() == 0,
            c.frames_with_anomaly() == 0,
            c.anomalies() == 0,
            !c.pending(),
    {
        FrameCounters {
            initialized: false,
            init_count: 0,
            frame_counter: 0,
            anomaly_frames: 0,
            total_anomalies: 0,
            pending: false,
        }
    }

    /// Whether another frame can be counted without overflow.
    pub fn has_room(&self) -> (r: bool)
        ensures
            r == (self.frames() < usize::MAX && self.anomalies() + ENSEMBLE_SIZE <= usize::MAX),
    {
        self.frame_counter < usize::MAX && self.total_anomalies <= usize::MAX - ENSEMBLE_SIZE
    }

    /// Takes in a frame: during the warm-up, gives its slot and whether the
    /// warm-up is now complete; after it, counts the frame as scored.
    pub fn start_frame(&mut self) -> (phase: FramePhase)
        requires
            old(self).wf(),
            old(self).frames() < usize::MAX,
        ensures
            final(self).wf(),
            final(self).frames_with_anomaly() == old(self).frames_with_anomaly(),
            final(self).anomalies() == old(self).anomalies(),
            !old(self).warmed_up() ==> {
                &&& phase == FramePhase::WarmUp {
                    slot: old(self).buffered() as usize,
                    replay: old(self).buffered() + 1 == WARM_UP_FRAMES,
                }
                &&& final(self).buffered() == old(self).buffered() + 1
                &&& final(self).frames() == 0
                &&& !final(self).pending()
            },
            old(self).warmed_up() ==> {
                &&& phase == FramePhase::Scoring
                &&& final(self).warmed_up()
                &&& final(self).buffered() == old(self).buffered()
                &&& final(self).frames() == old(self).frames() + 1
                &&& final(self).pending()
            },
    {
        if !self.initialized {
            let slot = self.init_count;
            self.init_count = self.init_count + 1;
            let replay = self.init_count >= WARM_UP_FRAMES;
            if replay {
                self.initialized = true;
            }
            return FramePhase::WarmUp { slot, replay };
        }
        self.frame_counter = self.frame_counter + 1;
        self.pending = true;
        proof {
            let c0 = old(self).counted();
            let c1 = self.counted();
            assert(c0 <= c1);
            assert(ENSEMBLE_SIZE * c0 <= ENSEMBLE_SIZE * c1) by (nonlinear_arith)
                requires
                    c0 <= c1,
            ;
        }
        FramePhase::Scoring
    }

    /// Counts the anomalies of the frame just scored. Returns whether the
    /// quietest experts are due for a reset: every [`RESET_PERIOD`]-th scored
    /// frame.
    pub fn finish_frame(&mut self, anomalies: usize) -> (reset_due: bool)
        requires
            old(self).wf(),
            old(self).pending(),
            anomalies <= ENSEMBLE_SIZE,
            old(self).anomalies() + ENSEMBLE_SIZE <= usize::MAX,
        ensures
            final(self).wf(),
            final(self).warmed_up(),
            final(self).buffered() == old(self).buffered(),
            final(self).frames() == old(self).frames(),
            !final(self).pending(),
            final(self).anomalies() == old(self).anomalies() + anomalies,
            final(self).frames_with_anomaly() == old(self).frames_with_anomaly() + if anomalies > 0 {
                1nat
            } else {
                0nat
            },
            reset_due == (final(self).frames() % RESET_PERIOD as nat == 0),
    {
        self.total_anomalies = self.total_anomalies + anomalies;
        if anomalies > 0 {
            self.anomaly_frames = self.anomaly_frames + 1;
        }
        self.pending = false;
        proof {
            let c0 = old(self).counted();
            assert(self.counted() == c0 + 1);
            assert(ENSEMBLE_SIZE * (c0 + 1) == ENSEMBLE_SIZE * c0 + ENSEMBLE_SIZE) by (nonlinear_arith);
        }
        self.frame_counter % RESET_PERIOD == 0
    }

    /// Scored frames.
    pub fn total_frames(&self) -> (n: usize)
        ensures
            n == self.frames(),
    {
        self.frame_counter
    }

    /// Scored frames with at least one anomaly.
    pub fn anomaly_frames(&self) -> (n: usize)
        ensures
            n == self.frames_with_anomaly(),
    {
        self.anomaly_frames
    }

    /// Anomalies over all scored frames.
    pub fn total_anomalies(&self) -> (n: usize)
        ensures
            n == self.anomalies(),
    {
        self.total_anomalies
    }

    /// Whether a frame is being scored and its anomalies are not counted yet.
    pub fn is_pending(&self) -> (r: bool)
        ensures
            r == self.pending(),
    {
        self.pending
    }

    /// Whether the warm-up is over.
    pub fn is_warmed_up(&self) -> (r: bool)
        ensures
            r == self.warmed_up(),
    {
        self.initialized
    }
}

} // verus!
