//! Frame-by-frame conversion plan: startup delay, short final frame and
//! output truncation.
//!
//! The conversion reads fixed-size frames per channel, encodes each frame,
//! and writes the oversampled result. Three edge rules must be exact: the
//! first encoded frame is discarded (the overlap-add window has no valid
//! previous tail, so the pipeline carries one frame of delay), a short
//! final frame is zero-filled, and one extra all-zero frame is processed at
//! the end so that the total output is exactly `duration * oversample`
//! samples per channel. This module holds that accounting; the signal
//! processing itself happens outside, between `next_frame` calls.

use vstd::prelude::*;

verus! {

/// What the driver must do with one frame, for every channel.
pub struct FrameStep {
    /// Samples per channel to read from the source into the frame buffer.
    pub read: usize,
    /// Zero samples appended after them to fill the frame buffer.
    pub pad: usize,
    /// The encoded output of this frame is dropped, not written.
    pub discard: bool,
    /// Oversampled output samples per channel to hand to the writer.
    pub emit: usize,
}

/// The driver's position in the stream, between frames.
pub struct DriverCtx {
    frame_size: usize,
    oversample: usize,
    duration: usize,
    position: usize,
}

impl DriverCtx {
    /// Frame size given at construction.
    pub closed spec fn frame_size_spec(&self) -> int {
        self.frame_size as int
    }

    /// Oversampling factor given at construction.
    pub closed spec fn oversample_spec(&self) -> int {
        self.oversample as int
    }

    /// Per-channel source sample count given at construction.
    pub closed spec fn duration_spec(&self) -> int {
        self.duration as int
    }

    /// Source position, in samples per channel, of the next frame. The
    /// extra final value `duration + frame_size` accounts for the one
    /// all-zero frame that drains the encoding delay.
    pub closed spec fn position_spec(&self) -> int {
        self.position as int
    }

    /// The parameters are usable and the position is one a run can reach:
    /// zero, or a whole number of frames into the stream, up to one frame
    /// past the end.
    pub open spec fn wf(&self) -> bool {
        &&& self.frame_size_spec() >= 1
        &&& self.oversample_spec() >= 1
        &&& (self.duration_spec() + self.frame_size_spec()) * self.oversample_spec()
            <= usize::MAX
        &&& (self.position_spec() == 0 || (self.frame_size_spec() <= self.position_spec()
            <= self.duration_spec() + self.frame_size_spec()))
    }

    /// Every frame has been processed, the draining frame included.
    pub open spec fn is_done(&self) -> bool {
        self.position_spec() >= self.duration_spec() + self.frame_size_spec()
    }

    /// Oversampled output samples written so far per channel: everything
    /// processed, less the one discarded startup frame.
    pub open spec fn emitted(&self) -> int {
        if self.position_spec() == 0 {
            0
        } else {
            (self.position_spec() - self.frame_size_spec()) * self.oversample_spec()
        }
    }

    /// Source samples per channel consumed so far: the position, capped at
    /// the stream length once the zero-filled tail frames begin.
    pub open spec fn consumed(&self) -> int {
        if self.position_spec() < self.duration_spec() {
            self.position_spec()
        } else {
            self.duration_spec()
        }
    }

    /// Source samples per channel the next frame reads: a whole frame while
    /// enough remain, the remainder for the short final frame, none for the
    /// draining frame.
    pub open spec fn read_count(&self) -> int {
        if self.position_spec() < self.duration_spec() {
            if self.duration_spec() - self.position_spec() < self.frame_size_spec() {
                self.duration_spec() - self.position_spec()
            } else {
                self.frame_size_spec()
            }
        } else {
            0
        }
    }

    /// Oversampled output samples per channel the next frame writes: none
    /// for the discarded first frame, a whole oversampled frame in the
    /// middle, and a truncated tail so the total stops exactly at
    /// `duration * oversample`.
    pub open spec fn emit_count(&self) -> int {
        if self.position_spec() == 0 {
            0
        } else if self.duration_spec() + self.frame_size_spec() - self.position_spec()
            < self.frame_size_spec() {
            (self.duration_spec() + self.frame_size_spec() - self.position_spec())
                * self.oversample_spec()
        } else {
            self.frame_size_spec() * self.oversample_spec()
        }
    }

    /// Starts a run. A zero frame size or oversampling factor is a
    /// contract violation caught at construction, and the whole output
    /// length must be countable in a machine word.
    pub fn new(frame_size: usize, oversample: usize, duration: usize) -> (d: DriverCtx)
        requires
            frame_size >= 1,
            oversample >= 1,
            (duration + frame_size) * oversample <= usize::MAX,
        ensures
            d.wf(),
            d.frame_size_spec() == frame_size,
            d.oversample_spec() == oversample,
            d.duration_spec() == duration,
            d.position_spec() == 0,
            d.emitted() == 0,
            !d.is_done(),
    {
        DriverCtx { frame_size, oversample, duration, position: 0 }
    }

    /// Whether the run is over.
    pub fn done(&self) -> (r: bool)
        requires
            self.wf(),
        ensures
            r == self.is_done(),
    {
        proof {
            lemma_le_times(
                self.duration_spec() + self.frame_size_spec(),
                self.oversample_spec(),
            );
        }
        self.position >= self.duration + self.frame_size
    }

    /// Plans the next frame and advances past it. The returned step says
    /// how many samples to read and zero-fill, whether the frame's encoded
    /// output is discarded, and how many output samples to write; the
    /// running total of emitted samples grows by exactly `emit`.
    pub fn next_frame(&mut self) -> (step: FrameStep)
        requires
            old(self).wf(),
            !old(self).is_done(),
        ensures
            final(self).wf(),
            final(self).frame_size_spec() == old(self).frame_size_spec(),
            final(self).oversample_spec() == old(self).oversample_spec(),
            final(self).duration_spec() == old(self).duration_spec(),
            step.read == old(self).read_count(),
            step.pad == old(self).frame_size_spec() - old(self).read_count(),
            step.discard == (old(self).position_spec() == 0),
            step.emit == old(self).emit_count(),
            final(self).position_spec() == if old(self).position_spec() == 0 {
                old(self).frame_size_spec()
            } else {
                old(self).position_spec() + (step.emit as int) / old(self).oversample_spec()
            },
            final(self).position_spec() > old(self).position_spec(),
            final(self).emitted() == old(self).emitted() + step.emit,
            final(self).consumed() == old(self).consumed() + step.read,
    {
        proof {
            lemma_le_times(
                self.duration_spec() + self.frame_size_spec(),
                self.oversample_spec(),
            );
            lemma_mul_le(
                self.duration_spec() + self.frame_size_spec(),
                self.frame_size_spec(),
                self.oversample_spec(),
            );
        }
        let read: usize = if self.position < self.duration {
            if self.duration - self.position < self.frame_size {
                self.duration - self.position
            } else {
                self.frame_size
            }
        } else {
            0
        };
        let pad: usize = self.frame_size - read;
        if self.position == 0 {
            self.position = self.frame_size;
            proof {
                assert((self.position_spec() - self.frame_size_spec())
                    * self.oversample_spec() == 0) by (nonlinear_arith)
                    requires
                        self.position_spec() == self.frame_size_spec(),
                ;
            }
            FrameStep { read, pad, discard: true, emit: 0 }
        } else {
            let left: usize = self.duration + self.frame_size - self.position;
            let advance: usize = if left < self.frame_size {
                left
            } else {
                self.frame_size
            };
            proof {
                lemma_mul_le(
                    self.duration_spec() + self.frame_size_spec(),
                    self.position_spec() - self.frame_size_spec() + advance,
                    self.oversample_spec(),
                );
                lemma_mul_le(self.duration_spec() + self.frame_size_spec(), advance as int,
                    self.oversample_spec());
                lemma_mul_distribute(
                    self.position_spec() - self.frame_size_spec(),
                    advance as int,
                    self.oversample_spec(),
                );
                assert(advance * self.oversample_spec() / self.oversample_spec()
                    == advance as int) by (nonlinear_arith)
                    requires
                        self.oversample_spec() >= 1,
                ;
            }
            let ghost pos0 = self.position_spec();
            let emit: usize = advance * self.oversample;
            self.position = self.position + advance;
            proof {
                assert(self.emitted() == (pos0 - self.frame_size_spec())
                    * self.oversample_spec() + advance * self.oversample_spec());
            }
            FrameStep { read, pad, discard: false, emit }
        }
    }
}

/// A nonnegative number does not shrink when multiplied by a factor of at
/// least one.
proof fn lemma_le_times(a: int, f: int)
    requires
        a >= 0,
        f >= 1,
    ensures
        a <= a * f,
{
    assert(a <= a * f) by (nonlinear_arith)
        requires
            a >= 0,
            f >= 1,
    ;
}

/// Multiplication by a positive factor keeps order.
proof fn lemma_mul_le(a: int, b: int, f: int)
    requires
        b <= a,
        f >= 0,
    ensures
        b * f <= a * f,
{
    assert(b * f <= a * f) by (nonlinear_arith)
        requires
            b <= a,
            f >= 0,
    ;
}

/// Multiplication distributes over addition.
proof fn lemma_mul_distribute(a: int, b: int, f: int)
    ensures
        (a + b) * f == a * f + b * f,
{
    assert((a + b) * f == a * f + b * f) by (nonlinear_arith);
}

/// Law: when a run is done, exactly `duration * oversample` output samples
/// per channel have been emitted and exactly `duration` source samples per
/// channel have been read — the startup frame was dropped, the missing
/// tail was zero-filled, and the output was truncated, so the one-frame
/// delay compensation comes out exact.
pub proof fn lemma_run_emits_duration(d: &DriverCtx)
    requires
        d.wf(),
        d.is_done(),
    ensures
        d.emitted() == d.duration_spec() * d.oversample_spec(),
        d.consumed() == d.duration_spec(),
{
    assert(d.position_spec() == d.duration_spec() + d.frame_size_spec());
}

} // verus!
