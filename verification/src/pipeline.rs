//! The bounded frame pipeline of an animation and the order of its output.
//!
//! Scenes are built ahead of the renderer, but never more than `depth` of
//! them: a [`FrameWindow`] tells the producer when to build the next scene and
//! when to wait for a frame to complete. A [`FrameSink`] hands out the file
//! name of each finished frame and accepts frames in ascending order only.

use vstd::prelude::*;
use crate::config::ConfigError;

verus! {

/// `String::push`: the character is appended.
pub assume_specification[ String::push ](s: &mut String, c: char)
    ensures
        final(s)@ == old(s)@.push(c),
;

/// `String::push_str`: the characters of `tail` are appended.
pub assume_specification[ String::push_str ](s: &mut String, tail: &str)
    ensures
        final(s)@ == old(s)@ + tail@,
;

/// What the producer of scenes does next.
#[derive(Clone, Copy, Debug, PartialEq, Eq, Structural)]
pub enum ProducerStep {
    /// Build and send the scene of the frame with this number.
    Emit(usize),
    /// The window is full: wait until a frame completes.
    Wait,
    /// Every frame was sent and has completed.
    Finish,
}

/// The frames in flight: sent to the renderer and not yet completed.
#[derive(Clone, Copy, Debug, PartialEq, Eq, Structural)]
pub struct FrameWindow {
    /// Number of frames of the animation.
    pub total: usize,
    /// Most frames that may be in flight at once.
    pub depth: usize,
    /// Number of the frame sent last; frames are numbered from 1.
    pub sent: usize,
    /// Number of the frame completed last.
    pub completed: usize,
}

impl FrameWindow {
    /// Frames in flight.
    pub open spec fn pending(self) -> int {
        self.sent - self.completed
    }

    /// The back-pressure invariant: no more than `depth` frames are in flight.
    pub open spec fn wf(self) -> bool {
        &&& self.completed <= self.sent <= self.total
        &&& self.pending() <= self.depth
        &&& self.depth >= 1 || self.total == 0
    }

    pub open spec fn may_emit(self) -> bool {
        self.sent < self.total && self.pending() < self.depth
    }

    pub open spec fn step_spec(self) -> ProducerStep {
        if self.may_emit() {
            ProducerStep::Emit((self.sent + 1) as usize)
        } else if self.completed < self.sent {
            ProducerStep::Wait
        } else {
            ProducerStep::Finish
        }
    }

    /// An empty window over `total` frames. Without a `depth` every frame may
    /// be in flight at once; a depth of zero is refused.
    pub fn new(total: usize, depth: Option<usize>) -> (r: Result<FrameWindow, ConfigError>)
        ensures
            match r {
                Ok(w) => {
                    &&& depth != Some(0usize)
                    &&& w == (FrameWindow {
                        total,
                        depth: match depth {
                            Some(d) => d,
                            None => total,
                        },
                        sent: 0,
                        completed: 0,
                    })
                    &&& w.wf()
                },
                Err(e) => depth == Some(0usize) && e == ConfigError::PipelineDepth,
            },
    {
        let depth = match depth {
            Some(d) => {
                if d == 0 {
                    return Err(ConfigError::PipelineDepth);
                }
                d
            },
            None => total,
        };
        Ok(FrameWindow { total, depth, sent: 0, completed: 0 })
    }

    /// What the producer does next.
    pub fn next_step(&self) -> (r: ProducerStep)
        requires
            self.wf(),
        ensures
            r == self.step_spec(),
            r == ProducerStep::Wait ==> self.pending() >= 1,
            r == ProducerStep::Finish ==> self.sent == self.total && self.completed == self.total,
    {
        if self.sent < self.total && self.sent - self.completed < self.depth {
            ProducerStep::Emit(self.sent + 1)
        } else if self.completed < self.sent {
            ProducerStep::Wait
        } else {
            ProducerStep::Finish
        }
    }

    /// Records that the next scene was sent, and returns the number of its
    /// frame; `None`, with nothing recorded, where the window is full or every
    /// frame was sent.
    pub fn emit(&mut self) -> (r: Option<usize>)
        requires
            old(self).wf(),
        ensures
            final(self).wf(),
            match r {
                Some(frame) => {
                    &&& old(self).may_emit()
                    &&& frame == old(self).sent + 1
                    &&& *final(self) == (FrameWindow { sent: frame, ..*old(self) })
                },
                None => !old(self).may_emit() && *final(self) == *old(self),
            },
    {
        if self.sent < self.total && self.sent - self.completed < self.depth {
            self.sent = self.sent + 1;
            Some(self.sent)
        } else {
            None
        }
    }

    /// Records that the next scene was sent, and returns the number of its
    /// frame with the scene that the frame shows: frame `n` shows the scene at
    /// place `n - 1` of `scenes`, the scenes of the animation in order. `None`,
    /// with nothing recorded, where the window is full or every frame was
    /// sent.
    pub fn emit_scene<'a, T>(&mut self, scenes: &'a Vec<T>) -> (r: Option<(usize, &'a T)>)
        requires
            old(self).wf(),
            scenes@.len() == old(self).total,
        ensures
            final(self).wf(),
            match r {
                Some((frame, scene)) => {
                    &&& old(self).may_emit()
                    &&& frame == old(self).sent + 1
                    &&& *scene == scenes@[frame - 1]
                    &&& *final(self) == (FrameWindow { sent: frame, ..*old(self) })
                },
                None => !old(self).may_emit() && *final(self) == *old(self),
            },
    {
        match self.emit() {
            Some(frame) => Some((frame, &scenes[frame - 1])),
            None => None,
        }
    }

    /// Records that `frame` and every frame before it have completed. Returns
    /// `false`, with nothing recorded, unless `frame` is in flight.
    pub fn complete(&mut self, frame: usize) -> (r: bool)
        requires
            old(self).wf(),
        ensures
            final(self).wf(),
            r == (old(self).completed < frame <= old(self).sent),
            r ==> *final(self) == (FrameWindow { completed: frame, ..*old(self) }),
            !r ==> *final(self) == *old(self),
    {
        if self.completed < frame && frame <= self.sent {
            self.completed = frame;
            true
        } else {
            false
        }
    }
}

/// Frames that the producer still has to send plus frames it still has to see
/// completed: every `emit` and every `complete` lowers it, so a run of the
/// pipeline takes at most `2 * total` such steps.
pub open spec fn work_left(w: FrameWindow) -> int {
    (w.total - w.sent) + (w.total - w.completed)
}

/// A window that is not finished can always move: either the producer may
/// send, or a frame is in flight whose completion will be reported.
pub proof fn lemma_window_never_stalls(w: FrameWindow)
    requires
        w.wf(),
    ensures
        w.step_spec() == ProducerStep::Wait ==> w.pending() >= 1,
        w.step_spec() == ProducerStep::Finish <==> work_left(w) == 0,
        w.step_spec() matches ProducerStep::Emit(frame) ==> frame == w.sent + 1 && w.pending()
            < w.depth,
{
}

/// The decimal digit of `d`.
pub open spec fn digit_char(d: int) -> char {
    (d + 48) as char
}

/// `n` in decimal, without leading zeros.
pub open spec fn decimal(n: nat) -> Seq<char>
    decreases n,
{
    if n < 10 {
        seq![digit_char(n as int)]
    } else {
        decimal(n / 10).push(digit_char((n % 10) as int))
    }
}

/// The number that a sequence of decimal digits denotes.
pub open spec fn decimal_value(s: Seq<char>) -> nat
    decreases s.len(),
{
    if s.len() == 0 {
        0
    } else {
        (decimal_value(s.drop_last()) * 10 + (s.last() as int - 48)) as nat
    }
}

/// Reading the decimal form of a number gives the number back.
pub proof fn lemma_decimal_value(n: nat)
    ensures
        decimal_value(decimal(n)) == n,
        decimal(n).len() >= 1,
    decreases n,
{
    if n < 10 {
        let s = decimal(n);
        assert(s.drop_last().len() == 0);
        assert(decimal_value(s.drop_last()) == 0);
        assert(s.last() == digit_char(n as int));
    } else {
        lemma_decimal_value(n / 10);
        let s = decimal(n);
        assert(s.drop_last() == decimal(n / 10));
        assert(s.last() == digit_char((n % 10) as int));
    }
}

/// Directory of the frames of an animation, with the separator.
pub open spec fn frame_dir() -> Seq<char> {
    "anim_frames/"@
}

/// Extension of a frame file, with the dot.
pub open spec fn frame_ext() -> Seq<char> {
    ".png"@
}

/// Name of the file that holds frame `n`.
pub open spec fn frame_path_spec(n: nat) -> Seq<char> {
    frame_dir() + decimal(n) + frame_ext()
}

/// The frame number that a file name carries.
pub open spec fn frame_number(path: Seq<char>) -> nat {
    decimal_value(path.subrange(frame_dir().len() as int, path.len() - frame_ext().len()))
}

/// A frame's file name carries the frame's number, so frames with different
/// numbers go to different files.
pub proof fn lemma_frame_path_names_frame(n: nat)
    ensures
        frame_number(frame_path_spec(n)) == n,
{
    let path = frame_path_spec(n);
    lemma_decimal_value(n);
    assert(path.subrange(frame_dir().len() as int, path.len() - frame_ext().len()) == decimal(n));
}

/// Pushes the decimal digits of `n` onto `out`.
fn push_decimal(out: &mut String, n: usize)
    ensures
        final(out)@ == old(out)@ + decimal(n as nat),
    decreases n,
{
    if n >= 10 {
        push_decimal(out, n / 10);
    }
    let d: u8 = (n % 10) as u8;
    let c: char = (d + 48) as char;
    assert(c == digit_char((n % 10) as int));
    out.push(c);
    proof {
        if n < 10 {
            assert(old(out)@.push(c) == old(out)@ + decimal(n as nat));
        } else {
            assert((old(out)@ + decimal((n / 10) as nat)).push(c) == old(out)@ + decimal(
                n as nat,
            ));
        }
    }
}

/// Name of the file that holds frame `n`: `anim_frames/`, the number in
/// decimal, `.png`.
pub fn frame_path(n: usize) -> (r: String)
    ensures
        r@ == frame_path_spec(n as nat),
{
    let mut out = String::new();
    out.push_str("anim_frames/");
    push_decimal(&mut out, n);
    out.push_str(".png");
    assert(out@ == frame_path_spec(n as nat));
    out
}

/// The writer's end of the pipeline: frames leave it in ascending order.
#[derive(Clone, Copy, Debug, PartialEq, Eq, Structural)]
pub struct FrameSink {
    /// Number of frames of the animation.
    pub total: usize,
    /// Number of the frame written last; zero before the first.
    pub written: usize,
}

impl FrameSink {
    pub open spec fn wf(self) -> bool {
        self.written <= self.total
    }

    /// A sink that has written nothing yet.
    pub fn new(total: usize) -> (r: FrameSink)
        ensures
            r == (FrameSink { total, written: 0 }),
            r.wf(),
    {
        FrameSink { total, written: 0 }
    }

    /// Whether `frame`, rendered as far as `passes` tells, may be written:
    /// it is the frame after the one written last, and every pass of it was
    /// merged.
    pub open spec fn takes(self, frame: usize, passes: PassLoop) -> bool {
        frame == self.written + 1 && frame <= self.total && passes.done == passes.passes
    }

    /// Accepts the rendered frame `frame` and returns the name of its file.
    /// Only the frame after the one written last is accepted, and only
    /// rendered to the end; for any other frame the result is `None` and
    /// nothing changes.
    pub fn accept(&mut self, frame: usize, passes: &PassLoop) -> (r: Option<String>)
        requires
            old(self).wf(),
        ensures
            final(self).wf(),
            match r {
                Some(path) => {
                    &&& old(self).takes(frame, *passes)
                    &&& *final(self) == (FrameSink { written: frame, ..*old(self) })
                    &&& path@ == frame_path_spec(frame as nat)
                    &&& frame_number(path@) == frame
                },
                None => !old(self).takes(frame, *passes) && *final(self) == *old(self),
            },
    {
        if self.written < self.total && frame == self.written + 1 && passes.is_complete() {
            self.written = frame;
            proof {
                lemma_frame_path_names_frame(frame as nat);
            }
            Some(frame_path(frame))
        } else {
            None
        }
    }

    /// Whether every frame was written.
    pub fn finished(&self) -> (r: bool)
        ensures
            r == (self.written == self.total),
    {
        self.written == self.total
    }
}

/// The passes of one frame: after each, the mean so far is published.
#[derive(Clone, Copy, Debug, PartialEq, Eq, Structural)]
pub struct PassLoop {
    pub passes: u32,
    pub samples_per_pass: u32,
    /// Passes merged into the mean so far.
    pub done: u32,
}

impl PassLoop {
    pub open spec fn wf(self) -> bool {
        self.done <= self.passes
    }

    /// Samples per pixel that the published picture averages.
    pub open spec fn samples_done(self) -> int {
        self.done * self.samples_per_pass
    }

    pub fn new(passes: u32, samples_per_pass: u32) -> (r: PassLoop)
        ensures
            r == (PassLoop { passes, samples_per_pass, done: 0 }),
            r.wf(),
    {
        PassLoop { passes, samples_per_pass, done: 0 }
    }

    /// The weight that the mean so far carries when the next pass is merged
    /// into it, which is the number of passes merged already; `None` once
    /// every pass is merged.
    pub fn next_pass(&self) -> (r: Option<u32>)
        requires
            self.wf(),
        ensures
            r == (if self.done < self.passes {
                Some(self.done)
            } else {
                None::<u32>
            }),
    {
        if self.done < self.passes {
            Some(self.done)
        } else {
            None
        }
    }

    /// Whether every pass was merged: only then is the published picture the
    /// picture of the frame.
    pub fn is_complete(&self) -> (r: bool)
        ensures
            r == (self.done == self.passes),
    {
        self.done == self.passes
    }

    /// Records that a pass was merged and published. Returns `false`, with
    /// nothing recorded, where every pass was merged before.
    pub fn finish_pass(&mut self) -> (r: bool)
        requires
            old(self).wf(),
        ensures
            final(self).wf(),
            r == (old(self).done < old(self).passes),
            r ==> *final(self) == (PassLoop { done: (old(self).done + 1) as u32, ..*old(self) }),
            !r ==> *final(self) == *old(self),
    {
        if self.done < self.passes {
            self.done = self.done + 1;
            true
        } else {
            false
        }
    }
}

/// The seed of the random stream of one pixel in one pass of one frame.
pub open spec fn pixel_seed_spec(x: u32, y: u32, sample: u32, frame: u32) -> (u64, u64) {
    ((x + y * 0x1_0000_0000) as u64, (sample + frame * 0x1_0000_0000) as u64)
}

/// The seed of the random stream of one pixel in one pass of one frame: it
/// depends on the pixel, the pass and the frame alone, so a picture does not
/// depend on how its pixels are spread over threads.
pub fn pixel_seed(x: u32, y: u32, sample: u32, frame: u32) -> (r: (u64, u64))
    ensures
        r == pixel_seed_spec(x, y, sample, frame),
{
    (x as u64 + y as u64 * 0x1_0000_0000, sample as u64 + frame as u64 * 0x1_0000_0000)
}

/// No two pixels, passes or frames share a seed.
pub proof fn lemma_pixel_seed_injective(
    x: u32,
    y: u32,
    sample: u32,
    frame: u32,
    x2: u32,
    y2: u32,
    sample2: u32,
    frame2: u32,
)
    requires
        pixel_seed_spec(x, y, sample, frame) == pixel_seed_spec(x2, y2, sample2, frame2),
    ensures
        x == x2,
        y == y2,
        sample == sample2,
        frame == frame2,
{
}

} // verus!
