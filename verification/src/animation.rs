//! The frame schedule of an animation and the per-frame scenes.
//!
//! An animation lasts until the last keyframe of any member. At `framerate`
//! frames per second it has `floor(duration * framerate)` frames; the count is
//! computed exactly from the two bit patterns, with no rounding on the way.
//! Frame `i` shows every member once: a member with a track at the position
//! sampled for frame `i`, any other member unchanged.

use vstd::prelude::*;
use vstd::arithmetic::power2::{pow2, lemma_pow2_pos, lemma_pow2_unfold, lemma_pow2_strictly_increases};
use vstd::arithmetic::div_mod::{lemma_div_denominator, lemma_fundamental_div_mod, lemma_mod_bound};
use vstd::arithmetic::mul::lemma_mul_inequality;
use crate::scalar::{Scalar, Vec3};
use crate::members::{MemberTypes, MemberView, VecInto};

verus! {

/// `floor(m * 2^e)`.
pub open spec fn floor_scaled(m: nat, e: int) -> nat {
    if e >= 0 {
        m * pow2(e as nat)
    } else {
        m / pow2((-e) as nat)
    }
}

/// Number of frames of an animation of `duration` seconds at `framerate`
/// frames per second: `floor(duration * framerate)`.
///
/// Nothing is drawn (zero frames) unless both numbers are greater than zero; a
/// NaN counts as not greater. An infinite duration or rate has no frame count.
pub open spec fn frame_total(duration: Scalar, framerate: Scalar) -> Option<nat> {
    if !duration.is_positive_spec() || !framerate.is_positive_spec() {
        Some(0)
    } else if duration.is_infinite_spec() || framerate.is_infinite_spec() {
        None
    } else {
        Some(
            floor_scaled(
                duration.significand() * framerate.significand(),
                duration.exponent() + framerate.exponent(),
            ),
        )
    }
}

/// The frame count as a machine integer, where it is one.
pub open spec fn frame_total_usize(duration: Scalar, framerate: Scalar) -> Option<usize> {
    match frame_total(duration, framerate) {
        Some(n) => if n <= usize::MAX {
            Some(n as usize)
        } else {
            None
        },
        None => None,
    }
}

/// The frame count is the floor of the exact product: with `p` the product of
/// the significands and `e` the sum of the exponents, the product of the two
/// numbers is `p * 2^e`, and the count `n` satisfies `n <= p * 2^e < n + 1`.
pub proof fn lemma_frame_total_is_floor(duration: Scalar, framerate: Scalar)
    requires
        duration.is_positive_spec(),
        framerate.is_positive_spec(),
        duration.is_finite_spec(),
        framerate.is_finite_spec(),
    ensures
        ({
            let p = duration.significand() * framerate.significand();
            let e = duration.exponent() + framerate.exponent();
            let n = frame_total(duration, framerate).unwrap();
            &&& frame_total(duration, framerate).is_some()
            &&& e >= 0 ==> n == p * pow2(e as nat)
            &&& e < 0 ==> n * pow2((-e) as nat) <= p < (n + 1) * pow2((-e) as nat)
        }),
{
    let p = (duration.significand() * framerate.significand()) as int;
    let e = duration.exponent() + framerate.exponent();
    if e < 0 {
        let d = pow2((-e) as nat) as int;
        lemma_pow2_pos((-e) as nat);
        lemma_fundamental_div_mod(p, d);
        lemma_mod_bound(p, d);
        assert(p == d * (p / d) + p % d);
        assert(d * (p / d) == (p / d) * d) by (nonlinear_arith);
        assert((p / d + 1) * d == (p / d) * d + d) by (nonlinear_arith);
    }
}

/// The frames of an animation are the frames that fit into it. Frame `i`
/// lasts from `i / framerate` to `(i + 1) / framerate` seconds; it ends within
/// `duration`, that is `i + 1 <= duration * framerate`, exactly when `i` is
/// below the frame count. Here `duration * framerate` is `p * 2^e` as in
/// [`lemma_frame_total_is_floor`].
pub proof fn lemma_frames_fit(duration: Scalar, framerate: Scalar, i: nat)
    requires
        duration.is_positive_spec(),
        framerate.is_positive_spec(),
        duration.is_finite_spec(),
        framerate.is_finite_spec(),
    ensures
        ({
            let p = duration.significand() * framerate.significand();
            let e = duration.exponent() + framerate.exponent();
            let n = frame_total(duration, framerate).unwrap();
            &&& e >= 0 ==> (i < n <==> i + 1 <= p * pow2(e as nat))
            &&& e < 0 ==> (i < n <==> (i + 1) * pow2((-e) as nat) <= p)
        }),
{
    lemma_frame_total_is_floor(duration, framerate);
    let p = (duration.significand() * framerate.significand()) as int;
    let e = duration.exponent() + framerate.exponent();
    let n = frame_total(duration, framerate).unwrap() as int;
    if e < 0 {
        let d = pow2((-e) as nat) as int;
        lemma_pow2_pos((-e) as nat);
        if i < n {
            assert((i + 1) * d <= n * d) by (nonlinear_arith)
                requires
                    i + 1 <= n,
                    d > 0,
            ;
        } else {
            assert((n + 1) * d <= (i + 1) * d) by (nonlinear_arith)
                requires
                    n + 1 <= i + 1,
                    d > 0,
            ;
        }
    }
}

/// `floor(m * 2^e)` where it fits a machine integer.
fn scale_floor(m: u64, e: i32) -> (r: Option<usize>)
    requires
        m < 0x1_0000_0000_0000,
        -298 <= e <= 208,
    ensures
        r == (if floor_scaled(m as nat, e as int) <= usize::MAX {
            Some(floor_scaled(m as nat, e as int) as usize)
        } else {
            None::<usize>
        }),
{
    if e >= 0 {
        proof {
            lemma_pow2_pos(e as nat);
            lemma_mul_inequality(1, pow2(e as nat) as int, m as int);
            assert(m * pow2(e as nat) == pow2(e as nat) * m) by (nonlinear_arith);
        }
        if m as u128 > usize::MAX as u128 {
            return None;
        }
        let half: u128 = (usize::MAX / 2) as u128;
        let mut v: u128 = m as u128;
        let mut k: i32 = 0;
        proof {
            assert(pow2(0) == 1) by {
                vstd::arithmetic::power2::lemma2_to64();
            }
            assert(m * pow2(0) == m) by (nonlinear_arith)
                requires
                    pow2(0) == 1,
            ;
        }
        while k < e
            invariant
                0 <= k <= e <= 208,
                v == m * pow2(k as nat),
                v <= usize::MAX,
                half == usize::MAX / 2,
            decreases e - k,
        {
            proof {
                lemma_pow2_unfold((k + 1) as nat);
                assert(m * (2 * pow2(k as nat)) == 2 * (m * pow2(k as nat))) by (nonlinear_arith);
            }
            if v > half {
                proof {
                    if k + 1 < e {
                        lemma_pow2_strictly_increases((k + 1) as nat, e as nat);
                    }
                    lemma_mul_inequality(
                        pow2((k + 1) as nat) as int,
                        pow2(e as nat) as int,
                        m as int,
                    );
                    assert(m * pow2((k + 1) as nat) == pow2((k + 1) as nat) * m) by (nonlinear_arith);
                    assert(m * pow2(e as nat) == pow2(e as nat) * m) by (nonlinear_arith);
                }
                return None;
            }
            v = v * 2;
            k = k + 1;
        }
        Some(v as usize)
    } else {
        let d: i32 = -e;
        let mut v: u64 = m;
        let mut k: i32 = 0;
        proof {
            assert(pow2(0) == 1) by {
                vstd::arithmetic::power2::lemma2_to64();
            }
            assert(m as nat / 1 == m as nat);
        }
        while k < d
            invariant
                0 <= k <= d <= 298,
                v == m as nat / pow2(k as nat),
                v <= m,
            decreases d - k,
        {
            proof {
                lemma_pow2_unfold((k + 1) as nat);
                lemma_pow2_pos(k as nat);
                lemma_div_denominator(m as int, pow2(k as nat) as int, 2);
                assert(pow2(k as nat) * 2 == 2 * pow2(k as nat)) by (nonlinear_arith);
            }
            v = v / 2;
            k = k + 1;
        }
        if v as u128 > usize::MAX as u128 {
            None
        } else {
            Some(v as usize)
        }
    }
}

/// Number of frames of an animation of `duration` seconds at `framerate`
/// frames per second, or `None` where that number is infinite or does not fit
/// a machine integer.
pub fn count_frames(duration: Scalar, framerate: Scalar) -> (r: Option<usize>)
    ensures
        r == frame_total_usize(duration, framerate),
{
    if !duration.is_positive() || !framerate.is_positive() {
        return Some(0);
    }
    if duration.is_infinite() || framerate.is_infinite() {
        return None;
    }
    let (sd, ed) = duration.decompose();
    let (sf, ef) = framerate.decompose();
    assert(sd as u64 * sf as u64 <= 0xFF_FFFFu64 * 0xFF_FFFFu64) by (nonlinear_arith)
        requires
            sd <= 0xFF_FFFF,
            sf <= 0xFF_FFFF,
    ;
    let m: u64 = sd as u64 * sf as u64;
    scale_floor(m, ed + ef)
}

/// The instant at which the last member stops moving: the greatest final time
/// of the members, zero for an empty scene. Members are compared from first to
/// last, and of two equal times the earlier member's is kept.
pub open spec fn last_timestamp(members: Seq<MemberView>) -> Scalar
    decreases members.len(),
{
    if members.len() == 0 {
        Scalar { bits: 0 }
    } else if members.len() == 1 {
        members[0].final_time()
    } else {
        last_timestamp(members.drop_last()).max_spec(members.last().final_time())
    }
}

/// Every member's tracks are tracks.
pub open spec fn members_wf(members: Seq<MemberView>) -> bool {
    forall|j: int| 0 <= j < members.len() ==> (#[trigger] members[j]).wf()
}

/// No member of a well-formed scene moves after `last_timestamp`, and in a
/// scene that is not empty some member stops exactly then.
pub proof fn lemma_last_timestamp_is_greatest(members: Seq<MemberView>)
    requires
        members_wf(members),
    ensures
        !last_timestamp(members).is_nan_spec(),
        forall|j: int|
            0 <= j < members.len() ==> (#[trigger] members[j]).final_time().le_spec(
                last_timestamp(members),
            ),
        members.len() > 0 ==> exists|j: int|
            0 <= j < members.len() && (#[trigger] members[j]).final_time() == last_timestamp(
                members,
            ),
    decreases members.len(),
{
    if members.len() == 0 {
    } else if members.len() == 1 {
        assert(members[0].wf());
        assert(members[0].final_time() == last_timestamp(members));
    } else {
        let head = members.drop_last();
        assert forall|j: int| 0 <= j < head.len() implies (#[trigger] head[j]).wf() by {
            assert(head[j] == members[j]);
        }
        lemma_last_timestamp_is_greatest(head);
        let tail = members.last();
        assert(tail == members[members.len() - 1]);
        assert(tail.wf());
        let best = last_timestamp(members);
        assert forall|j: int| 0 <= j < members.len() implies (#[trigger] members[j]).final_time().le_spec(
            best,
        ) by {
            if j < head.len() {
                assert(head[j] == members[j]);
            }
        }
        let w = choose|j: int|
            0 <= j < head.len() && (#[trigger] head[j]).final_time() == last_timestamp(head);
        assert(head[w] == members[w]);
        if best == tail.final_time() {
            assert(members[members.len() - 1].final_time() == best);
        } else {
            assert(members[w].final_time() == best);
        }
    }
}

/// The positions sampled for the animated members: one row per member, and in
/// the row of a member with a track one position per frame.
pub open spec fn samples_fit(
    members: Seq<MemberView>,
    samples: Seq<Seq<Vec3>>,
    frames: nat,
) -> bool {
    &&& samples.len() == members.len()
    &&& forall|j: int|
        0 <= j < members.len() && (#[trigger] members[j]).track().is_some() ==> samples[j].len()
            == frames
}

/// Member `j` as it stands in frame `i`.
pub open spec fn member_at(member: MemberView, row: Seq<Vec3>, i: int) -> MemberView {
    if member.track().is_some() {
        member.placed(row[i])
    } else {
        member
    }
}

/// The scene of frame `i`: every member once, in the order of the description.
pub open spec fn frame_at(members: Seq<MemberView>, samples: Seq<Seq<Vec3>>, i: int) -> Seq<
    MemberView,
> {
    Seq::new(members.len(), |j: int| member_at(members[j], samples[j], i))
}

/// The model of the sampled positions.
pub open spec fn samples_view(samples: Seq<Vec<Vec3>>) -> Seq<Seq<Vec3>> {
    samples.map_values(|row: Vec<Vec3>| row@)
}

/// Why the frames of an animation could not be laid out.
#[derive(Clone, Copy, Debug, PartialEq, Eq, Structural)]
pub enum AnimError {
    /// The scheme asks for an animation and names no framerate.
    MissingFramerate,
    /// The number of frames is infinite or exceeds the machine's integers.
    TooManyFrames,
    /// The sampled positions do not have one row per member and one position
    /// per frame in the row of each member with a track.
    SampleShape,
}

impl VecInto<MemberTypes> {
    pub open spec fn wf(&self) -> bool {
        members_wf(self@)
    }

    /// Whether every track in the scene is a track.
    pub fn check(&self) -> (r: bool)
        ensures
            r == self.wf(),
    {
        let n = self.0.len();
        let mut j: usize = 0;
        while j < n
            invariant
                n == self.0.len(),
                0 <= j <= n,
                forall|k: int| 0 <= k < j ==> (#[trigger] self@[k]).wf(),
            decreases n - j,
        {
            if !self.0[j].check() {
                assert(!self@[j as int].wf());
                return false;
            }
            j += 1;
        }
        true
    }

    /// The instant at which the last member stops moving.
    pub fn get_last_timestamp(&self) -> (r: Scalar)
        requires
            self.wf(),
        ensures
            r == last_timestamp(self@),
    {
        let n = self.0.len();
        if n == 0 {
            return Scalar::zero();
        }
        assert(self@[0].wf());
        let mut best = self.0[0].final_time();
        let mut j: usize = 1;
        assert(self@.subrange(0, 1).len() == 1);
        while j < n
            invariant
                n == self.0.len(),
                1 <= j <= n,
                self.wf(),
                best == last_timestamp(self@.subrange(0, j as int)),
            decreases n - j,
        {
            assert(self@[j as int].wf());
            let t = self.0[j].final_time();
            proof {
                let grown = self@.subrange(0, j + 1);
                assert(grown.drop_last() == self@.subrange(0, j as int));
                assert(grown.last() == self@[j as int]);
            }
            best = best.max(t);
            j += 1;
        }
        assert(self@.subrange(0, n as int) == self@);
        best
    }

    /// Number of frames of the animation at `framerate` frames per second, or
    /// `None` where it is infinite or exceeds the machine's integers.
    pub fn frame_count(&self, framerate: Scalar) -> (r: Option<usize>)
        requires
            self.wf(),
        ensures
            r == frame_total_usize(last_timestamp(self@), framerate),
    {
        count_frames(self.get_last_timestamp(), framerate)
    }

    /// The scene of frame `i`, from the positions sampled for that frame.
    fn frame(&self, samples: &Vec<Vec<Vec3>>, i: usize, frames: usize) -> (r: VecInto<MemberTypes>)
        requires
            samples_fit(self@, samples_view(samples@), frames as nat),
            i < frames,
        ensures
            r@ == frame_at(self@, samples_view(samples@), i as int),
    {
        let n = self.0.len();
        let mut out: Vec<MemberTypes> = Vec::new();
        let mut j: usize = 0;
        while j < n
            invariant
                n == self.0.len(),
                0 <= j <= n,
                i < frames,
                samples_fit(self@, samples_view(samples@), frames as nat),
                out@.len() == j,
                forall|k: int|
                    0 <= k < j ==> (#[trigger] out@[k])@ == member_at(
                        self@[k],
                        samples_view(samples@)[k],
                        i as int,
                    ),
            decreases n - j,
        {
            let member = &self.0[j];
            let next = if member.is_animated() {
                assert(self@[j as int].track().is_some());
                assert(samples_view(samples@)[j as int] == samples@[j as int]@);
                member.placed(samples[j][i])
            } else {
                member.clone()
            };
            out.push(next);
            j += 1;
        }
        let r = VecInto(out);
        assert(r@ =~= frame_at(self@, samples_view(samples@), i as int));
        r
    }

    /// Whether `samples` has one row per member and `frames` positions in the
    /// row of each member with a track.
    fn samples_match(&self, samples: &Vec<Vec<Vec3>>, frames: usize) -> (r: bool)
        ensures
            r == samples_fit(self@, samples_view(samples@), frames as nat),
    {
        let n = self.0.len();
        if samples.len() != n {
            return false;
        }
        let mut j: usize = 0;
        while j < n
            invariant
                n == self.0.len(),
                n == samples.len(),
                0 <= j <= n,
                forall|k: int|
                    0 <= k < j && (#[trigger] self@[k]).track().is_some() ==> samples_view(
                        samples@,
                    )[k].len() == frames,
            decreases n - j,
        {
            assert(samples_view(samples@)[j as int] == samples@[j as int]@);
            if self.0[j].is_animated() && samples[j].len() != frames {
                assert(self@[j as int].track().is_some());
                return false;
            }
            j += 1;
        }
        true
    }

    /// Lays out the scene of every frame of the animation.
    ///
    /// `samples[j][i]` is the position of member `j` in frame `i`, taken from
    /// its track at `i / framerate` seconds; rows of members without a track
    /// are not read. The result has `floor(duration * framerate)` frames, and
    /// frame `i` holds each member once, in order: a member with a track moved
    /// to its sampled position, any other member as it was.
    pub fn extract_anim(self, framerate: Scalar, samples: &Vec<Vec<Vec3>>) -> (r: Result<
        Vec<VecInto<MemberTypes>>,
        AnimError,
    >)
        requires
            self.wf(),
        ensures
            match r {
                Ok(frames) => {
                    &&& frame_total_usize(last_timestamp(self@), framerate) == Some(frames.len())
                    &&& samples_fit(self@, samples_view(samples@), frames@.len())
                    &&& forall|i: int|
                        0 <= i < frames.len() ==> (#[trigger] frames[i])@ == frame_at(
                            self@,
                            samples_view(samples@),
                            i,
                        )
                },
                Err(AnimError::TooManyFrames) => frame_total_usize(
                    last_timestamp(self@),
                    framerate,
                ).is_none(),
                Err(AnimError::SampleShape) => {
                    &&& frame_total_usize(last_timestamp(self@), framerate) matches Some(n)
                    &&& !samples_fit(self@, samples_view(samples@), n as nat)
                },
                Err(AnimError::MissingFramerate) => false,
            },
    {
        let number_of_frames = match self.frame_count(framerate) {
            Some(n) => n,
            None => {
                return Err(AnimError::TooManyFrames);
            },
        };
        if !self.samples_match(samples, number_of_frames) {
            return Err(AnimError::SampleShape);
        }
        let mut frames: Vec<VecInto<MemberTypes>> = Vec::new();
        let mut i: usize = 0;
        while i < number_of_frames
            invariant
                0 <= i <= number_of_frames,
                samples_fit(self@, samples_view(samples@), number_of_frames as nat),
                frames@.len() == i,
                forall|k: int|
                    0 <= k < i ==> (#[trigger] frames[k])@ == frame_at(
                        self@,
                        samples_view(samples@),
                        k,
                    ),
            decreases number_of_frames - i,
        {
            let scene = self.frame(samples, i, number_of_frames);
            frames.push(scene);
            i += 1;
        }
        Ok(frames)
    }
}

} // verus!
