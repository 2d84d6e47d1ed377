//! The scene description: members, materials and animation tracks.

use vstd::prelude::*;
use vstd::std_specs::convert::FromSpec;
use crate::scalar::{Scalar, Vec3};

verus! {

/// How a keyframe segment is eased.
#[derive(Clone, Copy, Debug, PartialEq, Eq, Structural)]
pub enum EaseKind {
    Linear,
    EaseIn,
    EaseOut,
    EaseInOut,
    Step,
}

/// One stop of an animation track.
#[derive(Clone, Copy, Debug, PartialEq, Eq, Structural)]
pub struct Keyframe {
    /// Seconds from the start of the animation.
    pub time: Scalar,
    pub translation: Vec3,
    pub ease: EaseKind,
}

/// Whether the keyframe after position `i` comes strictly later.
pub open spec fn rises_at(keys: Seq<Keyframe>, i: int) -> bool {
    keys[i].time.lt_spec(keys[i + 1].time)
}

/// Whether `keys` is a track: at least one keyframe, finite times, strictly
/// increasing from one keyframe to the next.
pub open spec fn is_track(keys: Seq<Keyframe>) -> bool {
    &&& keys.len() >= 1
    &&& forall|i: int| 0 <= i < keys.len() ==> (#[trigger] keys[i]).time.is_finite_spec()
    &&& forall|i: int| 0 <= i < keys.len() - 1 ==> #[trigger] rises_at(keys, i)
}

/// A translation track.
#[derive(Debug)]
pub struct Animation {
    pub keyframes: Vec<Keyframe>,
}

impl View for Animation {
    type V = Seq<Keyframe>;

    open spec fn view(&self) -> Seq<Keyframe> {
        self.keyframes@
    }
}

impl Clone for Animation {
    fn clone(&self) -> (r: Self)
        ensures
            r@ == self@,
    {
        Animation { keyframes: self.keyframes.clone() }
    }
}

impl Animation {
    pub open spec fn wf(&self) -> bool {
        is_track(self@)
    }

    /// Whether the keyframes form a track.
    pub fn check(&self) -> (r: bool)
        ensures
            r == self.wf(),
    {
        let n = self.keyframes.len();
        if n == 0 {
            return false;
        }
        let mut i: usize = 0;
        while i < n
            invariant
                n == self.keyframes.len(),
                0 <= i <= n,
                forall|k: int| 0 <= k < i ==> (#[trigger] self@[k]).time.is_finite_spec(),
                forall|k: int| 0 <= k < i && k < n - 1 ==> #[trigger] rises_at(self@, k),
            decreases n - i,
        {
            if !self.keyframes[i].time.is_finite() {
                assert(!self@[i as int].time.is_finite_spec());
                return false;
            }
            if i + 1 < n && !self.keyframes[i].time.lt(&self.keyframes[i + 1].time) {
                assert(!rises_at(self@, i as int));
                return false;
            }
            i += 1;
        }
        true
    }

    /// The track made of `keyframes`, if they form one.
    pub fn new(keyframes: Vec<Keyframe>) -> (r: Option<Animation>)
        ensures
            match r {
                Some(a) => a@ == keyframes@ && a.wf(),
                None => !is_track(keyframes@),
            },
    {
        let a = Animation { keyframes };
        if a.check() {
            Some(a)
        } else {
            None
        }
    }

    /// Time of the last keyframe, the length of the track.
    pub fn last_time(&self) -> (r: Scalar)
        requires
            self.wf(),
        ensures
            r == self@.last().time,
    {
        self.keyframes[self.keyframes.len() - 1].time
    }
}

/// The model of an optional track.
pub open spec fn track_view(a: Option<Animation>) -> Option<Seq<Keyframe>> {
    match a {
        Some(t) => Some(t@),
        None => None,
    }
}

fn clone_track(a: &Option<Animation>) -> (r: Option<Animation>)
    ensures
        track_view(r) == track_view(*a),
{
    match a {
        Some(t) => Some(t.clone()),
        None => None,
    }
}

/// Mixture of a diffuse and a glossy lobe, with optional emission.
#[derive(Clone, Copy, Debug, PartialEq, Eq, Structural)]
pub struct Material {
    pub diffuse: Scalar,
    pub specular: Scalar,
    pub roughness: Scalar,
    pub emissive: Option<Vec3>,
}

impl Material {
    /// What the surface emits: its emissive colour, black without one.
    pub open spec fn emitted_spec(self) -> Vec3 {
        match self.emissive {
            Some(e) => e,
            None => Vec3 { x: Scalar { bits: 0 }, y: Scalar { bits: 0 }, z: Scalar { bits: 0 } },
        }
    }

    /// What the surface emits: its emissive colour, black without one.
    pub fn emitted(&self) -> (r: Vec3)
        ensures
            r == self.emitted_spec(),
    {
        match self.emissive {
            Some(e) => e,
            None => Vec3 { x: Scalar::zero(), y: Scalar::zero(), z: Scalar::zero() },
        }
    }
}

#[derive(Debug)]
pub struct Sphere {
    pub c: Vec3,
    pub r: Scalar,
    pub rgb: Vec3,
    pub mat: Material,
    pub animation: Option<Animation>,
}

pub struct SphereView {
    pub c: Vec3,
    pub r: Scalar,
    pub rgb: Vec3,
    pub mat: Material,
    pub animation: Option<Seq<Keyframe>>,
}

impl View for Sphere {
    type V = SphereView;

    open spec fn view(&self) -> SphereView {
        SphereView {
            c: self.c,
            r: self.r,
            rgb: self.rgb,
            mat: self.mat,
            animation: track_view(self.animation),
        }
    }
}

impl Clone for Sphere {
    fn clone(&self) -> (r: Self)
        ensures
            r@ == self@,
    {
        Sphere {
            c: self.c,
            r: self.r,
            rgb: self.rgb,
            mat: self.mat,
            animation: clone_track(&self.animation),
        }
    }
}

/// The three corners of a triangle, in winding order.
#[derive(Clone, Copy, Debug, PartialEq, Eq, Structural)]
pub struct Corners {
    pub a: Vec3,
    pub b: Vec3,
    pub c: Vec3,
}

/// A triangle given by its corners, as the scene description states it; the
/// normal need not be of unit length yet.
#[derive(Clone, Copy, Debug, PartialEq, Eq, Structural)]
pub struct FreeTriangle {
    pub verts: Corners,
    pub norm: Vec3,
    pub rgb: Vec3,
    pub mat: Material,
}

/// The six face images of a sky box, by path.
#[derive(Debug)]
pub struct DistantCubeMap {
    pub neg_z: String,
    pub pos_z: String,
    pub neg_x: String,
    pub pos_x: String,
    pub neg_y: String,
    pub pos_y: String,
}

pub struct DistantCubeMapView {
    pub neg_z: Seq<char>,
    pub pos_z: Seq<char>,
    pub neg_x: Seq<char>,
    pub pos_x: Seq<char>,
    pub neg_y: Seq<char>,
    pub pos_y: Seq<char>,
}

impl View for DistantCubeMap {
    type V = DistantCubeMapView;

    open spec fn view(&self) -> DistantCubeMapView {
        DistantCubeMapView {
            neg_z: self.neg_z@,
            pos_z: self.pos_z@,
            neg_x: self.neg_x@,
            pos_x: self.pos_x@,
            neg_y: self.neg_y@,
            pos_y: self.pos_y@,
        }
    }
}

impl Clone for DistantCubeMap {
    fn clone(&self) -> (r: Self)
        ensures
            r@ == self@,
    {
        DistantCubeMap {
            neg_z: self.neg_z.clone(),
            pos_z: self.pos_z.clone(),
            neg_x: self.neg_x.clone(),
            pos_x: self.pos_x.clone(),
            neg_y: self.neg_y.clone(),
            pos_y: self.pos_y.clone(),
        }
    }
}

/// A mesh file to import, scaled uniformly and then translated.
#[derive(Debug)]
pub struct Model {
    pub path: String,
    pub uniform_scale: Scalar,
    pub translation: Vec3,
    pub animation: Option<Animation>,
}

pub struct ModelView {
    pub path: Seq<char>,
    pub uniform_scale: Scalar,
    pub translation: Vec3,
    pub animation: Option<Seq<Keyframe>>,
}

impl View for Model {
    type V = ModelView;

    open spec fn view(&self) -> ModelView {
        ModelView {
            path: self.path@,
            uniform_scale: self.uniform_scale,
            translation: self.translation,
            animation: track_view(self.animation),
        }
    }
}

impl Clone for Model {
    fn clone(&self) -> (r: Self)
        ensures
            r@ == self@,
    {
        Model {
            path: self.path.clone(),
            uniform_scale: self.uniform_scale,
            translation: self.translation,
            animation: clone_track(&self.animation),
        }
    }
}

/// A member of the scene description.
#[derive(Debug)]
pub enum MemberTypes {
    Sphere(Sphere),
    DistantCubeMap(DistantCubeMap),
    FreeTriangle(FreeTriangle),
    Model(Model),
}

pub enum MemberView {
    Sphere(SphereView),
    DistantCubeMap(DistantCubeMapView),
    FreeTriangle(FreeTriangle),
    Model(ModelView),
}

impl MemberView {
    /// The track that moves this member, if it has one.
    pub open spec fn track(self) -> Option<Seq<Keyframe>> {
        match self {
            MemberView::Sphere(s) => s.animation,
            MemberView::Model(m) => m.animation,
            _ => None,
        }
    }

    /// The member moved to `p`: a sphere's centre or a model's translation is
    /// replaced; members that cannot move stay as they are.
    pub open spec fn placed(self, p: Vec3) -> MemberView {
        match self {
            MemberView::Sphere(s) => MemberView::Sphere(SphereView { c: p, ..s }),
            MemberView::Model(m) => MemberView::Model(ModelView { translation: p, ..m }),
            other => other,
        }
    }

    /// Every track of the member is a track.
    pub open spec fn wf(self) -> bool {
        match self.track() {
            Some(keys) => is_track(keys),
            None => true,
        }
    }

    /// Time at which this member stops moving: the last keyframe of its track,
    /// zero without one.
    pub open spec fn final_time(self) -> Scalar {
        match self.track() {
            Some(keys) => keys.last().time,
            None => Scalar { bits: 0 },
        }
    }
}

impl View for MemberTypes {
    type V = MemberView;

    open spec fn view(&self) -> MemberView {
        match self {
            MemberTypes::Sphere(s) => MemberView::Sphere(s@),
            MemberTypes::DistantCubeMap(d) => MemberView::DistantCubeMap(d@),
            MemberTypes::FreeTriangle(t) => MemberView::FreeTriangle(*t),
            MemberTypes::Model(m) => MemberView::Model(m@),
        }
    }
}

impl Clone for MemberTypes {
    fn clone(&self) -> (r: Self)
        ensures
            r@ == self@,
    {
        match self {
            MemberTypes::Sphere(s) => MemberTypes::Sphere(s.clone()),
            MemberTypes::DistantCubeMap(d) => MemberTypes::DistantCubeMap(d.clone()),
            MemberTypes::FreeTriangle(t) => MemberTypes::FreeTriangle(*t),
            MemberTypes::Model(m) => MemberTypes::Model(m.clone()),
        }
    }
}

impl MemberTypes {
    pub open spec fn wf(&self) -> bool {
        self@.wf()
    }

    /// Whether every track of the member is a track.
    pub fn check(&self) -> (r: bool)
        ensures
            r == self.wf(),
    {
        match self {
            MemberTypes::Sphere(s) => match &s.animation {
                Some(a) => a.check(),
                None => true,
            },
            MemberTypes::Model(m) => match &m.animation {
                Some(a) => a.check(),
                None => true,
            },
            _ => true,
        }
    }

    /// Whether the member carries a track.
    pub fn is_animated(&self) -> (r: bool)
        ensures
            r == self@.track().is_some(),
    {
        match self {
            MemberTypes::Sphere(s) => s.animation.is_some(),
            MemberTypes::Model(m) => m.animation.is_some(),
            _ => false,
        }
    }

    /// Time of the member's last keyframe, zero where it has no track.
    pub fn final_time(&self) -> (r: Scalar)
        requires
            self.wf(),
        ensures
            r == self@.final_time(),
    {
        match self {
            MemberTypes::Sphere(s) => match &s.animation {
                Some(a) => a.last_time(),
                None => Scalar::zero(),
            },
            MemberTypes::Model(m) => match &m.animation {
                Some(a) => a.last_time(),
                None => Scalar::zero(),
            },
            _ => Scalar::zero(),
        }
    }

    /// A copy of the member moved to `p`.
    pub fn placed(&self, p: Vec3) -> (r: MemberTypes)
        ensures
            r@ == self@.placed(p),
    {
        match self {
            MemberTypes::Sphere(s) => {
                let mut moved = s.clone();
                moved.c = p;
                MemberTypes::Sphere(moved)
            },
            MemberTypes::Model(m) => {
                let mut moved = m.clone();
                moved.translation = p;
                MemberTypes::Model(moved)
            },
            other => other.clone(),
        }
    }
}

/// A list of items that converts as a whole.
#[derive(Debug)]
pub struct VecInto<T>(pub Vec<T>);

impl<T: View> View for VecInto<T> {
    type V = Seq<T::V>;

    open spec fn view(&self) -> Seq<T::V> {
        self.0@.map_values(|m: T| m@)
    }
}

impl<T> VecInto<T> {
    pub fn new(items: Vec<T>) -> (r: VecInto<T>)
        ensures
            r.0@ == items@,
    {
        VecInto(items)
    }

    pub fn len(&self) -> (r: usize)
        ensures
            r == self.0@.len(),
    {
        self.0.len()
    }

    pub fn into_inner(self) -> (r: Vec<T>)
        ensures
            r@ == self.0@,
    {
        self.0
    }

    /// Converts every item, keeping the order.
    pub fn convert<B: From<T>>(self) -> (r: Vec<B>)
        ensures
            r@.len() == self.0@.len(),
            B::obeys_from_spec() ==> forall|i: int|
                0 <= i < r@.len() ==> #[trigger] r@[i] == B::from_spec(self.0@[i]),
    {
        let mut out: Vec<B> = Vec::new();
        for item in it: self.0.into_iter()
            invariant
                it.seq() == self.0@,
                out@.len() == it.index(),
                B::obeys_from_spec() ==> forall|i: int|
                    0 <= i < out@.len() ==> #[trigger] out@[i] == B::from_spec(self.0@[i]),
        {
            out.push(B::from(item));
        }
        out
    }
}

} // verus!
