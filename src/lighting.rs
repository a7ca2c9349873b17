use vstd::prelude::*;
use crate::material::LightConfiguration;

verus! {

/// The bucket a light falls into, by the components its entity carries.
#[derive(Copy, Clone, PartialEq, Eq, Structural, Debug)]
pub enum LightKind {
    Ambient,
    Directional,
    Point,
    Spot,
}

/// A direction without a cone is directional; a transform alone is a point
/// light; a direction, a cone and a transform make a spot; nothing at all is
/// ambient. Any other shape is no light.
pub open spec fn kind_spec(has_direction: bool, has_transform: bool, has_cone: bool) -> Option<LightKind> {
    if has_direction && !has_cone {
        Some(LightKind::Directional)
    } else if has_transform && !has_cone && !has_direction {
        Some(LightKind::Point)
    } else if has_direction && has_cone && has_transform {
        Some(LightKind::Spot)
    } else if !has_transform && !has_cone && !has_direction {
        Some(LightKind::Ambient)
    } else {
        None
    }
}

pub fn classify(has_direction: bool, has_transform: bool, has_cone: bool) -> (r: Option<LightKind>)
    ensures
        r == kind_spec(has_direction, has_transform, has_cone),
{
    if has_direction && !has_cone {
        Some(LightKind::Directional)
    } else if has_transform && !has_cone && !has_direction {
        Some(LightKind::Point)
    } else if has_direction && has_cone && has_transform {
        Some(LightKind::Spot)
    } else if !has_transform && !has_cone && !has_direction {
        Some(LightKind::Ambient)
    } else {
        None
    }
}

/// An entity that emits light: the light, and the world matrix, direction and
/// cone that it may carry.
#[derive(Copy, Clone)]
pub struct LightSource<L, M, D, C> {
    pub light: L,
    pub transform: Option<M>,
    pub direction: Option<D>,
    pub cone: Option<C>,
    pub enabled: bool,
}

pub open spec fn kind_of<L, M, D, C>(s: LightSource<L, M, D, C>) -> Option<LightKind> {
    if s.enabled {
        kind_spec(s.direction is Some, s.transform is Some, s.cone is Some)
    } else {
        None
    }
}

pub open spec fn directional_of<L, M, D, C>(ss: Seq<LightSource<L, M, D, C>>) -> Seq<(L, D)>
    decreases ss.len(),
{
    if ss.len() == 0 {
        Seq::empty()
    } else {
        let r = directional_of(ss.drop_last());
        if kind_of(ss.last()) == Some(LightKind::Directional) {
            r.push((ss.last().light, ss.last().direction.unwrap()))
        } else {
            r
        }
    }
}

pub open spec fn point_of<L, M, D, C>(ss: Seq<LightSource<L, M, D, C>>) -> Seq<(L, M)>
    decreases ss.len(),
{
    if ss.len() == 0 {
        Seq::empty()
    } else {
        let r = point_of(ss.drop_last());
        if kind_of(ss.last()) == Some(LightKind::Point) {
            r.push((ss.last().light, ss.last().transform.unwrap()))
        } else {
            r
        }
    }
}

pub open spec fn spot_of<L, M, D, C>(ss: Seq<LightSource<L, M, D, C>>) -> Seq<(L, M, D, C)>
    decreases ss.len(),
{
    if ss.len() == 0 {
        Seq::empty()
    } else {
        let r = spot_of(ss.drop_last());
        if kind_of(ss.last()) == Some(LightKind::Spot) {
            r.push((ss.last().light, ss.last().transform.unwrap(), ss.last().direction.unwrap(), ss.last().cone.unwrap()))
        } else {
            r
        }
    }
}

pub open spec fn ambient_of<L, M, D, C>(ss: Seq<LightSource<L, M, D, C>>) -> Seq<L>
    decreases ss.len(),
{
    if ss.len() == 0 {
        Seq::empty()
    } else {
        let r = ambient_of(ss.drop_last());
        if kind_of(ss.last()) == Some(LightKind::Ambient) {
            r.push(ss.last().light)
        } else {
            r
        }
    }
}

/// `acc` is what `blend` gives when folded over `ls` from `zero`, one light at a time.
pub open spec fn blended<L, F: Fn(L, L) -> L>(blend: F, zero: L, ls: Seq<L>, acc: L) -> bool {
    exists|steps: Seq<L>| {
        &&& steps.len() == ls.len() + 1
        &&& steps[0] == zero
        &&& steps.last() == acc
        &&& forall|k: int| 0 <= k < ls.len() ==> blend.ensures((#[trigger] steps[k], ls[k]), steps[k + 1])
    }
}

/// The lights of one frame, sorted by kind; the ambient lights are folded into one.
pub struct LightRepository<L, M, D, C> {
    pub ambiant: Option<L>,
    pub directional: Vec<(L, D)>,
    pub point: Vec<(L, M)>,
    pub spot: Vec<(L, M, D, C)>,
}

impl<L, M, D, C> LightRepository<L, M, D, C> {
    pub fn new() -> (r: Self)
        ensures
            r.ambiant is None,
            r.directional@.len() == 0,
            r.point@.len() == 0,
            r.spot@.len() == 0,
    {
        LightRepository { ambiant: None, directional: Vec::new(), point: Vec::new(), spot: Vec::new() }
    }

    /// The light counts that shaders have to be compiled for.
    pub fn configuration(&self) -> (c: LightConfiguration)
        ensures
            c.directional == self.directional@.len(),
            c.point == self.point@.len(),
            c.spot == self.spot@.len(),
    {
        LightConfiguration { directional: self.directional.len(), point: self.point.len(), spot: self.spot.len() }
    }
}

/// Rebuilds the light repository of a frame from the light-emitting entities.
pub struct LightingSystem;

impl LightingSystem {
    /// Replaces the contents of `repo` with the enabled lights of `sources`,
    /// sorted by kind in the order of `sources`. The ambient lights are folded
    /// with `blend`, starting from `zero`; there is an ambient light only when
    /// some source is ambient.
    pub fn run<L: Copy, M: Copy, D: Copy, C: Copy, F: Fn(L, L) -> L>(
        &mut self,
        sources: &Vec<LightSource<L, M, D, C>>,
        repo: &mut LightRepository<L, M, D, C>,
        zero: L,
        blend: F,
    )
        requires
            forall|a: L, b: L| #[trigger] blend.requires((a, b)),
        ensures
            final(repo).directional@ == directional_of(sources@),
            final(repo).point@ == point_of(sources@),
            final(repo).spot@ == spot_of(sources@),
            ambient_of(sources@).len() == 0 ==> final(repo).ambiant is None,
            ambient_of(sources@).len() > 0 ==> (final(repo).ambiant matches Some(a) && blended(blend, zero, ambient_of(sources@), a)),
    {
        repo.ambiant = None;
        repo.directional.clear();
        repo.point.clear();
        repo.spot.clear();
        let mut ambient = zero;
        let mut some_ambient = false;
        let ghost mut steps: Seq<L> = seq![zero];
        let mut i: usize = 0;
        proof {
            assert(sources@.subrange(0, 0) =~= Seq::<LightSource<L, M, D, C>>::empty());
        }
        while i < sources.len()
            invariant
                forall|a: L, b: L| #[trigger] blend.requires((a, b)),
                i <= sources.len(),
                repo.ambiant is None,
                repo.directional@ == directional_of(sources@.subrange(0, i as int)),
                repo.point@ == point_of(sources@.subrange(0, i as int)),
                repo.spot@ == spot_of(sources@.subrange(0, i as int)),
                some_ambient == (ambient_of(sources@.subrange(0, i as int)).len() > 0),
                steps.len() == ambient_of(sources@.subrange(0, i as int)).len() + 1,
                steps[0] == zero,
                steps.last() == ambient,
                forall|k: int| 0 <= k < ambient_of(sources@.subrange(0, i as int)).len() ==> blend.ensures(
                    (#[trigger] steps[k], ambient_of(sources@.subrange(0, i as int))[k]),
                    steps[k + 1],
                ),
            decreases sources.len() - i,
        {
            let s = sources[i];
            let ghost pre = sources@.subrange(0, i as int);
            let ghost next = sources@.subrange(0, i + 1);
            proof {
                assert(next.drop_last() =~= pre);
                assert(next.last() == s);
            }
            if s.enabled {
                match classify(s.direction.is_some(), s.transform.is_some(), s.cone.is_some()) {
                    Some(LightKind::Directional) => {
                        repo.directional.push((s.light, s.direction.unwrap()));
                    },
                    Some(LightKind::Point) => {
                        repo.point.push((s.light, s.transform.unwrap()));
                    },
                    Some(LightKind::Spot) => {
                        repo.spot.push((s.light, s.transform.unwrap(), s.direction.unwrap(), s.cone.unwrap()));
                    },
                    Some(LightKind::Ambient) => {
                        let ghost old_steps = steps;
                        ambient = blend(ambient, s.light);
                        some_ambient = true;
                        proof {
                            steps = steps.push(ambient);
                            assert forall|k: int| 0 <= k < ambient_of(next).len() implies blend.ensures(
                                (#[trigger] steps[k], ambient_of(next)[k]),
                                steps[k + 1],
                            ) by {
                                if k < ambient_of(pre).len() {
                                    assert(steps[k] == old_steps[k] && steps[k + 1] == old_steps[k + 1]);
                                    assert(ambient_of(next)[k] == ambient_of(pre)[k]);
                                }
                            }
                        }
                    },
                    None => {},
                }
            }
            i += 1;
        }
        proof {
            assert(sources@.subrange(0, i as int) =~= sources@);
            let ls = ambient_of(sources@);
            assert(steps.len() == ls.len() + 1 && steps[0] == zero && steps.last() == ambient && forall|k: int|
                0 <= k < ls.len() ==> blend.ensures((#[trigger] steps[k], ls[k]), steps[k + 1]));
        }
        if some_ambient {
            repo.ambiant = Some(ambient);
        }
    }
}

} // verus!
