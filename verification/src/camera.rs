//! A camera as a pose with a cached transform. The transform is a function of
//! the pose alone. It is computed only when it is asked for after the pose
//! has changed, and kept until the pose changes again.
use vstd::prelude::*;

verus! {

/// A pose of type `P` and the transform of type `M` that was last computed
/// from it. `stale` says that the pose may have changed since.
#[derive(Clone, Debug)]
pub struct Camera<P, M> {
    pub stale: bool,
    pub cache: M,
    pub pose: P,
}

impl<P, M> Camera<P, M> {
    /// The camera after a read that computes `m` where the cache is stale:
    /// the cache then holds `m` and is fresh. A camera with a fresh cache is
    /// left as it is.
    pub open spec fn refreshed(self, m: M) -> Self {
        if self.stale {
            Camera { stale: false, cache: m, pose: self.pose }
        } else {
            self
        }
    }

    /// The camera after its pose was replaced by `pose`: the cache is kept,
    /// and is stale.
    pub open spec fn moved(self, pose: P) -> Self {
        Camera { stale: true, cache: self.cache, pose }
    }

    /// A camera at `pose`. Its cache holds `cache` and is stale, so that the
    /// first read computes the transform.
    pub fn new(pose: P, cache: M) -> (cam: Self)
        ensures
            cam.stale,
            cam.pose == pose,
            cam.cache == cache,
    {
        Camera { stale: true, cache, pose }
    }

    /// The transform of the present pose. Where the cache is stale, it is
    /// computed by `compute` and kept; where it is fresh, `compute` is not
    /// called and the cache is returned as it is.
    pub fn fresh_mat<F: Fn(&P) -> M>(&mut self, compute: F) -> (res: &M)
        requires
            old(self).stale ==> call_requires(compute, (&old(self).pose,)),
        ensures
            *final(self) == old(self).refreshed(*res),
            *res == final(self).cache,
            old(self).stale ==> call_ensures(compute, (&old(self).pose,), *res),
    {
        if self.stale {
            self.cache = compute(&self.pose);
            self.stale = false;
        }
        &self.cache
    }

    /// Replaces the pose and marks the cache stale.
    pub fn set_pose(&mut self, pose: P)
        ensures
            *final(self) == old(self).moved(pose),
    {
        self.pose = pose;
        self.stale = true;
    }

    /// The pose, to change it in place. The cache is marked stale.
    pub fn pose_mut(&mut self) -> (pose: &mut P)
        ensures
            *pose == old(self).pose,
            *final(self) == old(self).moved(*final(pose)),
    {
        self.stale = true;
        &mut self.pose
    }
}

/// A second read in a row changes nothing, whatever it would have computed:
/// the cache still holds what the first read left in it.
pub proof fn lemma_second_read_keeps_cache<P, M>(cam: Camera<P, M>, first: M, second: M)
    ensures
        cam.refreshed(first).refreshed(second) == cam.refreshed(first),
        !cam.refreshed(first).stale,
{
}

/// A read after a change of pose holds what that read computed, and none
/// of what an earlier read left.
pub proof fn lemma_read_after_change_is_fresh<P, M>(cam: Camera<P, M>, pose: P, m: M)
    ensures
        cam.moved(pose).refreshed(m).cache == m,
        cam.moved(pose).refreshed(m).pose == pose,
        !cam.moved(pose).refreshed(m).stale,
{
}

} // verus!
