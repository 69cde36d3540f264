//! The camera's follow target: a single slot, so that exactly one entity is
//! followed at a time.
use vstd::prelude::*;

verus! {

/// A request to the camera: follow the entity with this handle.
#[derive(Clone, Copy, Debug, PartialEq, Eq, Structural)]
pub enum CameraEvent {
    Target(u64),
}

/// The entity that the camera follows. Setting a new target replaces the
/// previous one in the same step.
#[derive(Clone, Copy, Debug, PartialEq, Eq, Structural)]
pub struct CameraTarget {
    pub entity: u64,
}

/// The target after `events`, applied in order, starting from `target`.
pub open spec fn target_after(target: u64, events: Seq<CameraEvent>) -> u64 {
    if events.len() == 0 {
        target
    } else {
        match events.last() {
            CameraEvent::Target(e) => e,
        }
    }
}

impl CameraTarget {
    /// A camera that follows `entity`.
    pub fn new(entity: u64) -> (t: CameraTarget)
        ensures
            t.entity == entity,
    {
        CameraTarget { entity }
    }

    /// Follows `entity` from now on, and returns the entity followed until now.
    pub fn replace(&mut self, entity: u64) -> (previous: u64)
        ensures
            previous == old(self).entity,
            final(self).entity == entity,
    {
        let previous = self.entity;
        self.entity = entity;
        previous
    }
}

/// Applies every camera request of `events`, in order: the last one decides
/// the target; with none the target stays.
pub fn process_camera_events(target: &mut CameraTarget, events: &Vec<CameraEvent>)
    ensures
        final(target).entity == target_after(old(target).entity, events@),
{
    let ghost start = target.entity;
    let mut k: usize = 0;
    while k < events.len()
        invariant
            k <= events@.len(),
            target.entity == target_after(start, events@.subrange(0, k as int)),
        decreases events@.len() - k,
    {
        match events[k] {
            CameraEvent::Target(e) => {
                target.replace(e);
            },
        }
        proof {
            let s = events@.subrange(0, k + 1);
            assert(s.last() == events@[k as int]);
        }
        k += 1;
    }
    proof {
        assert(events@.subrange(0, events@.len() as int) =~= events@);
    }
}

} // verus!
