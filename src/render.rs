//! The render transform: aircraft positions mapped into render space.
//!
//! Render space is scaled horizontally only; altitude does not project into
//! depth, so every render position lies in the plane `z == 0`.
use vstd::prelude::*;
use crate::aircraft::{Position, World};

verus! {

/// The simulation settings, fixed at startup.
#[derive(Clone, Copy, Debug, PartialEq, Eq, Structural)]
pub struct SimulationSettings {
    /// Render units per meter, in thousandths.
    pub horizontal_scale_permille: u32,
}

impl Default for SimulationSettings {
    /// A tenth of a render unit per meter.
    fn default() -> (s: Self)
        ensures
            s.horizontal_scale_permille == 100,
    {
        SimulationSettings { horizontal_scale_permille: 100 }
    }
}

/// A render-space position, in render units times 22,500,000: a length unit
/// (1/22500 m) times the scale in thousandths.
#[derive(Clone, Copy, Debug, PartialEq, Eq, Structural)]
pub struct RenderPosition {
    pub x: i128,
    pub y: i128,
    pub z: i128,
}

/// The render position of `p` under `settings`: horizontal components scaled,
/// altitude dropped.
pub open spec fn render_of(p: Position, settings: SimulationSettings) -> RenderPosition {
    RenderPosition {
        x: (p.x * settings.horizontal_scale_permille) as i128,
        y: (p.y * settings.horizontal_scale_permille) as i128,
        z: 0,
    }
}

/// The render position of `position` under `settings`.
pub fn render_position(position: &Position, settings: &SimulationSettings) -> (r: RenderPosition)
    ensures
        r == render_of(*position, *settings),
{
    let k = settings.horizontal_scale_permille as i128;
    assert(-0x8000_0000_0000_0000 * 0xffff_ffff <= position.x * k <= 0x7fff_ffff_ffff_ffff
        * 0xffff_ffff) by (nonlinear_arith)
        requires
            0 <= k <= 0xffff_ffff,
            -0x8000_0000_0000_0000 <= position.x <= 0x7fff_ffff_ffff_ffff,
    ;
    assert(-0x8000_0000_0000_0000 * 0xffff_ffff <= position.y * k <= 0x7fff_ffff_ffff_ffff
        * 0xffff_ffff) by (nonlinear_arith)
        requires
            0 <= k <= 0xffff_ffff,
            -0x8000_0000_0000_0000 <= position.y <= 0x7fff_ffff_ffff_ffff,
    ;
    RenderPosition { x: position.x as i128 * k, y: position.y as i128 * k, z: 0 }
}

/// Recomputing a render position from the same position and settings gives
/// the same result: it depends on nothing else.
pub proof fn lemma_render_position_pure(
    p: Position,
    settings: SimulationSettings,
    r1: RenderPosition,
    r2: RenderPosition,
)
    requires
        r1 == render_of(p, settings),
        r2 == render_of(p, settings),
    ensures
        r1 == r2,
{
}

impl World {
    /// The render position of every slot: `Some` for a live aircraft, `None`
    /// for a removed one. Reads the world and changes nothing.
    pub fn update_aircraft_transform(&self, settings: &SimulationSettings) -> (r: Vec<
        Option<RenderPosition>,
    >)
        ensures
            r@.len() == self.aircraft@.len(),
            forall|i: int|
                0 <= i < r@.len() ==> (#[trigger] r@[i] is Some) == (self.aircraft@[i] is Some),
            forall|i: int|
                0 <= i < r@.len() && #[trigger] self.aircraft@[i] is Some ==> r@[i]
                    == Some(render_of(self.aircraft@[i]->0.position, *settings)),
    {
        let mut r: Vec<Option<RenderPosition>> = Vec::new();
        let mut i: usize = 0;
        while i < self.aircraft.len()
            invariant
                i <= self.aircraft@.len(),
                r@.len() == i,
                forall|j: int|
                    0 <= j < i ==> (#[trigger] r@[j] is Some) == (self.aircraft@[j] is Some),
                forall|j: int|
                    0 <= j < i && #[trigger] self.aircraft@[j] is Some ==> r@[j] == Some(
                        render_of(self.aircraft@[j]->0.position, *settings),
                    ),
            decreases self.aircraft@.len() - i,
        {
            match &self.aircraft[i] {
                Some(a) => r.push(Some(render_position(&a.position, settings))),
                None => r.push(None),
            }
            i += 1;
        }
        r
    }
}

} // verus!
