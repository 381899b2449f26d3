use vstd::prelude::*;

verus! {

/// What a material did with a ray that met it.
#[derive(Copy, Clone, Debug, PartialEq, Eq, Structural)]
pub enum Outcome {
    /// It sent a new ray on, with an attenuation.
    Scattered,
    /// It gave off light and ended the path.
    Emitted,
    /// It swallowed the ray.
    Absorbed,
}

/// What the estimator does next on a path.
#[derive(Copy, Clone, Debug, PartialEq, Eq, Structural)]
pub enum Step {
    /// The ray met nothing: the background colour ends the path.
    Background,
    /// The material's emitted light ends the path.
    Emit,
    /// No light comes back: the ray was absorbed, or no bounces are left.
    Black,
    /// Follow the scattered ray with `depth` bounces left, weighting what it brings
    /// back by the attenuation.
    Bounce { depth: u32 },
}

/// The decision at one vertex of a path: `hit` is `None` when the ray met nothing,
/// else what the material at the nearest hit did; `depth` is the number of bounces
/// still allowed.
pub open spec fn step_spec(hit: Option<Outcome>, depth: u32) -> Step {
    match hit {
        None => Step::Background,
        Some(Outcome::Emitted) => Step::Emit,
        Some(Outcome::Absorbed) => Step::Black,
        Some(Outcome::Scattered) => if depth == 0 {
            Step::Black
        } else {
            Step::Bounce { depth: (depth - 1) as u32 }
        },
    }
}

/// One step of the radiance estimator.
pub fn next_step(hit: Option<Outcome>, depth: u32) -> (s: Step)
    ensures
        s == step_spec(hit, depth),
        hit == Some(Outcome::Scattered) && depth == 0 ==> s == Step::Black,
        forall|d: u32| s == (Step::Bounce { depth: d }) ==> d < depth,
{
    match hit {
        None => Step::Background,
        Some(Outcome::Emitted) => Step::Emit,
        Some(Outcome::Absorbed) => Step::Black,
        Some(Outcome::Scattered) => {
            if depth == 0 {
                Step::Black
            } else {
                Step::Bounce { depth: depth - 1 }
            }
        },
    }
}

/// A path started with `depth` bounces allowed takes at most `depth` bounces: each
/// bounce lowers the count by one, and a scattering at count zero ends the path.
pub proof fn lemma_depth_bounded(outcomes: Seq<Outcome>, depth: u32)
    requires
        forall|i: int| 0 <= i < outcomes.len() ==> outcomes[i] == Outcome::Scattered,
        outcomes.len() > depth,
    ensures
        path_steps(outcomes, depth) == Step::Black,
    decreases outcomes.len(),
{
    if depth > 0 {
        lemma_depth_bounded(outcomes.drop_first(), (depth - 1) as u32);
    }
}

/// The step that ends a path whose materials act as `outcomes`, starting with
/// `depth` bounces allowed.
pub open spec fn path_steps(outcomes: Seq<Outcome>, depth: u32) -> Step
    decreases outcomes.len(),
{
    if outcomes.len() == 0 {
        Step::Background
    } else {
        match step_spec(Some(outcomes[0]), depth) {
            Step::Bounce { depth: d } => path_steps(outcomes.drop_first(), d),
            s => s,
        }
    }
}

} // verus!
