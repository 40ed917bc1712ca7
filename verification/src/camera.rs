//! The bounce budget of the path-tracing integrator.
//!
//! A path starts with a depth, the number of bounces it may take. As long
//! as bounces are left, the ray is followed into the scene; a ray that
//! strikes nothing ends the path in the background, one that is absorbed
//! ends it in black, and one that is scattered goes on with one bounce
//! less. A path without bounces left is black. What the scene looks like and
//! what colour comes back is the caller's business: here only the walk is
//! decided, from what the caller reports of each bounce.

use vstd::prelude::*;

verus! {

/// Marker for staged camera construction. It carries no settings of its own.
pub struct CameraBuilder {}

/// What became of a ray that was followed into the scene.
#[derive(Clone, Copy, Debug, PartialEq, Eq, Structural)]
pub enum Bounce {
    /// It struck nothing.
    Missed,
    /// It struck a surface that swallowed it.
    Absorbed,
    /// It struck a surface that sent it on as a new ray.
    Scattered,
}

/// What the integrator does next.
#[derive(Clone, Copy, Debug, PartialEq, Eq, Structural)]
pub enum Step {
    /// Follow the current ray into the scene and report the bounce.
    Intersect,
    /// The path has ended and carries no light.
    Black,
    /// The path has ended in the open and carries the background's light.
    Background,
}

/// The first step of a path of the given depth: into the scene if it has
/// a bounce to take, black if it has none.
pub open spec fn first_step(depth: int) -> Step {
    if depth <= 0 {
        Step::Black
    } else {
        Step::Intersect
    }
}

/// The step that follows one bounce of a path of the given depth.
pub open spec fn next_step(depth: int, bounce: Bounce) -> Step {
    if depth <= 0 {
        Step::Black
    } else {
        match bounce {
            Bounce::Missed => Step::Background,
            Bounce::Absorbed => Step::Black,
            Bounce::Scattered => first_step(depth - 1),
        }
    }
}

/// Where a path of the given depth stands once the scene has answered with
/// `bounces`, the first bounce first. Answers that come after the path has
/// ended change nothing.
pub open spec fn step_after(depth: int, bounces: Seq<Bounce>) -> Step
    decreases bounces.len(),
{
    if depth <= 0 {
        Step::Black
    } else if bounces.len() == 0 {
        Step::Intersect
    } else {
        match bounces.first() {
            Bounce::Missed => Step::Background,
            Bounce::Absorbed => Step::Black,
            Bounce::Scattered => step_after(depth - 1, bounces.drop_first()),
        }
    }
}

/// The bounces that are left to a path of the given depth after one more
/// bounce: one less after a scatter, none once the path has ended.
pub open spec fn left_after(depth: int, bounce: Bounce) -> int {
    if depth > 0 && bounce == Bounce::Scattered {
        depth - 1
    } else {
        0
    }
}

/// The walk of one path: how many bounces it may still take.
pub struct Path {
    left: i32,
}

impl Path {
    /// The bounces that are left.
    pub closed spec fn spec_left(&self) -> i32 {
        self.left
    }

    /// A path that may take `depth` bounces.
    pub fn new(depth: i32) -> (path: Self)
        ensures
            path.spec_left() == depth,
    {
        Path { left: depth }
    }

    #[verifier::when_used_as_spec(spec_left)]
    pub fn left(&self) -> (n: i32)
        ensures
            n == self.spec_left(),
    {
        self.left
    }

    /// The step to take before the scene was asked anything.
    pub fn start(&self) -> (step: Step)
        ensures
            step == first_step(self.spec_left() as int),
    {
        if self.left <= 0 {
            Step::Black
        } else {
            Step::Intersect
        }
    }

    /// Takes in what became of the ray and says what to do next.
    pub fn after(&mut self, bounce: Bounce) -> (step: Step)
        ensures
            step == next_step(old(self).spec_left() as int, bounce),
            final(self).spec_left() == left_after(old(self).spec_left() as int, bounce),
    {
        if self.left <= 0 {
            self.left = 0;
            return Step::Black;
        }
        match bounce {
            Bounce::Missed => {
                self.left = 0;
                Step::Background
            },
            Bounce::Absorbed => {
                self.left = 0;
                Step::Black
            },
            Bounce::Scattered => {
                self.left = self.left - 1;
                self.start()
            },
        }
    }
}

/// A path without depth is black, whatever the scene holds: it ends before
/// the scene is asked, and nothing that the scene could answer changes that.
pub proof fn lemma_no_depth_is_black(depth: int, bounces: Seq<Bounce>)
    requires
        depth <= 0,
    ensures
        step_after(depth, bounces) == Step::Black,
{
}

/// A path of depth `depth` has ended once the scene has answered `depth`
/// times: no scene keeps it going for longer.
pub proof fn lemma_ends_within_depth(depth: int, bounces: Seq<Bounce>)
    requires
        bounces.len() >= depth,
    ensures
        step_after(depth, bounces) != Step::Intersect,
    decreases bounces.len(),
{
    if depth > 0 {
        if bounces.first() == Bounce::Scattered {
            lemma_ends_within_depth(depth - 1, bounces.drop_first());
        }
    }
}

/// A path is under way after `bounces` exactly if it has depth left for one
/// more and every bounce so far was a scatter.
pub proof fn lemma_under_way(depth: int, bounces: Seq<Bounce>)
    ensures
        step_after(depth, bounces) == Step::Intersect <==> bounces.len() < depth && forall|i: int|
            0 <= i < bounces.len() ==> bounces[i] == Bounce::Scattered,
    decreases bounces.len(),
{
    if depth > 0 && bounces.len() > 0 {
        let rest = bounces.drop_first();
        lemma_under_way(depth - 1, rest);
        if bounces.first() == Bounce::Scattered {
            if step_after(depth, bounces) == Step::Intersect {
                assert forall|i: int| 0 <= i < bounces.len() implies bounces[i]
                    == Bounce::Scattered by {
                    if i > 0 {
                        assert(bounces[i] == rest[i - 1]);
                    }
                }
            } else if bounces.len() < depth {
                assert(exists|i: int| 0 <= i < rest.len() && rest[i] != Bounce::Scattered);
                let i = choose|i: int| 0 <= i < rest.len() && rest[i] != Bounce::Scattered;
                assert(bounces[i + 1] == rest[i]);
            }
        } else {
            assert(bounces[0] != Bounce::Scattered);
        }
    }
}

/// Taking the bounces in one at a time, as `Path::start` and `Path::after`
/// do, walks the same path: a path starts where it stands after no bounce,
/// and while it is under way after `bounces`, one more bounce leads where it
/// leads a path of the depth that is left.
pub proof fn lemma_step_by_step(depth: int, bounces: Seq<Bounce>, next: Bounce)
    requires
        step_after(depth, bounces) == Step::Intersect,
    ensures
        step_after(depth, Seq::empty()) == first_step(depth),
        step_after(depth, bounces.push(next)) == next_step(depth - bounces.len(), next),
    decreases bounces.len(),
{
    if bounces.len() == 0 {
        assert(bounces.push(next).first() == next);
        assert(bounces.push(next).drop_first() =~= Seq::<Bounce>::empty());
        assert(step_after(depth - 1, Seq::empty()) == first_step(depth - 1));
    } else {
        let rest = bounces.drop_first();
        assert(bounces.push(next).first() == bounces.first());
        assert(bounces.push(next).drop_first() =~= rest.push(next));
        lemma_step_by_step(depth - 1, rest, next);
    }
}

} // verus!
