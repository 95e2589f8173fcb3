use vstd::prelude::*;

verus! {

/// The view from which the camera of a player looks at the world.
#[derive(Clone, Copy, Debug, PartialEq, Eq)]
pub enum CameraView {
    FirstPerson,
    ThirdPersonBack,
    ThirdPersonFront,
}

/// Whether a view is from the eyes of the player or from outside the player.
#[derive(Clone, Copy, Debug, PartialEq, Eq)]
pub enum Perspective {
    FirstPerson,
    ThirdPerson,
}

impl CameraView {
    /// The view that follows this one when the player cycles through views.
    pub open spec fn spec_next(self) -> Self {
        match self {
            CameraView::FirstPerson => CameraView::ThirdPersonBack,
            CameraView::ThirdPersonBack => CameraView::ThirdPersonFront,
            CameraView::ThirdPersonFront => CameraView::FirstPerson,
        }
    }

    pub open spec fn spec_perspective(self) -> Perspective {
        match self {
            CameraView::FirstPerson => Perspective::FirstPerson,
            CameraView::ThirdPersonBack | CameraView::ThirdPersonFront => Perspective::ThirdPerson,
        }
    }

    pub fn next(&self) -> (r: Self)
        ensures
            r == self.spec_next(),
    {
        match self {
            CameraView::FirstPerson => CameraView::ThirdPersonBack,
            CameraView::ThirdPersonBack => CameraView::ThirdPersonFront,
            CameraView::ThirdPersonFront => CameraView::FirstPerson,
        }
    }

    pub fn perspective(&self) -> (r: Perspective)
        ensures
            r == self.spec_perspective(),
    {
        match self {
            CameraView::FirstPerson => Perspective::FirstPerson,
            CameraView::ThirdPersonBack | CameraView::ThirdPersonFront => Perspective::ThirdPerson,
        }
    }

    /// Cycling through the views visits each of the three views and comes back after three steps,
    /// with the first person view the only one from the player's eyes.
    pub proof fn lemma_next_cycles(self)
        ensures
            self.spec_next().spec_next().spec_next() == self,
            self.spec_next() != self,
            self.spec_next().spec_next() != self,
            (self.spec_perspective() == Perspective::FirstPerson) <==> (self == CameraView::FirstPerson),
    {
    }
}

} // verus!
