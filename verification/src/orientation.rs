use vstd::prelude::*;

verus! {

/// The four compass directions an agent can face.
#[derive(Clone, Copy, Debug, PartialEq, Eq, Structural)]
pub enum Orientation {
    N,
    E,
    S,
    W,
}

impl Orientation {
    /// A quarter turn counter-clockwise: N -> W -> S -> E -> N.
    pub open spec fn spec_gauche(self) -> Orientation {
        match self {
            Orientation::N => Orientation::W,
            Orientation::W => Orientation::S,
            Orientation::S => Orientation::E,
            Orientation::E => Orientation::N,
        }
    }

    /// A quarter turn clockwise: N -> E -> S -> W -> N.
    pub open spec fn spec_droite(self) -> Orientation {
        match self {
            Orientation::N => Orientation::E,
            Orientation::E => Orientation::S,
            Orientation::S => Orientation::W,
            Orientation::W => Orientation::N,
        }
    }

    /// Turn left (counter-clockwise).
    pub fn gauche(self) -> (r: Orientation)
        ensures
            r == self.spec_gauche(),
    {
        match self {
            Orientation::N => Orientation::W,
            Orientation::W => Orientation::S,
            Orientation::S => Orientation::E,
            Orientation::E => Orientation::N,
        }
    }

    /// Turn right (clockwise).
    pub fn droite(self) -> (r: Orientation)
        ensures
            r == self.spec_droite(),
    {
        match self {
            Orientation::N => Orientation::E,
            Orientation::E => Orientation::S,
            Orientation::S => Orientation::W,
            Orientation::W => Orientation::N,
        }
    }
}

/// Rotation forms a group of order 4: four consecutive left turns, or four
/// consecutive right turns, return any orientation to itself; a left turn
/// followed by a right turn (and the other way round) is the identity.
pub proof fn lemma_four_turns_identity(o: Orientation)
    ensures
        o.spec_gauche().spec_gauche().spec_gauche().spec_gauche() == o,
        o.spec_droite().spec_droite().spec_droite().spec_droite() == o,
        o.spec_gauche().spec_droite() == o,
        o.spec_droite().spec_gauche() == o,
{
}

} // verus!
