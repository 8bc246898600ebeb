//! Ways of showing two pictures.
use vstd::prelude::*;
use vstd::string::*;

verus! {

/// How two pictures are shown together.
#[derive(Clone, Copy, Debug, PartialEq, Eq, Structural)]
pub enum CompareMode {
    TwoUp,
    Swipe,
    OnionSkin,
    Left,
    Right,
}

impl CompareMode {
    /// The mode after this one. Modes with a single picture are not part of the
    /// cycle.
    pub open spec fn following(self) -> CompareMode {
        match self {
            CompareMode::TwoUp => CompareMode::Swipe,
            CompareMode::Swipe => CompareMode::OnionSkin,
            CompareMode::OnionSkin => CompareMode::TwoUp,
            CompareMode::Left => CompareMode::TwoUp,
            CompareMode::Right => CompareMode::TwoUp,
        }
    }

    /// What the mode is called.
    pub open spec fn name(self) -> &'static str {
        match self {
            CompareMode::TwoUp => "2-up",
            CompareMode::Swipe => "swipe",
            CompareMode::OnionSkin => "onion skin",
            CompareMode::Left => "left only",
            CompareMode::Right => "right only",
        }
    }

    /// The mode depends on the slider.
    pub open spec fn slides(self) -> bool {
        self == CompareMode::Swipe || self == CompareMode::OnionSkin
    }

    /// The mode shows one picture only.
    pub open spec fn single(self) -> bool {
        self == CompareMode::Left || self == CompareMode::Right
    }

    /// The next comparison mode. Modes with a single picture are skipped.
    pub fn next(self) -> (r: CompareMode)
        ensures
            r == self.following(),
    {
        match self {
            CompareMode::TwoUp => CompareMode::Swipe,
            CompareMode::Swipe => CompareMode::OnionSkin,
            CompareMode::OnionSkin => CompareMode::TwoUp,
            CompareMode::Left | CompareMode::Right => CompareMode::TwoUp,
        }
    }

    pub fn label(self) -> (r: &'static str)
        ensures
            r@ == self.name()@,
            r.spec_bytes() == self.name().spec_bytes(),
    {
        match self {
            CompareMode::TwoUp => "2-up",
            CompareMode::Swipe => "swipe",
            CompareMode::OnionSkin => "onion skin",
            CompareMode::Left => "left only",
            CompareMode::Right => "right only",
        }
    }

    pub fn uses_slider(self) -> (r: bool)
        ensures
            r == self.slides(),
    {
        matches!(self, CompareMode::Swipe | CompareMode::OnionSkin)
    }

    pub fn is_single(self) -> (r: bool)
        ensures
            r == self.single(),
    {
        matches!(self, CompareMode::Left | CompareMode::Right)
    }
}

/// The cycle of modes never reaches one with a single picture, and comes back to
/// a comparison after three steps.
pub proof fn law_modes_cycle(mode: CompareMode)
    ensures
        !mode.following().single(),
        !mode.single() ==> mode.following().following().following() == mode,
        !mode.single() ==> mode.following() != mode && mode.following().following() != mode,
{
}

/// The modes that show both pictures follow each other: side by side, swiped, laid on
/// each other, and side by side again. From a mode with a single picture the next
/// one is side by side.
pub proof fn law_modes_have_an_order()
    ensures
        CompareMode::TwoUp.following() == CompareMode::Swipe,
        CompareMode::Swipe.following() == CompareMode::OnionSkin,
        CompareMode::OnionSkin.following() == CompareMode::TwoUp,
        CompareMode::Left.following() == CompareMode::TwoUp,
        CompareMode::Right.following() == CompareMode::TwoUp,
{
}

/// A mode shows a single picture or moves with the slider, or it is the one that
/// shows both pictures side by side; it never does two of these.
pub proof fn law_modes_are_of_three_kinds(mode: CompareMode)
    ensures
        mode.single() <==> mode == CompareMode::Left || mode == CompareMode::Right,
        !mode.slides() && !mode.single() <==> mode == CompareMode::TwoUp,
        !(mode.slides() && mode.single()),
{
}

/// What the modes are called.
pub proof fn law_modes_have_names()
    ensures
        CompareMode::TwoUp.name()@ == seq!['2', '-', 'u', 'p'],
        CompareMode::Swipe.name()@ == seq!['s', 'w', 'i', 'p', 'e'],
        CompareMode::OnionSkin.name()@ == seq!['o', 'n', 'i', 'o', 'n', ' ', 's', 'k', 'i', 'n'],
        CompareMode::Left.name()@ == seq!['l', 'e', 'f', 't', ' ', 'o', 'n', 'l', 'y'],
        CompareMode::Right.name()@ == seq!['r', 'i', 'g', 'h', 't', ' ', 'o', 'n', 'l', 'y'],
{
    reveal_strlit("2-up");
    reveal_strlit("swipe");
    reveal_strlit("onion skin");
    reveal_strlit("left only");
    reveal_strlit("right only");
}

} // verus!
