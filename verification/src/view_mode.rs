use vstd::prelude::*;

verus! {

/// How a viewport maps the polygon to the screen.
#[derive(Debug, Clone, Copy, PartialEq, Eq, Structural)]
pub enum ViewMode {
    /// Fit the polygon's bounds into the viewport.
    Fit,
    /// Keep a fixed number of pixels per unit.
    FixedZoom,
}

impl ViewMode {
    /// The name under which the mode is offered for selection.
    pub open spec fn label_spec(self) -> Seq<char> {
        match self {
            ViewMode::Fit => "Fit"@,
            ViewMode::FixedZoom => "Fixed Zoom"@,
        }
    }

    pub fn label(self) -> (name: &'static str)
        ensures
            name@ == self.label_spec(),
    {
        match self {
            ViewMode::Fit => "Fit",
            ViewMode::FixedZoom => "Fixed Zoom",
        }
    }
}

/// The two labels differ, so a label identifies its mode.
pub proof fn lemma_label_identifies_mode(a: ViewMode, b: ViewMode)
    ensures
        a.label_spec() == b.label_spec() <==> a == b,
{
    reveal_strlit("Fit");
    reveal_strlit("Fixed Zoom");
    assert("Fit"@.len() == 3);
    assert("Fixed Zoom"@.len() == 10);
}

} // verus!
