//! What the presentation layer shows, and on which kind of screen.

use vstd::prelude::*;

verus! {

/// What is drawn from the analysis.
#[derive(Debug, Clone, Copy, PartialEq, Eq, Structural)]
pub enum Visualizer {
    /// The detected frequency and note.
    Freq,
    /// The history of the loudness.
    RMS,
    /// The shape of the last window.
    WaveShape,
}

/// The kind of screen that the interface is laid out for.
#[derive(Debug, Clone, Copy, PartialEq, Eq, Structural)]
pub enum UiType {
    /// A narrow touch screen.
    Mobile,
    /// A desktop window.
    Desktop,
}

/// Windows narrower than this many pixels get the mobile layout.
pub const MOBILE_WIDTH: u32 = 800;

/// The layout for a browser: mobile where the browser calls itself one or
/// its window is narrower than `MOBILE_WIDTH`.
pub open spec fn layout_for(mobile_agent: bool, inner_width: u32) -> UiType {
    if mobile_agent || inner_width < MOBILE_WIDTH {
        UiType::Mobile
    } else {
        UiType::Desktop
    }
}

/// What `str::to_lowercase` makes of `text`: the text in lower case by the
/// rules of Unicode, which do not depend on the machine or its settings.
pub uninterp spec fn lowercase(text: Seq<char>) -> Seq<char>;

/// Whether `needle` occurs in `text` as a run of neighbouring characters.
pub open spec fn occurs(text: Seq<char>, needle: Seq<char>) -> bool {
    exists|i: int, j: int|
        0 <= i <= j <= text.len() && j - i == needle.len() && #[trigger] text.subrange(i, j)
            == needle
}

/// `str::to_lowercase`: the text in lower case.
#[verifier::external_body]
fn to_lowercase(text: &str) -> (lower: String)
    ensures
        lower@ == lowercase(text@),
{
    text.to_lowercase()
}

/// `str::contains` with a string for its pattern: whether the pattern
/// matches a part of the text.
#[verifier::external_body]
fn contains(text: &str, needle: &str) -> (found: bool)
    ensures
        found == occurs(text@, needle@),
{
    text.contains(needle)
}

/// The layout for the browser that names itself `user_agent` and whose
/// window is `inner_width` pixels wide: mobile where the name holds `mobi`,
/// in capitals or not, or the window is narrower than `MOBILE_WIDTH`.
pub fn get_ui_type(user_agent: &str, inner_width: u32) -> (ui: UiType)
    ensures
        ui == layout_for(occurs(lowercase(user_agent@), "mobi"@), inner_width),
{
    let lower = to_lowercase(user_agent);
    UiType::detect(contains(lower.as_str(), "mobi"), inner_width)
}

impl Visualizer {
    /// Whether this view shows the pitch, so that a tick has to detect it.
    pub fn needs_pitch(&self) -> (needed: bool)
        ensures
            needed == (*self == Visualizer::Freq),
    {
        match self {
            Visualizer::Freq => true,
            Visualizer::RMS => false,
            Visualizer::WaveShape => false,
        }
    }
}

impl UiType {
    /// The layout for a browser: mobile where the browser calls itself one or
    /// its window is narrower than `MOBILE_WIDTH`.
    pub fn detect(mobile_agent: bool, inner_width: u32) -> (ui: UiType)
        ensures
            ui == layout_for(mobile_agent, inner_width),
    {
        if mobile_agent || inner_width < MOBILE_WIDTH {
            UiType::Mobile
        } else {
            UiType::Desktop
        }
    }
}

} // verus!
