//! The frame stages of the UI and the order they run in.
use vstd::prelude::*;
use std::marker::PhantomData;
use std::ops::Range;

verus! {

/// The stages of the UI's frame, which run one after another: content is
/// prepared, the viewports are stacked, the layout is synchronised, solved and
/// propagated, and later work follows.
#[derive(Clone, Copy, Debug, PartialEq, Eq, Hash, Structural)]
pub enum UiSystems {
    Prepare,
    Content,
    Stack,
    Layout,
    PostLayout,
}

pub open spec fn ui_stage_rank(s: UiSystems) -> nat {
    match s {
        UiSystems::Prepare => 0,
        UiSystems::Content => 1,
        UiSystems::Stack => 2,
        UiSystems::Layout => 3,
        UiSystems::PostLayout => 4,
    }
}

impl UiSystems {
    /// The stage's place in the frame, from 0.
    pub fn rank(self) -> (r: u8)
        ensures
            r == ui_stage_rank(self),
    {
        match self {
            UiSystems::Prepare => 0,
            UiSystems::Content => 1,
            UiSystems::Stack => 2,
            UiSystems::Layout => 3,
            UiSystems::PostLayout => 4,
        }
    }

    /// Whether this stage runs before `other`.
    pub fn runs_before(self, other: UiSystems) -> (r: bool)
        ensures
            r == (ui_stage_rank(self) < ui_stage_rank(other)),
    {
        self.rank() < other.rank()
    }
}

/// The stages that copy the UI out for rendering: the camera views first, then
/// shadows, boxes, images and text.
#[derive(Clone, Copy, Debug, PartialEq, Eq, Hash, Structural)]
pub enum ExtractUiSystems {
    CameraViews,
    Shadows,
    Divs,
    Images,
    Texts,
}

pub open spec fn extract_stage_rank(s: ExtractUiSystems) -> nat {
    match s {
        ExtractUiSystems::CameraViews => 0,
        ExtractUiSystems::Shadows => 1,
        ExtractUiSystems::Divs => 2,
        ExtractUiSystems::Images => 3,
        ExtractUiSystems::Texts => 4,
    }
}

impl ExtractUiSystems {
    /// The stage's place among the extraction stages, from 0.
    pub fn rank(self) -> (r: u8)
        ensures
            r == extract_stage_rank(self),
    {
        match self {
            ExtractUiSystems::CameraViews => 0,
            ExtractUiSystems::Shadows => 1,
            ExtractUiSystems::Divs => 2,
            ExtractUiSystems::Images => 3,
            ExtractUiSystems::Texts => 4,
        }
    }
}

/// A run of consecutive draw instances of one kind `T`, drawn in one call.
pub struct UiBatch<T> {
    pub range: Range<u32>,
    pub _marker: PhantomData<T>,
}

impl<T> UiBatch<T> {
    /// A batch over the instances in `range`.
    pub fn new(range: Range<u32>) -> (r: UiBatch<T>)
        ensures
            r.range == range,
    {
        UiBatch { range, _marker: PhantomData }
    }

    /// How many instances the batch draws (none for a reversed range).
    pub fn len(&self) -> (r: u32)
        ensures
            r == if self.range.end >= self.range.start {
                (self.range.end - self.range.start) as u32
            } else {
                0
            },
    {
        if self.range.end >= self.range.start {
            self.range.end - self.range.start
        } else {
            0
        }
    }
}

/// The whole UI: the core passes and the rendering that consumes them.
pub struct MoonPlugin;

/// The core passes: stacking, layout synchronisation and geometry propagation.
pub struct MoonCorePlugin;

/// The rendering of stacked, laid-out UI.
pub struct MoonRenderPlugin;

} // verus!
