//! Render modes of the viewport and the mode chosen at startup.

use vstd::prelude::*;

verus! {

/// Available render modes for the 3D viewport.
#[derive(PartialEq, Eq, Structural, Clone, Copy, Debug)]
pub enum RenderMode {
    /// Uniform color with simple lighting.
    Solid,
    Wireframe,
    Material,
    Normal,
    /// Each mesh node in a color of its own.
    Component,
    /// Semi-transparent mesh with the skeleton drawn over it.
    Skeleton,
    /// Mesh rendering while an animation plays.
    Animation,
}

impl Default for RenderMode {
    fn default() -> (r: Self)
        ensures
            r == RenderMode::Solid,
    {
        RenderMode::Solid
    }
}

/// Tracks the currently active render mode.
#[derive(Clone, Copy, Debug)]
pub struct RenderModeState {
    pub current_mode: RenderMode,
}

impl Default for RenderModeState {
    fn default() -> (r: Self)
        ensures
            r.current_mode == RenderMode::Component,
    {
        RenderModeState { current_mode: RenderMode::Component }
    }
}

/// Color theme for the application.
#[derive(PartialEq, Eq, Structural, Clone, Copy, Debug)]
pub enum Theme {
    Dark,
    Light,
}

impl Default for Theme {
    fn default() -> (r: Self)
        ensures
            r == Theme::Dark,
    {
        Theme::Dark
    }
}

/// The render mode a session starts in (the animation mode is not offered).
#[derive(PartialEq, Eq, Structural, Clone, Copy, Debug)]
pub enum StartupRenderMode {
    Solid,
    Wireframe,
    Material,
    Component,
    Skeleton,
}

impl Default for StartupRenderMode {
    fn default() -> (r: Self)
        ensures
            r == StartupRenderMode::Component,
    {
        StartupRenderMode::Component
    }
}

/// The render mode that a startup mode stands for.
pub open spec fn spec_startup_mode(m: StartupRenderMode) -> RenderMode {
    match m {
        StartupRenderMode::Solid => RenderMode::Solid,
        StartupRenderMode::Wireframe => RenderMode::Wireframe,
        StartupRenderMode::Material => RenderMode::Material,
        StartupRenderMode::Component => RenderMode::Component,
        StartupRenderMode::Skeleton => RenderMode::Skeleton,
    }
}

impl StartupRenderMode {
    pub fn to_render_mode(self) -> (r: RenderMode)
        ensures
            r == spec_startup_mode(self),
    {
        match self {
            StartupRenderMode::Solid => RenderMode::Solid,
            StartupRenderMode::Wireframe => RenderMode::Wireframe,
            StartupRenderMode::Material => RenderMode::Material,
            StartupRenderMode::Component => RenderMode::Component,
            StartupRenderMode::Skeleton => RenderMode::Skeleton,
        }
    }
}

/// Different startup modes start different render modes, and none of them
/// starts the normal or the animation mode.
pub proof fn law_startup_modes_are_distinct(a: StartupRenderMode, b: StartupRenderMode)
    ensures
        spec_startup_mode(a) == spec_startup_mode(b) ==> a == b,
        spec_startup_mode(a) != RenderMode::Normal,
        spec_startup_mode(a) != RenderMode::Animation,
{
}

} // verus!
