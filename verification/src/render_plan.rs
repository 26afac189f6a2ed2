//! What a render mode does to the viewport. Every switch first restores each
//! mesh material to its original state; the plan then says what is
//! overridden on top of it, and whether the wireframe overlay is drawn.

use vstd::prelude::*;
use crate::render_mode::RenderMode;

verus! {

/// Where a material's base color comes from.
#[derive(PartialEq, Eq, Structural, Clone, Copy, Debug)]
pub enum BaseColor {
    /// The material's own color.
    Original,
    /// The Solid-mode single color, opaque.
    SolidColor,
    /// The Solid-mode single color at the Skeleton-mode mesh opacity.
    SolidColorWithMeshAlpha,
    /// Light grey, partly transparent, under the wireframe.
    GreyShell,
    /// Light grey, almost invisible, under an X-ray wireframe.
    FaintGreyShell,
    /// The placeholder blue of the normal preview.
    NormalPreview,
    /// The distinct color of the mesh with this index.
    Palette(usize),
}

/// The metallic factor of a material.
#[derive(PartialEq, Eq, Structural, Clone, Copy, Debug)]
pub enum Metallic {
    Original,
    Zero,
    Half,
}

/// The perceptual roughness of a material.
#[derive(PartialEq, Eq, Structural, Clone, Copy, Debug)]
pub enum Roughness {
    Original,
    /// The Solid-mode roughness setting, clamped to `0..=1`.
    SolidSetting,
    Half,
    /// Mostly matte (0.8).
    Matte,
    Full,
}

/// How a material blends.
#[derive(PartialEq, Eq, Structural, Clone, Copy, Debug)]
pub enum Alpha {
    Original,
    Opaque,
    Blend,
}

/// Which faces a material culls.
#[derive(PartialEq, Eq, Structural, Clone, Copy, Debug)]
pub enum Culling {
    Original,
    NoCulling,
    BackFaces,
}

/// What a render mode sets on a mesh material; `None` and `Original` keep
/// the restored original value.
#[derive(PartialEq, Eq, Structural, Clone, Copy, Debug)]
pub struct MaterialOverride {
    pub base_color: BaseColor,
    pub alpha: Alpha,
    pub metallic: Metallic,
    pub roughness: Roughness,
    pub unlit: Option<bool>,
    pub double_sided: Option<bool>,
    pub culling: Culling,
}

/// The color of the global wireframe overlay.
#[derive(PartialEq, Eq, Structural, Clone, Copy, Debug)]
pub enum WireColor {
    Unchanged,
    /// The configured wireframe color, opaque.
    Opaque,
    /// The configured wireframe color, slightly transparent (X-ray).
    Translucent,
}

/// What a render mode does beyond the mesh materials.
#[derive(PartialEq, Eq, Structural, Clone, Copy, Debug)]
pub struct RenderPlan {
    /// The global wireframe overlay is drawn.
    pub wireframe_overlay: bool,
    pub wire_color: WireColor,
    /// Meshes get their rest-pose geometry back.
    pub restore_geometry: bool,
    /// Each mesh is listed with its own palette color.
    pub component_colors: bool,
}

/// The settings that change what a render mode does.
#[derive(PartialEq, Eq, Structural, Clone, Copy, Debug)]
pub struct RenderSwitches {
    /// Solid mode shows specular highlights.
    pub specular_highlights: bool,
    /// Solid mode culls back faces.
    pub backface_culling: bool,
    /// Wireframe mode draws in X-ray style.
    pub wireframe_xray: bool,
}

/// The override of the solid-looking modes, with the given color and alpha.
pub open spec fn solid_like(sw: RenderSwitches, color: BaseColor, alpha: Alpha) -> MaterialOverride {
    MaterialOverride {
        base_color: color,
        alpha: alpha,
        metallic: Metallic::Zero,
        roughness: if sw.specular_highlights {
            Roughness::SolidSetting
        } else {
            Roughness::Full
        },
        unlit: Some(false),
        double_sided: Some(!sw.backface_culling),
        culling: if sw.backface_culling {
            Culling::BackFaces
        } else {
            Culling::NoCulling
        },
    }
}

/// What `mode` sets on the material of the mesh with index `index`.
pub open spec fn spec_material_override(
    mode: RenderMode,
    sw: RenderSwitches,
    index: usize,
) -> MaterialOverride {
    match mode {
        RenderMode::Solid => solid_like(sw, BaseColor::SolidColor, Alpha::Opaque),
        RenderMode::Animation => solid_like(sw, BaseColor::SolidColor, Alpha::Opaque),
        RenderMode::Skeleton => solid_like(sw, BaseColor::SolidColorWithMeshAlpha, Alpha::Blend),
        RenderMode::Wireframe => MaterialOverride {
            base_color: if sw.wireframe_xray {
                BaseColor::FaintGreyShell
            } else {
                BaseColor::GreyShell
            },
            alpha: Alpha::Blend,
            metallic: if sw.wireframe_xray {
                Metallic::Zero
            } else {
                Metallic::Half
            },
            roughness: if sw.wireframe_xray {
                Roughness::Full
            } else {
                Roughness::Half
            },
            unlit: Some(sw.wireframe_xray),
            double_sided: Some(true),
            culling: Culling::NoCulling,
        },
        RenderMode::Material => MaterialOverride {
            base_color: BaseColor::Original,
            alpha: Alpha::Original,
            metallic: Metallic::Original,
            roughness: Roughness::Original,
            unlit: None,
            double_sided: None,
            culling: Culling::Original,
        },
        RenderMode::Normal => MaterialOverride {
            base_color: BaseColor::NormalPreview,
            alpha: Alpha::Opaque,
            metallic: Metallic::Zero,
            roughness: Roughness::Full,
            unlit: Some(false),
            double_sided: None,
            culling: Culling::Original,
        },
        RenderMode::Component => MaterialOverride {
            base_color: BaseColor::Palette(index),
            alpha: Alpha::Opaque,
            metallic: Metallic::Zero,
            roughness: Roughness::Matte,
            unlit: Some(false),
            double_sided: Some(true),
            culling: Culling::NoCulling,
        },
    }
}

/// What `mode` does beyond the materials.
pub open spec fn spec_render_plan(mode: RenderMode, sw: RenderSwitches) -> RenderPlan {
    RenderPlan {
        wireframe_overlay: mode == RenderMode::Wireframe,
        wire_color: if mode != RenderMode::Wireframe {
            WireColor::Unchanged
        } else if sw.wireframe_xray {
            WireColor::Translucent
        } else {
            WireColor::Opaque
        },
        restore_geometry: mode != RenderMode::Animation,
        component_colors: mode == RenderMode::Component,
    }
}

fn solid_like_override(sw: RenderSwitches, color: BaseColor, alpha: Alpha) -> (r: MaterialOverride)
    ensures
        r == solid_like(sw, color, alpha),
{
    MaterialOverride {
        base_color: color,
        alpha: alpha,
        metallic: Metallic::Zero,
        roughness: if sw.specular_highlights {
            Roughness::SolidSetting
        } else {
            Roughness::Full
        },
        unlit: Some(false),
        double_sided: Some(!sw.backface_culling),
        culling: if sw.backface_culling {
            Culling::BackFaces
        } else {
            Culling::NoCulling
        },
    }
}

/// What `mode` sets on the (restored) material of the mesh with index `index`.
pub fn material_override(mode: RenderMode, sw: RenderSwitches, index: usize) -> (r: MaterialOverride)
    ensures
        r == spec_material_override(mode, sw, index),
{
    match mode {
        RenderMode::Solid => solid_like_override(sw, BaseColor::SolidColor, Alpha::Opaque),
        RenderMode::Animation => solid_like_override(sw, BaseColor::SolidColor, Alpha::Opaque),
        RenderMode::Skeleton => solid_like_override(
            sw,
            BaseColor::SolidColorWithMeshAlpha,
            Alpha::Blend,
        ),
        RenderMode::Wireframe => {
            let xray = sw.wireframe_xray;
            MaterialOverride {
                base_color: if xray {
                    BaseColor::FaintGreyShell
                } else {
                    BaseColor::GreyShell
                },
                alpha: Alpha::Blend,
                metallic: if xray {
                    Metallic::Zero
                } else {
                    Metallic::Half
                },
                roughness: if xray {
                    Roughness::Full
                } else {
                    Roughness::Half
                },
                unlit: Some(xray),
                double_sided: Some(true),
                culling: Culling::NoCulling,
            }
        },
        RenderMode::Material => MaterialOverride {
            base_color: BaseColor::Original,
            alpha: Alpha::Original,
            metallic: Metallic::Original,
            roughness: Roughness::Original,
            unlit: None,
            double_sided: None,
            culling: Culling::Original,
        },
        RenderMode::Normal => MaterialOverride {
            base_color: BaseColor::NormalPreview,
            alpha: Alpha::Opaque,
            metallic: Metallic::Zero,
            roughness: Roughness::Full,
            unlit: Some(false),
            double_sided: None,
            culling: Culling::Original,
        },
        RenderMode::Component => MaterialOverride {
            base_color: BaseColor::Palette(index),
            alpha: Alpha::Opaque,
            metallic: Metallic::Zero,
            roughness: Roughness::Matte,
            unlit: Some(false),
            double_sided: Some(true),
            culling: Culling::NoCulling,
        },
    }
}

/// What `mode` does beyond the materials.
pub fn render_plan(mode: RenderMode, sw: RenderSwitches) -> (r: RenderPlan)
    ensures
        r == spec_render_plan(mode, sw),
{
    let wire = match mode {
        RenderMode::Wireframe => true,
        _ => false,
    };
    let animation = match mode {
        RenderMode::Animation => true,
        _ => false,
    };
    let component = match mode {
        RenderMode::Component => true,
        _ => false,
    };
    RenderPlan {
        wireframe_overlay: wire,
        wire_color: if !wire {
            WireColor::Unchanged
        } else if sw.wireframe_xray {
            WireColor::Translucent
        } else {
            WireColor::Opaque
        },
        restore_geometry: !animation,
        component_colors: component,
    }
}

/// The modes play distinct roles: only the wireframe mode draws the overlay,
/// every mode but the animation mode puts the meshes back in their rest
/// pose, only the material mode leaves every material as it was, and only the
/// component mode colours meshes by index, giving distinct meshes distinct
/// palette entries. Every other mode replaces the base color and the blending.
pub proof fn law_render_modes_roles(
    mode: RenderMode,
    sw: RenderSwitches,
    i: usize,
    j: usize,
)
    ensures
        spec_render_plan(mode, sw).wireframe_overlay <==> mode == RenderMode::Wireframe,
        spec_render_plan(mode, sw).restore_geometry <==> mode != RenderMode::Animation,
        spec_material_override(mode, sw, i).base_color == BaseColor::Original <==> mode
            == RenderMode::Material,
        mode != RenderMode::Material ==> spec_material_override(mode, sw, i).alpha
            != Alpha::Original,
        (spec_material_override(mode, sw, i).base_color is Palette) <==> mode
            == RenderMode::Component,
        mode == RenderMode::Component && i != j ==> spec_material_override(mode, sw, i).base_color
            != spec_material_override(mode, sw, j).base_color,
        mode != RenderMode::Component ==> spec_material_override(mode, sw, i)
            == spec_material_override(mode, sw, j),
{
}

/// The see-through modes blend: the grey shell under the wireframe (in
/// X-ray style or not) and the faded mesh of the skeleton view let what lies
/// behind show, so their materials blend, for every setting and every mesh.
/// The solid-looking modes (solid, animation, normal preview, component)
/// draw opaque, and the material mode keeps each material's own blending.
pub proof fn law_see_through_modes_blend(mode: RenderMode, sw: RenderSwitches, i: usize)
    ensures
        spec_material_override(mode, sw, i).alpha == Alpha::Blend <==> (mode
            == RenderMode::Wireframe || mode == RenderMode::Skeleton),
        spec_material_override(mode, sw, i).alpha == Alpha::Opaque <==> (mode == RenderMode::Solid
            || mode == RenderMode::Animation || mode == RenderMode::Normal || mode
            == RenderMode::Component),
        spec_material_override(mode, sw, i).alpha == Alpha::Original <==> mode
            == RenderMode::Material,
        match spec_material_override(mode, sw, i).base_color {
            BaseColor::GreyShell | BaseColor::FaintGreyShell | BaseColor::SolidColorWithMeshAlpha => 
                spec_material_override(mode, sw, i).alpha == Alpha::Blend,
            _ => true,
        },
{
}

} // verus!
