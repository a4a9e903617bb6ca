//! What a target of a whole draw must be.

use crate::format::TextureFormat;
use crate::geometry::Size;
use vstd::prelude::*;

verus! {

/// What is asked about the texture behind a root target view.
#[derive(Debug, Clone, Copy, PartialEq, Eq, Structural)]
pub struct RootTarget {
    pub is_two_dimensional: bool,
    pub array_layers: u32,
    pub mip_levels: u32,
    pub sample_count: u32,
    pub format: TextureFormat,
    pub extent: Size,
}

/// Why a texture cannot be the root target of a draw.
#[derive(Debug, Clone, Copy, PartialEq, Eq, Structural)]
pub enum RootTargetError {
    Dimension,
    ArrayLayers,
    MipLevels,
    SampleCount,
    Format,
    Extent,
}

impl RootTargetError {
    /// Returns what a root target must be.
    pub fn message(&self) -> (message: &'static str)
        ensures
            message@ == (match *self {
                RootTargetError::Dimension => "root target must be a 2D texture"@,
                RootTargetError::ArrayLayers => "root target must have one array layer"@,
                RootTargetError::MipLevels => "root target must have one mip level"@,
                RootTargetError::SampleCount => "root target must have sample count 1"@,
                RootTargetError::Format =>
                    "root target format must match its renderer"@,
                RootTargetError::Extent =>
                    "root target extent must match the viewport"@,
            }),
    {
        match self {
            RootTargetError::Dimension => "root target must be a 2D texture",
            RootTargetError::ArrayLayers => "root target must have one array layer",
            RootTargetError::MipLevels => "root target must have one mip level",
            RootTargetError::SampleCount => "root target must have sample count 1",
            RootTargetError::Format => "root target format must match its renderer",
            RootTargetError::Extent => "root target extent must match the viewport",
        }
    }
}

/// The first way in which a texture fails to be a root target.
pub open spec fn root_target_error(
    target: RootTarget,
    viewport: Size,
    format: TextureFormat,
) -> Option<RootTargetError> {
    if !target.is_two_dimensional {
        Some(RootTargetError::Dimension)
    } else if target.array_layers != 1 {
        Some(RootTargetError::ArrayLayers)
    } else if target.mip_levels != 1 {
        Some(RootTargetError::MipLevels)
    } else if target.sample_count != 1 {
        Some(RootTargetError::SampleCount)
    } else if target.format != format {
        Some(RootTargetError::Format)
    } else if target.extent != viewport {
        Some(RootTargetError::Extent)
    } else {
        None
    }
}

/// Checks that a texture can be the root target of a draw.
///
/// It must be the full, base-mip view of a single-layer, single-mip, two-dimensional texture
/// with one sample, whose extent is that of the viewport and whose format is that of the
/// renderer.
pub fn validate_root_target(target: RootTarget, viewport: Size, format: TextureFormat) -> (result:
    Result<(), RootTargetError>)
    ensures
        match result {
            Ok(_) => root_target_error(target, viewport, format) is None,
            Err(error) => root_target_error(target, viewport, format) == Some(error),
        },
{
    if !target.is_two_dimensional {
        Err(RootTargetError::Dimension)
    } else if target.array_layers != 1 {
        Err(RootTargetError::ArrayLayers)
    } else if target.mip_levels != 1 {
        Err(RootTargetError::MipLevels)
    } else if target.sample_count != 1 {
        Err(RootTargetError::SampleCount)
    } else if target.format != format {
        Err(RootTargetError::Format)
    } else if target.extent != viewport {
        Err(RootTargetError::Extent)
    } else {
        Ok(())
    }
}

/// A texture can be the root target exactly if it is two-dimensional, has one array layer, one
/// mip level and one sample, the renderer's format and the viewport's extent. What is reported
/// is something that it lacks.
pub proof fn root_targets_are_plain_textures(
    target: RootTarget,
    viewport: Size,
    format: TextureFormat,
)
    ensures
        root_target_error(target, viewport, format) is None <==> {
            &&& target.is_two_dimensional
            &&& target.array_layers == 1
            &&& target.mip_levels == 1
            &&& target.sample_count == 1
            &&& target.format == format
            &&& target.extent == viewport
        },
        root_target_error(target, viewport, format) matches Some(error) ==> match error {
            RootTargetError::Dimension => !target.is_two_dimensional,
            RootTargetError::ArrayLayers => target.array_layers != 1,
            RootTargetError::MipLevels => target.mip_levels != 1,
            RootTargetError::SampleCount => target.sample_count != 1,
            RootTargetError::Format => target.format != format,
            RootTargetError::Extent => target.extent != viewport,
        },
{
}

/// Mending what is reported brings the next report no closer to the front: failures are told in
/// one fixed order.
pub proof fn earlier_failures_are_told_first(
    target: RootTarget,
    viewport: Size,
    format: TextureFormat,
)
    ensures
        !target.is_two_dimensional ==> root_target_error(target, viewport, format) == Some(
            RootTargetError::Dimension,
        ),
        target.is_two_dimensional && target.array_layers != 1 ==> root_target_error(
            target,
            viewport,
            format,
        ) == Some(RootTargetError::ArrayLayers),
        root_target_error(target, viewport, format) == Some(RootTargetError::Extent)
            ==> target.format == format && target.sample_count == 1,
{
}

} // verus!
