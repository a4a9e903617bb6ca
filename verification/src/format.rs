//! Texture formats of layer targets and the memory they take.

use crate::geometry::{div_ceil, groups, Size};
use vstd::prelude::*;

verus! {

/// The colour formats that can be rendered to, blended and filtered, and so can back a
/// layer target.
#[derive(Debug, Clone, Copy, PartialEq, Eq, Hash, Structural)]
pub enum TextureFormat {
    R8Unorm,
    Rg8Unorm,
    R16Float,
    Rgba8Unorm,
    Rgba8UnormSrgb,
    Bgra8Unorm,
    Bgra8UnormSrgb,
    Rgb10a2Unorm,
    Rg11b10Ufloat,
    Rg16Float,
    Rgba16Float,
}

impl TextureFormat {
    /// Bytes of one texel.
    pub open spec fn texel_bytes(self) -> u32 {
        match self {
            TextureFormat::R8Unorm => 1,
            TextureFormat::Rg8Unorm | TextureFormat::R16Float => 2,
            TextureFormat::Rgba16Float => 8,
            _ => 4,
        }
    }

    /// A number that no other format has.
    pub open spec fn code(self) -> u32 {
        match self {
            TextureFormat::R8Unorm => 0,
            TextureFormat::Rg8Unorm => 1,
            TextureFormat::R16Float => 2,
            TextureFormat::Rgba8Unorm => 3,
            TextureFormat::Rgba8UnormSrgb => 4,
            TextureFormat::Bgra8Unorm => 5,
            TextureFormat::Bgra8UnormSrgb => 6,
            TextureFormat::Rgb10a2Unorm => 7,
            TextureFormat::Rg11b10Ufloat => 8,
            TextureFormat::Rg16Float => 9,
            TextureFormat::Rgba16Float => 10,
        }
    }

    /// Returns a number that no other format has.
    pub fn to_code(self) -> (code: u32)
        ensures
            code == self.code(),
    {
        match self {
            TextureFormat::R8Unorm => 0,
            TextureFormat::Rg8Unorm => 1,
            TextureFormat::R16Float => 2,
            TextureFormat::Rgba8Unorm => 3,
            TextureFormat::Rgba8UnormSrgb => 4,
            TextureFormat::Bgra8Unorm => 5,
            TextureFormat::Bgra8UnormSrgb => 6,
            TextureFormat::Rgb10a2Unorm => 7,
            TextureFormat::Rg11b10Ufloat => 8,
            TextureFormat::Rg16Float => 9,
            TextureFormat::Rgba16Float => 10,
        }
    }
}

/// `wgpu::TextureFormat::block_dimensions` of the format with the same name.
///
/// Uncompressed formats have texel blocks of one texel, and every format here is
/// uncompressed.
#[verifier::external_body]
fn block_dimensions(format: TextureFormat) -> (dimensions: (u32, u32))
    ensures
        dimensions == (1u32, 1u32),
{
    let native = match format {
        TextureFormat::R8Unorm => wgpu::TextureFormat::R8Unorm,
        TextureFormat::Rg8Unorm => wgpu::TextureFormat::Rg8Unorm,
        TextureFormat::R16Float => wgpu::TextureFormat::R16Float,
        TextureFormat::Rgba8Unorm => wgpu::TextureFormat::Rgba8Unorm,
        TextureFormat::Rgba8UnormSrgb => wgpu::TextureFormat::Rgba8UnormSrgb,
        TextureFormat::Bgra8Unorm => wgpu::TextureFormat::Bgra8Unorm,
        TextureFormat::Bgra8UnormSrgb => wgpu::TextureFormat::Bgra8UnormSrgb,
        TextureFormat::Rgb10a2Unorm => wgpu::TextureFormat::Rgb10a2Unorm,
        TextureFormat::Rg11b10Ufloat => wgpu::TextureFormat::Rg11b10Ufloat,
        TextureFormat::Rg16Float => wgpu::TextureFormat::Rg16Float,
        TextureFormat::Rgba16Float => wgpu::TextureFormat::Rgba16Float,
    };
    native.block_dimensions()
}

/// `wgpu::TextureFormat::block_copy_size`, without an aspect, of the format with the same
/// name.
///
/// For an uncompressed colour format it is the size of one texel.
#[verifier::external_body]
fn block_copy_size(format: TextureFormat) -> (bytes: Option<u32>)
    ensures
        bytes == Some(format.texel_bytes()),
{
    let native = match format {
        TextureFormat::R8Unorm => wgpu::TextureFormat::R8Unorm,
        TextureFormat::Rg8Unorm => wgpu::TextureFormat::Rg8Unorm,
        TextureFormat::R16Float => wgpu::TextureFormat::R16Float,
        TextureFormat::Rgba8Unorm => wgpu::TextureFormat::Rgba8Unorm,
        TextureFormat::Rgba8UnormSrgb => wgpu::TextureFormat::Rgba8UnormSrgb,
        TextureFormat::Bgra8Unorm => wgpu::TextureFormat::Bgra8Unorm,
        TextureFormat::Bgra8UnormSrgb => wgpu::TextureFormat::Bgra8UnormSrgb,
        TextureFormat::Rgb10a2Unorm => wgpu::TextureFormat::Rgb10a2Unorm,
        TextureFormat::Rg11b10Ufloat => wgpu::TextureFormat::Rg11b10Ufloat,
        TextureFormat::Rg16Float => wgpu::TextureFormat::Rg16Float,
        TextureFormat::Rgba16Float => wgpu::TextureFormat::Rgba16Float,
    };
    native.block_copy_size(None)
}

/// Bytes of a texture, saturated at the largest number that a byte count can hold.
pub open spec fn texture_bytes(format: TextureFormat, extent: Size) -> u64 {
    let bytes = extent.width * extent.height * format.texel_bytes();
    if bytes > u64::MAX {
        u64::MAX
    } else {
        bytes as u64
    }
}

fn saturating_product(left: u64, right: u64) -> (product: u64)
    ensures
        product == (if left * right > u64::MAX {
            u64::MAX as int
        } else {
            left * right
        }),
{
    match left.checked_mul(right) {
        Some(product) => product,
        None => u64::MAX,
    }
}

/// Returns the memory that a texture of the given format and extent takes.
pub fn texture_byte_size(format: TextureFormat, extent: Size) -> (bytes: u64)
    ensures
        bytes == texture_bytes(format, extent),
{
    let (block_width, block_height) = block_dimensions(format);
    let bytes_per_block: u32 = match block_copy_size(format) {
        Some(bytes) => bytes,
        None => 0,
    };
    let columns: u32 = div_ceil(extent.width, block_width);
    let rows: u32 = div_ceil(extent.height, block_height);
    proof {
        assert(groups(extent.width as int, 1) == extent.width);
        assert(groups(extent.height as int, 1) == extent.height);
        assert(columns * rows <= u64::MAX) by (nonlinear_arith)
            requires
                0 <= columns <= u32::MAX,
                0 <= rows <= u32::MAX,
        ;
    }
    saturating_product(saturating_product(columns as u64, rows as u64), bytes_per_block as u64)
}

/// A texture takes the bytes of its channels for every texel: one byte for a channel of eight
/// bits, two for a half-precision one, and four for the packed formats.
pub proof fn textures_take_the_bytes_of_their_channels(extent: Size)
    requires
        8 * extent.width * extent.height <= u64::MAX,
    ensures
        ({
            let one = extent.width * extent.height;
            &&& texture_bytes(TextureFormat::R8Unorm, extent) == one
            &&& texture_bytes(TextureFormat::Rg8Unorm, extent) == 2 * one
            &&& texture_bytes(TextureFormat::R16Float, extent) == 2 * one
            &&& texture_bytes(TextureFormat::Rgba8Unorm, extent) == 4 * one
            &&& texture_bytes(TextureFormat::Rgba8UnormSrgb, extent) == 4 * one
            &&& texture_bytes(TextureFormat::Bgra8Unorm, extent) == 4 * one
            &&& texture_bytes(TextureFormat::Bgra8UnormSrgb, extent) == 4 * one
            &&& texture_bytes(TextureFormat::Rgb10a2Unorm, extent) == 4 * one
            &&& texture_bytes(TextureFormat::Rg11b10Ufloat, extent) == 4 * one
            &&& texture_bytes(TextureFormat::Rg16Float, extent) == 4 * one
            &&& texture_bytes(TextureFormat::Rgba16Float, extent) == 8 * one
        }),
{
    let one = extent.width * extent.height;
    assert(8 * extent.width * extent.height == 8 * one) by (nonlinear_arith)
        requires
            one == extent.width * extent.height,
    ;
    assert(one >= 0) by (nonlinear_arith)
        requires
            one == extent.width * extent.height,
    ;
    assert(one * 1 == one && one * 2 == 2 * one && one * 4 == 4 * one && one * 8 == 8 * one);
}

/// A texture with more bytes than a count can hold takes the largest count.
pub proof fn byte_counts_saturate(format: TextureFormat, extent: Size)
    requires
        extent.width * extent.height > u64::MAX / 2,
        format != TextureFormat::R8Unorm,
    ensures
        texture_bytes(format, extent) == u64::MAX,
{
    let one = extent.width * extent.height;
    assert(one * 2 == 2 * one && one * 4 == 4 * one && one * 8 == 8 * one);
}

} // verus!
