use vstd::prelude::*;

use vstd::string::StringExecFns;

use crate::names::{decimal, push_decimal};
use crate::pixels::{
    r16_to_rgba, r16_to_rgba_spec, r8_to_rgba, r8_to_rgba_spec, rg16_to_rgba, rg16_to_rgba_spec,
    rg8_to_rgba, rg8_to_rgba_spec, rgb16_to_rgba8, rgb16_to_rgba8_spec, rgb_to_rgba,
    rgb_to_rgba_spec, rgba16_to_rgba8, rgba16_to_rgba8_spec,
};

verus! {

/// Pixel layouts an embedded glTF image can come in.
#[derive(Clone, Copy, Debug, PartialEq, Eq, Structural)]
pub enum PixelFormat {
    R8,
    R8G8,
    R8G8B8,
    R8G8B8A8,
    R16,
    R16G16,
    R16G16B16,
    R16G16B16A16,
    R32G32B32FLOAT,
    R32G32B32A32FLOAT,
}

impl PixelFormat {
    pub open spec fn is_float(self) -> bool {
        self == PixelFormat::R32G32B32FLOAT || self == PixelFormat::R32G32B32A32FLOAT
    }
}

/// The RGBA8 pixels of an image in an integer layout.
pub open spec fn rgba8_of(format: PixelFormat, d: Seq<u8>) -> Seq<u8> {
    match format {
        PixelFormat::R8 => r8_to_rgba_spec(d),
        PixelFormat::R8G8 => rg8_to_rgba_spec(d),
        PixelFormat::R8G8B8 => rgb_to_rgba_spec(d),
        PixelFormat::R8G8B8A8 => d,
        PixelFormat::R16 => r16_to_rgba_spec(d),
        PixelFormat::R16G16 => rg16_to_rgba_spec(d),
        PixelFormat::R16G16B16 => rgb16_to_rgba8_spec(d),
        PixelFormat::R16G16B16A16 => rgba16_to_rgba8_spec(d),
        _ => d,
    }
}

/// Converts pixels in an integer layout to RGBA8. The two float layouts are
/// converted by the caller: for them the result is `None`.
pub fn pixels_to_rgba8(format: PixelFormat, pixels: &[u8]) -> (r: Option<Vec<u8>>)
    ensures
        r is None <==> format.is_float(),
        r matches Some(v) ==> v@ == rgba8_of(format, pixels@),
{
    match format {
        PixelFormat::R8G8B8A8 => {
            let mut v: Vec<u8> = Vec::new();
            let mut i: usize = 0;
            while i < pixels.len()
                invariant
                    i <= pixels@.len(),
                    v@ == pixels@.subrange(0, i as int),
                decreases pixels@.len() - i,
            {
                v.push(pixels[i]);
                i = i + 1;
                assert(v@ =~= pixels@.subrange(0, i as int));
            }
            assert(pixels@.subrange(0, pixels@.len() as int) =~= pixels@);
            Some(v)
        },
        PixelFormat::R8G8B8 => Some(rgb_to_rgba(pixels)),
        PixelFormat::R16G16B16A16 => Some(rgba16_to_rgba8(pixels)),
        PixelFormat::R16G16B16 => Some(rgb16_to_rgba8(pixels)),
        PixelFormat::R8 => Some(r8_to_rgba(pixels)),
        PixelFormat::R16 => Some(r16_to_rgba(pixels)),
        PixelFormat::R8G8 => Some(rg8_to_rgba(pixels)),
        PixelFormat::R16G16 => Some(rg16_to_rgba(pixels)),
        PixelFormat::R32G32B32FLOAT => None,
        PixelFormat::R32G32B32A32FLOAT => None,
    }
}

/// A texture decoded from a glTF file, in RGBA8.
pub struct GltfLoadedTexture {
    pub cache_key: String,
    pub rgba: Vec<u8>,
    pub width: u32,
    pub height: u32,
}

pub open spec fn texture_cache_key_spec(file_path: Seq<char>, index: nat) -> Seq<char> {
    "gltf-embedded:"@ + file_path + "#texture_"@ + decimal(index)
}

/// The cache key of the `index`-th image embedded in `file_path`.
pub fn texture_cache_key(file_path: &str, index: u64) -> (r: String)
    ensures
        r@ == texture_cache_key_spec(file_path@, index as nat),
{
    let mut s = "gltf-embedded:".to_owned();
    s.append(file_path);
    s.append("#texture_");
    push_decimal(&mut s, index);
    s
}

/// The `index`-th embedded image of `file_path`, converted to RGBA8; `None`
/// for the float layouts, which the caller converts.
pub fn loaded_texture(file_path: &str, index: u64, format: PixelFormat, pixels: &[u8], width: u32, height: u32) -> (r:
    Option<GltfLoadedTexture>)
    ensures
        r is None <==> format.is_float(),
        r matches Some(t) ==> {
            &&& t.cache_key@ == texture_cache_key_spec(file_path@, index as nat)
            &&& t.rgba@ == rgba8_of(format, pixels@)
            &&& t.width == width
            &&& t.height == height
        },
{
    match pixels_to_rgba8(format, pixels) {
        Some(rgba) => Some(GltfLoadedTexture { cache_key: texture_cache_key(file_path, index), rgba, width, height }),
        None => None,
    }
}

/// A texture with its mip chain computed: level 0 is the full image.
pub struct PrecomputedTexture {
    pub cache_key: String,
    pub width: u32,
    pub height: u32,
    pub mip_levels: Vec<Vec<u8>>,
}

/// What the triangle filter of `image::imageops::resize` makes of an RGBA8
/// image of `width`×`height` when scaled to `new_width`×`new_height`.
pub uninterp spec fn resized_rgba(pixels: Seq<u8>, width: u32, height: u32, new_width: u32, new_height: u32) -> Seq<u8>;

/// `image::imageops::resize` with `FilterType::Triangle` on the RGBA8 image of
/// `width`×`height` that `pixels` holds. Building the image buffer
/// (`ImageBuffer::from_raw`) fails exactly when `pixels` holds fewer than
/// `4·width·height` bytes; otherwise the result holds the `new_width`×
/// `new_height` image the filter computes, four bytes per pixel.
#[verifier::external_body]
fn resize_rgba(pixels: &Vec<u8>, width: u32, height: u32, new_width: u32, new_height: u32) -> (r: Option<Vec<u8>>)
    requires
        4 * new_width * new_height <= isize::MAX,
    ensures
        r is Some <==> 4 * width * height <= pixels@.len(),
        r matches Some(v) ==> v@ == resized_rgba(pixels@, width, height, new_width, new_height) && v@.len() == 4
            * new_width * new_height,
{
    match image::ImageBuffer::<image::Rgba<u8>, Vec<u8>>::from_raw(width, height, pixels.clone()) {
        Some(img) => Some(
            image::imageops::resize(&img, new_width, new_height, image::imageops::FilterType::Triangle).into_raw(),
        ),
        None => None,
    }
}

/// The extent of mip level `level` along a side of `size` pixels.
pub open spec fn mip_extent(size: u32, level: nat) -> u32 {
    let s = (size as nat / vstd::arithmetic::power2::pow2(level)) as u32;
    if s < 1 {
        1
    } else {
        s
    }
}

/// Mip level `k` of an RGBA8 image: level 0 is the image, each further level
/// the previous one scaled down to the next extents.
pub open spec fn mip_level(rgba: Seq<u8>, width: u32, height: u32, k: nat) -> Seq<u8>
    decreases k,
{
    if k == 0 {
        rgba
    } else {
        let prev = (k - 1) as nat;
        let prev_w = if prev == 0 { width } else { mip_extent(width, prev) };
        let prev_h = if prev == 0 { height } else { mip_extent(height, prev) };
        resized_rgba(mip_level(rgba, width, height, prev), prev_w, prev_h, mip_extent(width, k), mip_extent(height, k))
    }
}

/// `max(size, 1)`.
pub open spec fn at_least_one(size: u32) -> int {
    if size < 1 {
        1
    } else {
        size as int
    }
}

/// Whether an RGBA8 buffer of `len` bytes holds a `width`×`height` image.
pub open spec fn rgba_fits(width: u32, height: u32, len: nat) -> bool {
    4 * width * height <= len
}

/// Computes the mip chain of a loaded texture, `mip_count` levels deep (the
/// caller derives the count from the texture's larger side). With a single
/// level the pixels are kept as they are. When the pixels do not hold the
/// whole image, the chain is one level of mid-grey.
pub fn precompute_mipmaps(tex: GltfLoadedTexture, mip_count: u32) -> (r: PrecomputedTexture)
    requires
        mip_count <= 32,
        mip_count > 1 ==> 4 * at_least_one(tex.width) * at_least_one(tex.height) <= isize::MAX,
        mip_count > 1 && !rgba_fits(tex.width, tex.height, tex.rgba@.len()) ==> 4 * tex.width * tex.height
            <= u32::MAX,
    ensures
        r.cache_key@ == tex.cache_key@,
        r.width == tex.width,
        r.height == tex.height,
        mip_count <= 1 ==> r.mip_levels@.len() == 1 && r.mip_levels@[0]@ == tex.rgba@,
        mip_count > 1 && rgba_fits(tex.width, tex.height, tex.rgba@.len()) ==> {
            &&& r.mip_levels@.len() == mip_count
            &&& forall|k: int|
                0 <= k < mip_count ==> (#[trigger] r.mip_levels@[k])@ == mip_level(tex.rgba@, tex.width, tex.height, k as nat)
        },
        mip_count > 1 && !rgba_fits(tex.width, tex.height, tex.rgba@.len()) ==> {
            &&& r.mip_levels@.len() == 1
            &&& r.mip_levels@[0]@ == Seq::new((4 * tex.width * tex.height) as nat, |i: int| 128u8)
        },
{
    let GltfLoadedTexture { cache_key, rgba, width, height } = tex;
    let ghost source = rgba@;
    let mut mip_levels: Vec<Vec<u8>> = Vec::new();
    if mip_count > 1 {
        let fits = 4u128 * (width as u128) * (height as u128) <= rgba.len() as u128;
        if fits {
            mip_levels.push(rgba);
            let mut level: u32 = 1;
            let mut prev_w: u32 = width;
            let mut prev_h: u32 = height;
            while level < mip_count
                invariant
                    1 <= level <= mip_count <= 32,
                    4 * at_least_one(width) * at_least_one(height) <= isize::MAX,
                    rgba_fits(width, height, source.len()),
                    mip_levels@.len() == level,
                    prev_w == (if level == 1 { width } else { mip_extent(width, (level - 1) as nat) }),
                    prev_h == (if level == 1 { height } else { mip_extent(height, (level - 1) as nat) }),
                    mip_levels@[level - 1]@.len() >= 4 * prev_w * prev_h,
                    forall|k: int| 0 <= k < level ==> (#[trigger] mip_levels@[k])@ == mip_level(source, width, height, k as nat),
                decreases mip_count - level,
            {
                let shifted_w = width >> level;
                let shifted_h = height >> level;
                proof {
                    vstd::bits::lemma_u32_shr_is_div(width, level);
                    vstd::bits::lemma_u32_shr_is_div(height, level);
                    vstd::arithmetic::power2::lemma_pow2_pos(level as nat);
                    vstd::arithmetic::div_mod::lemma_div_is_ordered_by_denominator(width as int, 1, vstd::arithmetic::power2::pow2(level as nat) as int);
                    vstd::arithmetic::div_mod::lemma_div_is_ordered_by_denominator(height as int, 1, vstd::arithmetic::power2::pow2(level as nat) as int);
                }
                let next_w: u32 = if shifted_w < 1 { 1 } else { shifted_w };
                let next_h: u32 = if shifted_h < 1 { 1 } else { shifted_h };
                assert(next_w == mip_extent(width, level as nat));
                assert(next_h == mip_extent(height, level as nat));
                assert(4 * next_w * next_h <= isize::MAX) by (nonlinear_arith)
                    requires
                        1 <= next_w <= at_least_one(width),
                        1 <= next_h <= at_least_one(height),
                        4 * at_least_one(width) * at_least_one(height) <= isize::MAX,
                ;
                let resized = resize_rgba(&mip_levels[(level - 1) as usize], prev_w, prev_h, next_w, next_h);
                let next = match resized {
                    Some(v) => v,
                    None => Vec::new(),
                };
                proof {
                    assert(mip_levels@[level - 1]@ == mip_level(source, width, height, (level - 1) as nat));
                }
                mip_levels.push(next);
                prev_w = next_w;
                prev_h = next_h;
                level = level + 1;
            }
        } else {
            assert(width * height <= u32::MAX && width * height * 4 <= u32::MAX && width * height * 4 == 4 * width
                * height) by (nonlinear_arith)
                requires
                    4 * width * height <= u32::MAX,
            ;
            let n = (width * height * 4) as usize;
            let mut grey: Vec<u8> = Vec::new();
            let mut i: usize = 0;
            while i < n
                invariant
                    i <= n,
                    grey@ == Seq::new(i as nat, |j: int| 128u8),
                decreases n - i,
            {
                grey.push(128u8);
                i = i + 1;
                assert(grey@ =~= Seq::new(i as nat, |j: int| 128u8));
            }
            mip_levels.push(grey);
        }
    } else {
        mip_levels.push(rgba);
    }
    PrecomputedTexture { cache_key, width, height, mip_levels }
}

/// The texture a material slot of an imported model binds: for a texture
/// index of the model whose texture was stored, its store id (from `tex_ids`)
/// and its cache key (from `cache_keys`, in the same order); nothing for no
/// index or one past the stored textures.
pub fn material_texture(tex: Option<usize>, tex_ids: &Vec<usize>, cache_keys: &Vec<String>) -> (r: Option<(usize, String)>)
    requires
        tex_ids@.len() <= cache_keys@.len(),
    ensures
        r is Some <==> (tex matches Some(i) && i < tex_ids@.len()),
        r matches Some(b) ==> b.0 == tex_ids@[tex->0 as int] && b.1@ == cache_keys@[tex->0 as int]@,
{
    match tex {
        Some(i) => {
            if i < tex_ids.len() {
                Some((tex_ids[i], cache_keys[i].clone()))
            } else {
                None
            }
        },
        None => None,
    }
}

} // verus!
