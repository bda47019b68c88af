//! What a scene description says of a rendering, once it has been read.

use vstd::arithmetic::div_mod::lemma_fundamental_div_mod_converse;
use vstd::prelude::*;
use vstd::string::*;

verus! {

/// How a scene is to be rendered.
#[derive(Debug)]
pub struct RenderingSpec {
    /// Bounce budget of a primary ray.
    pub max_bounces: u32,
    /// Whether the tiles are rendered in a random order.
    pub randomize_rays: bool,
    /// Samples along one side of a pixel.
    pub antialias: u32,
    /// The pixels to render, where only a part of the image is wanted.
    pub partial_render: Option<Vec<(u32, u32)>>,
}

/// Where the bytes of a texture come from.
#[derive(Debug)]
pub enum TextureSpec {
    Reference { name: String },
    File { path: String },
    B64 { data: String },
}

/// Where the text of a model comes from.
#[derive(Debug)]
pub enum ModelSpec {
    Reference { name: String },
    File { path: String },
    B64 { data: String },
}

/// Why the bytes that a scene holds as text cannot be had.
#[derive(Debug, PartialEq, Eq)]
pub enum SourceError {
    /// The text is longer than a quarter of the address space.
    TooLong,
    /// The decoder reads no bytes from the text, and says why.
    Invalid(base64::DecodeError),
}

/// The error of `base64::decode`.
#[verifier::external_type_specification]
#[verifier::external_body]
pub struct ExDecodeError(base64::DecodeError);

/// The bytes that `base64::decode` reads from a text, or `None` where it
/// reads none.
pub uninterp spec fn base64_decoded(data: Seq<u8>) -> Option<Seq<u8>>;

/// Decodes base64.
///
/// Calls `base64::decode`. The contract claims that what comes back is
/// settled by the text alone: the same text gives the same bytes, or an
/// error, every time. Texts of more than a quarter of the address space
/// are left out: the decoder multiplies the length of the text by four.
#[verifier::external_body]
fn decode(data: &Vec<u8>) -> (r: Result<Vec<u8>, base64::DecodeError>)
    requires
        data.len() <= usize::MAX / 4,
    ensures
        match r {
            Ok(bytes) => base64_decoded(data@) == Some(bytes@),
            Err(_) => base64_decoded(data@).is_none(),
        },
{
    base64::decode(data)
}

/// Whether `r` is what [`embedded`] returns for a text: the bytes that
/// the decoder reads from it; the decoder's error where it reads none;
/// and no attempt at all on a text that is too long.
pub open spec fn is_embedded(data: Seq<u8>, r: Result<Seq<u8>, SourceError>) -> bool {
    match r {
        Ok(bytes) => data.len() <= usize::MAX / 4 && base64_decoded(data) == Some(bytes),
        Err(SourceError::TooLong) => data.len() > usize::MAX / 4,
        Err(SourceError::Invalid(_)) => data.len() <= usize::MAX / 4 && base64_decoded(
            data,
        ).is_none(),
    }
}

/// The bytes that a scene holds as text in base64.
pub fn embedded(data: &Vec<u8>) -> (r: Result<Vec<u8>, SourceError>)
    ensures
        match r {
            Ok(bytes) => is_embedded(data@, Ok(bytes@)),
            Err(e) => is_embedded(data@, Err(e)),
        },
{
    if data.len() > usize::MAX / 4 {
        return Err(SourceError::TooLong);
    }
    match decode(data) {
        Ok(bytes) => Ok(bytes),
        Err(e) => Err(SourceError::Invalid(e)),
    }
}

impl TextureSpec {
    /// The bytes of the texture where the scene itself holds them, and
    /// `None` where it names a file or another texture.
    pub fn embedded(&self) -> (r: Option<Result<Vec<u8>, SourceError>>)
        ensures
            match *self {
                TextureSpec::B64 { data } => match r {
                    Some(Ok(bytes)) => is_embedded(vstd::utf8::encode_utf8(data@), Ok(bytes@)),
                    Some(Err(e)) => is_embedded(vstd::utf8::encode_utf8(data@), Err(e)),
                    None => false,
                },
                _ => r.is_none(),
            },
    {
        match self {
            TextureSpec::B64 { data } => {
                let text = data.as_str().as_bytes_vec();
                Some(embedded(&text))
            },
            _ => None,
        }
    }
}

impl ModelSpec {
    /// The text of the model where the scene itself holds it, and `None`
    /// where it names a file or another model.
    pub fn embedded(&self) -> (r: Option<Result<Vec<u8>, SourceError>>)
        ensures
            match *self {
                ModelSpec::B64 { data } => match r {
                    Some(Ok(bytes)) => is_embedded(vstd::utf8::encode_utf8(data@), Ok(bytes@)),
                    Some(Err(e)) => is_embedded(vstd::utf8::encode_utf8(data@), Err(e)),
                    None => false,
                },
                _ => r.is_none(),
            },
    {
        match self {
            ModelSpec::B64 { data } => {
                let text = data.as_str().as_bytes_vec();
                Some(embedded(&text))
            },
            _ => None,
        }
    }
}

impl Default for RenderingSpec {
    /// Sixty-four bounces, tiles in their own order, one sample a pixel,
    /// the whole image.
    fn default() -> (r: RenderingSpec)
        ensures
            r.max_bounces == 64,
            !r.randomize_rays,
            r.antialias == 0,
            r.partial_render.is_none(),
    {
        RenderingSpec { max_bounces: 64, randomize_rays: false, antialias: 0, partial_render: None }
    }
}

/// The pixels of a `w` by `h` image, row by row from the top, each row
/// left to right.
pub open spec fn image_pixels(w: u32, h: u32) -> Seq<(u32, u32)> {
    Seq::new((w * h) as nat, |k: int| ((k % (w as int)) as u32, (k / (w as int)) as u32))
}

impl RenderingSpec {
    /// The pixels to render of a `w` by `h` image, in the order in which
    /// they are handed out: the wanted part as it is listed, or every
    /// pixel of the image row by row.
    pub open spec fn spec_locations(&self, w: u32, h: u32) -> Seq<(u32, u32)> {
        match self.partial_render {
            Some(pixels) => pixels@,
            None => image_pixels(w, h),
        }
    }

    /// The pixels to render of a `w` by `h` image, in the order in which
    /// they are handed out.
    pub fn locations(&self, w: u32, h: u32) -> (pixels: Vec<(u32, u32)>)
        ensures
            pixels@ == self.spec_locations(w, h),
    {
        let mut pixels: Vec<(u32, u32)> = Vec::new();
        match &self.partial_render {
            Some(wanted) => {
                let mut i: usize = 0;
                while i < wanted.len()
                    invariant
                        i <= wanted.len(),
                        pixels@ == wanted@.take(i as int),
                    decreases wanted.len() - i,
                {
                    pixels.push(wanted[i]);
                    assert(wanted@.take(i + 1) =~= wanted@.take(i as int).push(wanted@[i as int]));
                    i += 1;
                }
                assert(wanted@.take(i as int) =~= wanted@);
            },
            None => {
                let mut y: u32 = 0;
                while y < h
                    invariant
                        y <= h,
                        pixels.len() == y * w,
                        forall|k: int|
                            0 <= k < pixels.len() ==> pixels[k] == ((k % (w as int)) as u32, (k / (
                            w as int)) as u32),
                    decreases h - y,
                {
                    let mut x: u32 = 0;
                    while x < w
                        invariant
                            y < h,
                            x <= w,
                            pixels.len() == y * w + x,
                            forall|k: int|
                                0 <= k < pixels.len() ==> pixels[k] == (
                                    (k % (w as int)) as u32,
                                    (k / (w as int)) as u32,
                                ),
                        decreases w - x,
                    {
                        proof {
                            lemma_fundamental_div_mod_converse(
                                y * w + x,
                                w as int,
                                y as int,
                                x as int,
                            );
                        }
                        pixels.push((x, y));
                        x += 1;
                    }
                    assert((y + 1) * w == y * w + w) by (nonlinear_arith);
                    y += 1;
                }
                assert(h * w == w * h) by (nonlinear_arith);
                assert(pixels@ =~= image_pixels(w, h));
            },
        }
        pixels
    }
}

/// The red, green and blue byte of a colour written as one number: red in
/// bits 16 to 23, green in bits 8 to 15, blue in the lowest eight bits.
/// Higher bits are not looked at.
pub fn hex_color(hex: u32) -> (c: (u8, u8, u8))
    ensures
        c.0 == (hex / 0x1_0000) % 0x100,
        c.1 == (hex / 0x100) % 0x100,
        c.2 == hex % 0x100,
{
    let r: u32 = (hex >> 16) & 0xff;
    let g: u32 = (hex >> 8) & 0xff;
    let b: u32 = hex & 0xff;
    assert((hex >> 16) & 0xff == (hex / 0x1_0000) % 0x100) by (bit_vector);
    assert((hex >> 8) & 0xff == (hex / 0x100) % 0x100) by (bit_vector);
    assert(hex & 0xff == hex % 0x100) by (bit_vector);
    (r as u8, g as u8, b as u8)
}

} // verus!
