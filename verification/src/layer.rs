use crate::codec::{decode_rgba, resize_nearest, resized_nearest, taken_from};
use crate::dimensions::LayerDimensions;
use crate::error::PackError;
use vstd::prelude::*;
use vstd::utf8::encode_utf8;

verus! {

/// One named attribute channel: RGBA pixels over the shared grid, row by
/// row, four bytes per texel.
#[derive(Debug)]
pub struct Layer {
    pub name: String,
    pub width: u32,
    pub height: u32,
    pub pixels: Vec<u8>,
}

/// Some byte of `bytes` is zero.
pub open spec fn has_nul(bytes: Seq<u8>) -> bool {
    exists|i: int| 0 <= i < bytes.len() && #[trigger] bytes[i] == 0
}

/// Whether `bytes` holds a zero byte.
pub fn contains_nul(bytes: &[u8]) -> (found: bool)
    ensures
        found == has_nul(bytes@),
{
    let mut i: usize = 0;
    while i < bytes.len()
        invariant
            i <= bytes.len(),
            forall|j: int| 0 <= j < i ==> #[trigger] bytes@[j] != 0,
        decreases bytes.len() - i,
    {
        if bytes[i] == 0 {
            return true;
        }
        i = i + 1;
    }
    false
}

/// A stem that can name a layer: present, and without a zero byte.
pub open spec fn usable_stem(stem: Option<String>) -> bool {
    stem matches Some(s) && !has_nul(encode_utf8(s@))
}

/// Whether `stem` can name a layer.
pub fn stem_is_usable(stem: &Option<String>) -> (usable: bool)
    ensures
        usable == usable_stem(*stem),
{
    match stem {
        Some(name) => !contains_nul(name.as_str().as_bytes()),
        None => false,
    }
}

/// A decoded image that can be resampled: present, and of at least one pixel.
pub open spec fn has_pixels(decoded: Option<(u32, u32, Vec<u8>)>) -> bool {
    decoded matches Some((width, height, _)) && width >= 1 && height >= 1
}

impl Layer {
    /// The UTF-8 bytes of the layer's name.
    pub open spec fn name_bytes(&self) -> Seq<u8> {
        encode_utf8(self.name@)
    }

    /// The pixel buffer covers the grid exactly and the name holds no zero
    /// byte, so that it can stand in a zero-terminated field.
    pub open spec fn wf(&self) -> bool {
        &&& self.pixels@.len() == 4 * (self.width * self.height)
        &&& !has_nul(self.name_bytes())
    }

    /// The layer is well-formed and has the resolution of `dimensions`.
    pub open spec fn fits(&self, dimensions: LayerDimensions) -> bool {
        &&& self.wf()
        &&& self.width == dimensions.width
        &&& self.height == dimensions.height
    }

    /// Both layers have the same name, resolution and pixels.
    pub open spec fn same_as(&self, other: Layer) -> bool {
        &&& self.name@ == other.name@
        &&& self.width == other.width
        &&& self.height == other.height
        &&& self.pixels@ == other.pixels@
    }

    /// The red channel of the pixel at column `x` and row `y`: the scalar
    /// that the layer contributes for that texel.
    pub open spec fn spec_red(&self, x: int, y: int) -> u8 {
        self.pixels@[4 * (y * self.width + x)]
    }

    /// A layer over `dimensions` from its name and its RGBA pixels, unless the
    /// name holds a zero byte or the buffer is not `4 * width * height` long.
    pub fn from_rgba(name: String, dimensions: &LayerDimensions, pixels: Vec<u8>) -> (layer: Option<
        Layer,
    >)
        requires
            dimensions.wf(),
        ensures
            layer is Some <==> pixels@.len() == 4 * dimensions.spec_texel_count() && !has_nul(
                encode_utf8(name@),
            ),
            layer matches Some(l) ==> l.fits(*dimensions) && l.name@ == name@ && l.pixels@
                == pixels@,
    {
        proof {
            dimensions.lemma_texel_count_bounds();
        }
        let texels: usize = dimensions.get_texel_count();
        if pixels.len() != 4 * texels {
            return None;
        }
        if contains_nul(name.as_str().as_bytes()) {
            return None;
        }
        Some(Layer { name, width: dimensions.width, height: dimensions.height, pixels })
    }

    /// The layer of one source file, from the file's stem and from what its
    /// content decoded to: width, height and RGBA pixels, or `None` where it
    /// did not decode. The pixels are resampled by nearest neighbour to
    /// `dimensions`, so that each texel is one pixel of the source, and a
    /// source of the grid's size is kept as it is. A missing or unusable stem
    /// is a `NamingError`; after that, a missing or empty image is a
    /// `DecodeError`.
    pub fn from_decoded(
        stem: Option<String>,
        decoded: Option<(u32, u32, Vec<u8>)>,
        dimensions: &LayerDimensions,
    ) -> (layer: Result<Layer, PackError>)
        requires
            dimensions.wf(),
            decoded matches Some((width, height, pixels)) ==> pixels@.len() == 4 * (width * height),
        ensures
            match layer {
                Ok(l) => {
                    &&& usable_stem(stem)
                    &&& l.name@ == stem->Some_0@
                    &&& l.fits(*dimensions)
                    &&& has_pixels(decoded)
                    &&& l.pixels@ == resized_nearest(
                        decoded->Some_0.2@,
                        decoded->Some_0.0,
                        decoded->Some_0.1,
                        dimensions.width,
                        dimensions.height,
                    )
                    &&& taken_from(l.pixels@, decoded->Some_0.2@)
                    &&& decoded->Some_0.0 == dimensions.width && decoded->Some_0.1
                        == dimensions.height ==> l.pixels@ == decoded->Some_0.2@
                },
                Err(e) => if usable_stem(stem) {
                    e == PackError::DecodeError && !has_pixels(decoded)
                } else {
                    e == PackError::NamingError
                },
            },
    {
        if !stem_is_usable(&stem) {
            return Err(PackError::NamingError);
        }
        let name: String = match stem {
            Some(name) => name,
            None => {
                return Err(PackError::NamingError);
            },
        };
        let (src_width, src_height, source) = match decoded {
            Some(image) => image,
            None => {
                return Err(PackError::DecodeError);
            },
        };
        if src_width == 0 || src_height == 0 {
            return Err(PackError::DecodeError);
        }
        let pixels: Vec<u8> = resize_nearest(source.as_slice(), src_width, src_height, dimensions);
        Ok(Layer { name, width: dimensions.width, height: dimensions.height, pixels })
    }

    /// The layer of one source file, from the file's stem and its content:
    /// the content is decoded, with the format guessed from the content, and
    /// handed to `from_decoded`. A missing or unusable stem is a `NamingError`
    /// and nothing is decoded; any other failure is a `DecodeError`. Which
    /// content decodes, and to which pixels, the decoder decides.
    pub fn from_file(stem: Option<String>, content: &[u8], dimensions: &LayerDimensions) -> (layer:
        Result<Layer, PackError>)
        requires
            dimensions.wf(),
        ensures
            match layer {
                Ok(l) => {
                    &&& usable_stem(stem)
                    &&& l.name@ == stem->Some_0@
                    &&& l.fits(*dimensions)
                },
                Err(e) => if usable_stem(stem) {
                    e == PackError::DecodeError
                } else {
                    e == PackError::NamingError
                },
            },
    {
        if !stem_is_usable(&stem) {
            return Err(PackError::NamingError);
        }
        let decoded: Option<(u32, u32, Vec<u8>)> = match decode_rgba(content) {
            Ok(image) => Some(image),
            Err(_) => None,
        };
        Layer::from_decoded(stem, decoded, dimensions)
    }

    /// The red channel at column `x`, row `y`.
    pub fn red_at(&self, x: u32, y: u32) -> (red: u8)
        requires
            self.wf(),
            x < self.width,
            y < self.height,
        ensures
            red == self.spec_red(x as int, y as int),
    {
        let len: usize = self.pixels.len();
        proof {
            assert(0 <= y * self.width + x < self.width * self.height) by (nonlinear_arith)
                requires
                    0 <= x < self.width,
                    0 <= y < self.height,
            ;
            assert(0 <= y * self.width <= y * self.width + x);
            assert(len == 4 * (self.width * self.height));
        }
        let row: usize = y as usize * self.width as usize;
        let texel: usize = row + x as usize;
        self.pixels[4 * texel]
    }
}

} // verus!
