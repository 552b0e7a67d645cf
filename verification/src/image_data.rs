use image::ImageError;
use vstd::prelude::*;

verus! {

/// `image::ImageError`, carried through as an opaque value.
#[verifier::external_type_specification]
#[verifier::external_body]
pub struct ExImageError(ImageError);

/// What `image` decodes from a PNG-encoded byte string, converted to 8-bit
/// RGBA: `Some((width, height, pixels))`, or `None` where decoding fails.
pub uninterp spec fn decoded_png_rgba(bytes: Seq<u8>) -> Option<(u32, u32, Seq<u8>)>;

/// Calls `image::load_from_memory_with_format` with `ImageFormat::Png` and
/// converts the decoded image to 8-bit RGBA (`DynamicImage::into_rgba8`),
/// handing out its dimensions and raw bytes (`ImageBuffer::into_raw`).
///
/// Claimed: the result is `Ok` exactly when `decoded_png_rgba` of the bytes
/// is `Some`, and then equals it. On `Ok`, both dimensions are positive (the
/// PNG decoder rejects a header with a zero width or height) and the raw
/// buffer holds exactly `4 * (width * height)` bytes (the decoder fills a buffer
/// of `total_bytes()`, width times height times bytes per pixel, and the RGBA
/// conversion allocates one pixel of four bytes per position; `ImageBuffer`
/// checks that this length fits in `usize`). Which error comes out is not
/// stated.
#[verifier::external_body]
fn load_png_rgba8(bytes: &[u8]) -> (res: Result<(u32, u32, Vec<u8>), ImageError>)
    ensures
        res is Ok <==> decoded_png_rgba(bytes@) is Some,
        res matches Ok((w, h, data)) ==> {
            &&& decoded_png_rgba(bytes@) == Some((w, h, data@))
            &&& w > 0
            &&& h > 0
            &&& data@.len() == 4 * (w * h)
        },
{
    match image::load_from_memory_with_format(bytes, image::ImageFormat::Png) {
        Ok(img) => {
            let rgba = img.into_rgba8();
            let (w, h) = rgba.dimensions();
            Ok((w, h, rgba.into_raw()))
        },
        Err(e) => Err(e),
    }
}

/// What `image` decodes from a byte string in the built-in format that the
/// file-name extension `ext` names, converted to 8-bit RGBA:
/// `Some((width, height, pixels))`, or `None` where `ext` names no format or
/// decoding fails.
pub uninterp spec fn decoded_rgba_by_extension(bytes: Seq<u8>, ext: Seq<char>) -> Option<(u32, u32, Seq<u8>)>;

/// Sets the format of an `image::ImageReader` over the bytes to
/// `ImageFormat::from_extension(ext)` (left unset where that is `None`, so
/// that decoding fails), calls `ImageReader::decode`, and converts the image
/// to 8-bit RGBA (`DynamicImage::into_rgba8`), handing out its dimensions
/// and raw bytes. This is what `image::open` does after reading a file whose
/// name ends in `.ext`, apart from decoding hooks, which a built-in format
/// bypasses.
///
/// Claimed: the result is `Ok` exactly when `decoded_rgba_by_extension` of
/// the bytes and the extension is `Some`, and then equals it, with exactly
/// `4 * (width * height)` raw bytes (every decoder fills a buffer of
/// `total_bytes()`, width times height times bytes per pixel, and the RGBA
/// conversion allocates four bytes per pixel). Which error comes out is not
/// stated, nor that the dimensions are positive.
#[verifier::external_body]
fn load_rgba8_by_extension(bytes: &[u8], ext: &str) -> (res: Result<(u32, u32, Vec<u8>), ImageError>)
    ensures
        res is Ok <==> decoded_rgba_by_extension(bytes@, ext@) is Some,
        res matches Ok((w, h, data)) ==> {
            &&& decoded_rgba_by_extension(bytes@, ext@) == Some((w, h, data@))
            &&& data@.len() == 4 * (w * h)
        },
{
    let mut reader = image::ImageReader::new(std::io::Cursor::new(bytes));
    if let Some(format) = image::ImageFormat::from_extension(ext) {
        reader.set_format(format);
    }
    match reader.decode() {
        Ok(img) => {
            let rgba = img.into_rgba8();
            let (w, h) = rgba.dimensions();
            Ok((w, h, rgba.into_raw()))
        },
        Err(e) => Err(e),
    }
}

/// Errors while preparing texture data.
#[derive(Debug)]
pub enum TextureError {
    /// The bytes could not be decoded as an image.
    ImageError(ImageError),
}

/// An 8-bit RGBA image: `width * height` pixels of four bytes each, row by
/// row from the top.
#[derive(Debug)]
pub struct RgbaImage {
    width: u32,
    height: u32,
    data: Vec<u8>,
}

/// The bytes of `data` with its rows of `row_len` bytes in reverse order, as
/// `data.chunks(row_len).rev().flatten()` gives them: the first row goes
/// last.
pub open spec fn rows_reversed(data: Seq<u8>, row_len: nat) -> Seq<u8>
    decreases data.len(),
{
    if row_len == 0 || data.len() <= row_len {
        data
    } else {
        rows_reversed(data.skip(row_len as int), row_len) + data.take(row_len as int)
    }
}

/// Taking rows from the bottom: the rows of `data` from row `r - 1` on,
/// reversed, are those from row `r` on, reversed, followed by row `r - 1`.
proof fn lemma_rows_reversed_step(data: Seq<u8>, row: nat, h: nat, r: nat)
    requires
        row > 0,
        1 <= r <= h,
        data.len() == h * row,
    ensures
        rows_reversed(data.skip((r - 1) * row), row) == rows_reversed(
            data.skip((r * row) as int),
            row,
        ) + data.subrange((r - 1) * row, (r * row) as int),
{
    let a: int = (r - 1) * row;
    let b: int = (r * row) as int;
    assert(a + row == b) by (nonlinear_arith)
        requires
            a == (r - 1) * row,
            b == r * row,
    ;
    assert(b <= h * row) by (nonlinear_arith)
        requires
            b == r * row,
            r <= h,
    ;
    let s = data.skip(a);
    if s.len() <= row {
        assert(b == data.len());
        assert(data.skip(b) =~= Seq::<u8>::empty());
        assert(s =~= data.subrange(a, b));
    } else {
        assert(s.skip(row as int) =~= data.skip(b));
        assert(s.take(row as int) =~= data.subrange(a, b));
    }
}

/// Reversing the rows keeps the length, and sends byte `x` of row `y` (from
/// the top) to byte `x` of row `h - 1 - y`, for bytes made of `h` rows of
/// `row` bytes.
pub proof fn law_rows_reversed_moves_rows(data: Seq<u8>, row: int, h: int, y: int, x: int)
    requires
        row > 0,
        data.len() == h * row,
        0 <= y < h,
        0 <= x < row,
    ensures
        rows_reversed(data, row as nat).len() == data.len(),
        rows_reversed(data, row as nat)[(h - 1 - y) * row + x] == data[y * row + x],
    decreases h,
{
    let rest = data.skip(row);
    let hr = h - 1;
    assert(h * row == hr * row + row) by (nonlinear_arith)
        requires
            hr == h - 1,
    ;
    assert(hr * row >= 0) by (nonlinear_arith)
        requires
            hr >= 0,
            row > 0,
    ;
    if h == 1 {
        assert((h - 1 - y) * row + x == x) by (nonlinear_arith)
            requires
                h == 1,
                y == 0,
        ;
        assert(y * row + x == x) by (nonlinear_arith)
            requires
                y == 0,
        ;
    } else {
        assert(rest.len() == hr * row);
        if y == 0 {
            law_rows_reversed_moves_rows(rest, row, hr, 0, x);
            assert((h - 1 - y) * row + x == hr * row + x) by (nonlinear_arith)
                requires
                    hr == h - 1,
                    y == 0,
            ;
            assert(y * row + x == x) by (nonlinear_arith)
                requires
                    y == 0,
            ;
        } else {
            let y1 = y - 1;
            law_rows_reversed_moves_rows(rest, row, hr, y1, x);
            assert((h - 1 - y) * row + x == (hr - 1 - y1) * row + x) by (nonlinear_arith)
                requires
                    hr == h - 1,
                    y1 == y - 1,
            ;
            assert(y * row + x == row + (y1 * row + x)) by (nonlinear_arith)
                requires
                    y1 == y - 1,
            ;
            assert(0 <= (hr - 1 - y1) * row + x < hr * row) by (nonlinear_arith)
                requires
                    0 <= y1 < hr,
                    0 <= x < row,
            ;
            assert(0 <= y1 * row + x < hr * row) by (nonlinear_arith)
                requires
                    0 <= y1 < hr,
                    0 <= x < row,
            ;
        }
    }
}

/// Reversing the rows twice gives back the bytes one started from.
pub proof fn law_rows_reversed_twice(data: Seq<u8>, row: int, h: int)
    requires
        row > 0,
        h >= 0,
        data.len() == h * row,
    ensures
        rows_reversed(rows_reversed(data, row as nat), row as nat) == data,
{
    let once = rows_reversed(data, row as nat);
    let twice = rows_reversed(once, row as nat);
    if h == 0 {
        assert(data.len() == 0);
    } else {
        law_rows_reversed_moves_rows(data, row, h, 0, 0);
        law_rows_reversed_moves_rows(once, row, h, 0, 0);
        assert forall|i: int| 0 <= i < data.len() implies twice[i] == data[i] by {
            let y = i / row;
            let x = i % row;
            assert(i == y * row + x && 0 <= x < row && 0 <= y < h) by (nonlinear_arith)
                requires
                    row > 0,
                    0 <= i < h * row,
                    y == i / row,
                    x == i % row,
            ;
            law_rows_reversed_moves_rows(data, row, h, y, x);
            law_rows_reversed_moves_rows(once, row, h, h - 1 - y, x);
            assert(h - 1 - (h - 1 - y) == y);
        }
        assert(twice =~= data);
    }
}

impl RgbaImage {
    #[verifier::type_invariant]
    spec fn well_formed(self) -> bool {
        self.data@.len() == 4 * (self.width * self.height)
    }

    /// The width in pixels.
    pub closed spec fn spec_width(&self) -> u32 {
        self.width
    }

    /// The height in pixels.
    pub closed spec fn spec_height(&self) -> u32 {
        self.height
    }

    /// The raw bytes, four per pixel.
    pub closed spec fn pixels(&self) -> Seq<u8> {
        self.data@
    }

    /// Builds an image from raw RGBA bytes; `None` unless `data` holds exactly
    /// `4 * (width * height)` bytes.
    pub fn from_raw(width: u32, height: u32, data: Vec<u8>) -> (res: Option<RgbaImage>)
        ensures
            res is Some <==> data@.len() == 4 * (width * height),
            res matches Some(img) ==> {
                &&& img.spec_width() == width
                &&& img.spec_height() == height
                &&& img.pixels() == data@
            },
    {
        let w = width as u64;
        let h = height as u64;
        let len = data.len() as u64;
        assert(w * h <= 0xffff_ffff * 0xffff_ffff) by (nonlinear_arith)
            requires
                w <= 0xffff_ffff,
                h <= 0xffff_ffff,
        ;
        // 4 * (w * h) may exceed u64: compare in two steps.
        if len % 4 != 0 {
            assert(data@.len() != 4 * (width * height));
            return None;
        }
        if len / 4 != w * h {
            assert(data@.len() != 4 * (width * height));
            return None;
        }
        Some(RgbaImage { width, height, data })
    }

    /// Decodes a PNG-encoded byte string into an RGBA image.
    pub fn from_png_bytes(bytes: &[u8]) -> (res: Result<RgbaImage, TextureError>)
        ensures
            res is Ok <==> decoded_png_rgba(bytes@) is Some,
            res matches Ok(img) ==> {
                &&& decoded_png_rgba(bytes@) == Some(
                    (img.spec_width(), img.spec_height(), img.pixels()),
                )
                &&& img.spec_width() > 0
                &&& img.spec_height() > 0
            },
    {
        match load_png_rgba8(bytes) {
            Ok((width, height, data)) => Ok(RgbaImage { width, height, data }),
            Err(e) => Err(TextureError::ImageError(e)),
        }
    }

    /// Decodes the contents of an image file whose name has the extension
    /// `ext` (without the dot; empty where the name has none) into an RGBA
    /// image.
    pub fn from_bytes_with_extension(bytes: &[u8], ext: &str) -> (res: Result<RgbaImage, TextureError>)
        ensures
            res is Ok <==> decoded_rgba_by_extension(bytes@, ext@) is Some,
            res matches Ok(img) ==> decoded_rgba_by_extension(bytes@, ext@) == Some(
                (img.spec_width(), img.spec_height(), img.pixels()),
            ),
    {
        match load_rgba8_by_extension(bytes, ext) {
            Ok((width, height, data)) => Ok(RgbaImage { width, height, data }),
            Err(e) => Err(TextureError::ImageError(e)),
        }
    }

    /// The width in pixels.
    pub fn width(&self) -> (res: u32)
        ensures
            res == self.spec_width(),
    {
        self.width
    }

    /// The height in pixels.
    pub fn height(&self) -> (res: u32)
        ensures
            res == self.spec_height(),
    {
        self.height
    }

    /// The width and height in pixels.
    pub fn dimensions(&self) -> (res: (u32, u32))
        ensures
            res == (self.spec_width(), self.spec_height()),
            self.pixels().len() == 4 * (res.0 * res.1),
    {
        proof {
            use_type_invariant(self);
        }
        (self.width, self.height)
    }

    /// The pixel bytes with the rows in reverse order, bottom row first: the
    /// layout in which the texture is uploaded.
    ///
    /// A width of zero is left out: splitting the bytes into rows of zero
    /// bytes has no meaning.
    pub fn reversed_rows(&self) -> (res: Vec<u8>)
        requires
            self.spec_width() > 0,
        ensures
            res@ == rows_reversed(self.pixels(), 4 * (self.spec_width() as nat)),
    {
        proof {
            use_type_invariant(self);
        }
        let mut out: Vec<u8> = Vec::new();
        if self.height == 0 {
            assert(self.data@.len() == 0);
            return out;
        }
        let n: usize = self.data.len();
        let ghost w: nat = self.width as nat;
        let ghost hh: nat = self.height as nat;
        assert(4 * w <= 4 * (w * hh)) by (nonlinear_arith)
            requires
                hh >= 1,
        ;
        let row: usize = (self.width as usize) * 4;
        let h: usize = self.height as usize;
        assert(self.data@.len() == hh * (row as nat)) by (nonlinear_arith)
            requires
                self.data@.len() == 4 * (w * hh),
                row == 4 * w,
        ;
        let mut r: usize = h;
        assert(h * row == self.data@.len());
        assert(self.data@.skip((h * row) as int) =~= Seq::<u8>::empty());
        while r > 0
            invariant
                row > 0,
                row == 4 * w,
                h == hh,
                self.data@.len() == h * row,
                self.data@.len() == n,
                0 <= r <= h,
                out@ == rows_reversed(self.data@.skip((r * row) as int), row as nat),
            decreases r,
        {
            let ghost prev = out@;
            assert((r - 1) * row + row == r * row && r * row <= h * row) by (nonlinear_arith)
                requires
                    1 <= r <= h,
            ;
            let start: usize = (r - 1) * row;
            let mut j: usize = 0;
            while j < row
                invariant
                    row > 0,
                    start + row <= self.data@.len(),
                    self.data@.len() == n,
                    0 <= j <= row,
                    out@ == prev + self.data@.subrange(start as int, (start + j) as int),
                decreases row - j,
            {
                out.push(self.data[start + j]);
                assert(self.data@.subrange(start as int, (start + j + 1) as int) =~= self.data@.subrange(
                    start as int,
                    (start + j) as int,
                ).push(self.data@[(start + j) as int]));
                j = j + 1;
            }
            proof {
                lemma_rows_reversed_step(self.data@, row as nat, h as nat, r as nat);
            }
            r = r - 1;
        }
        assert(self.data@.skip(0) =~= self.data@);
        out
    }

    /// The raw bytes, four per pixel, row by row from the top.
    pub fn as_raw(&self) -> (res: &Vec<u8>)
        ensures
            res@ == self.pixels(),
    {
        &self.data
    }

    /// The raw bytes, four per pixel, row by row from the top.
    pub fn into_raw(self) -> (res: Vec<u8>)
        ensures
            res@ == self.pixels(),
    {
        self.data
    }
}

} // verus!
