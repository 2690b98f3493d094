//! Entry icons: Base64 image data URLs, normalised to small PNG images.
use vstd::prelude::*;
use crate::text::chars_of;
use base64::Engine;
use image::GenericImageView;

verus! {

/// The largest image, in bytes, that an icon data URL may carry.
pub const MAX_SOURCE_BYTES: usize = 8 * 1024 * 1024;

/// The largest width and height of a menu icon.
pub const MENU_ICON_MAX_SIZE: u32 = 32;

#[verifier::external_type_specification]
#[verifier::external_body]
pub struct ExDynamicImage(image::DynamicImage);

/// Why the image library could not load an image: the text of the I/O error
/// met while guessing the format, or of the decoding error.
pub enum ImageLoadError {
    Format(String),
    Decode(String),
}

/// A decoded image with its width and height, the number of bytes of one of
/// its pixels, and the bytes it was decoded from. The fields are private:
/// only the image library's wrappers below make one, and each takes `width`,
/// `height` and `pixel_bytes` from the image itself.
pub struct MenuImage {
    image: image::DynamicImage,
    width: u32,
    height: u32,
    pixel_bytes: u8,
    source: Ghost<Seq<u8>>,
}

impl View for MenuImage {
    /// The width and height of the image.
    type V = (u32, u32);

    closed spec fn view(&self) -> (u32, u32) {
        (self.width, self.height)
    }
}

impl MenuImage {
    /// The encoded bytes that the image was decoded from.
    pub closed spec fn source(&self) -> Seq<u8> {
        self.source@
    }

    /// The number of bytes of one pixel in the image's colour type: 1 to 8
    /// for 8- and 16-bit channels, 12 or 16 for 32-bit floating point ones.
    pub closed spec fn pixel_bytes(&self) -> u8 {
        self.pixel_bytes
    }

    pub fn bytes_per_pixel(&self) -> (b: u8)
        ensures
            b == self.pixel_bytes(),
    {
        self.pixel_bytes
    }

    pub fn width(&self) -> (w: u32)
        ensures
            w == self@.0,
    {
        self.width
    }

    pub fn height(&self) -> (h: u32)
        ensures
            h == self@.1,
    {
        self.height
    }
}

/// A menu icon as RGBA pixels, four bytes per pixel, row by row.
pub struct MenuIcon {
    pub rgba: Vec<u8>,
    pub width: u32,
    pub height: u32,
}

/// The text that the Base64 decoder of the `base64` crate (standard alphabet,
/// with padding) makes of `text`: the bytes, or the text of its error.
pub uninterp spec fn base64_decoded(text: Seq<char>) -> Result<Seq<u8>, Seq<char>>;

/// The text that the Base64 encoder of the `base64` crate (standard alphabet,
/// with padding) makes of `bytes`.
pub uninterp spec fn base64_encoded(bytes: Seq<u8>) -> Seq<char>;

/// A character of the standard Base64 alphabet, or the padding `=`.
pub open spec fn is_base64_char(c: char) -> bool {
    ||| 'A' <= c <= 'Z'
    ||| 'a' <= c <= 'z'
    ||| '0' <= c <= '9'
    ||| c == '+'
    ||| c == '/'
    ||| c == '='
}

/// `base64::engine::general_purpose::STANDARD.decode`. Its result, with the
/// error taken as its displayed text, is named `base64_decoded`.
#[verifier::external_body]
fn base64_decode(text: &str) -> (r: Result<Vec<u8>, String>)
    ensures
        match r {
            Ok(bytes) => base64_decoded(text@) == Ok::<Seq<u8>, Seq<char>>(bytes@),
            Err(e) => base64_decoded(text@) == Err::<Seq<u8>, Seq<char>>(e@),
        },
{
    match base64::engine::general_purpose::STANDARD.decode(text) {
        Ok(bytes) => Ok(bytes),
        Err(error) => Err(error.to_string()),
    }
}

/// `base64::engine::general_purpose::STANDARD.encode`. Its result is named
/// `base64_encoded`; the crate writes only characters of the standard
/// alphabet and `=`. It panics when the encoded length overflows `usize`,
/// which the bound on the input rules out.
#[verifier::external_body]
fn base64_encode(bytes: &[u8]) -> (r: String)
    requires
        bytes@.len() <= usize::MAX / 2,
    ensures
        r@ == base64_encoded(bytes@),
        forall|i: int| 0 <= i < r@.len() ==> is_base64_char(#[trigger] r@[i]),
{
    base64::engine::general_purpose::STANDARD.encode(bytes)
}

/// `ImageReader::new(Cursor::new(bytes)).with_guessed_format()` and then
/// `ImageReader::decode`: the image with its `dimensions` and the
/// `bytes_per_pixel` of its `color`, or the error of the step that failed. The guessed format also depends on the format hooks
/// registered in the process, so nothing is stated of the image but that it
/// was decoded from `bytes`.
#[verifier::external_body]
fn load_image(bytes: Vec<u8>) -> (r: Result<MenuImage, ImageLoadError>)
    ensures
        r matches Ok(m) ==> m.source() == bytes@,
{
    let source = Ghost(bytes@);
    let reader = match image::ImageReader::new(std::io::Cursor::new(bytes)).with_guessed_format() {
        Ok(reader) => reader,
        Err(error) => return Err(ImageLoadError::Format(error.to_string())),
    };
    match reader.decode() {
        Ok(image) => {
            let (width, height) = image.dimensions();
            let pixel_bytes = image.color().bytes_per_pixel();
            Ok(MenuImage { image, width, height, pixel_bytes, source })
        },
        Err(error) => Err(ImageLoadError::Decode(error.to_string())),
    }
}

/// `n` is within one half of `num / den`: twice their distance, times `den`,
/// is at most `den`.
pub open spec fn within_half(n: int, num: int, den: int) -> bool {
    -den <= 2 * n * den - 2 * num <= den
}

/// `n` is `num / den` rounded to the nearest whole number and raised to at
/// least 1 (a quotient of exactly one half may come out either way).
pub open spec fn rounded_at_least_one(n: int, num: int, den: int) -> bool {
    if 2 * num < den {
        n == 1
    } else {
        within_half(n, num, den)
    }
}

/// The size `out` of a thumbnail of an image of size `src` within a
/// `max_width` × `max_height` box: each side between 1 and its bound; the side
/// whose bound limits the scale gets exactly that bound, and the other is
/// scaled by the same ratio and rounded, so the aspect ratio is kept.
pub open spec fn thumbnail_size(src: (u32, u32), max_width: u32, max_height: u32, out: (u32, u32)) -> bool {
    let (w, h) = src;
    &&& 1 <= out.0 <= max_width
    &&& 1 <= out.1 <= max_height
    &&& (w > 0 && max_width * h <= max_height * w) ==> out.0 == max_width
        && rounded_at_least_one(out.1 as int, h * max_width, w as int)
    &&& (h > 0 && max_height * w <= max_width * h) ==> out.1 == max_height
        && rounded_at_least_one(out.0 as int, w * max_height, h as int)
}

/// `DynamicImage::thumbnail` followed by `dimensions`: the image scaled down
/// to fit within the given box, keeping its aspect ratio.
///
/// The crate computes the ratio `min(max_width / w, max_height / h)` in `f64`
/// and rounds each scaled side, raising it to at least 1; the thumbnail has
/// exactly that size, with the same pixel type. With bounds up to 2^16 the floating-point error stays
/// far below the distance of any quotient of `u32` values from a rounding
/// boundary, so the size is as `thumbnail_size` says. The pixels are not
/// stated.
#[verifier::external_body]
fn image_thumbnail(source: &MenuImage, max_width: u32, max_height: u32) -> (r: MenuImage)
    requires
        1 <= max_width <= 0x1_0000,
        1 <= max_height <= 0x1_0000,
    ensures
        thumbnail_size(source@, max_width, max_height, r@),
        r.source() == source.source(),
        r.pixel_bytes() == source.pixel_bytes(),
{
    let small = source.image.thumbnail(max_width, max_height);
    let (width, height) = small.dimensions();
    MenuImage { image: small, width, height, pixel_bytes: source.pixel_bytes, source: Ghost(source.source@) }
}

/// The value of the four bytes of `b` from `at` on, read big-endian.
pub open spec fn be_u32(b: Seq<u8>, at: int) -> int {
    b[at] * 0x100_0000 + b[at + 1] * 0x1_0000 + b[at + 2] * 0x100 + b[at + 3]
}

/// `bytes` start as a PNG file whose header gives the size `size`: the PNG
/// signature, then the `IHDR` chunk with the width and height, big-endian.
pub open spec fn png_of_size(bytes: Seq<u8>, size: (u32, u32)) -> bool {
    &&& bytes.len() >= 24
    &&& bytes.take(8) == seq![137u8, 80u8, 78u8, 71u8, 13u8, 10u8, 26u8, 10u8]
    &&& bytes.subrange(12, 16) == seq![73u8, 72u8, 68u8, 82u8]
    &&& be_u32(bytes, 16) == size.0
    &&& be_u32(bytes, 20) == size.1
}

/// `DynamicImage::write_to` in PNG format, into a byte buffer: the PNG bytes,
/// or the text of the encoding error. The `png` crate writes the signature and
/// then the `IHDR` chunk with the image's width and height first. The image
/// crate's PNG encoder takes 8- and 16-bit channels (at most 8 bytes a pixel)
/// and refuses the floating-point ones; the `png` crate refuses a width or
/// height of 0; writing into a `Vec` does not fail otherwise. A `Vec` never
/// holds more than `isize::MAX` bytes. (The encoder asserts that the pixel
/// buffer has exactly the size of the image; the built-in decoders and the
/// thumbnail make buffers of exactly that size.)
#[verifier::external_body]
fn encode_png(image: &MenuImage) -> (r: Result<Vec<u8>, String>)
    ensures
        r matches Ok(bytes) ==> bytes@.len() <= usize::MAX / 2 && png_of_size(bytes@, image@),
        r is Ok <==> (image.pixel_bytes() <= 8 && image@.0 > 0 && image@.1 > 0),
{
    let mut buffer = std::io::Cursor::new(Vec::new());
    match image.image.write_to(&mut buffer, image::ImageFormat::Png) {
        Ok(()) => Ok(buffer.into_inner()),
        Err(error) => Err(error.to_string()),
    }
}

/// `DynamicImage::into_rgba8` followed by `dimensions` and `into_raw`: the
/// RGBA pixel buffer, its width and its height, which are the image's. An
/// image buffer holds at least four bytes for each of its pixels; an image
/// that is already RGBA is handed over as it is, and its buffer may be longer
/// (`ImageBuffer::from_raw` accepts a longer one), so only that bound is
/// stated.
#[verifier::external_body]
fn rgba_pixels(image: MenuImage) -> (r: (Vec<u8>, u32, u32))
    ensures
        r.1 == image@.0,
        r.2 == image@.1,
        r.0@.len() >= r.1 * r.2 * 4,
{
    let rgba = image.image.into_rgba8();
    let (width, height) = rgba.dimensions();
    (rgba.into_raw(), width, height)
}

/// The first comma of `s` stands at `c`.
pub open spec fn first_comma_at(s: Seq<char>, c: int) -> bool {
    &&& 0 <= c < s.len()
    &&& s[c] == ','
    &&& forall|i: int| 0 <= i < c ==> #[trigger] s[i] != ','
}

/// `split_once(',')`: the text before the first comma and the text after it.
pub open spec fn split_at_first_comma(s: Seq<char>) -> Option<(Seq<char>, Seq<char>)> {
    if exists|c: int| first_comma_at(s, c) {
        let c = choose|c: int| first_comma_at(s, c);
        Some((s.take(c), s.skip(c + 1)))
    } else {
        None
    }
}

pub open spec fn msg_not_data_url() -> Seq<char> {
    "图标必须是 Data URL"@
}

pub open spec fn msg_not_base64_image() -> Seq<char> {
    "图标必须是 Base64 图片 Data URL"@
}

pub open spec fn msg_bad_base64(reason: Seq<char>) -> Seq<char> {
    "Base64 解码失败："@ + reason
}

pub open spec fn msg_too_large() -> Seq<char> {
    "图标文件不能超过 8 MiB"@
}

/// The image bytes that a data URL carries, or the reason it is refused: it
/// needs a comma; the part before it must start with `data:image/` and end
/// with `;base64`; the part after it must be Base64 of at most 8 MiB.
pub open spec fn icon_source(url: Seq<char>) -> Result<Seq<u8>, Seq<char>> {
    match split_at_first_comma(url) {
        None => Err(msg_not_data_url()),
        Some((meta, encoded)) => if !("data:image/"@.is_prefix_of(meta) && ";base64"@.is_suffix_of(meta)) {
            Err(msg_not_base64_image())
        } else {
            match base64_decoded(encoded) {
                Err(reason) => Err(msg_bad_base64(reason)),
                Ok(bytes) => if bytes.len() > MAX_SOURCE_BYTES {
                    Err(msg_too_large())
                } else {
                    Ok(bytes)
                },
            }
        },
    }
}

/// A message that reports a failure of the image library itself.
pub open spec fn is_image_error(m: Seq<char>) -> bool {
    ||| "无法识别图片格式："@.is_prefix_of(m)
    ||| "图片解码失败："@.is_prefix_of(m)
}

/// A message that reports a failure of the PNG encoder.
pub open spec fn is_png_error(m: Seq<char>) -> bool {
    "PNG 编码失败："@.is_prefix_of(m)
}

/// The prefix of a normalised icon.
pub open spec fn png_data_url_prefix() -> Seq<char> {
    "data:image/png;base64,"@
}

/// Whether `s` starts with `p`.
pub fn starts_with_text(s: &str, p: &str) -> (b: bool)
    ensures
        b == p@.is_prefix_of(s@),
{
    let sc = chars_of(s);
    let pc = chars_of(p);
    if pc.len() > sc.len() {
        return false;
    }
    let mut i: usize = 0;
    while i < pc.len()
        invariant
            sc@ == s@,
            pc@ == p@,
            pc@.len() <= sc@.len(),
            i <= pc@.len(),
            forall|j: int| 0 <= j < i ==> #[trigger] pc@[j] == sc@[j],
        decreases pc@.len() - i,
    {
        if pc[i] != sc[i] {
            assert(p@[i as int] != s@.subrange(0, p@.len() as int)[i as int]);
            return false;
        }
        i = i + 1;
    }
    assert(p@ =~= s@.subrange(0, p@.len() as int));
    true
}

/// Whether `s` ends with `p`.
pub fn ends_with_text(s: &str, p: &str) -> (b: bool)
    ensures
        b == p@.is_suffix_of(s@),
{
    let sc = chars_of(s);
    let pc = chars_of(p);
    if pc.len() > sc.len() {
        return false;
    }
    let sl = sc.len();
    let off = sl - pc.len();
    let mut i: usize = 0;
    while i < pc.len()
        invariant
            sl == sc@.len(),
            sc@ == s@,
            pc@ == p@,
            pc@.len() <= sc@.len(),
            off == sc@.len() - pc@.len(),
            i <= pc@.len(),
            forall|j: int| 0 <= j < i ==> #[trigger] pc@[j] == sc@[off + j],
        decreases pc@.len() - i,
    {
        if pc[i] != sc[off + i] {
            assert(p@[i as int] != s@.subrange(off as int, s@.len() as int)[i as int]);
            return false;
        }
        i = i + 1;
    }
    assert(p@ =~= s@.subrange(off as int, s@.len() as int));
    true
}

/// The image bytes of an icon data URL, or the reason it is refused.
pub fn icon_source_bytes(data_url: &str) -> (r: Result<Vec<u8>, String>)
    ensures
        match r {
            Ok(bytes) => icon_source(data_url@) == Ok::<Seq<u8>, Seq<char>>(bytes@),
            Err(e) => icon_source(data_url@) == Err::<Seq<u8>, Seq<char>>(e@),
        },
{
    let chars = chars_of(data_url);
    let n = chars.len();
    let mut c: usize = 0;
    while c < n && chars[c] != ','
        invariant
            chars@ == data_url@,
            n == chars@.len(),
            c <= n,
            forall|i: int| 0 <= i < c ==> #[trigger] data_url@[i] != ',',
        decreases n - c,
    {
        c = c + 1;
    }
    if c == n {
        assert(!exists|k: int| first_comma_at(data_url@, k)) by {
            if exists|k: int| first_comma_at(data_url@, k) {
                let k = choose|k: int| first_comma_at(data_url@, k);
                assert(data_url@[k] != ',');
            }
        }
        return Err(String::from_str("图标必须是 Data URL"));
    }
    assert(first_comma_at(data_url@, c as int));
    proof {
        let k = choose|k: int| first_comma_at(data_url@, k);
        if k < c {
            assert(data_url@[k] != ',');
        }
        if c < k {
            assert(data_url@[c as int] != ',');
        }
        assert(k == c);
    }
    let meta = data_url.substring_char(0, c);
    let encoded = data_url.substring_char(c + 1, n);
    assert(meta@ =~= data_url@.take(c as int));
    assert(encoded@ =~= data_url@.skip(c as int + 1));
    if !(starts_with_text(meta, "data:image/") && ends_with_text(meta, ";base64")) {
        return Err(String::from_str("图标必须是 Base64 图片 Data URL"));
    }
    let bytes = match base64_decode(encoded) {
        Ok(bytes) => bytes,
        Err(reason) => {
            let mut m = String::from_str("Base64 解码失败：");
            m.append(reason.as_str());
            return Err(m);
        },
    };
    if bytes.len() > MAX_SOURCE_BYTES {
        return Err(String::from_str("图标文件不能超过 8 MiB"));
    }
    Ok(bytes)
}

/// `m` was decoded from the image bytes that the data URL `url` carries.
pub open spec fn decoded_from(url: Seq<char>, m: MenuImage) -> bool {
    icon_source(url) == Ok::<Seq<u8>, Seq<char>>(m.source())
}

/// The message for an image that the image library could not load.
pub open spec fn image_load_text(e: ImageLoadError) -> Seq<char> {
    match e {
        ImageLoadError::Format(reason) => "无法识别图片格式："@ + reason@,
        ImageLoadError::Decode(reason) => "图片解码失败："@ + reason@,
    }
}

/// The message for an image that the image library could not load: the
/// format could not be recognised, or the image could not be decoded.
pub fn image_load_message(e: ImageLoadError) -> (m: String)
    ensures
        m@ == image_load_text(e),
        is_image_error(m@),
{
    let (mut m, reason) = match e {
        ImageLoadError::Format(reason) => (String::from_str("无法识别图片格式："), reason),
        ImageLoadError::Decode(reason) => (String::from_str("图片解码失败："), reason),
    };
    m.append(reason.as_str());
    proof {
        reveal_strlit("无法识别图片格式：");
        reveal_strlit("图片解码失败：");
    }
    m
}

/// Decodes the image of an icon data URL. The data URL's own problems are
/// reported as `icon_source` says; an image that cannot be read is reported
/// with the image library's error.
pub fn decode(data_url: &str) -> (r: Result<MenuImage, String>)
    ensures
        icon_source(data_url@) matches Err(e) ==> r matches Err(m) && m@ == e,
        r matches Ok(m) ==> decoded_from(data_url@, m),
        icon_source(data_url@) is Ok ==> (r matches Err(m) ==> is_image_error(m@)),
{
    let bytes = icon_source_bytes(data_url)?;
    match load_image(bytes) {
        Ok(image) => Ok(image),
        Err(e) => Err(image_load_message(e)),
    }
}

/// Whether an image of this size is scaled down for the menu.
pub open spec fn needs_menu_resize(width: u32, height: u32) -> bool {
    width > MENU_ICON_MAX_SIZE || height > MENU_ICON_MAX_SIZE
}

/// `out` is the size in the menu of an image of size `src`: a larger image is
/// scaled down into 32 × 32 with its aspect ratio kept, its longer side
/// becoming 32; a smaller one keeps its size.
pub open spec fn menu_fit(src: (u32, u32), out: (u32, u32)) -> bool {
    if needs_menu_resize(src.0, src.1) {
        thumbnail_size(src, MENU_ICON_MAX_SIZE, MENU_ICON_MAX_SIZE, out)
    } else {
        out == src
    }
}

/// The scaled size of an image that was too large fits the menu, and its
/// longer side is exactly 32.
pub proof fn lemma_menu_fit_fits(src: (u32, u32), out: (u32, u32))
    requires
        menu_fit(src, out),
    ensures
        !needs_menu_resize(out.0, out.1),
        needs_menu_resize(src.0, src.1) ==> 1 <= out.0 && 1 <= out.1,
        needs_menu_resize(src.0, src.1) && src.0 >= src.1 ==> out.0 == MENU_ICON_MAX_SIZE,
        needs_menu_resize(src.0, src.1) && src.1 >= src.0 ==> out.1 == MENU_ICON_MAX_SIZE,
{
}

/// An image that fits the menu: a larger image is scaled down to fit within
/// 32 × 32 pixels keeping its aspect ratio; a smaller one is kept as it is.
pub fn fit_menu_size(image: MenuImage) -> (r: MenuImage)
    ensures
        menu_fit(image@, r@),
        r.source() == image.source(),
        r.pixel_bytes() == image.pixel_bytes(),
        !needs_menu_resize(image@.0, image@.1) ==> r == image,
        !needs_menu_resize(r@.0, r@.1),
{
    if image.width() > MENU_ICON_MAX_SIZE || image.height() > MENU_ICON_MAX_SIZE {
        image_thumbnail(&image, MENU_ICON_MAX_SIZE, MENU_ICON_MAX_SIZE)
    } else {
        image
    }
}

/// `s` is a Base64 PNG data URL of an image whose PNG header gives the size
/// `size`.
pub open spec fn png_data_url_of_size(s: Seq<char>, size: (u32, u32)) -> bool {
    exists|png: Seq<u8>| png_of_size(png, size) && s == png_data_url_prefix() + #[trigger] base64_encoded(png)
}

/// PNG can hold the image once it is fitted to the menu: its channels are 8
/// or 16 bits (at most 8 bytes a pixel) and the fitted image is not empty,
/// as it never is when the image was scaled down.
pub open spec fn png_holds(m: MenuImage) -> bool {
    &&& m.pixel_bytes() <= 8
    &&& needs_menu_resize(m@.0, m@.1) || (m@.0 > 0 && m@.1 > 0)
}

/// The PNG data URL of a decoded image, fitted to the menu: the size in its
/// PNG header is the fitted size. It is made exactly when PNG can hold the
/// image; otherwise the PNG encoder's error is reported.
pub fn png_data_url_of(image: MenuImage) -> (r: Result<String, String>)
    ensures
        r is Ok <==> png_holds(image),
        r matches Ok(s) ==> exists|out: (u32, u32)| #[trigger] menu_fit(image@, out) && png_data_url_of_size(s@, out),
        r matches Ok(s) ==> forall|i: int| png_data_url_prefix().len() <= i < s@.len() ==> is_base64_char(#[trigger] s@[i]),
        r matches Err(m) ==> is_png_error(m@),
{
    let resized = fit_menu_size(image);
    proof {
        lemma_menu_fit_fits(image@, resized@);
    }
    let png = match encode_png(&resized) {
        Ok(png) => png,
        Err(reason) => {
            let mut m = String::from_str("PNG 编码失败：");
            m.append(reason.as_str());
            return Err(m);
        },
    };
    let encoded = base64_encode(png.as_slice());
    let mut s = String::from_str("data:image/png;base64,");
    s.append(encoded.as_str());
    proof {
        reveal_strlit("data:image/png;base64,");
        assert(s@ == png_data_url_prefix() + base64_encoded(png@));
        assert(png_data_url_of_size(s@, resized@));
        assert(menu_fit(image@, resized@));
        assert forall|i: int| png_data_url_prefix().len() <= i < s@.len() implies is_base64_char(#[trigger] s@[i]) by {
            assert(s@[i] == encoded@[i - png_data_url_prefix().len()]);
        }
    }
    Ok(s)
}

/// `s` is the normalised form of an image decoded from the data URL `url`:
/// the PNG data URL of that image fitted to the menu.
pub open spec fn normalized_icon_of(url: Seq<char>, s: Seq<char>) -> bool {
    exists|m: MenuImage, out: (u32, u32)| #[trigger] decoded_from(url, m) && #[trigger] menu_fit(m@, out)
        && png_data_url_of_size(s, out)
}

/// The data URL's own errors and the image library's errors are no PNG
/// encoding errors: they start otherwise.
pub proof fn lemma_decode_error_is_not_png(url: Seq<char>, m: Seq<char>)
    requires
        icon_source(url) == Err::<Seq<u8>, Seq<char>>(m) || is_image_error(m),
    ensures
        !is_png_error(m),
{
    reveal_strlit("PNG 编码失败：");
    reveal_strlit("无法识别图片格式：");
    reveal_strlit("图片解码失败：");
    reveal_strlit("图标必须是 Data URL");
    reveal_strlit("图标必须是 Base64 图片 Data URL");
    reveal_strlit("Base64 解码失败：");
    reveal_strlit("图标文件不能超过 8 MiB");
    if is_png_error(m) {
        assert(m[0] == "PNG 编码失败："@[0]);
        if is_image_error(m) {
            if "无法识别图片格式："@.is_prefix_of(m) {
                assert(m[0] == "无法识别图片格式："@[0]);
            } else {
                assert(m[0] == "图片解码失败："@[0]);
            }
        } else {
            match split_at_first_comma(url) {
                None => assert(m[0] == msg_not_data_url()[0]),
                Some((meta, encoded)) => if !("data:image/"@.is_prefix_of(meta) && ";base64"@.is_suffix_of(meta)) {
                    assert(m[0] == msg_not_base64_image()[0]);
                } else {
                    match base64_decoded(encoded) {
                        Err(reason) => assert(m[0] == msg_bad_base64(reason)[0]),
                        Ok(bytes) => assert(m[0] == msg_too_large()[0]),
                    }
                },
            }
        }
    }
}

/// Normalises an icon data URL: the image is decoded, scaled down to fit the
/// menu and written as a Base64 PNG data URL.
pub fn normalize_data_url(data_url: &str) -> (r: Result<String, String>)
    ensures
        icon_source(data_url@) matches Err(e) ==> r matches Err(m) && m@ == e,
        r matches Ok(s) ==> icon_source(data_url@) is Ok && normalized_icon_of(data_url@, s@),
        r matches Ok(s) ==> forall|i: int| png_data_url_prefix().len() <= i < s@.len() ==> is_base64_char(#[trigger] s@[i]),
        icon_source(data_url@) is Ok ==> (r matches Err(m) ==> is_image_error(m@) || is_png_error(m@)),
        r matches Err(e) && is_png_error(e@) ==> exists|m: MenuImage| #[trigger] decoded_from(data_url@, m) && !png_holds(
            m,
        ),
{
    let decoded = match decode(data_url) {
        Ok(decoded) => decoded,
        Err(e) => {
            proof {
                lemma_decode_error_is_not_png(data_url@, e@);
            }
            return Err(e);
        },
    };
    let ghost m = decoded;
    let r = png_data_url_of(decoded);
    proof {
        if let Ok(s) = &r {
            let out = choose|out: (u32, u32)| #[trigger] menu_fit(m@, out) && png_data_url_of_size(s@, out);
            assert(decoded_from(data_url@, m) && menu_fit(m@, out));
        }
    }
    r
}

/// The menu icon of a decoded image: its pixels once it is fitted to the
/// menu, with the fitted width and height.
pub fn menu_icon_of(image: MenuImage) -> (r: MenuIcon)
    ensures
        menu_fit(image@, (r.width, r.height)),
        r.rgba@.len() >= r.width * r.height * 4,
{
    let resized = fit_menu_size(image);
    let (rgba, width, height) = rgba_pixels(resized);
    MenuIcon { rgba, width, height }
}

/// `icon` is the menu icon of an image decoded from the data URL `url`.
pub open spec fn menu_icon_of_url(url: Seq<char>, icon: MenuIcon) -> bool {
    exists|m: MenuImage| #[trigger] decoded_from(url, m) && menu_fit(m@, (icon.width, icon.height))
        && icon.rgba@.len() >= icon.width * icon.height * 4
}

/// The menu icon of a data URL: the image, scaled down to fit the menu, as
/// RGBA pixels.
pub fn decode_menu_image(data_url: &str) -> (r: Result<MenuIcon, String>)
    ensures
        icon_source(data_url@) matches Err(e) ==> r matches Err(m) && m@ == e,
        r matches Ok(icon) ==> icon_source(data_url@) is Ok && menu_icon_of_url(data_url@, icon),
        icon_source(data_url@) is Ok ==> (r matches Err(m) ==> is_image_error(m@)),
{
    let decoded = decode(data_url)?;
    let ghost m = decoded;
    let icon = menu_icon_of(decoded);
    assert(decoded_from(data_url@, m));
    Ok(icon)
}

/// A normalised icon passes the data URL checks again: its first comma ends
/// the `data:image/png;base64` part, and the Base64 payload follows.
pub proof fn lemma_normalized_icon_framing(s: Seq<char>, payload: Seq<char>)
    requires
        s == png_data_url_prefix() + payload,
    ensures
        split_at_first_comma(s) == Some((("data:image/png;base64"@), payload)),
        "data:image/"@.is_prefix_of("data:image/png;base64"@),
        ";base64"@.is_suffix_of("data:image/png;base64"@),
{
    reveal_strlit("data:image/png;base64,");
    reveal_strlit("data:image/png;base64");
    reveal_strlit("data:image/");
    reveal_strlit(";base64");
    let c = 21int;
    assert(s[c] == ',');
    assert forall|i: int| 0 <= i < c implies #[trigger] s[i] != ',' by {
        assert(s[i] == png_data_url_prefix()[i]);
    }
    assert(first_comma_at(s, c));
    let k = choose|k: int| first_comma_at(s, k);
    if k > c {
        assert(s[c] != ',');
    }
    if k < c {
        assert(s[k] != ',');
    }
    assert(s.take(c) =~= "data:image/png;base64"@);
    assert(s.skip(c + 1) =~= payload);
    assert("data:image/"@ =~= "data:image/png;base64"@.subrange(0, 11));
    assert(";base64"@ =~= "data:image/png;base64"@.subrange(14, 21));
}

} // verus!
