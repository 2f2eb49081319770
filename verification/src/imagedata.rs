//! The geometry value type and the image container.

use vstd::pervasive::unreached;
use vstd::prelude::*;
use vstd::string::*;

use crate::imgcodec::{encode_native, resize_exact, rgb8_bytes, rgba8_bytes};
use crate::strutil::{
    all_digits, ascii_lowercase, dec_digits, digit_char, digit_val, digits_val, is_digit_char,
    is_u32_numeral, lower_seq, numeral_body, parse_u32, str_eq, u32_numeral_val, u64_to_string,
};
use crate::{Error, ImageFormat, spec_extension, spec_format_of_text, spec_is_native};

verus! {

/// A target size: either dimension may be left open.
#[derive(Debug, Clone, Eq, PartialEq, Structural)]
pub struct Geometry {
    pub width: Option<u32>,
    pub height: Option<u32>,
}

impl Geometry {
    /// The geometry with both dimensions open.
    pub fn empty() -> (r: Self)
        ensures
            r == (Geometry { width: None, height: None }),
    {
        Geometry { width: None, height: None }
    }

    /// Whether both dimensions are open.
    pub fn is_empty(&self) -> (r: bool)
        ensures
            r == (self.width is None && self.height is None),
    {
        self.width.is_none() && self.height.is_none()
    }

    /// The geometry with both dimensions given.
    pub fn new(width: u32, height: u32) -> (r: Self)
        ensures
            r == (Geometry { width: Some(width), height: Some(height) }),
    {
        Geometry { width: Some(width), height: Some(height) }
    }
}

/// `i` is the position of the only 'x' of `s`.
pub open spec fn geometry_split_point(s: Seq<char>, i: int) -> bool {
    &&& 0 <= i < s.len()
    &&& s[i] == 'x'
    &&& forall|j: int| 0 <= j < s.len() && s[j] == 'x' ==> j == i
}

/// Two positions of the only 'x' are the same position.
proof fn lemma_split_point_unique(s: Seq<char>, i: int, j: int)
    requires
        geometry_split_point(s, i),
        geometry_split_point(s, j),
    ensures
        i == j,
{
}

/// The geometry a lowercase string denotes. A leading 'x' starts a
/// height-only geometry, a trailing 'x' ends a width-only one; otherwise
/// the string must hold exactly one 'x' between two numerals.
pub open spec fn spec_parse_geometry(t: Seq<char>) -> Option<Geometry> {
    if t.len() > 0 && t[0] == 'x' {
        if is_u32_numeral(t.skip(1)) {
            Some(Geometry { width: None, height: Some(u32_numeral_val(t.skip(1)) as u32) })
        } else {
            None
        }
    } else if t.len() > 0 && t[t.len() - 1] == 'x' {
        if is_u32_numeral(t.take(t.len() - 1)) {
            Some(Geometry { width: Some(u32_numeral_val(t.take(t.len() - 1)) as u32), height: None })
        } else {
            None
        }
    } else if exists|i: int| geometry_split_point(t, i) {
        let i = choose|i: int| geometry_split_point(t, i);
        if is_u32_numeral(t.take(i)) && is_u32_numeral(t.skip(i + 1)) {
            Some(
                Geometry {
                    width: Some(u32_numeral_val(t.take(i)) as u32),
                    height: Some(u32_numeral_val(t.skip(i + 1)) as u32),
                },
            )
        } else {
            None
        }
    } else {
        None
    }
}

/// The display form of a geometry: "WxH", "Wx", "xH", or "empty".
pub open spec fn spec_display_geometry(g: Geometry) -> Seq<char> {
    match (g.width, g.height) {
        (Some(w), Some(h)) => dec_digits(w as nat) + seq!['x'] + dec_digits(h as nat),
        (Some(w), None) => dec_digits(w as nat) + seq!['x'],
        (None, Some(h)) => seq!['x'] + dec_digits(h as nat),
        (None, None) => seq!['e', 'm', 'p', 't', 'y'],
    }
}

impl Geometry {
    /// Reads a geometry from a string, without regard to ASCII case:
    /// "800x600", "800x" (width only), "x600" (height only). Any other
    /// string is an `InvalidGeometry` error.
    pub fn parse_geometry(s: &str) -> (r: Result<Geometry, Error>)
        ensures
            match spec_parse_geometry(lower_seq(s@)) {
                Some(g) => r == Ok::<Geometry, Error>(g),
                None => r is Err && r->Err_0 is InvalidGeometry,
            },
    {
        let low = ascii_lowercase(s);
        let n = low.as_str().unicode_len();
        if n > 0 && low.as_str().get_char(0) == 'x' {
            proof {
                assert(low@.subrange(1, n as int) =~= low@.skip(1));
            }
            let rest = low.as_str().substring_char(1, n);
            match parse_u32(rest) {
                Some(h) => Ok(Geometry { width: None, height: Some(h) }),
                None => Err(Error::InvalidGeometry(low)),
            }
        } else if n > 0 && low.as_str().get_char(n - 1) == 'x' {
            proof {
                assert(low@.subrange(0, n - 1) =~= low@.take(n - 1));
            }
            let front = low.as_str().substring_char(0, n - 1);
            match parse_u32(front) {
                Some(w) => Ok(Geometry { width: Some(w), height: None }),
                None => Err(Error::InvalidGeometry(low)),
            }
        } else {
            let mut xpos: Option<usize> = None;
            let mut multi: bool = false;
            let mut i: usize = 0;
            while i < n
                invariant
                    0 <= i <= n,
                    n == low@.len(),
                    xpos is None ==> !multi && (forall|j: int| 0 <= j < i ==> low@[j] != 'x'),
                    xpos matches Some(k) ==> (k as int) < i && low@[k as int] == 'x' && (forall|
                        j: int,
                    |
                        0 <= j < k ==> low@[j] != 'x') && (multi <==> exists|j: int|
                        (k as int) < j < i && low@[j] == 'x'),
                decreases n - i,
            {
                if low.as_str().get_char(i) == 'x' {
                    match xpos {
                        None => {
                            xpos = Some(i);
                        },
                        Some(_) => {
                            multi = true;
                        },
                    }
                }
                i = i + 1;
            }
            match xpos {
                None => {
                    proof {
                        assert(forall|k: int| !geometry_split_point(low@, k));
                    }
                    Err(Error::InvalidGeometry(low))
                },
                Some(k) => {
                    if multi {
                        proof {
                            let j = choose|j: int|
                                (k as int) < j < n && low@[j] == 'x';
                            assert(forall|p: int| !geometry_split_point(low@, p)) by {
                                assert forall|p: int| !geometry_split_point(low@, p) by {
                                    if geometry_split_point(low@, p) {
                                        assert(low@[k as int] == 'x');
                                        assert(low@[j] == 'x');
                                    }
                                }
                            }
                        }
                        Err(Error::InvalidGeometry("Too many x characters".to_owned()))
                    } else {
                        proof {
                            assert(geometry_split_point(low@, k as int));
                            let c = choose|p: int| geometry_split_point(low@, p);
                            lemma_split_point_unique(low@, k as int, c);
                            assert(low@.subrange(0, k as int) =~= low@.take(k as int));
                            assert(low@.subrange(k + 1, n as int) =~= low@.skip(k + 1));
                        }
                        let front = low.as_str().substring_char(0, k);
                        let back = low.as_str().substring_char(k + 1, n);
                        match parse_u32(front) {
                            None => {
                                let mut msg = "Invalid width from ".to_owned();
                                msg.append(low.as_str());
                                Err(Error::InvalidGeometry(msg))
                            },
                            Some(w) => {
                                match parse_u32(back) {
                                    None => {
                                        let mut msg = "Invalid height from ".to_owned();
                                        msg.append(low.as_str());
                                        Err(Error::InvalidGeometry(msg))
                                    },
                                    Some(h) => Ok(Geometry { width: Some(w), height: Some(h) }),
                                }
                            },
                        }
                    }
                },
            }
        }
    }

    /// The display form of the geometry: "WxH", "Wx", "xH", or "empty".
    pub fn display_string(&self) -> (r: String)
        ensures
            r@ == spec_display_geometry(*self),
    {
        proof {
            reveal_strlit("x");
            reveal_strlit("empty");
            assert("x"@ =~= seq!['x']);
            assert("empty"@ =~= seq!['e', 'm', 'p', 't', 'y']);
        }
        match (self.width, self.height) {
            (Some(w), Some(h)) => {
                let mut s = u64_to_string(w as u64);
                s.append("x");
                let hs = u64_to_string(h as u64);
                s.append(hs.as_str());
                proof {
                    assert(s@ =~= spec_display_geometry(*self));
                }
                s
            },
            (Some(w), None) => {
                let mut s = u64_to_string(w as u64);
                s.append("x");
                proof {
                    assert(s@ =~= spec_display_geometry(*self));
                }
                s
            },
            (None, Some(h)) => {
                let mut s = "x".to_owned();
                let hs = u64_to_string(h as u64);
                s.append(hs.as_str());
                proof {
                    assert(s@ =~= spec_display_geometry(*self));
                }
                s
            },
            (None, None) => "empty".to_owned(),
        }
    }
}

impl core::str::FromStr for Geometry {
    type Err = Error;

    fn from_str(s: &str) -> Result<Self, Self::Err> {
        Geometry::parse_geometry(s)
    }
}

/// The digit string of a number: nonempty, all digits, and its value
/// is the number again.
pub proof fn lemma_dec_digits_props(n: nat)
    ensures
        dec_digits(n).len() > 0,
        all_digits(dec_digits(n)),
        digits_val(dec_digits(n)) == n,
    decreases n,
{
    if n < 10 {
        assert(digit_char(n) as int == 0x30 + n);
        assert(is_digit_char(digit_char(n)));
        assert(dec_digits(n).drop_last() =~= Seq::<char>::empty());
        assert(dec_digits(n).last() == digit_char(n));
        assert(digits_val(dec_digits(n)) == digits_val(Seq::<char>::empty()) * 10 + digit_val(
            digit_char(n),
        ));
    } else {
        lemma_dec_digits_props(n / 10);
        let s = dec_digits(n / 10);
        let c = digit_char(n % 10);
        assert(c as int == 0x30 + (n % 10));
        assert(is_digit_char(c));
        assert(s.push(c).drop_last() =~= s);
        assert(digits_val(s.push(c)) == digits_val(s) * 10 + digit_val(c));
    }
}

/// Lowercasing does not change a geometry's display form.
pub proof fn lemma_display_geometry_lower_id(g: Geometry)
    ensures
        lower_seq(spec_display_geometry(g)) == spec_display_geometry(g),
{
    let t = spec_display_geometry(g);
    if g.width is Some {
        lemma_dec_digits_props(g.width->0 as nat);
    }
    if g.height is Some {
        lemma_dec_digits_props(g.height->0 as nat);
    }
    assert forall|i: int| 0 <= i < t.len() implies crate::strutil::lower_char(t[i]) == t[i] by {
    }
    assert(lower_seq(t) =~= t);
}

/// Parsing a displayed geometry gives the geometry back, whenever at
/// least one dimension is set ("empty" does not parse).
pub proof fn lemma_geometry_round_trip(g: Geometry)
    requires
        g.width is Some || g.height is Some,
    ensures
        spec_parse_geometry(spec_display_geometry(g)) == Some(g),
{
    let t = spec_display_geometry(g);
    match (g.width, g.height) {
        (Some(w), Some(h)) => {
            let dw = dec_digits(w as nat);
            let dh = dec_digits(h as nat);
            lemma_dec_digits_props(w as nat);
            lemma_dec_digits_props(h as nat);
            assert(t[0] == dw[0]);
            assert(t[t.len() - 1] == dh[dh.len() - 1]);
            let i = dw.len() as int;
            assert(geometry_split_point(t, i)) by {
                assert(t[i] == 'x');
                assert forall|j: int| 0 <= j < t.len() && t[j] == 'x' implies j == i by {
                    if j < i {
                        assert(t[j] == dw[j]);
                    } else if j > i {
                        assert(t[j] == dh[j - i - 1]);
                    }
                }
            }
            let c = choose|p: int| geometry_split_point(t, p);
            lemma_split_point_unique(t, i, c);
            assert(t.take(i) =~= dw);
            assert(t.skip(i + 1) =~= dh);
            assert(numeral_body(dw) == dw);
            assert(numeral_body(dh) == dh);
        },
        (Some(w), None) => {
            let dw = dec_digits(w as nat);
            lemma_dec_digits_props(w as nat);
            assert(t[0] == dw[0]);
            assert(t[t.len() - 1] == 'x');
            assert(t.take(t.len() - 1) =~= dw);
            assert(numeral_body(dw) == dw);
        },
        (None, Some(h)) => {
            let dh = dec_digits(h as nat);
            lemma_dec_digits_props(h as nat);
            assert(t[0] == 'x');
            assert(t.skip(1) =~= dh);
            assert(numeral_body(dh) == dh);
        },
        (None, None) => {
        },
    }
}

/// `i` is the position of the dot that starts the extension of file
/// name `s`: the last dot, inside the final path component, not its
/// first character. The string is taken as a plain file name; directory
/// references such as ".." are not recognized.
pub open spec fn is_ext_dot(s: Seq<char>, i: int) -> bool {
    &&& 0 < i < s.len()
    &&& s[i] == '.'
    &&& s[i - 1] != '/'
    &&& forall|j: int| i < j < s.len() ==> s[j] != '.' && s[j] != '/'
}

/// Two positions of the extension dot are the same position.
proof fn lemma_ext_dot_unique(s: Seq<char>, i: int, j: int)
    requires
        is_ext_dot(s, i),
        is_ext_dot(s, j),
    ensures
        i == j,
{
    if i < j {
        assert(s[j] != '.');
    }
    if j < i {
        assert(s[i] != '.');
    }
}

/// The extension of a file name: the part after its extension dot,
/// `None` when it has none.
pub open spec fn spec_file_extension(s: Seq<char>) -> Option<Seq<char>> {
    if exists|i: int| is_ext_dot(s, i) {
        Some(s.skip((choose|i: int| is_ext_dot(s, i)) + 1))
    } else {
        None
    }
}

/// `s` with its extension replaced (or appended, when it has none).
pub open spec fn spec_set_extension(s: Seq<char>, ext: Seq<char>) -> Seq<char> {
    if exists|i: int| is_ext_dot(s, i) {
        s.take((choose|i: int| is_ext_dot(s, i)) + 1) + ext
    } else if s.len() == 0 {
        s
    } else {
        s + seq!['.'] + ext
    }
}

/// The position of the extension dot of `s`, if any.
fn find_ext_dot(s: &str) -> (r: Option<usize>)
    ensures
        match r {
            Some(i) => is_ext_dot(s@, i as int),
            None => forall|i: int| !is_ext_dot(s@, i),
        },
{
    let n = s.unicode_len();
    let mut k: usize = n;
    while k > 0
        invariant
            0 <= k <= n,
            n == s@.len(),
            forall|j: int| k <= j < n ==> s@[j] != '.' && s@[j] != '/',
        decreases k,
    {
        k = k - 1;
        let c = s.get_char(k);
        if c == '/' {
            proof {
                assert forall|i: int| !is_ext_dot(s@, i) by {
                    if 0 < i < s@.len() && s@[i] == '.' {
                        assert(i < k);
                        assert(s@[k as int] == '/');
                    }
                }
            }
            return None;
        }
        if c == '.' {
            if k > 0 && s.get_char(k - 1) != '/' {
                return Some(k);
            }
            proof {
                assert forall|i: int| !is_ext_dot(s@, i) by {
                    if is_ext_dot(s@, i) {
                        if i < k {
                            assert(s@[k as int] != '.');
                        } else if i > k {
                            assert(s@[i] != '.');
                        }
                    }
                }
            }
            return None;
        }
    }
    None
}

/// The lowercase extension `e` names the format `f`; HEIF and HEIC
/// count as one family.
pub open spec fn spec_ext_matches(e: Seq<char>, f: ImageFormat) -> bool {
    match f {
        ImageFormat::Heic | ImageFormat::Heif => e == spec_extension(ImageFormat::Heif) || e
            == spec_extension(ImageFormat::Heic),
        _ => e == spec_extension(f),
    }
}

/// A decoded image with its source metadata and output options.
#[derive(Debug, Clone)]
pub struct Image {
    /// Size of the source file, in bytes.
    pub original_file_size: u64,
    /// Name of the source file.
    pub input_filename: String,
    /// Pixel dimensions of the decoded image, both set.
    pub original_geometry: Geometry,
    /// The size to scale to, if any.
    pub target_geometry: Option<Geometry>,
    /// The format to write, if one was chosen.
    pub output_format: Option<ImageFormat>,
    /// The decoded raster image.
    pub image: image::DynamicImage,
}

impl Image {
    /// The decoded pixel dimensions are recorded, both of them.
    pub open spec fn wf(&self) -> bool {
        self.original_geometry.width is Some && self.original_geometry.height is Some
    }

    /// The image with a target geometry set.
    pub fn with_target_geometry(self, target_geometry: Geometry) -> (r: Self)
        ensures
            r == (Image { target_geometry: Some(target_geometry), ..self }),
    {
        Image { target_geometry: Some(target_geometry), ..self }
    }

    /// The image with an output format set.
    pub fn with_output_format(self, output_format: ImageFormat) -> (r: Self)
        ensures
            r == (Image { output_format: Some(output_format), ..self }),
    {
        Image { output_format: Some(output_format), ..self }
    }

    /// Writing the output will overwrite the input file: either no
    /// output format was chosen yet, or the input file's extension
    /// already names the chosen format (without regard to ASCII case).
    pub open spec fn spec_will_overwrite(self) -> bool {
        match self.output_format {
            None => true,
            Some(f) => match spec_file_extension(self.input_filename@) {
                Some(e) => spec_ext_matches(lower_seq(e), f),
                None => false,
            },
        }
    }

    /// Whether writing the output would overwrite the input file.
    pub fn will_overwrite(&self) -> (r: bool)
        ensures
            r == self.spec_will_overwrite(),
    {
        let f = match self.output_format {
            None => {
                return true;
            },
            Some(f) => f,
        };
        let s = self.input_filename.as_str();
        let n = s.unicode_len();
        let i = match find_ext_dot(s) {
            None => {
                return false;
            },
            Some(i) => i,
        };
        proof {
            let c = choose|k: int| is_ext_dot(s@, k);
            lemma_ext_dot_unique(s@, i as int, c);
            assert(s@.subrange(i + 1, n as int) =~= s@.skip(i + 1));
        }
        let ext = s.substring_char(i + 1, n);
        let low = ascii_lowercase(ext);
        proof {
            reveal_strlit("jpg");
            reveal_strlit("png");
            reveal_strlit("webp");
            reveal_strlit("avif");
            reveal_strlit("heic");
            reveal_strlit("heif");
            assert("jpg"@ =~= spec_extension(ImageFormat::Jpg));
            assert("png"@ =~= spec_extension(ImageFormat::Png));
            assert("webp"@ =~= spec_extension(ImageFormat::Webp));
            assert("avif"@ =~= spec_extension(ImageFormat::Avif));
            assert("heic"@ =~= spec_extension(ImageFormat::Heic));
            assert("heif"@ =~= spec_extension(ImageFormat::Heif));
        }
        match f {
            ImageFormat::Jpg => str_eq(low.as_str(), "jpg"),
            ImageFormat::Png => str_eq(low.as_str(), "png"),
            ImageFormat::Webp => str_eq(low.as_str(), "webp"),
            ImageFormat::Avif => str_eq(low.as_str(), "avif"),
            ImageFormat::Heic | ImageFormat::Heif => str_eq(low.as_str(), "heif") || str_eq(
                low.as_str(),
                "heic",
            ),
        }
    }

    /// The format the output file will have: the chosen output format,
    /// or else the format the input file name denotes.
    pub open spec fn spec_effective_format(self) -> Option<ImageFormat> {
        match self.output_format {
            Some(f) => Some(f),
            None => spec_format_of_text(self.input_filename@),
        }
    }

    /// The name of the output file: the input name with its extension
    /// set to the canonical extension of the effective format; the
    /// input name unchanged when no format is known.
    pub open spec fn spec_output_filename(self) -> Seq<char> {
        match self.spec_effective_format() {
            Some(f) => spec_set_extension(self.input_filename@, spec_extension(f)),
            None => self.input_filename@,
        }
    }

    /// The name of the output file. A "jpeg" input without a chosen
    /// format normalizes to the canonical "jpg".
    pub fn output_filename(&self) -> (r: String)
        ensures
            r@ == self.spec_output_filename(),
    {
        let eff: Option<ImageFormat> = match self.output_format {
            Some(f) => Some(f),
            None => match ImageFormat::try_from_filename(self.input_filename.as_str()) {
                Ok(f) => Some(f),
                Err(_) => None,
            },
        };
        let f = match eff {
            None => {
                return self.input_filename.clone();
            },
            Some(f) => f,
        };
        let s = self.input_filename.as_str();
        let n = s.unicode_len();
        match find_ext_dot(s) {
            Some(i) => {
                proof {
                    let c = choose|k: int| is_ext_dot(s@, k);
                    lemma_ext_dot_unique(s@, i as int, c);
                    assert(s@.subrange(0, i + 1) =~= s@.take(i + 1));
                }
                let mut out = s.substring_char(0, i + 1).to_owned();
                out.append(f.extension());
                out
            },
            None => {
                if n == 0 {
                    self.input_filename.clone()
                } else {
                    let mut out = self.input_filename.clone();
                    out.append(".");
                    out.append(f.extension());
                    proof {
                        reveal_strlit(".");
                        assert(out@ =~= self.spec_output_filename());
                    }
                    out
                }
            },
        }
    }

    /// The final dimensions after resizing: a fully given target is
    /// taken as is; a half-open target scales the open dimension in
    /// proportion (integer arithmetic, capped at the largest `u32`);
    /// no target keeps the decoded dimensions.
    pub open spec fn spec_final_geometry(self) -> Geometry {
        let ow = self.original_geometry.width->0;
        let oh = self.original_geometry.height->0;
        match self.target_geometry {
            Some(g) => match (g.width, g.height) {
                (Some(_), Some(_)) => g,
                (Some(w), None) => Geometry {
                    width: Some(w),
                    height: Some(spec_scale_dim(oh as nat, w as nat, ow as nat) as u32),
                },
                (None, Some(h)) => Geometry {
                    width: Some(spec_scale_dim(ow as nat, h as nat, oh as nat) as u32),
                    height: Some(h),
                },
                (None, None) => Geometry { width: Some(ow), height: Some(oh) },
            },
            None => Geometry { width: Some(ow), height: Some(oh) },
        }
    }

    /// The final dimensions after resizing (both always given).
    pub fn final_geometry(&self) -> (r: Geometry)
        requires
            self.wf(),
        ensures
            r == self.spec_final_geometry(),
            r.width is Some,
            r.height is Some,
    {
        let ow = match self.original_geometry.width {
            Some(w) => w,
            None => unreached(),
        };
        let oh = match self.original_geometry.height {
            Some(h) => h,
            None => unreached(),
        };
        match &self.target_geometry {
            Some(g) => match (g.width, g.height) {
                (Some(w), Some(h)) => Geometry { width: Some(w), height: Some(h) },
                (Some(w), None) => Geometry {
                    width: Some(w),
                    height: Some(scale_dim(oh, w, ow)),
                },
                (None, Some(h)) => Geometry {
                    width: Some(scale_dim(ow, h, oh)),
                    height: Some(h),
                },
                (None, None) => Geometry { width: Some(ow), height: Some(oh) },
            },
            None => Geometry { width: Some(ow), height: Some(oh) },
        }
    }

    /// Scales the image to the final geometry, or copies it when the
    /// final geometry keeps the decoded dimensions. The image itself
    /// is not replaced.
    pub fn resize(&mut self) -> (r: Result<image::DynamicImage, Error>)
        requires
            old(self).wf(),
        ensures
            *final(self) == *old(self),
            r is Ok,
    {
        let fg = self.final_geometry();
        let ow = match self.original_geometry.width {
            Some(w) => w,
            None => unreached(),
        };
        let oh = match self.original_geometry.height {
            Some(h) => h,
            None => unreached(),
        };
        match (fg.width, fg.height) {
            (Some(w), Some(h)) => {
                if w != ow || h != oh {
                    Ok(resize_exact(&self.image, w, h))
                } else {
                    Ok(self.image.clone())
                }
            },
            _ => unreached(),
        }
    }

    /// Encodes the image in a format the codec crate writes itself.
    /// The next-gen formats are an error here: they go through the
    /// plane data instead.
    pub fn output_native_format(&self, format: ImageFormat) -> (r: Result<Vec<u8>, Error>)
        ensures
            !spec_is_native(format) ==> r is Err,
            r is Err ==> r->Err_0 is ImageEncodingError,
    {
        match format.to_native_format() {
            Ok(nf) => match encode_native(&self.image, nf) {
                Ok(bytes) => Ok(bytes),
                Err(msg) => Err(Error::ImageEncodingError(msg)),
            },
            Err(_) => Err(
                Error::ImageEncodingError("Failed to convert to native image format".to_owned()),
            ),
        }
    }

    /// The RGB planes of the image at the final geometry, for the
    /// next-gen encoder. An error when the pixel buffer is neither
    /// eight-bit RGBA nor eight-bit RGB, or does not hold exactly one
    /// pixel per cell of the final geometry.
    pub fn heif_plane_data(&self) -> (r: Result<PlaneData, Error>)
        requires
            self.wf(),
        ensures
            r is Ok ==> r->Ok_0.wf() && Some(r->Ok_0.width) == self.spec_final_geometry().width
                && Some(r->Ok_0.height) == self.spec_final_geometry().height,
            r is Err ==> r->Err_0 is ImageEncodingError,
    {
        let fg = self.final_geometry();
        let (w, h) = match (fg.width, fg.height) {
            (Some(w), Some(h)) => (w, h),
            _ => unreached(),
        };
        let (bytes, channels): (Vec<u8>, usize) = match rgba8_bytes(&self.image) {
            Some(bytes) => (bytes, 4),
            None => match rgb8_bytes(&self.image) {
                Some(bytes) => (bytes, 3),
                None => {
                    return Err(
                        Error::ImageEncodingError(
                            "Failed to get RGB8-ish data from image for HEIF encoding".to_owned(),
                        ),
                    );
                },
            },
        };
        let (r, g, b) = split_rgb_planes(&bytes, channels);
        proof {
            assert((w as nat) * (h as nat) <= (u32::MAX as nat) * (u32::MAX as nat))
                by (nonlinear_arith)
                requires
                    w <= u32::MAX,
                    h <= u32::MAX,
            ;
        }
        let pixels: u64 = (w as u64) * (h as u64);
        if r.len() as u64 == pixels {
            Ok(PlaneData { width: w, height: h, r, g, b })
        } else {
            Err(
                Error::ImageEncodingError(
                    "Image pixel buffer does not match the target geometry".to_owned(),
                ),
            )
        }
    }
}

/// Scales `a` by `num / den` in integer arithmetic, rounding down and
/// capping at the largest `u32`; a zero `den` gives the cap (or zero,
/// when the product is zero).
pub open spec fn spec_scale_dim(a: nat, num: nat, den: nat) -> nat {
    if den == 0 {
        if a > 0 && num > 0 {
            u32::MAX as nat
        } else {
            0
        }
    } else if a * num / den > u32::MAX as nat {
        u32::MAX as nat
    } else {
        a * num / den
    }
}

/// Scales `a` by `num / den`, rounding down, capped at the largest `u32`.
fn scale_dim(a: u32, num: u32, den: u32) -> (r: u32)
    ensures
        r as nat == spec_scale_dim(a as nat, num as nat, den as nat),
{
    if den == 0 {
        if a > 0 && num > 0 {
            u32::MAX
        } else {
            0
        }
    } else {
        proof {
            assert((a as nat) * (num as nat) <= (u32::MAX as nat) * (u32::MAX as nat))
                by (nonlinear_arith)
                requires
                    a <= u32::MAX,
                    num <= u32::MAX,
            ;
        }
        let p: u64 = (a as u64) * (num as u64);
        let q: u64 = p / (den as u64);
        if q > 0xFFFF_FFFF {
            u32::MAX
        } else {
            q as u32
        }
    }
}

/// One eight-bit plane per channel, at the given dimensions.
pub struct PlaneData {
    pub width: u32,
    pub height: u32,
    pub r: Vec<u8>,
    pub g: Vec<u8>,
    pub b: Vec<u8>,
}

impl PlaneData {
    /// Each plane holds one byte per pixel.
    pub open spec fn wf(&self) -> bool {
        &&& self.r@.len() == (self.width as nat) * (self.height as nat)
        &&& self.g@.len() == (self.width as nat) * (self.height as nat)
        &&& self.b@.len() == (self.width as nat) * (self.height as nat)
    }
}

/// Unzips an interleaved pixel buffer (RGB or RGBA, one byte per
/// channel) into the three color planes; a trailing partial pixel is
/// dropped, and an alpha channel is left out.
pub fn split_rgb_planes(bytes: &Vec<u8>, channels: usize) -> (planes: (Vec<u8>, Vec<u8>, Vec<u8>))
    requires
        channels == 3 || channels == 4,
    ensures
        planes.0@.len() == bytes@.len() as int / channels as int,
        planes.1@.len() == planes.0@.len(),
        planes.2@.len() == planes.0@.len(),
        forall|i: int|
            0 <= i < planes.0@.len() ==> planes.0@[i] == bytes@[channels * i] && planes.1@[i]
                == bytes@[channels * i + 1] && planes.2@[i] == bytes@[channels * i + 2],
{
    let mut r: Vec<u8> = Vec::new();
    let mut g: Vec<u8> = Vec::new();
    let mut b: Vec<u8> = Vec::new();
    let mut idx: usize = 0;
    let limit = bytes.len();
    while limit >= channels && idx <= limit - channels
        invariant
            limit == bytes@.len(),
            channels == 3 || channels == 4,
            idx == r@.len() * channels,
            idx <= bytes@.len(),
            g@.len() == r@.len(),
            b@.len() == r@.len(),
            forall|i: int|
                0 <= i < r@.len() ==> r@[i] == bytes@[channels * i] && g@[i] == bytes@[channels * i
                    + 1] && b@[i] == bytes@[channels * i + 2],
        decreases bytes@.len() - idx,
    {
        let ghost k = r@.len() as int;
        r.push(bytes[idx]);
        g.push(bytes[idx + 1]);
        b.push(bytes[idx + 2]);
        proof {
            assert(channels * k == idx);
            assert(channels * (k + 1) == idx + channels) by (nonlinear_arith)
                requires
                    channels * k == idx,
            ;
        }
        idx = idx + channels;
    }
    proof {
        let k = r@.len() as int;
        let c = channels as int;
        let n = bytes@.len() as int;
        assert(c * k <= n < c * k + c);
        assert(k == n / c) by (nonlinear_arith)
            requires
                c == 3 || c == 4,
                c * k <= n < c * k + c,
        ;
    }
    (r, g, b)
}

/// `i` points at the winning encoding: the first entry whose data is
/// smallest among all entries that have data.
pub open spec fn spec_best_choice(results: Seq<(ImageFormat, Option<Vec<u8>>)>, i: int) -> bool {
    &&& 0 <= i < results.len()
    &&& results[i].1 is Some
    &&& forall|j: int|
        0 <= j < results.len() && results[j].1 is Some ==> results[i].1->0@.len()
            <= #[trigger] results[j].1->0@.len()
    &&& forall|j: int|
        0 <= j < i && results[j].1 is Some ==> results[i].1->0@.len()
            < #[trigger] results[j].1->0@.len()
}

/// Picks the smallest successful encoding: the first of the smallest
/// ones, in the given order. An `ImageEncodingError` exactly when no
/// entry has data.
pub fn pick_smallest(results: Vec<(ImageFormat, Option<Vec<u8>>)>) -> (r: Result<
    (ImageFormat, Vec<u8>),
    Error,
>)
    ensures
        (r is Err) <==> (forall|j: int| 0 <= j < results@.len() ==> results@[j].1 is None),
        r is Err ==> r->Err_0 is ImageEncodingError,
        r is Ok ==> exists|i: int|
            spec_best_choice(results@, i) && r->Ok_0.0 == results@[i].0 && r->Ok_0.1
                == results@[i].1->0,
{
    let mut best: Option<(usize, usize)> = None;
    let mut i: usize = 0;
    while i < results.len()
        invariant
            0 <= i <= results@.len(),
            best is None ==> forall|j: int| 0 <= j < i ==> results@[j].1 is None,
            best matches Some((bi, bl)) ==> (bi as int) < i && results@[bi as int].1 is Some && bl
                == results@[bi as int].1->0@.len() && (forall|j: int|
                0 <= j < i && results@[j].1 is Some ==> bl <= #[trigger] results@[j].1->0@.len())
                && (forall|j: int|
                0 <= j < bi && results@[j].1 is Some ==> bl < #[trigger] results@[j].1->0@.len()),
        decreases results@.len() - i,
    {
        match &results[i].1 {
            Some(d) => {
                let dl = d.len();
                match best {
                    None => {
                        best = Some((i, dl));
                    },
                    Some((_bi, bl)) => {
                        if dl < bl {
                            best = Some((i, dl));
                        }
                    },
                }
            },
            None => {},
        }
        i = i + 1;
    }
    match best {
        None => Err(
            Error::ImageEncodingError("Failed to determine optimal image format".to_owned()),
        ),
        Some((bi, _bl)) => {
            proof {
                assert(spec_best_choice(results@, bi as int));
            }
            let mut results = results;
            let (fmt, data) = results.remove(bi);
            match data {
                Some(d) => Ok((fmt, d)),
                None => unreached(),
            }
        },
    }
}

} // verus!
