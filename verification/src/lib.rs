//! A single-image optimizer library: image formats, target geometry,
//! encode dispatch and the selection of the smallest encoding.

pub mod cli;
pub mod imagedata;
pub mod imgcodec;
pub mod strutil;

use vstd::prelude::*;

use crate::strutil::{ascii_lowercase, lower_char, lower_seq, str_eq};



verus! {

/// The image formats the optimizer reads and writes.
#[derive(Copy, Clone, Debug, Eq, PartialEq, Structural)]
pub enum ImageFormat {
    Jpg,
    Png,
    Webp,
    Avif,
    Heic,
    Heif,
}

/// The errors of the library.
#[derive(Debug)]
pub enum Error {
    InvalidOptions(String),
    UnsupportedFormat(String),
    InvalidGeometry(String),
    ImageLoadingError(String, image::ImageError),
    FileSystem(String),
    ImageEncodingError(String),
}

/// The canonical file extension of a format, in lowercase.
pub open spec fn spec_extension(f: ImageFormat) -> Seq<char> {
    match f {
        ImageFormat::Jpg => seq!['j', 'p', 'g'],
        ImageFormat::Png => seq!['p', 'n', 'g'],
        ImageFormat::Webp => seq!['w', 'e', 'b', 'p'],
        ImageFormat::Avif => seq!['a', 'v', 'i', 'f'],
        ImageFormat::Heic => seq!['h', 'e', 'i', 'c'],
        ImageFormat::Heif => seq!['h', 'e', 'i', 'f'],
    }
}

/// The display name of a format: its name in capitals.
pub open spec fn spec_display_name(f: ImageFormat) -> Seq<char> {
    match f {
        ImageFormat::Jpg => seq!['J', 'P', 'G'],
        ImageFormat::Png => seq!['P', 'N', 'G'],
        ImageFormat::Webp => seq!['W', 'E', 'B', 'P'],
        ImageFormat::Avif => seq!['A', 'V', 'I', 'F'],
        ImageFormat::Heic => seq!['H', 'E', 'I', 'C'],
        ImageFormat::Heif => seq!['H', 'E', 'I', 'F'],
    }
}

/// The format a lowercase name denotes: the canonical extensions,
/// with "jpeg" as a second name of JPG.
pub open spec fn spec_format_of_name(s: Seq<char>) -> Option<ImageFormat> {
    if s == seq!['j', 'p', 'g'] || s == seq!['j', 'p', 'e', 'g'] {
        Some(ImageFormat::Jpg)
    } else if s == seq!['p', 'n', 'g'] {
        Some(ImageFormat::Png)
    } else if s == seq!['w', 'e', 'b', 'p'] {
        Some(ImageFormat::Webp)
    } else if s == seq!['a', 'v', 'i', 'f'] {
        Some(ImageFormat::Avif)
    } else if s == seq!['h', 'e', 'i', 'c'] {
        Some(ImageFormat::Heic)
    } else if s == seq!['h', 'e', 'i', 'f'] {
        Some(ImageFormat::Heif)
    } else {
        None
    }
}

/// `i` is the position of the last dot of `s`.
pub open spec fn is_last_dot(s: Seq<char>, i: int) -> bool {
    &&& 0 <= i < s.len()
    &&& s[i] == '.'
    &&& forall|j: int| i < j < s.len() ==> s[j] != '.'
}

/// `s` holds a dot.
pub open spec fn has_dot(s: Seq<char>) -> bool {
    exists|i: int| 0 <= i < s.len() && s[i] == '.'
}

/// The part of `s` after its last dot; all of `s` when it has none.
pub open spec fn spec_ext_of(s: Seq<char>) -> Seq<char> {
    if exists|i: int| is_last_dot(s, i) {
        s.skip((choose|i: int| is_last_dot(s, i)) + 1)
    } else {
        s
    }
}

/// Two positions of the last dot are the same position.
proof fn lemma_last_dot_unique(s: Seq<char>, i: int, j: int)
    requires
        is_last_dot(s, i),
        is_last_dot(s, j),
    ensures
        i == j,
{
    if i < j {
        assert(s[j] != '.');
    }
    if j < i {
        assert(s[i] != '.');
    }
}

/// The format a file name or format name denotes: the part after the
/// last dot (the whole name when it has none), read without regard
/// to ASCII case.
pub open spec fn spec_format_of_text(s: Seq<char>) -> Option<ImageFormat> {
    spec_format_of_name(spec_ext_of(lower_seq(s)))
}

/// Matches a lowercase name against the known format names.
fn format_of_name(t: &str) -> (r: Option<ImageFormat>)
    ensures
        r == spec_format_of_name(t@),
{
    proof {
        reveal_strlit("jpg");
        reveal_strlit("jpeg");
        reveal_strlit("png");
        reveal_strlit("webp");
        reveal_strlit("avif");
        reveal_strlit("heic");
        reveal_strlit("heif");
        assert("jpg"@ =~= seq!['j', 'p', 'g']);
        assert("jpeg"@ =~= seq!['j', 'p', 'e', 'g']);
        assert("png"@ =~= seq!['p', 'n', 'g']);
        assert("webp"@ =~= seq!['w', 'e', 'b', 'p']);
        assert("avif"@ =~= seq!['a', 'v', 'i', 'f']);
        assert("heic"@ =~= seq!['h', 'e', 'i', 'c']);
        assert("heif"@ =~= seq!['h', 'e', 'i', 'f']);
    }
    if str_eq(t, "jpg") || str_eq(t, "jpeg") {
        Some(ImageFormat::Jpg)
    } else if str_eq(t, "png") {
        Some(ImageFormat::Png)
    } else if str_eq(t, "webp") {
        Some(ImageFormat::Webp)
    } else if str_eq(t, "avif") {
        Some(ImageFormat::Avif)
    } else if str_eq(t, "heic") {
        Some(ImageFormat::Heic)
    } else if str_eq(t, "heif") {
        Some(ImageFormat::Heif)
    } else {
        None
    }
}

/// The position of the last dot of `s`, if any.
fn find_last_dot(s: &str) -> (r: Option<usize>)
    ensures
        match r {
            Some(i) => is_last_dot(s@, i as int),
            None => !has_dot(s@),
        },
{
    let n = s.unicode_len();
    let mut k: usize = n;
    while k > 0
        invariant
            0 <= k <= n,
            n == s@.len(),
            forall|j: int| k <= j < n ==> s@[j] != '.',
        decreases k,
    {
        k = k - 1;
        if s.get_char(k) == '.' {
            return Some(k);
        }
    }
    None
}

impl ImageFormat {
    /// The canonical file extension of the format.
    pub fn extension(&self) -> (r: &'static str)
        ensures
            r@ == spec_extension(*self),
    {
        proof {
            reveal_strlit("jpg");
            reveal_strlit("png");
            reveal_strlit("webp");
            reveal_strlit("avif");
            reveal_strlit("heic");
            reveal_strlit("heif");
            assert("jpg"@ =~= seq!['j', 'p', 'g']);
            assert("png"@ =~= seq!['p', 'n', 'g']);
            assert("webp"@ =~= seq!['w', 'e', 'b', 'p']);
            assert("avif"@ =~= seq!['a', 'v', 'i', 'f']);
            assert("heic"@ =~= seq!['h', 'e', 'i', 'c']);
            assert("heif"@ =~= seq!['h', 'e', 'i', 'f']);
        }
        match self {
            ImageFormat::Jpg => "jpg",
            ImageFormat::Png => "png",
            ImageFormat::Webp => "webp",
            ImageFormat::Avif => "avif",
            ImageFormat::Heic => "heic",
            ImageFormat::Heif => "heif",
        }
    }

    /// The display name of the format: its name in capitals.
    pub fn display_name(&self) -> (r: &'static str)
        ensures
            r@ == spec_display_name(*self),
    {
        proof {
            reveal_strlit("JPG");
            reveal_strlit("PNG");
            reveal_strlit("WEBP");
            reveal_strlit("AVIF");
            reveal_strlit("HEIC");
            reveal_strlit("HEIF");
            assert("JPG"@ =~= seq!['J', 'P', 'G']);
            assert("PNG"@ =~= seq!['P', 'N', 'G']);
            assert("WEBP"@ =~= seq!['W', 'E', 'B', 'P']);
            assert("AVIF"@ =~= seq!['A', 'V', 'I', 'F']);
            assert("HEIC"@ =~= seq!['H', 'E', 'I', 'C']);
            assert("HEIF"@ =~= seq!['H', 'E', 'I', 'F']);
        }
        match self {
            ImageFormat::Jpg => "JPG",
            ImageFormat::Png => "PNG",
            ImageFormat::Webp => "WEBP",
            ImageFormat::Avif => "AVIF",
            ImageFormat::Heic => "HEIC",
            ImageFormat::Heif => "HEIF",
        }
    }

    /// Reads the format from a file name: the part after the last dot
    /// (the whole name when it has none), without regard to ASCII case.
    /// Any other name is an `UnsupportedFormat` error carrying the
    /// lowercased extension.
    pub fn try_from_filename(filename: &str) -> (r: Result<ImageFormat, Error>)
        ensures
            match spec_format_of_text(filename@) {
                Some(f) => r == Ok::<ImageFormat, Error>(f),
                None => r is Err && r->Err_0 is UnsupportedFormat,
            },
    {
        let low = ascii_lowercase(filename);
        let n = low.as_str().unicode_len();
        let ext: &str = match find_last_dot(low.as_str()) {
            Some(i) => {
                proof {
                    let c = choose|k: int| is_last_dot(low@, k);
                    lemma_last_dot_unique(low@, i as int, c);
                    assert(low@.subrange(i + 1, n as int) =~= low@.skip(i + 1));
                }
                low.as_str().substring_char(i + 1, n)
            },
            None => low.as_str(),
        };
        match format_of_name(ext) {
            Some(f) => Ok(f),
            None => Err(Error::UnsupportedFormat(ext.to_owned())),
        }
    }

    /// Reads a format from free text, as `try_from_filename` does; a
    /// failed match on text without a dot carries the text itself.
    pub fn parse_text(s: &str) -> (r: Result<ImageFormat, Error>)
        ensures
            match spec_format_of_text(s@) {
                Some(f) => r == Ok::<ImageFormat, Error>(f),
                None => r is Err && r->Err_0 is UnsupportedFormat,
            },
    {
        let low = ascii_lowercase(s);
        match find_last_dot(low.as_str()) {
            Some(_) => Self::try_from_filename(s),
            None => {
                match format_of_name(low.as_str()) {
                    Some(f) => Ok(f),
                    None => Err(Error::UnsupportedFormat(s.to_owned())),
                }
            },
        }
    }

    /// Whether the raster codec crate encodes the format itself; the
    /// remaining formats go through the next-gen codec.
    pub fn is_native_image_format(&self) -> (r: bool)
        ensures
            r == spec_is_native(*self),
    {
        match self {
            ImageFormat::Avif => false,
            ImageFormat::Heic => false,
            ImageFormat::Heif => false,
            _ => true,
        }
    }

    /// All formats, in their fixed order.
    pub fn all() -> (r: Vec<ImageFormat>)
        ensures
            r@ == spec_all_formats(),
    {
        let mut v: Vec<ImageFormat> = Vec::new();
        v.push(ImageFormat::Jpg);
        v.push(ImageFormat::Png);
        v.push(ImageFormat::Webp);
        v.push(ImageFormat::Avif);
        v.push(ImageFormat::Heic);
        v.push(ImageFormat::Heif);
        proof {
            assert(v@ =~= spec_all_formats());
        }
        v
    }
}

/// The formats the codec crate encodes without the next-gen library.
pub open spec fn spec_is_native(f: ImageFormat) -> bool {
    !(f is Avif || f is Heic || f is Heif)
}

/// All formats, in their fixed order.
pub open spec fn spec_all_formats() -> Seq<ImageFormat> {
    seq![
        ImageFormat::Jpg,
        ImageFormat::Png,
        ImageFormat::Webp,
        ImageFormat::Avif,
        ImageFormat::Heic,
        ImageFormat::Heif,
    ]
}

impl core::str::FromStr for ImageFormat {
    type Err = Error;

    fn from_str(s: &str) -> Result<Self, Self::Err> {
        ImageFormat::parse_text(s)
    }
}

/// Each format's canonical extension names that format again.
pub proof fn lemma_extension_names_format(f: ImageFormat)
    ensures
        spec_format_of_name(spec_extension(f)) == Some(f),
{
}

/// Each format's canonical extension, read as free text, names that
/// format again: it is already lowercase and holds no dot.
pub proof fn lemma_extension_parses_back(f: ImageFormat)
    ensures
        spec_format_of_text(spec_extension(f)) == Some(f),
{
    let e = spec_extension(f);
    assert forall|i: int| 0 <= i < e.len() implies lower_char(#[trigger] e[i]) == e[i] by {
    }
    assert(lower_seq(e) =~= e);
    assert forall|i: int| !is_last_dot(e, i) by {
        if 0 <= i < e.len() {
            assert(e[i] != '.');
        }
    }
    lemma_extension_names_format(f);
}

} // verus!
