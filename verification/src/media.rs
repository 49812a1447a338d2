//! Image files: which names the gallery treats as pictures, the arguments of
//! the external video-frame extractor, and the decisions of the thumbnail
//! endpoint.

use vstd::prelude::*;
use vstd::string::*;

use crate::text::{after_last_dot, after_last_dot_exec, chars_eq, chars_of, fold_ascii, fold_ascii_exec};

verus! {

/// Width and height bound of a thumbnail, in pixels.
pub const THUMBNAIL_SIZE: u32 = 500;

/// The file extensions (in lower case) that the gallery shows as pictures.
pub open spec fn supported_extensions() -> Seq<Seq<char>> {
    seq![
        "jpg"@,
        "jpeg"@,
        "png"@,
        "webp"@,
        "bmp"@,
        "dds"@,
        "exr"@,
        "ff"@,
        "gif"@,
        "hdr"@,
        "ico"@,
        "pnm"@,
        "qoi"@,
        "tga"@,
        "tiff"@,
    ]
}

/// The picture extensions, in lower case.
pub fn supported_file_types() -> (r: Vec<&'static str>)
    ensures
        r@.map_values(|t: &'static str| t@) == supported_extensions(),
{
    let r = vec![
        "jpg",
        "jpeg",
        "png",
        "webp",
        "bmp",
        "dds",
        "exr",
        "ff",
        "gif",
        "hdr",
        "ico",
        "pnm",
        "qoi",
        "tga",
        "tiff",
    ];
    assert(r@.map_values(|t: &'static str| t@) =~= supported_extensions());
    r
}

/// A file name is a picture when the text after its last `.` (all of it when
/// it has none), lower-cased, is one of the picture extensions.
pub open spec fn is_picture_name(name: Seq<char>) -> bool {
    supported_extensions().contains(fold_ascii(after_last_dot(name)))
}

/// Whether a lower-case extension is one of the picture extensions.
pub fn is_supported_extension(ext: &Vec<char>) -> (r: bool)
    ensures
        r == supported_extensions().contains(ext@),
{
    let types = supported_file_types();
    let mut i: usize = 0;
    while i < types.len()
        invariant
            types@.map_values(|t: &'static str| t@) == supported_extensions(),
            i <= types@.len(),
            forall|k: int| 0 <= k < i ==> supported_extensions()[k] != ext@,
        decreases types@.len() - i,
    {
        let t = chars_of(types[i]);
        assert(supported_extensions()[i as int] == types@[i as int]@);
        if chars_eq(&t, ext) {
            return true;
        }
        i = i + 1;
    }
    false
}

/// Whether the file called `name` is shown as a picture.
pub fn is_supported_image_name(name: &str) -> (r: bool)
    ensures
        r == is_picture_name(name@),
{
    let chars = chars_of(name);
    let ext = after_last_dot_exec(&chars);
    let folded = fold_ascii_exec(&ext);
    is_supported_extension(&folded)
}

/// The decimal digit character for `d < 10`.
pub open spec fn digit_char(d: nat) -> char {
    ((48 + d) as u8) as char
}

/// Decimal notation of a natural number, without leading zeros.
pub open spec fn decimal(n: nat) -> Seq<char>
    decreases n,
{
    if n < 10 {
        seq![digit_char(n)]
    } else {
        decimal(n / 10).push(digit_char(n % 10))
    }
}

fn digit_text(d: u32) -> (r: &'static str)
    requires
        d < 10,
    ensures
        r@ == seq![digit_char(d as nat)],
{
    proof {
        reveal_strlit("0");
        reveal_strlit("1");
        reveal_strlit("2");
        reveal_strlit("3");
        reveal_strlit("4");
        reveal_strlit("5");
        reveal_strlit("6");
        reveal_strlit("7");
        reveal_strlit("8");
        reveal_strlit("9");
    }
    let r = if d == 0 {
        "0"
    } else if d == 1 {
        "1"
    } else if d == 2 {
        "2"
    } else if d == 3 {
        "3"
    } else if d == 4 {
        "4"
    } else if d == 5 {
        "5"
    } else if d == 6 {
        "6"
    } else if d == 7 {
        "7"
    } else if d == 8 {
        "8"
    } else {
        "9"
    };
    assert(r@ =~= seq![digit_char(d as nat)]);
    r
}

/// Decimal notation of `n`.
pub fn decimal_string(n: u32) -> (r: String)
    ensures
        r@ == decimal(n as nat),
    decreases n,
{
    if n < 10 {
        String::from_str(digit_text(n))
    } else {
        let mut r = decimal_string(n / 10);
        r.append(digit_text(n % 10));
        r
    }
}

/// The video filter that scales a frame to fit in a `size` × `size` square.
pub open spec fn scale_filter(size: nat) -> Seq<char> {
    "scale="@ + decimal(size) + ":"@ + decimal(size) + ":force_original_aspect_ratio=decrease,setsar=1"@
}

/// The arguments of the frame extractor that writes a still thumbnail of
/// `input` to `output` in WebP format.
pub open spec fn frame_extractor_arguments(input: Seq<char>, output: Seq<char>) -> Seq<Seq<char>> {
    seq![
        "-autorotate"@,
        "-i"@,
        input,
        "-vf"@,
        scale_filter(THUMBNAIL_SIZE as nat),
        "-map_metadata"@,
        "-1"@,
        "-vframes"@,
        "1"@,
        "-f"@,
        "webp"@,
        "-y"@,
        output,
    ]
}

/// The command-line arguments for extracting a thumbnail frame of `input`
/// into `output`.
pub fn ffmpeg_arguments(input: &str, output: &str) -> (r: Vec<String>)
    ensures
        r@.map_values(|a: String| a@) == frame_extractor_arguments(input@, output@),
{
    let mut scale = String::from_str("scale=");
    let size = decimal_string(THUMBNAIL_SIZE);
    scale.append(size.as_str());
    scale.append(":");
    scale.append(size.as_str());
    scale.append(":force_original_aspect_ratio=decrease,setsar=1");
    let r = vec![
        String::from_str("-autorotate"),
        String::from_str("-i"),
        String::from_str(input),
        String::from_str("-vf"),
        scale,
        String::from_str("-map_metadata"),
        String::from_str("-1"),
        String::from_str("-vframes"),
        String::from_str("1"),
        String::from_str("-f"),
        String::from_str("webp"),
        String::from_str("-y"),
        String::from_str(output),
    ];
    assert(r@.map_values(|a: String| a@) =~= frame_extractor_arguments(input@, output@));
    r
}

} // verus!
