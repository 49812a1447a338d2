use gallery::media::{
    decimal_string, ffmpeg_arguments, is_supported_image_name, supported_file_types, THUMBNAIL_SIZE,
};

#[test]
fn supported_types_are_the_fifteen_picture_extensions() {
    let t = supported_file_types();
    assert_eq!(
        t,
        vec![
            "jpg", "jpeg", "png", "webp", "bmp", "dds", "exr", "ff", "gif", "hdr", "ico", "pnm",
            "qoi", "tga", "tiff"
        ]
    );
}

#[test]
fn picture_names_by_extension() {
    assert!(is_supported_image_name("photo.jpg"));
    assert!(is_supported_image_name("photo.JPG"));
    assert!(is_supported_image_name("scan.TiFf"));
    assert!(is_supported_image_name("a.b.png"));
    assert!(!is_supported_image_name("movie.mp4"));
    assert!(!is_supported_image_name("archive.png.gz"));
    assert!(!is_supported_image_name("readme.md"));
    assert!(!is_supported_image_name(""));
    assert!(!is_supported_image_name("photo."));
}

#[test]
fn name_without_dot_is_its_own_extension() {
    assert!(is_supported_image_name("png"));
    assert!(!is_supported_image_name("photo"));
}

#[test]
fn decimal_notation() {
    assert_eq!(decimal_string(0), "0");
    assert_eq!(decimal_string(7), "7");
    assert_eq!(decimal_string(THUMBNAIL_SIZE), "500");
    assert_eq!(decimal_string(4294967295), "4294967295");
    assert_eq!(decimal_string(1000), "1000");
}

#[test]
fn extractor_arguments() {
    let args = ffmpeg_arguments("content/a/clip.mp4", "thumbnail/a/clip.mp4");
    assert_eq!(
        args,
        vec![
            "-autorotate",
            "-i",
            "content/a/clip.mp4",
            "-vf",
            "scale=500:500:force_original_aspect_ratio=decrease,setsar=1",
            "-map_metadata",
            "-1",
            "-vframes",
            "1",
            "-f",
            "webp",
            "-y",
            "thumbnail/a/clip.mp4",
        ]
    );
}
