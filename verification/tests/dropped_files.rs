use daybook_core::attachments::{
    dropped_file_bytes, named_attachment_file, pasted_image_bytes, MAX_FILE_BYTES,
};

#[test]
fn pasted_images_arrive_as_base64() {
    assert_eq!(pasted_image_bytes("aGVsbG8=").unwrap(), b"hello".to_vec());
    let e = pasted_image_bytes("not base64!").unwrap_err();
    assert!(e.starts_with("Bad image data: "), "got: {e}");
}

#[test]
fn dropped_files_are_refused_over_the_limit() {
    assert_eq!(dropped_file_bytes("aGk=", "hi.txt").unwrap(), b"hi".to_vec());
    let e = dropped_file_bytes("%%%", "hi.txt").unwrap_err();
    assert!(e.starts_with("Bad file data: "), "got: {e}");

    // Every four `A`s decode to three zero bytes.
    let quads = MAX_FILE_BYTES / 3 + 1;
    let big = "AAAA".repeat(quads);
    let e = dropped_file_bytes(&big, "movie.mov").unwrap_err();
    assert_eq!(e, "movie.mov is 64 MB; the limit is 64 MB. Link to it instead.");
}

#[test]
fn a_dropped_file_keeps_its_name() {
    assert_eq!(named_attachment_file("C:\\Users\\me\\My  Report (final).PDF", ""), "My Report -final-.pdf");
    assert_eq!(
        named_attachment_file("/tmp/My  Report (final).PDF", "-20260806-101500"),
        "My Report -final--20260806-101500.pdf"
    );
    assert_eq!(named_attachment_file(".bashrc", ""), "-bashrc");
    assert_eq!(named_attachment_file("???.txt", ""), "---.txt");
    assert_eq!(named_attachment_file("   .png", ""), "file.png");
    assert_eq!(named_attachment_file("notes", ""), "notes");
    assert_eq!(named_attachment_file("a.tar.gz", ""), "a-tar.gz");
    assert_eq!(named_attachment_file("x.abcdefghij", ""), "x.abcdefgh");
    assert_eq!(named_attachment_file("dir/", ""), "file");
}
