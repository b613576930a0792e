use proyecto_opencv::stream::stream_url;

#[test]
fn the_line_break_and_spaces_go() {
    assert_eq!(stream_url(b"https://r1.example/video.mp4?x=1\n"), "https://r1.example/video.mp4?x=1");
    assert_eq!(stream_url(b" \t https://a/b \r\n"), "https://a/b");
    assert_eq!(stream_url(b""), "");
    assert_eq!(stream_url(b" \n\t"), "");
}

#[test]
fn inner_spaces_stay() {
    assert_eq!(stream_url(b"  a b  "), "a b");
}

#[test]
fn unicode_whitespace_goes_too() {
    let bytes = "\u{3000}https://x\u{00A0}\u{2028}".as_bytes();
    assert_eq!(stream_url(bytes), "https://x");
}

#[test]
fn invalid_bytes_become_replacement_characters() {
    let bytes = b"https://x/\xFF\n";
    assert_eq!(stream_url(bytes), "https://x/\u{FFFD}");
    assert_eq!(stream_url(bytes), String::from_utf8_lossy(bytes).trim());
}
