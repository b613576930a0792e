use proyecto_opencv::args::{options_complete, parse_args, ArgsError, VideoSource};

fn words(v: &[&str]) -> Vec<String> {
    v.iter().map(|s| s.to_string()).collect()
}

#[test]
fn video_file_with_defaults() {
    let a = parse_args(&words(&["prog", "--video", "clip.mp4"])).unwrap();
    assert_eq!(a.video.as_deref(), Some("clip.mp4"));
    assert_eq!(a.youtube, None);
    assert_eq!(a.skip, 3);
    assert_eq!(a.min_area_text, None);
    assert!(!a.headless);
}

#[test]
fn every_option() {
    let a = parse_args(&words(&[
        "prog", "--youtube", "https://y/watch?v=1", "--skip", "5", "--min-area", "250.5",
        "--headless",
    ]))
    .unwrap();
    assert_eq!(a.youtube.as_deref(), Some("https://y/watch?v=1"));
    assert_eq!(a.video, None);
    assert_eq!(a.skip, 5);
    assert_eq!(a.min_area_text.as_deref(), Some("250.5"));
    assert!(a.headless);
}

#[test]
fn bad_skip_falls_back_to_three_and_last_wins() {
    let a = parse_args(&words(&["prog", "--skip", "abc", "--video", "v"])).unwrap();
    assert_eq!(a.skip, 3);
    let a = parse_args(&words(&["prog", "--skip", "7", "--skip", "x", "--video", "v"])).unwrap();
    assert_eq!(a.skip, 3);
    let a = parse_args(&words(&["prog", "--skip", "x", "--skip", "+9", "--video", "v"])).unwrap();
    assert_eq!(a.skip, 9);
    let a = parse_args(&words(&["prog", "--skip", "0", "--video", "v"])).unwrap();
    assert_eq!(a.skip, 0);
    let a = parse_args(&words(&["prog", "--video", "a", "--video", "b"])).unwrap();
    assert_eq!(a.video.as_deref(), Some("b"));
}

#[test]
fn values_are_taken_whatever_they_are() {
    let a = parse_args(&words(&["prog", "--video", "--headless"])).unwrap();
    assert_eq!(a.video.as_deref(), Some("--headless"));
    assert!(!a.headless);
}

#[test]
fn program_name_and_unknown_words_are_passed_over() {
    let a = parse_args(&words(&["--headless", "extra", "--video", "v", "--verbose"])).unwrap();
    assert!(!a.headless);
    assert_eq!(a.video.as_deref(), Some("v"));
}

#[test]
fn no_source_is_refused() {
    assert_eq!(parse_args(&words(&["prog"])).unwrap_err(), ArgsError::NoSource);
    assert_eq!(parse_args(&words(&[])).unwrap_err(), ArgsError::NoSource);
    assert_eq!(
        parse_args(&words(&["prog", "--headless", "--skip", "2"])).unwrap_err(),
        ArgsError::NoSource
    );
}

#[test]
fn an_option_without_its_value_is_incomplete() {
    assert!(!options_complete(&words(&["prog", "--video"])));
    assert!(!options_complete(&words(&["prog", "--video", "v", "--min-area"])));
    assert!(options_complete(&words(&["prog", "--video", "v", "--headless"])));
    assert!(options_complete(&words(&["prog"])));
}

#[test]
fn youtube_wins_over_a_file() {
    let a = parse_args(&words(&["prog", "--video", "f.mp4", "--youtube", "u"])).unwrap();
    match a.source() {
        VideoSource::YouTube(u) => assert_eq!(u, "u"),
        VideoSource::File(_) => panic!("expected the YouTube page"),
    }
    let a = parse_args(&words(&["prog", "--video", "f.mp4"])).unwrap();
    match a.source() {
        VideoSource::File(p) => assert_eq!(p, "f.mp4"),
        VideoSource::YouTube(_) => panic!("expected the file"),
    }
}

#[test]
fn unknown_words_are_ignored_where_words_are_read() {
    let base = words(&["prog", "--video", "v.mp4", "--skip", "4", "--headless"]);
    let a = parse_args(&base).unwrap();
    for p in [1usize, 3, 5, 6] {
        let mut with = base.clone();
        with.insert(p, "--help".to_string());
        let b = parse_args(&with).unwrap();
        assert_eq!(b.video, a.video);
        assert_eq!(b.skip, a.skip);
        assert_eq!(b.headless, a.headless);
        assert_eq!(b.min_area_text, a.min_area_text);
    }
}
