//! The command line: where the video comes from, how many frames to pass
//! over between analysed ones, the minimum object area and headless mode.

use vstd::prelude::*;
use vstd::string::*;
use crate::text::{parse_usize, parse_usize_spec};

verus! {

/// The settings of a run, as parsed.
#[derive(Debug)]
pub struct Args {
    /// `--video <path>`: a video file.
    pub video: Option<String>,
    /// `--youtube <url>`: a YouTube page whose stream is played.
    pub youtube: Option<String>,
    /// `--skip <n>`: one frame in `n` is analysed (3 by default, and when
    /// the text is not a number).
    pub skip: usize,
    /// `--min-area <a>`: the text given for the minimum object area in
    /// pixels, if any; it is read as a floating-point number (500 by
    /// default, and when the text is not a number).
    pub min_area_text: Option<String>,
    /// `--headless`: no window; progress lines instead.
    pub headless: bool,
}

/// What a set of parsed settings stands for.
pub struct ArgsView {
    pub video: Option<Seq<char>>,
    pub youtube: Option<Seq<char>>,
    pub skip: usize,
    pub min_area_text: Option<Seq<char>>,
    pub headless: bool,
}

/// The view of an optional text.
pub open spec fn opt_view(s: Option<String>) -> Option<Seq<char>> {
    match s {
        Some(t) => Some(t@),
        None => None,
    }
}

impl View for Args {
    type V = ArgsView;

    open spec fn view(&self) -> ArgsView {
        ArgsView {
            video: opt_view(self.video),
            youtube: opt_view(self.youtube),
            skip: self.skip,
            min_area_text: opt_view(self.min_area_text),
            headless: self.headless,
        }
    }
}

/// Why a command line is refused.
#[derive(Clone, Copy, Debug, PartialEq, Eq, Structural)]
pub enum ArgsError {
    /// Neither `--video` nor `--youtube` was given.
    NoSource,
}

/// Where the frames come from.
#[derive(Debug)]
pub enum VideoSource {
    /// The stream of a YouTube page.
    YouTube(String),
    /// A video file.
    File(String),
}

/// The settings before any option is read.
pub open spec fn default_args() -> ArgsView {
    ArgsView { video: None, youtube: None, skip: 3, min_area_text: None, headless: false }
}

/// The texts of the command line.
pub open spec fn texts(args: Seq<String>) -> Seq<Seq<char>> {
    Seq::new(args.len(), |i: int| args[i]@)
}

/// Reads the options from the `i`-th word on, starting from the settings
/// `st`: each option that takes a value takes the next word whatever it is,
/// and the last occurrence of an option wins; unknown words are passed
/// over. `None` when an option that takes a value is the last word.
pub open spec fn scan(args: Seq<Seq<char>>, i: int, st: ArgsView) -> Option<ArgsView>
    decreases args.len() - i,
{
    if i < 0 || i >= args.len() {
        Some(st)
    } else if args[i] == "--video"@ {
        if i + 1 < args.len() {
            scan(
                args,
                i + 2,
                ArgsView {
                    video: Some(args[i + 1]),
                    youtube: st.youtube,
                    skip: st.skip,
                    min_area_text: st.min_area_text,
                    headless: st.headless,
                },
            )
        } else {
            None
        }
    } else if args[i] == "--youtube"@ {
        if i + 1 < args.len() {
            scan(
                args,
                i + 2,
                ArgsView {
                    video: st.video,
                    youtube: Some(args[i + 1]),
                    skip: st.skip,
                    min_area_text: st.min_area_text,
                    headless: st.headless,
                },
            )
        } else {
            None
        }
    } else if args[i] == "--skip"@ {
        if i + 1 < args.len() {
            scan(
                args,
                i + 2,
                ArgsView {
                    video: st.video,
                    youtube: st.youtube,
                    skip: match parse_usize_spec(args[i + 1]) {
                        Some(n) => n,
                        None => 3,
                    },
                    min_area_text: st.min_area_text,
                    headless: st.headless,
                },
            )
        } else {
            None
        }
    } else if args[i] == "--min-area"@ {
        if i + 1 < args.len() {
            scan(
                args,
                i + 2,
                ArgsView {
                    video: st.video,
                    youtube: st.youtube,
                    skip: st.skip,
                    min_area_text: Some(args[i + 1]),
                    headless: st.headless,
                },
            )
        } else {
            None
        }
    } else if args[i] == "--headless"@ {
        scan(
            args,
            i + 1,
            ArgsView {
                video: st.video,
                youtube: st.youtube,
                skip: st.skip,
                min_area_text: st.min_area_text,
                headless: true,
            },
        )
    } else {
        scan(args, i + 1, st)
    }
}

/// The settings that the command line `args` gives (its first word, the
/// program's name, is not read); `None` when an option that takes a value
/// has none.
pub open spec fn parsed(args: Seq<String>) -> Option<ArgsView> {
    scan(texts(args), 1, default_args())
}

/// The word is one of the options that the command line knows.
pub open spec fn is_option(w: Seq<char>) -> bool {
    ||| w == "--video"@
    ||| w == "--youtube"@
    ||| w == "--skip"@
    ||| w == "--min-area"@
    ||| w == "--headless"@
}

/// The word is an option that takes the next word as its value.
pub open spec fn takes_value(w: Seq<char>) -> bool {
    ||| w == "--video"@
    ||| w == "--youtube"@
    ||| w == "--skip"@
    ||| w == "--min-area"@
}

/// Reading from the `i`-th word on, the scan reaches position `p` as the
/// start of a word of its own (not as the value of an option), or as the
/// end of the line after reading every word.
pub open spec fn reads_as_word(args: Seq<Seq<char>>, i: int, p: int) -> bool
    decreases args.len() - i,
{
    if i < 0 || i > p {
        false
    } else if i == p {
        true
    } else if i >= args.len() {
        false
    } else if takes_value(args[i]) {
        i + 1 < args.len() && reads_as_word(args, i + 2, p)
    } else {
        reads_as_word(args, i + 1, p)
    }
}

/// Reading a line with an extra word at `p` from `j + 1` on is reading the
/// line without it from `j` on, once the scan is past `p`.
proof fn lemma_scan_shifted(args: Seq<Seq<char>>, p: int, t: Seq<char>, j: int, st: ArgsView)
    requires
        0 <= p <= j <= args.len(),
    ensures
        scan(args.insert(p, t), j + 1, st) == scan(args, j, st),
    decreases args.len() - j,
{
    let a2 = args.insert(p, t);
    assert(a2.len() == args.len() + 1);
    if j < args.len() {
        assert(a2[j + 1] == args[j]);
        if j + 1 < args.len() {
            assert(a2[j + 2] == args[j + 1]);
        }
        lemma_scan_shifted(args, p, t, j + 1, st);
        if j + 2 <= args.len() {
            let v = ArgsView {
                video: Some(args[j + 1]),
                youtube: st.youtube,
                skip: st.skip,
                min_area_text: st.min_area_text,
                headless: st.headless,
            };
            lemma_scan_shifted(args, p, t, j + 2, v);
            let y = ArgsView {
                video: st.video,
                youtube: Some(args[j + 1]),
                skip: st.skip,
                min_area_text: st.min_area_text,
                headless: st.headless,
            };
            lemma_scan_shifted(args, p, t, j + 2, y);
            let k = ArgsView {
                video: st.video,
                youtube: st.youtube,
                skip: match parse_usize_spec(args[j + 1]) {
                    Some(n) => n,
                    None => 3,
                },
                min_area_text: st.min_area_text,
                headless: st.headless,
            };
            lemma_scan_shifted(args, p, t, j + 2, k);
            let a = ArgsView {
                video: st.video,
                youtube: st.youtube,
                skip: st.skip,
                min_area_text: Some(args[j + 1]),
                headless: st.headless,
            };
            lemma_scan_shifted(args, p, t, j + 2, a);
        }
        let h = ArgsView {
            video: st.video,
            youtube: st.youtube,
            skip: st.skip,
            min_area_text: st.min_area_text,
            headless: true,
        };
        lemma_scan_shifted(args, p, t, j + 1, h);
    }
}

/// An unknown word placed where the scan reads words, reading from `i` on,
/// changes nothing.
proof fn lemma_unknown_word_from(args: Seq<Seq<char>>, p: int, t: Seq<char>, i: int, st: ArgsView)
    requires
        0 <= i <= p <= args.len(),
        reads_as_word(args, i, p),
        !is_option(t),
    ensures
        scan(args.insert(p, t), i, st) == scan(args, i, st),
    decreases p - i,
{
    let a2 = args.insert(p, t);
    assert(a2.len() == args.len() + 1);
    if i == p {
        assert(a2[p] == t);
        lemma_scan_shifted(args, p, t, p, st);
    } else {
        assert(i < args.len());
        assert(a2[i] == args[i]);
        if takes_value(args[i]) {
            assert(reads_as_word(args, i + 2, p));
            assert(i + 2 <= p);
            assert(a2[i + 1] == args[i + 1]);
            let v = ArgsView {
                video: Some(args[i + 1]),
                youtube: st.youtube,
                skip: st.skip,
                min_area_text: st.min_area_text,
                headless: st.headless,
            };
            lemma_unknown_word_from(args, p, t, i + 2, v);
            let y = ArgsView {
                video: st.video,
                youtube: Some(args[i + 1]),
                skip: st.skip,
                min_area_text: st.min_area_text,
                headless: st.headless,
            };
            lemma_unknown_word_from(args, p, t, i + 2, y);
            let k = ArgsView {
                video: st.video,
                youtube: st.youtube,
                skip: match parse_usize_spec(args[i + 1]) {
                    Some(n) => n,
                    None => 3,
                },
                min_area_text: st.min_area_text,
                headless: st.headless,
            };
            lemma_unknown_word_from(args, p, t, i + 2, k);
            let a = ArgsView {
                video: st.video,
                youtube: st.youtube,
                skip: st.skip,
                min_area_text: Some(args[i + 1]),
                headless: st.headless,
            };
            lemma_unknown_word_from(args, p, t, i + 2, a);
        } else {
            assert(reads_as_word(args, i + 1, p));
            let h = ArgsView {
                video: st.video,
                youtube: st.youtube,
                skip: st.skip,
                min_area_text: st.min_area_text,
                headless: true,
            };
            lemma_unknown_word_from(args, p, t, i + 1, h);
            lemma_unknown_word_from(args, p, t, i + 1, st);
        }
    }
}

/// Unknown words are ignored: putting a word that is no option (such as
/// `--help`) where the scan reads words, and not as an option's value,
/// leaves the settings, or the lack of a value, as they were.
pub proof fn lemma_unknown_word_ignored(args: Seq<Seq<char>>, p: int, t: Seq<char>)
    requires
        1 <= p <= args.len(),
        reads_as_word(args, 1, p),
        !is_option(t),
    ensures
        scan(args.insert(p, t), 1, default_args()) == scan(args, 1, default_args()),
{
    lemma_unknown_word_from(args, p, t, 1, default_args());
}

/// The settings after reading the word at `i` (and its value, if it takes
/// one), from the settings `st`.
spec fn after_word(args: Seq<Seq<char>>, i: int, st: ArgsView) -> ArgsView {
    if args[i] == "--video"@ {
        ArgsView {
            video: Some(args[i + 1]),
            youtube: st.youtube,
            skip: st.skip,
            min_area_text: st.min_area_text,
            headless: st.headless,
        }
    } else if args[i] == "--youtube"@ {
        ArgsView {
            video: st.video,
            youtube: Some(args[i + 1]),
            skip: st.skip,
            min_area_text: st.min_area_text,
            headless: st.headless,
        }
    } else if args[i] == "--skip"@ {
        ArgsView {
            video: st.video,
            youtube: st.youtube,
            skip: match parse_usize_spec(args[i + 1]) {
                Some(n) => n,
                None => 3,
            },
            min_area_text: st.min_area_text,
            headless: st.headless,
        }
    } else if args[i] == "--min-area"@ {
        ArgsView {
            video: st.video,
            youtube: st.youtube,
            skip: st.skip,
            min_area_text: Some(args[i + 1]),
            headless: st.headless,
        }
    } else if args[i] == "--headless"@ {
        ArgsView {
            video: st.video,
            youtube: st.youtube,
            skip: st.skip,
            min_area_text: st.min_area_text,
            headless: true,
        }
    } else {
        st
    }
}

/// Where the word after the one at `i` starts.
spec fn next_word(args: Seq<Seq<char>>, i: int) -> int {
    if takes_value(args[i]) {
        i + 2
    } else {
        i + 1
    }
}

/// One step of the scan.
proof fn lemma_scan_step(args: Seq<Seq<char>>, i: int, st: ArgsView)
    requires
        0 <= i < args.len(),
        takes_value(args[i]) ==> i + 1 < args.len(),
    ensures
        scan(args, i, st) == scan(args, next_word(args, i), after_word(args, i, st)),
{
}

/// A word that the scan reads after the one at `i` is one that it reads
/// from the next word on.
proof fn lemma_reads_on(args: Seq<Seq<char>>, i: int, k: int)
    requires
        0 <= i < k,
        i < args.len(),
        takes_value(args[i]) ==> i + 1 < args.len(),
    ensures
        reads_as_word(args, i, k) == reads_as_word(args, next_word(args, i), k),
{
}

/// With no `--youtube` word read from `i` on, the YouTube setting stays as
/// it was: no other option touches it.
pub proof fn lemma_youtube_kept(args: Seq<Seq<char>>, i: int, st: ArgsView)
    requires
        0 <= i,
        forall|k: int|
            i <= k < args.len() && #[trigger] reads_as_word(args, i, k) ==> args[k] != "--youtube"@,
    ensures
        scan(args, i, st) matches Some(r) ==> r.youtube == st.youtube,
    decreases args.len() - i,
{
    if i < args.len() {
        assert(reads_as_word(args, i, i));
        if !(takes_value(args[i]) && i + 1 >= args.len()) {
            lemma_scan_step(args, i, st);
            let n = next_word(args, i);
            assert forall|k: int| n <= k < args.len() && #[trigger] reads_as_word(args, n, k) implies args[k]
                != "--youtube"@ by {
                lemma_reads_on(args, i, k);
            }
            lemma_youtube_kept(args, n, after_word(args, i, st));
        }
    }
}

/// With no `--video` word read from `i` on, the video file setting stays as
/// it was: no other option touches it.
pub proof fn lemma_video_kept(args: Seq<Seq<char>>, i: int, st: ArgsView)
    requires
        0 <= i,
        forall|k: int|
            i <= k < args.len() && #[trigger] reads_as_word(args, i, k) ==> args[k] != "--video"@,
    ensures
        scan(args, i, st) matches Some(r) ==> r.video == st.video,
    decreases args.len() - i,
{
    if i < args.len() {
        assert(reads_as_word(args, i, i));
        if !(takes_value(args[i]) && i + 1 >= args.len()) {
            lemma_scan_step(args, i, st);
            let n = next_word(args, i);
            assert forall|k: int| n <= k < args.len() && #[trigger] reads_as_word(args, n, k) implies args[k]
                != "--video"@ by {
                lemma_reads_on(args, i, k);
            }
            lemma_video_kept(args, n, after_word(args, i, st));
        }
    }
}

/// The last `--youtube` option read gives the YouTube page, whatever other
/// options (`--video` among them) come before or after it.
pub proof fn lemma_last_youtube_wins(args: Seq<Seq<char>>, i: int, st: ArgsView, j: int)
    requires
        0 <= i,
        reads_as_word(args, i, j),
        j + 1 < args.len(),
        args[j] == "--youtube"@,
        forall|k: int|
            j < k < args.len() && #[trigger] reads_as_word(args, i, k) ==> args[k] != "--youtube"@,
    ensures
        scan(args, i, st) matches Some(r) ==> r.youtube == Some(args[j + 1]),
    decreases args.len() - i,
{
    assert(i <= j);
    lemma_scan_step(args, i, st);
    let n = next_word(args, i);
    if i == j {
        reveal_strlit("--video");
        reveal_strlit("--youtube");
        assert("--video"@.len() == 7);
        assert("--youtube"@.len() == 9);
        assert(args[j] != "--video"@);
        assert forall|k: int| n <= k < args.len() && #[trigger] reads_as_word(args, n, k) implies args[k]
            != "--youtube"@ by {
            lemma_reads_on(args, i, k);
        }
        lemma_youtube_kept(args, n, after_word(args, i, st));
    } else {
        lemma_reads_on(args, i, j);
        assert forall|k: int| j < k < args.len() && #[trigger] reads_as_word(args, n, k) implies args[k]
            != "--youtube"@ by {
            lemma_reads_on(args, i, k);
        }
        lemma_last_youtube_wins(args, n, after_word(args, i, st), j);
    }
}

/// The last `--video` option read gives the video file, whatever other
/// options (`--youtube` among them) come before or after it.
pub proof fn lemma_last_video_wins(args: Seq<Seq<char>>, i: int, st: ArgsView, j: int)
    requires
        0 <= i,
        reads_as_word(args, i, j),
        j + 1 < args.len(),
        args[j] == "--video"@,
        forall|k: int|
            j < k < args.len() && #[trigger] reads_as_word(args, i, k) ==> args[k] != "--video"@,
    ensures
        scan(args, i, st) matches Some(r) ==> r.video == Some(args[j + 1]),
    decreases args.len() - i,
{
    assert(i <= j);
    lemma_scan_step(args, i, st);
    let n = next_word(args, i);
    if i == j {
        assert forall|k: int| n <= k < args.len() && #[trigger] reads_as_word(args, n, k) implies args[k]
            != "--video"@ by {
            lemma_reads_on(args, i, k);
        }
        lemma_video_kept(args, n, after_word(args, i, st));
    } else {
        lemma_reads_on(args, i, j);
        assert forall|k: int| j < k < args.len() && #[trigger] reads_as_word(args, n, k) implies args[k]
            != "--video"@ by {
            lemma_reads_on(args, i, k);
        }
        lemma_last_video_wins(args, n, after_word(args, i, st), j);
    }
}

/// The two texts are equal.
fn same_text(a: &String, b: &str) -> (r: bool)
    ensures
        r == (a@ == b@),
{
    let b2 = String::from_str(b);
    *a == b2
}

/// Reads the options of `args` as `parsed` says.
pub fn scan_args(args: &Vec<String>) -> (r: Option<Args>)
    ensures
        match r {
            Some(a) => parsed(args@) == Some(a@),
            None => parsed(args@) is None,
        },
{
    let ghost words = texts(args@);
    let mut video: Option<String> = None;
    let mut youtube: Option<String> = None;
    let mut skip: usize = 3;
    let mut min_area_text: Option<String> = None;
    let mut headless = false;
    let mut i: usize = 1;
    while i < args.len()
        invariant
            words == texts(args@),
            1 <= i,
            parsed(args@) == scan(
                words,
                i as int,
                ArgsView {
                    video: opt_view(video),
                    youtube: opt_view(youtube),
                    skip,
                    min_area_text: opt_view(min_area_text),
                    headless,
                },
            ),
        decreases args.len() - i,
    {
        let ghost st = ArgsView {
            video: opt_view(video),
            youtube: opt_view(youtube),
            skip,
            min_area_text: opt_view(min_area_text),
            headless,
        };
        assert(words[i as int] == args@[i as int]@);
        if same_text(&args[i], "--video") {
            if i + 1 >= args.len() {
                return None;
            }
            video = Some(args[i + 1].clone());
            i = i + 2;
        } else if same_text(&args[i], "--youtube") {
            if i + 1 >= args.len() {
                return None;
            }
            youtube = Some(args[i + 1].clone());
            i = i + 2;
        } else if same_text(&args[i], "--skip") {
            if i + 1 >= args.len() {
                return None;
            }
            skip = match parse_usize(args[i + 1].as_str()) {
                Some(n) => n,
                None => 3,
            };
            i = i + 2;
        } else if same_text(&args[i], "--min-area") {
            if i + 1 >= args.len() {
                return None;
            }
            min_area_text = Some(args[i + 1].clone());
            i = i + 2;
        } else if same_text(&args[i], "--headless") {
            headless = true;
            i = i + 1;
        } else {
            i = i + 1;
        }
    }
    Some(Args { video, youtube, skip, min_area_text, headless })
}

/// Every option of `args` that takes a value has one, so that `parse_args`
/// can read them.
pub fn options_complete(args: &Vec<String>) -> (ok: bool)
    ensures
        ok == parsed(args@) is Some,
{
    scan_args(args).is_some()
}

/// The settings of the command line `args`; `NoSource` when it names
/// neither a video file nor a YouTube page.
pub fn parse_args(args: &Vec<String>) -> (r: Result<Args, ArgsError>)
    requires
        parsed(args@) is Some,
    ensures
        ({
            let st = parsed(args@).unwrap();
            match r {
                Ok(a) => a@ == st && (st.video is Some || st.youtube is Some),
                Err(e) => e == ArgsError::NoSource && st.video is None && st.youtube is None,
            }
        }),
{
    match scan_args(args) {
        Some(a) => {
            if a.video.is_none() && a.youtube.is_none() {
                Err(ArgsError::NoSource)
            } else {
                Ok(a)
            }
        },
        None => Err(ArgsError::NoSource),
    }
}

impl Args {
    /// The source of the frames: the YouTube page when one is given, else
    /// the video file.
    pub fn source(&self) -> (s: VideoSource)
        requires
            self.video is Some || self.youtube is Some,
        ensures
            match s {
                VideoSource::YouTube(u) => self.youtube == Some(u),
                VideoSource::File(p) => self.youtube is None && self.video == Some(p),
            },
    {
        match &self.youtube {
            Some(u) => VideoSource::YouTube(u.clone()),
            None => match &self.video {
                Some(p) => VideoSource::File(p.clone()),
                None => VideoSource::File(String::new()),
            },
        }
    }
}

} // verus!
