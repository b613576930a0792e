//! The address of a YouTube stream, as `yt-dlp --get-url` prints it.

use vstd::prelude::*;
use vstd::string::*;
use vstd::utf8::{decode_utf8, valid_utf8};

verus! {

/// A character of Unicode's `White_Space` property, the whitespace of
/// `char::is_whitespace` and `str::trim`.
pub open spec fn is_white_space(c: char) -> bool {
    let u = c as u32;
    ||| 0x09 <= u <= 0x0D
    ||| u == 0x20
    ||| u == 0x85
    ||| u == 0xA0
    ||| u == 0x1680
    ||| 0x2000 <= u <= 0x200A
    ||| u == 0x2028
    ||| u == 0x2029
    ||| u == 0x202F
    ||| u == 0x205F
    ||| u == 0x3000
}

/// `s` without its leading whitespace.
pub open spec fn trim_start(s: Seq<char>) -> Seq<char>
    decreases s.len(),
{
    if s.len() > 0 && is_white_space(s[0]) {
        trim_start(s.drop_first())
    } else {
        s
    }
}

/// `s` without its trailing whitespace.
pub open spec fn trim_end(s: Seq<char>) -> Seq<char>
    decreases s.len(),
{
    if s.len() > 0 && is_white_space(s.last()) {
        trim_end(s.drop_last())
    } else {
        s
    }
}

/// `s` without its leading and trailing whitespace.
pub open spec fn trimmed(s: Seq<char>) -> Seq<char> {
    trim_end(trim_start(s))
}

/// What `String::from_utf8_lossy` gives for the bytes `b`.
pub uninterp spec fn lossy_text(b: Seq<u8>) -> Seq<char>;

/// `String::from_utf8_lossy`: the text that the bytes `b` encode in UTF-8,
/// with each invalid sequence replaced by U+FFFD. Its result is named
/// `lossy_text`, a function of the bytes alone; on valid UTF-8 it is the
/// text the bytes encode. Which runs of invalid bytes make one U+FFFD is
/// left unsaid.
#[verifier::external_body]
fn from_utf8_lossy(b: &[u8]) -> (r: String)
    ensures
        r@ == lossy_text(b@),
        valid_utf8(b@) ==> r@ == decode_utf8(b@),
{
    String::from_utf8_lossy(b).into_owned()
}

/// `str::trim`: `s` without its leading and trailing `White_Space`
/// characters.
#[verifier::external_body]
fn trim(s: &str) -> (r: &str)
    ensures
        r@ == trimmed(s@),
{
    s.trim()
}

/// The stream address in what `yt-dlp` printed (`stdout`): the printed text,
/// read as UTF-8 with invalid bytes replaced, without the whitespace around
/// it (the line break at its end among it).
pub fn stream_url(stdout: &[u8]) -> (url: String)
    ensures
        url@ == trimmed(lossy_text(stdout@)),
        valid_utf8(stdout@) ==> url@ == trimmed(decode_utf8(stdout@)),
{
    let text = from_utf8_lossy(stdout);
    let t = trim(text.as_str());
    String::from_str(t)
}

} // verus!
