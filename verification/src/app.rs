use vstd::prelude::*;
use vstd::string::StringSliceAdditionalSpecFns;
use vstd::utf8::{decode_utf8, encode_scalar, encode_utf8, valid_utf8};

use crate::error::SpoutError;
use crate::net::{
    extract_outcome, extract_response_value, extracted, lemma_encode_utf8_append, percent_encode,
    uri_encode,
    url_check_outcome, url_passes, validate_response_url,
};
use crate::sanitize::SanitizeStatus;
use crate::text::{chars_of, replace, replace_all, string_from_chars, trim, trim_string};

verus! {

/// The word that describes what stripping did.
pub open spec fn clean_status_word(status: SanitizeStatus) -> Seq<char> {
    match status {
        SanitizeStatus::Cleaned(_) => "cleaned"@,
        SanitizeStatus::Kept(_) => "kept"@,
        SanitizeStatus::Unknown => "unsupported"@,
        SanitizeStatus::Disabled => "off"@,
    }
}

/// The word shown for a stripping outcome.
pub fn format_clean_status(status: SanitizeStatus) -> (r: &'static str)
    ensures
        r@ == clean_status_word(status),
        status is Cleaned ==> r@ == seq!['c', 'l', 'e', 'a', 'n', 'e', 'd'],
        status is Kept ==> r@ == seq!['k', 'e', 'p', 't'],
        status is Unknown ==> r@ == seq!['u', 'n', 's', 'u', 'p', 'p', 'o', 'r', 't', 'e', 'd'],
        status is Disabled ==> r@ == seq!['o', 'f', 'f'],
{
    proof {
        reveal_strlit("cleaned");
        reveal_strlit("kept");
        reveal_strlit("unsupported");
        reveal_strlit("off");
    }
    match status {
        SanitizeStatus::Cleaned(_) => "cleaned",
        SanitizeStatus::Kept(_) => "kept",
        SanitizeStatus::Unknown => "unsupported",
        SanitizeStatus::Disabled => "off",
    }
}

/// The longest error body shown, in bytes.
pub const MAX_ERROR_BODY_LEN: usize = 4096;

/// The number of bytes that `c` takes in UTF-8.
pub open spec fn utf8_width(c: char) -> nat {
    encode_scalar(c as u32).len()
}

/// How many leading characters of `s` fit in `limit` bytes of UTF-8.
pub open spec fn fitting_prefix_len(s: Seq<char>, limit: int) -> nat
    decreases s.len(),
{
    if s.len() == 0 {
        0
    } else if utf8_width(s[0]) <= limit {
        1 + fitting_prefix_len(s.drop_first(), limit - utf8_width(s[0]))
    } else {
        0
    }
}

/// An error body cut to at most `MAX_ERROR_BODY_LEN` bytes, ending at a
/// character boundary, with `...` after it when it was cut.
pub open spec fn limited_error_text(s: Seq<char>) -> Seq<char> {
    if encode_utf8(s).len() <= MAX_ERROR_BODY_LEN {
        s
    } else {
        s.subrange(0, fitting_prefix_len(s, MAX_ERROR_BODY_LEN as int) as int) + "..."@
    }
}

fn char_width(c: char) -> (w: usize)
    ensures
        w == utf8_width(c),
{
    let u = c as u32;
    proof {
        vstd::utf8::char_is_scalar(c);
    }
    if u <= 0x7F {
        1
    } else if u <= 0x7FF {
        2
    } else if u <= 0xFFFF {
        3
    } else {
        4
    }
}

/// `body` cut to at most 4096 bytes at a character boundary, with `...`
/// appended when anything was cut.
pub fn limit_error_body(body: &str) -> (r: String)
    ensures
        r@ == limited_error_text(body@),
{
    if body.as_bytes().len() <= MAX_ERROR_BODY_LEN {
        return body.to_owned();
    }
    let v = chars_of(body);
    let mut k: usize = 0;
    let mut used: usize = 0;
    let ghost limit = MAX_ERROR_BODY_LEN as int;
    assert(v@.subrange(0, v@.len() as int) =~= v@);
    while k < v.len() && char_width(v[k]) <= MAX_ERROR_BODY_LEN - used
        invariant
            k <= v@.len(),
            limit == MAX_ERROR_BODY_LEN,
            used <= MAX_ERROR_BODY_LEN,
            fitting_prefix_len(v@, limit) == k + fitting_prefix_len(
                v@.subrange(k as int, v@.len() as int),
                limit - used,
            ),
        decreases v@.len() - k,
    {
        let ghost rest = v@.subrange(k as int, v@.len() as int);
        assert(rest.drop_first() =~= v@.subrange(k + 1, v@.len() as int));
        assert(rest[0] == v@[k as int]);
        assert(fitting_prefix_len(rest, limit - used) == 1 + fitting_prefix_len(
            rest.drop_first(),
            limit - used - utf8_width(rest[0]),
        ));
        used = used + char_width(v[k]);
        k += 1;
    }
    let mut out = string_from_chars(v.as_slice(), 0, k);
    out.append("...");
    out
}

/// The response body, or an error if it is larger than `limit` bytes.
pub fn read_limited_body(raw_body: Vec<u8>, limit: u64) -> (res: Result<Vec<u8>, SpoutError>)
    ensures
        raw_body@.len() <= limit ==> (res matches Ok(b) && b@ == raw_body@),
        raw_body@.len() > limit ==> (res matches Err(SpoutError::ResponseTooLargeLimit(m)) && m
            == limit / 1048576),
{
    if raw_body.len() as u64 > limit {
        return Err(SpoutError::ResponseTooLargeLimit(limit / (1024 * 1024)));
    }
    Ok(raw_body)
}

/// The endpoint for an upload: every `{filename}` in the profile's URL
/// replaced by the percent-encoded filename.
pub fn upload_url(template: &str, filename: &str) -> (r: String)
    ensures
        r@ == replace_all(template@, "{filename}"@, percent_encode(filename.spec_bytes())),
        r@ == replace_all(
            template@,
            seq!['{', 'f', 'i', 'l', 'e', 'n', 'a', 'm', 'e', '}'],
            percent_encode(filename.spec_bytes()),
        ),
{
    proof {
        reveal_strlit("{filename}");
        assert("{filename}"@ =~= seq!['{', 'f', 'i', 'l', 'e', 'n', 'a', 'm', 'e', '}']);
    }
    let t = chars_of(template);
    let pat = chars_of("{filename}");
    let encoded = uri_encode(filename);
    let rep = chars_of(encoded.as_str());
    replace(t.as_slice(), pat.as_slice(), rep.as_slice())
}

/// The text `String::from_utf8_lossy` makes of `bytes`.
pub uninterp spec fn utf8_lossy(bytes: Seq<u8>) -> Seq<char>;

/// Calls `String::from_utf8_lossy`: the bytes as text, each invalid sequence
/// replaced by U+FFFD; valid UTF-8 is decoded as it is.
#[verifier::external_body]
fn text_from_bytes(bytes: &[u8]) -> (r: String)
    ensures
        r@ == utf8_lossy(bytes@),
        valid_utf8(bytes@) ==> r@ == decode_utf8(bytes@),
{
    String::from_utf8_lossy(bytes).into_owned()
}

/// What comes of a server's answer to an upload: the URL to print, or the
/// reason there is none. A failure status is reported with the (trimmed and
/// limited) body; otherwise the URL is taken from the body, and checked
/// unless in expert mode.
pub fn interpret_response(
    success: bool,
    status: String,
    raw_body: &[u8],
    path: &str,
    yolo: bool,
) -> (res: Result<String, SpoutError>)
    ensures
        ({
            let body = utf8_lossy(raw_body@);
            if !success {
                res matches Err(SpoutError::UploadFailed(st, text)) && st@ == status@ && text@
                    == limited_error_text(trim(body))
            } else {
                match extracted(body, path@) {
                    None => extract_outcome(body, path@, res),
                    Some(u) => if yolo {
                        res matches Ok(r) && r@ == u
                    } else {
                        url_check_outcome(u, res)
                    },
                }
            }
        }),
{
    let body = text_from_bytes(raw_body);
    if !success {
        let trimmed = trim_string(body.as_str());
        return Err(SpoutError::UploadFailed(status, limit_error_body(trimmed.as_str())));
    }
    let result = extract_response_value(body.as_str(), path)?;
    if !yolo {
        validate_response_url(result.as_str())?;
    }
    Ok(result)
}


proof fn lemma_fitting_prefix_fits(s: Seq<char>, limit: int)
    requires
        0 <= limit,
    ensures
        fitting_prefix_len(s, limit) <= s.len(),
        encode_utf8(s.subrange(0, fitting_prefix_len(s, limit) as int)).len() <= limit,
    decreases s.len(),
{
    let k = fitting_prefix_len(s, limit);
    if s.len() == 0 || utf8_width(s[0]) > limit {
        assert(s.subrange(0, 0) =~= Seq::<char>::empty());
    } else {
        let rest = s.drop_first();
        let w = utf8_width(s[0]);
        lemma_fitting_prefix_fits(rest, limit - w);
        let p = s.subrange(0, k as int);
        assert(p.drop_first() =~= rest.subrange(0, (k - 1) as int));
        assert(p[0] == s[0]);
    }
}

/// An error body as shown is never longer than `MAX_ERROR_BODY_LEN` bytes
/// and the three dots, and a body that fits is shown whole.
pub proof fn lemma_error_text_bounded(s: Seq<char>)
    ensures
        encode_utf8(limited_error_text(s)).len() <= MAX_ERROR_BODY_LEN + 3,
        encode_utf8(s).len() <= MAX_ERROR_BODY_LEN ==> limited_error_text(s) == s,
{
    if encode_utf8(s).len() > MAX_ERROR_BODY_LEN {
        let k = fitting_prefix_len(s, MAX_ERROR_BODY_LEN as int);
        lemma_fitting_prefix_fits(s, MAX_ERROR_BODY_LEN as int);
        let dots = "..."@;
        reveal_strlit("...");
        lemma_encode_utf8_append(s.subrange(0, k as int), dots);
        assert(dots.drop_first().drop_first().drop_first() =~= Seq::<char>::empty());
        assert(encode_scalar('.' as u32).len() == 1);
        assert(encode_utf8(dots.drop_first().drop_first().drop_first()).len() == 0);
        assert(encode_utf8(dots.drop_first().drop_first()).len() == 1);
        assert(encode_utf8(dots.drop_first()).len() == 2);
        assert(encode_utf8(dots).len() == 3);
    }
}

proof fn lemma_fitting_prefix_longest(s: Seq<char>, limit: int)
    requires
        0 <= limit,
    ensures
        fitting_prefix_len(s, limit) == s.len() || encode_utf8(
            s.subrange(0, fitting_prefix_len(s, limit) + 1int),
        ).len() > limit,
    decreases s.len(),
{
    lemma_fitting_prefix_fits(s, limit);
    if s.len() > 0 {
        let c = s[0];
        let w = utf8_width(c);
        let rest = s.drop_first();
        assert(seq![c].drop_first() =~= Seq::<char>::empty());
        assert(encode_utf8(seq![c].drop_first()) =~= Seq::<u8>::empty());
        assert(seq![c][0] == c);
        assert(encode_utf8(seq![c]) =~= encode_scalar(c as u32));
        if w <= limit {
            lemma_fitting_prefix_longest(rest, limit - w);
            let k = fitting_prefix_len(rest, limit - w) as int;
            if k < rest.len() {
                assert(s.subrange(0, k + 2) =~= seq![c] + rest.subrange(0, k + 1));
                lemma_encode_utf8_append(seq![c], rest.subrange(0, k + 1));
            }
        } else {
            assert(s.subrange(0, 1) =~= seq![c]);
        }
    }
}

/// An error body of at most 4096 bytes of UTF-8 is shown whole. A longer
/// one is cut after the longest run of whole leading characters that fits
/// in 4096 bytes, and `...` is put after it.
pub proof fn lemma_error_text_cut(s: Seq<char>)
    ensures
        encode_utf8(s).len() <= 4096 ==> limited_error_text(s) == s,
        encode_utf8(s).len() > 4096 ==> exists|k: int|
            0 <= k < s.len() && limited_error_text(s) == s.subrange(0, k) + seq!['.', '.', '.']
                && encode_utf8(#[trigger] s.subrange(0, k)).len() <= 4096 && encode_utf8(
                s.subrange(0, k + 1),
            ).len() > 4096,
{
    if encode_utf8(s).len() > 4096 {
        let k = fitting_prefix_len(s, 4096) as int;
        lemma_fitting_prefix_fits(s, 4096);
        lemma_fitting_prefix_longest(s, 4096);
        reveal_strlit("...");
        assert("..."@ =~= seq!['.', '.', '.']);
        if k == s.len() {
            assert(s.subrange(0, k) =~= s);
        }
        assert(limited_error_text(s) == s.subrange(0, k) + seq!['.', '.', '.']);
        assert(encode_utf8(s.subrange(0, k)).len() <= 4096);
    }
}

/// A URL that passed the checks on a response is an `http` or `https` URL of
/// at most `MAX_URL_LEN` bytes; in expert mode the extracted text passes
/// through as it is.
pub proof fn lemma_printed_url_is_checked(
    success: bool,
    raw_body: Seq<u8>,
    path: Seq<char>,
    yolo: bool,
    res: Result<String, SpoutError>,
)
    requires
        success,
        res is Ok,
        match extracted(utf8_lossy(raw_body), path) {
            None => extract_outcome(utf8_lossy(raw_body), path, res),
            Some(u) => if yolo {
                res matches Ok(r) && r@ == u
            } else {
                url_check_outcome(u, res)
            },
        },
    ensures
        extracted(utf8_lossy(raw_body), path) == Some(res->Ok_0@),
        !yolo ==> url_passes(res->Ok_0@),
{
    reveal_strlit(".");
}

} // verus!
