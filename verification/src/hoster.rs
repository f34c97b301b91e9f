//! Per-host link resolution: the stateless de-obfuscation codecs that turn a
//! host's player page into the real video URL and a file name, dispatched
//! over the closed set of known hosts.

use vstd::arithmetic::div_mod::{lemma_add_mod_noop, lemma_mod_bound, lemma_small_mod};
use vstd::prelude::*;
use vstd::string::StrSliceExecFns;
use vstd::utf8::{decode_utf8, encode_utf8, valid_utf8};

use crate::error::Error;
use crate::host::Host;
use crate::text::{find_char_from, find_sub_from, first_char_at, first_sub_at,
    last_char_before, lemma_first_char_props, lemma_first_sub_props, lemma_last_char_props,
    string_from_utf8};

verus! {

/// A resolved download: the real video URL, the suggested file name, and the
/// host it came from.
pub struct Downloader {
    pub video_url: String,
    pub file_name: String,
    pub host: Host,
}

/// The file extension: everything after the last dot, or the whole name
/// when there is none.
pub open spec fn extension_of(s: Seq<char>) -> Seq<char> {
    match last_char_before(s, '.', s.len() as int) {
        None => s,
        Some(p) => s.subrange(p + 1, s.len() as int),
    }
}

impl Downloader {
    /// The extension of the suggested file name.
    pub fn get_extension(&self) -> (r: String)
        ensures
            r@ == extension_of(self.file_name@),
    {
        let s = self.file_name.as_str();
        let len = s.unicode_len();
        match rfind_dot(s, len) {
            None => self.file_name.clone(),
            Some(p) => {
                proof {
                    lemma_last_char_props(s@, '.', len as int);
                }
                s.substring_char(p + 1, len).to_owned()
            },
        }
    }
}

/// Finds the last dot of a name.
fn rfind_dot(s: &str, len: usize) -> (r: Option<usize>)
    requires
        len == s@.len(),
    ensures
        match r {
            Some(p) => last_char_before(s@, '.', len as int) == Some(p as int),
            None => last_char_before(s@, '.', len as int) is None,
        },
{
    crate::text::rfind_char_before(s, '.', len)
}

/// One character under a Caesar shift: a character of the alphabet moves
/// forward by `shift` places, wrapping around; any other character stays.
pub open spec fn caesar_char(alphabet: Seq<char>, shift: int, c: char) -> char {
    match first_char_at(alphabet, c, 0) {
        None => c,
        Some(i) => alphabet[(i + shift) % (alphabet.len() as int)],
    }
}

/// A string under a Caesar shift over the given alphabet.
pub open spec fn caesar_spec(alphabet: Seq<char>, shift: int, s: Seq<char>) -> Seq<char> {
    s.map_values(|c: char| caesar_char(alphabet, shift, c))
}

/// Applies a Caesar shift over the given alphabet to every character.
pub fn caesar(input: &str, alphabet: &str, shift: u32) -> (r: String)
    ensures
        r@ == caesar_spec(alphabet@, shift as int, input@),
{
    let len = input.unicode_len();
    let alen = alphabet.unicode_len();
    let mut out = String::new();
    let mut i: usize = 0;
    proof {
        assert(out@ =~= caesar_spec(alphabet@, shift as int, input@.take(0)));
    }
    while i < len
        invariant
            i <= len,
            len == input@.len(),
            alen == alphabet@.len(),
            out@ == caesar_spec(alphabet@, shift as int, input@.take(i as int)),
        decreases len - i,
    {
        let c = input.get_char(i);
        let ghost pre = input@.take(i as int);
        match find_char_from(alphabet, c, 0) {
            None => {
                out.push(c);
                proof {
                    assert(caesar_char(alphabet@, shift as int, c) == c);
                }
            },
            Some(idx) => {
                proof {
                    lemma_first_char_props(alphabet@, c, 0);
                }
                let sh = (shift as usize) % alen;
                let pos = if idx >= alen - sh {
                    idx - (alen - sh)
                } else {
                    idx + sh
                };
                proof {
                    lemma_mod_bound(shift as int, alen as int);
                    lemma_add_mod_noop(idx as int, shift as int, alen as int);
                    lemma_small_mod(idx as nat, alen as nat);
                    lemma_small_mod(pos as nat, alen as nat);
                    assert((idx + sh) % (alen as int) == pos as int) by {
                        if idx + sh >= alen {
                            assert((idx + sh) - alen < alen);
                            assert((idx + sh) % (alen as int) == ((idx + sh) - alen) % (
                            alen as int)) by {
                                lemma_add_mod_noop((idx + sh) as int - alen as int, alen as int,
                                    alen as int);
                                assert((alen as int) % (alen as int) == 0) by {
                                    vstd::arithmetic::div_mod::lemma_mod_self_0(alen as int);
                                }
                                lemma_small_mod(((idx + sh) - alen) as nat, alen as nat);
                            }
                            lemma_small_mod(((idx + sh) - alen) as nat, alen as nat);
                        } else {
                            lemma_small_mod((idx + sh) as nat, alen as nat);
                        }
                    }
                    assert(caesar_char(alphabet@, shift as int, c) == alphabet@[pos as int]);
                }
                let oc = alphabet.get_char(pos);
                out.push(oc);
            },
        }
        proof {
            assert(input@.take(i + 1) =~= pre.push(input@[i as int]));
            assert(caesar_spec(alphabet@, shift as int, input@.take(i + 1)) =~= caesar_spec(
                alphabet@,
                shift as int,
                pre,
            ).push(caesar_char(alphabet@, shift as int, input@[i as int])));
        }
        i = i + 1;
    }
    proof {
        assert(input@.take(len as int) =~= input@);
    }
    out
}

/// The alphabet of the printable-character Caesar cipher: every printable
/// ASCII character from `!` to `~`.
pub open spec fn rot47_alphabet() -> Seq<char> {
    "!\"#$%&'()*+,-./0123456789:;<=>?@ABCDEFGHIJKLMNOPQRSTUVWXYZ[\\]^_`abcdefghijklmnopqrstuvwxyz{|}~"@
}

/// The printable-character Caesar cipher with shift 47: its own inverse.
pub fn rot47(input: &str) -> (r: String)
    ensures
        r@ == caesar_spec(rot47_alphabet(), 47, input@),
{
    caesar(
        input,
        "!\"#$%&'()*+,-./0123456789:;<=>?@ABCDEFGHIJKLMNOPQRSTUVWXYZ[\\]^_`abcdefghijklmnopqrstuvwxyz{|}~",
        47,
    )
}

/// The value of an ASCII hex digit, or a negative number for any other byte.
pub open spec fn hex_val(b: u8) -> int {
    if 48 <= b <= 57 {
        b - 48
    } else if 65 <= b <= 70 {
        b - 55
    } else if 97 <= b <= 102 {
        b - 87
    } else {
        -1
    }
}

/// URL percent-decoding over bytes: `%` followed by two hex digits becomes
/// one byte; anything else passes through unchanged.
pub open spec fn percent_decode_spec(s: Seq<u8>) -> Seq<u8>
    decreases s.len(),
{
    if s.len() == 0 {
        Seq::empty()
    } else if s[0] == 37 && s.len() >= 3 && hex_val(s[1]) >= 0 && hex_val(s[2]) >= 0 {
        seq![(hex_val(s[1]) * 16 + hex_val(s[2])) as u8] + percent_decode_spec(s.skip(3))
    } else {
        seq![s[0]] + percent_decode_spec(s.skip(1))
    }
}

/// Decodes the hex value of a byte, or a sentinel above 15 for any other.
fn hex_digit(b: u8) -> (r: u8)
    ensures
        hex_val(b) >= 0 ==> r as int == hex_val(b),
        hex_val(b) < 0 ==> r == 255,
{
    if b >= 48 && b <= 57 {
        b - 48
    } else if b >= 65 && b <= 70 {
        b - 55
    } else if b >= 97 && b <= 102 {
        b - 87
    } else {
        255
    }
}

/// Percent-decodes a byte string.
pub fn percent_decode(s: &[u8]) -> (r: Vec<u8>)
    ensures
        r@ == percent_decode_spec(s@),
{
    let len = s.len();
    let mut out: Vec<u8> = Vec::new();
    let mut i: usize = 0;
    proof {
        assert(s@.skip(0) =~= s@);
        assert(out@ + percent_decode_spec(s@.skip(0)) =~= percent_decode_spec(s@));
    }
    while i < len
        invariant
            i <= len,
            len == s@.len(),
            percent_decode_spec(s@) == out@ + percent_decode_spec(s@.skip(i as int)),
        decreases len - i,
    {
        let ghost dev = out@;
        let ghost rest = s@.skip(i as int);
        proof {
            assert(rest[0] == s@[i as int]);
            if i + 3 <= len {
                assert(rest[1] == s@[i as int + 1] && rest[2] == s@[i as int + 2]);
            }
        }
        if s[i] == 37 && len - i > 2 && hex_digit(s[i + 1]) <= 15 && hex_digit(s[i + 2]) <= 15 {
            let b: u8 = hex_digit(s[i + 1]) * 16 + hex_digit(s[i + 2]);
            out.push(b);
            proof {
                assert(percent_decode_spec(rest) == seq![b] + percent_decode_spec(rest.skip(3)));
                assert(rest.skip(3) =~= s@.skip(i + 3));
                assert(dev + (seq![b] + percent_decode_spec(s@.skip(i + 3))) =~= dev.push(b)
                    + percent_decode_spec(s@.skip(i + 3)));
            }
            i = i + 3;
        } else {
            let b = s[i];
            out.push(b);
            proof {
                assert(percent_decode_spec(rest) == seq![b] + percent_decode_spec(rest.skip(1)));
                assert(rest.skip(1) =~= s@.skip(i + 1));
                assert(dev + (seq![b] + percent_decode_spec(s@.skip(i + 1))) =~= dev.push(b)
                    + percent_decode_spec(s@.skip(i + 1)));
            }
            i = i + 1;
        }
    }
    proof {
        assert(s@.skip(len as int) =~= Seq::<u8>::empty());
        assert(out@ + percent_decode_spec(s@.skip(len as int)) =~= out@);
    }
    out
}

/// A character the obfuscated source token may hold: letters, digits, `%`
/// and `_`.
pub open spec fn token_char(c: char) -> bool {
    ('A' <= c && c <= 'Z') || ('a' <= c && c <= 'z') || ('0' <= c && c <= '9') || c == '%' || c
        == '_'
}

/// The obfuscated source token of the player page: the non-empty run of
/// token characters between the first `source: '` after `InitializeStream`
/// and the closing `',`.
pub open spec fn obfuscated_source_of(s: Seq<char>) -> Option<Seq<char>> {
    match first_sub_at(s, "InitializeStream"@, 0) {
        None => None,
        Some(i) => match first_sub_at(s, "source: '"@, i + "InitializeStream"@.len()) {
            None => None,
            Some(j) => {
                let start = j + "source: '"@.len();
                match first_sub_at(s, "',"@, start) {
                    None => None,
                    Some(e) => {
                        let tok = s.subrange(start, e);
                        if tok.len() >= 1 && (forall|k: int|
                            0 <= k < tok.len() ==> token_char(#[trigger] tok[k])) {
                            Some(tok)
                        } else {
                            None
                        }
                    },
                }
            },
        },
    }
}

/// The display name on the player page: the non-empty text between
/// `data-name="` on the stream-content element and the next `"`.
pub open spec fn stream_name_of(s: Seq<char>) -> Option<Seq<char>> {
    match first_sub_at(s, "<div class=\"stream-content\" data-name=\""@, 0) {
        None => None,
        Some(i) => {
            let start = i + "<div class=\"stream-content\" data-name=\""@.len();
            match first_char_at(s, '"', start) {
                None => None,
                Some(e) => if e > start {
                    Some(s.subrange(start, e))
                } else {
                    None
                },
            }
        },
    }
}

/// The real video URL of the obfuscated token: percent-decode it, read the
/// bytes as text, and undo the printable-character Caesar shift.
pub open spec fn deobfuscated_url(tok: Seq<char>) -> Option<Seq<char>> {
    let bytes = percent_decode_spec(encode_utf8(tok));
    if valid_utf8(bytes) {
        Some(caesar_spec(rot47_alphabet(), 47, decode_utf8(bytes)))
    } else {
        None
    }
}

/// Resolves the player page of the host that obfuscates its source: the
/// video URL is the percent-decoded source token under the shift-47 cipher,
/// the file name is the page's display name.
pub fn resolve_vivo(page: &str) -> (r: Result<Downloader, Error>)
    ensures
        vivo_resolution(page@, r),
{
    let len = page.unicode_len();
    let tok = match scan_source_token(page, len) {
        Some(t) => t,
        None => {
            return Err(Error::Protocol("player page offers no source token".to_owned()));
        },
    };
    let name = match scan_stream_name(page, len) {
        Some(n) => n,
        None => {
            return Err(Error::Protocol("player page offers no stream name".to_owned()));
        },
    };
    let bytes = percent_decode(tok.as_str().as_bytes());
    let decoded = match string_from_utf8(bytes) {
        Some(d) => d,
        None => {
            return Err(Error::Protocol("decoded source token is not text".to_owned()));
        },
    };
    let video_url = rot47(decoded.as_str());
    Ok(Downloader { video_url, file_name: name, host: Host::Vivo })
}

/// Scans the page for the obfuscated source token.
#[verifier::loop_isolation(false)]
fn scan_source_token(page: &str, len: usize) -> (r: Option<String>)
    requires
        len == page@.len(),
    ensures
        match r {
            Some(t) => obfuscated_source_of(page@) == Some(t@),
            None => obfuscated_source_of(page@) is None,
        },
{
    let i = match find_sub_from(page, "InitializeStream", 0) {
        Some(i) => i,
        None => {
            return None;
        },
    };
    proof {
        lemma_first_sub_props(page@, "InitializeStream"@, 0);
        reveal_strlit("InitializeStream");
    }
    let j = match find_sub_from(page, "source: '", i + 16) {
        Some(j) => j,
        None => {
            return None;
        },
    };
    proof {
        lemma_first_sub_props(page@, "source: '"@, i as int + 16);
        reveal_strlit("source: '");
    }
    let start = j + 9;
    let e = match find_sub_from(page, "',", start) {
        Some(e) => e,
        None => {
            return None;
        },
    };
    proof {
        lemma_first_sub_props(page@, "',"@, start as int);
        reveal_strlit("',");
    }
    if e <= start {
        return None;
    }
    let ghost tok = page@.subrange(start as int, e as int);
    let mut k = start;
    while k < e
        invariant
            start <= k <= e <= page@.len(),
            tok == page@.subrange(start as int, e as int),
            forall|m: int| start <= m < k ==> token_char(#[trigger] page@[m]),
        decreases e - k,
    {
        let c = page.get_char(k);
        let ok = (c >= 'A' && c <= 'Z') || (c >= 'a' && c <= 'z') || (c >= '0' && c <= '9') || c
            == '%' || c == '_';
        if !ok {
            proof {
                assert(tok[k - start] == c);
                assert(!token_char(tok[k - start]));
            }
            return None;
        }
        k = k + 1;
    }
    proof {
        assert forall|m: int| 0 <= m < tok.len() implies token_char(#[trigger] tok[m]) by {
            assert(tok[m] == page@[start + m]);
        }
    }
    Some(page.substring_char(start, e).to_owned())
}

/// Scans the page for the display name.
fn scan_stream_name(page: &str, len: usize) -> (r: Option<String>)
    requires
        len == page@.len(),
    ensures
        match r {
            Some(t) => stream_name_of(page@) == Some(t@),
            None => stream_name_of(page@) is None,
        },
{
    let i = match find_sub_from(page, "<div class=\"stream-content\" data-name=\"", 0) {
        Some(i) => i,
        None => {
            return None;
        },
    };
    proof {
        lemma_first_sub_props(page@, "<div class=\"stream-content\" data-name=\""@, 0);
        reveal_strlit("<div class=\"stream-content\" data-name=\"");
    }
    let start = i + 39;
    let e = match find_char_from(page, '"', start) {
        Some(e) => e,
        None => {
            return None;
        },
    };
    proof {
        lemma_first_char_props(page@, '"', start as int);
    }
    if e <= start {
        return None;
    }
    Some(page.substring_char(start, e).to_owned())
}

/// The two parts of the plain-host page: the video id and the server number,
/// read from `type|<id>|<server>'`.
pub open spec fn gounlimited_parts_of(s: Seq<char>) -> Option<(Seq<char>, Seq<char>)> {
    match first_sub_at(s, "type|"@, 0) {
        None => None,
        Some(i) => {
            let start = i + 5;
            match first_char_at(s, '|', start) {
                None => None,
                Some(m) => match first_char_at(s, '\'', m + 1) {
                    None => None,
                    Some(e) => Some((s.subrange(start, m), s.subrange(m + 1, e))),
                },
            }
        },
    }
}

/// How a resolution of the obfuscating host's page relates to the page:
/// success carries the de-obfuscated URL and the display name, and failure
/// happens exactly when the page lacks either or the token decodes to
/// something unreadable.
pub open spec fn vivo_resolution(page: Seq<char>, r: Result<Downloader, Error>) -> bool {
    match r {
        Ok(d) => {
            &&& obfuscated_source_of(page) matches Some(tok) && deobfuscated_url(tok) == Some(
                d.video_url@,
            )
            &&& stream_name_of(page) == Some(d.file_name@)
            &&& d.host == Host::Vivo
        },
        Err(_) => {
            ||| obfuscated_source_of(page) is None
            ||| stream_name_of(page) is None
            ||| (obfuscated_source_of(page) matches Some(tok) && deobfuscated_url(tok) is None)
        },
    }
}

/// How a resolution of the plain host's page relates to the page: success
/// rebuilds the URL from the two captured parts, failure happens exactly
/// when the page lacks them.
pub open spec fn gounlimited_resolution(page: Seq<char>, r: Result<Downloader, Error>) -> bool {
    match r {
        Ok(d) => {
            &&& gounlimited_parts_of(page) matches Some(parts) && d.video_url@ == "https://"@
                + parts.1 + ".gounlimited.to/"@ + parts.0 + "/v.mp4"@
            &&& d.file_name@ == "v.mp4"@
            &&& d.host == Host::GoUnlimited
        },
        Err(_) => gounlimited_parts_of(page) is None,
    }
}

/// How a resolution of the vidoza page relates to the page: success reads
/// URL and file name off the page, failure happens exactly when the page
/// lacks them.
pub open spec fn vidoza_resolution(page: Seq<char>, r: Result<Downloader, Error>) -> bool {
    match r {
        Ok(d) => {
            &&& vidoza_parts_of(page) matches Some(parts) && d.video_url@ == parts.0
                && d.file_name@ == parts.1
            &&& d.host == Host::Vidoza
        },
        Err(_) => vidoza_parts_of(page) is None,
    }
}

/// Resolves the plain host's page: the URL is rebuilt from the video id and
/// the server number, and the file name is fixed.
pub fn resolve_gounlimited(page: &str) -> (r: Result<Downloader, Error>)
    ensures
        gounlimited_resolution(page@, r),
{
    let len = page.unicode_len();
    let i = match find_sub_from(page, "type|", 0) {
        Some(i) => i,
        None => {
            return Err(Error::Protocol("page offers no video sources".to_owned()));
        },
    };
    proof {
        lemma_first_sub_props(page@, "type|"@, 0);
        reveal_strlit("type|");
    }
    let start = i + 5;
    let m = match find_char_from(page, '|', start) {
        Some(m) => m,
        None => {
            return Err(Error::Protocol("page offers no video sources".to_owned()));
        },
    };
    proof {
        lemma_first_char_props(page@, '|', start as int);
    }
    let e = match find_char_from(page, '\'', m + 1) {
        Some(e) => e,
        None => {
            return Err(Error::Protocol("page offers no video sources".to_owned()));
        },
    };
    proof {
        lemma_first_char_props(page@, '\'', m as int + 1);
    }
    let video_id = page.substring_char(start, m);
    let fs_number = page.substring_char(m + 1, e);
    let mut video_url = "https://".to_owned();
    video_url.append(fs_number);
    video_url.append(".gounlimited.to/");
    video_url.append(video_id);
    video_url.append("/v.mp4");
    Ok(Downloader { video_url, file_name: "v.mp4".to_owned(), host: Host::GoUnlimited })
}

/// The video URL and file name of the vidoza page: the URL between
/// `src: "` of the sources block and the closing `", type`, the name
/// between `var curFileName = "` and the closing `";`.
pub open spec fn vidoza_parts_of(s: Seq<char>) -> Option<(Seq<char>, Seq<char>)> {
    match first_sub_at(s, "sourcesCode: [{ src: \""@, 0) {
        None => None,
        Some(i) => {
            let start = i + "sourcesCode: [{ src: \""@.len();
            match first_sub_at(s, "\", type"@, start) {
                None => None,
                Some(e) => match first_sub_at(s, "var curFileName = \""@, 0) {
                    None => None,
                    Some(n) => {
                        let nstart = n + "var curFileName = \""@.len();
                        match first_sub_at(s, "\";"@, nstart) {
                            None => None,
                            Some(ne) => if e > start {
                                Some((s.subrange(start, e), s.subrange(nstart, ne)))
                            } else {
                                None
                            },
                        }
                    },
                },
            }
        },
    }
}

/// Resolves the vidoza page: URL and file name are read off the page.
pub fn resolve_vidoza(page: &str) -> (r: Result<Downloader, Error>)
    ensures
        vidoza_resolution(page@, r),
{
    let len = page.unicode_len();
    let i = match find_sub_from(page, "sourcesCode: [{ src: \"", 0) {
        Some(i) => i,
        None => {
            return Err(Error::Protocol("page offers no video sources".to_owned()));
        },
    };
    proof {
        lemma_first_sub_props(page@, "sourcesCode: [{ src: \""@, 0);
        reveal_strlit("sourcesCode: [{ src: \"");
    }
    let start = i + 22;
    let e = match find_sub_from(page, "\", type", start) {
        Some(e) => e,
        None => {
            return Err(Error::Protocol("page offers no video sources".to_owned()));
        },
    };
    proof {
        lemma_first_sub_props(page@, "\", type"@, start as int);
        reveal_strlit("\", type");
    }
    let n = match find_sub_from(page, "var curFileName = \"", 0) {
        Some(n) => n,
        None => {
            return Err(Error::Protocol("page offers no file name".to_owned()));
        },
    };
    proof {
        lemma_first_sub_props(page@, "var curFileName = \""@, 0);
        reveal_strlit("var curFileName = \"");
    }
    let nstart = n + 19;
    let ne = match find_sub_from(page, "\";", nstart) {
        Some(ne) => ne,
        None => {
            return Err(Error::Protocol("page offers no file name".to_owned()));
        },
    };
    proof {
        lemma_first_sub_props(page@, "\";"@, nstart as int);
        reveal_strlit("\";");
    }
    if e <= start {
        return Err(Error::Protocol("page offers no video sources".to_owned()));
    }
    let video_url = page.substring_char(start, e).to_owned();
    let file_name = page.substring_char(nstart, ne).to_owned();
    Ok(Downloader { video_url, file_name, host: Host::Vidoza })
}

/// Resolves a raw link's player page with the codec of its host; an unknown
/// host is unsupported.
pub fn resolve_page(host: &Host, page: &str) -> (r: Result<Downloader, Error>)
    ensures
        host is Vivo ==> vivo_resolution(page@, r),
        host is GoUnlimited ==> gounlimited_resolution(page@, r),
        host is Vidoza ==> vidoza_resolution(page@, r),
        host is Unknown ==> r is Err,
{
    match host {
        Host::Vivo => resolve_vivo(page),
        Host::GoUnlimited => resolve_gounlimited(page),
        Host::Vidoza => resolve_vidoza(page),
        Host::Unknown => Err(Error::Protocol("host is unsupported".to_owned())),
    }
}

} // verus!
