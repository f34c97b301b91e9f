//! The content unit: its identity, its audio synchronisation, and the two
//! ways it is found — parsed off its own page, or searched in the JSON
//! listing of all series.

use vstd::prelude::*;

use crate::error::Error;
use crate::text::{find_char_from, find_sub_from, first_char_at, first_sub_at, has_sub, is_digit,
    contains_sub, lemma_first_char_props, lemma_first_sub_props, match_at, occurs_at, opt_text_view,
    parse_u32, parse_u32_spec, str_eq};

verus! {

/// The audio synchronisation of a series.
#[derive(Clone, Debug)]
pub enum Language {
    JapaneseWithGermanSubtitles,
    German,
    Other(String),
}

/// The listing's name for a synchronisation.
pub open spec fn language_name_spec(l: Language) -> Seq<char> {
    match l {
        Language::German => "gerdub"@,
        Language::JapaneseWithGermanSubtitles => "gersub"@,
        Language::Other(o) => o@,
    }
}

impl Language {
    /// The listing's name for the synchronisation.
    pub fn get_name(&self) -> (r: &str)
        ensures
            r@ == language_name_spec(*self),
    {
        match self {
            Language::German => "gerdub",
            Language::JapaneseWithGermanSubtitles => "gersub",
            Language::Other(other) => other.as_str(),
        }
    }
}

/// The audio synchronisation, under the names its own page uses.
#[derive(Clone, Debug)]
pub enum Synchronization {
    Japanese,
    German,
    Other(String),
}

impl Synchronization {
    /// The listing's name for the synchronisation.
    pub fn get_name(&self) -> (r: &str)
        ensures
            self is German ==> r@ == "gerdub"@,
            self is Japanese ==> r@ == "gersub"@,
            self matches Synchronization::Other(o) ==> r@ == o@,
    {
        match self {
            Synchronization::German => "gerdub",
            Synchronization::Japanese => "gersub",
            Synchronization::Other(other) => other.as_str(),
        }
    }
}

/// One series: its id, its title, how many episodes it has, and its audio
/// synchronisation.
#[derive(Clone, Debug)]
pub struct Series {
    pub id: u32,
    pub title: String,
    pub episodes: u32,
    pub language: Language,
}

/// The opening of an episode link on the series page.
pub open spec fn ep_prefix() -> Seq<char> {
    "href=\"/show/1/aid/"@
}

/// The separator between the series id and the episode number.
pub open spec fn epi_lit() -> Seq<char> {
    "/epi/"@
}

/// The first index at or after `i` that is not a digit.
pub open spec fn digits_end(s: Seq<char>, i: int) -> int
    decreases s.len() - i when 0 <= i <= s.len()
{
    if i < s.len() && is_digit(s[i]) {
        digits_end(s, i + 1)
    } else {
        i
    }
}

/// Scanning from anywhere within a run of digits ends at the same place.
pub proof fn lemma_digits_run(s: Seq<char>, i: int, j: int)
    requires
        0 <= i <= j <= s.len(),
        forall|k: int| i <= k < j ==> is_digit(s[k]),
    ensures
        digits_end(s, i) == digits_end(s, j),
    decreases j - i,
{
    if i < j {
        lemma_digits_run(s, i + 1, j);
    }
}

/// Where the digit scan lands: on the first non-digit, past only digits.
pub proof fn lemma_digits_props(s: Seq<char>, i: int)
    requires
        0 <= i <= s.len(),
    ensures
        i <= digits_end(s, i) <= s.len(),
        digits_end(s, i) < s.len() ==> !is_digit(s[digits_end(s, i)]),
        forall|k: int| i <= k < digits_end(s, i) ==> is_digit(s[k]),
    decreases s.len() - i,
{
    if i < s.len() && is_digit(s[i]) {
        lemma_digits_props(s, i + 1);
    }
}

/// A full episode link at index `i`: the prefix, the series id digits,
/// `/epi/`, the episode digits, and a closing slash.
pub open spec fn episode_link_at(s: Seq<char>, i: int) -> bool {
    occurs_at(s, ep_prefix(), i) && {
        let d1 = i + ep_prefix().len();
        let j = digits_end(s, d1);
        j > d1 && occurs_at(s, epi_lit(), j) && {
            let d2 = j + epi_lit().len();
            let k = digits_end(s, d2);
            k > d2 && k < s.len() && s[k] == '/'
        }
    }
}

/// How many episode links the page offers, scanning left to right.
pub open spec fn count_eps(s: Seq<char>, from: int) -> int
    decreases s.len() - from when 0 <= from <= s.len() via count_eps_dec
{
    match first_sub_at(s, ep_prefix(), from) {
        None => 0,
        Some(i) => (if episode_link_at(s, i) {
            1int
        } else {
            0int
        }) + count_eps(s, i + 1),
    }
}

#[via_fn]
proof fn count_eps_dec(s: Seq<char>, from: int) {
    reveal_strlit("href=\"/show/1/aid/");
    lemma_first_sub_props(s, ep_prefix(), from);
}

/// The opening of the title heading.
pub open spec fn title_open() -> Seq<char> {
    "<h3 class=\"cpfont6\">"@
}

/// The capture of the last title heading that is closed by a `<`.
pub open spec fn title_from(s: Seq<char>, from: int) -> Option<Seq<char>>
    decreases s.len() - from when 0 <= from <= s.len() via title_from_dec
{
    match first_sub_at(s, title_open(), from) {
        None => None,
        Some(i) => {
            let later = title_from(s, i + 1);
            if later is Some {
                later
            } else {
                match first_char_at(s, '<', i + title_open().len()) {
                    None => None,
                    Some(e) => Some(s.subrange(i + title_open().len(), e)),
                }
            }
        },
    }
}

#[via_fn]
proof fn title_from_dec(s: Seq<char>, from: int) {
    reveal_strlit("<h3 class=\"cpfont6\">");
    lemma_first_sub_props(s, title_open(), from);
}

/// The opening of the synchronisation heading.
pub open spec fn sync_open() -> Seq<char> {
    "<h5 class=\"cpfont6 pt-3\">"@
}

/// The capture of the last synchronisation heading: the `<`-free text up to
/// the next `&`.
pub open spec fn sync_from(s: Seq<char>, from: int) -> Option<Seq<char>>
    decreases s.len() - from when 0 <= from <= s.len() via sync_from_dec
{
    match first_sub_at(s, sync_open(), from) {
        None => None,
        Some(i) => {
            let later = sync_from(s, i + 1);
            if later is Some {
                later
            } else {
                let start = i + sync_open().len();
                match first_char_at(s, '&', start) {
                    None => None,
                    Some(e) => if forall|m: int| start <= m < e ==> s[m] != '<' {
                        Some(s.subrange(start, e))
                    } else {
                        None
                    },
                }
            }
        },
    }
}

#[via_fn]
proof fn sync_from_dec(s: Seq<char>, from: int) {
    reveal_strlit("<h5 class=\"cpfont6 pt-3\">");
    lemma_first_sub_props(s, sync_open(), from);
}

/// Scans a run of digits.
#[verifier::loop_isolation(false)]
fn scan_digits(s: &str, from: usize, len: usize) -> (r: usize)
    requires
        from <= len,
        len == s@.len(),
    ensures
        r as int == digits_end(s@, from as int),
        from <= r <= len,
{
    let mut i = from;
    while i < len && s.get_char(i) >= '0' && s.get_char(i) <= '9'
        invariant
            from <= i <= len,
            forall|k: int| from <= k < i ==> is_digit(s@[k]),
        decreases len - i,
    {
        i = i + 1;
    }
    proof {
        lemma_digits_run(s@, from as int, i as int);
        lemma_digits_props(s@, i as int);
        assert(digits_end(s@, i as int) == i);
    }
    i
}

impl Series {
    /// Reads a series off its own page: the episode count from the episode
    /// links, the title from the last title heading, and the
    /// synchronisation from the last synchronisation heading (an absent one
    /// reads as unknown).
    pub fn parse_page(id: u32, page: &str) -> (r: Series)
        ensures
            r.id == id,
            r.title@ == (match title_from(page@, 0) {
                Some(t) => t,
                None => Seq::<char>::empty(),
            }),
            count_eps(page@, 0) <= u32::MAX ==> r.episodes == count_eps(page@, 0),
            count_eps(page@, 0) > u32::MAX ==> r.episodes == u32::MAX,
            (match sync_from(page@, 0) {
                Some(t) => {
                    if t == "GerSub"@ {
                        r.language is JapaneseWithGermanSubtitles
                    } else if t == "GerDub"@ {
                        r.language is German
                    } else {
                        r.language matches Language::Other(o) && o@ == t
                    }
                },
                None => r.language matches Language::Other(o) && o@ == "unknown"@,
            }),
    {
        let len = page.unicode_len();
        // episode links
        let mut count: usize = 0;
        let mut cur: usize = 0;
        loop
            invariant
                cur <= len,
                len == page@.len(),
                count <= cur,
                count + count_eps(page@, cur as int) == count_eps(page@, 0),
            ensures
                count == count_eps(page@, 0),
            decreases len - cur,
        {
            proof {
                reveal_strlit("href=\"/show/1/aid/");
                reveal_strlit("/epi/");
            }
            match find_sub_from(page, "href=\"/show/1/aid/", cur) {
                None => {
                    proof {
                        assert(count_eps(page@, cur as int) == 0);
                    }
                    break;
                },
                Some(i) => {
                    proof {
                        lemma_first_sub_props(page@, ep_prefix(), cur as int);
                    }
                    let d1 = i + 18;
                    let j = scan_digits(page, d1, len);
                    let mut full: bool = j > d1 && match_at(page, "/epi/", j);
                    if full {
                        let d2 = j + 5;
                        let k = scan_digits(page, d2, len);
                        full = k > d2 && k < len && page.get_char(k) == '/';
                    }
                    proof {
                        assert(full == episode_link_at(page@, i as int));
                    }
                    if full {
                        count = count + 1;
                    }
                    cur = i + 1;
                },
            }
        }
        // title
        let title = match Self::scan_last_title(page, len) {
            Some(t) => t,
            None => String::new(),
        };
        // synchronisation
        let language = match Self::scan_last_sync(page, len) {
            Some(t) => {
                if str_eq(t.as_str(), "GerSub") {
                    Language::JapaneseWithGermanSubtitles
                } else if str_eq(t.as_str(), "GerDub") {
                    Language::German
                } else {
                    Language::Other(t)
                }
            },
            None => Language::Other("unknown".to_owned()),
        };
        let episodes: u32 = if count > (u32::MAX as usize) {
            u32::MAX
        } else {
            count as u32
        };
        Series { id, title, episodes, language }
    }

    /// Scans the page for the last closed title heading.
    fn scan_last_title(page: &str, len: usize) -> (r: Option<String>)
        requires
            len == page@.len(),
        ensures
            match r {
                Some(t) => title_from(page@, 0) == Some(t@),
                None => title_from(page@, 0) is None,
            },
    {
        let mut best: Option<String> = None;
        let mut cur: usize = 0;
        proof {
            reveal_strlit("<h3 class=\"cpfont6\">");
        }
        loop
            invariant
                cur <= len,
                len == page@.len(),
                title_from(page@, 0) == (if title_from(page@, cur as int) is Some {
                    title_from(page@, cur as int)
                } else {
                    opt_text_view(best)
                }),
            ensures
                title_from(page@, 0) == opt_text_view(best),
            decreases len - cur,
        {
            proof {
                reveal_strlit("<h3 class=\"cpfont6\">");
            }
            match find_sub_from(page, "<h3 class=\"cpfont6\">", cur) {
                None => {
                    break;
                },
                Some(i) => {
                    proof {
                        lemma_first_sub_props(page@, title_open(), cur as int);
                    }
                    let start = i + 20;
                    match find_char_from(page, '<', start) {
                        None => {
                            cur = i + 1;
                        },
                        Some(e) => {
                            proof {
                                lemma_first_char_props(page@, '<', start as int);
                            }
                            let cap = page.substring_char(start, e).to_owned();
                            best = Some(cap);
                            cur = i + 1;
                        },
                    }
                },
            }
        }
        best
    }

    /// Scans the page for the last synchronisation heading.
    fn scan_last_sync(page: &str, len: usize) -> (r: Option<String>)
        requires
            len == page@.len(),
        ensures
            match r {
                Some(t) => sync_from(page@, 0) == Some(t@),
                None => sync_from(page@, 0) is None,
            },
    {
        let mut best: Option<String> = None;
        let mut cur: usize = 0;
        proof {
            reveal_strlit("<h5 class=\"cpfont6 pt-3\">");
        }
        loop
            invariant
                cur <= len,
                len == page@.len(),
                sync_from(page@, 0) == (if sync_from(page@, cur as int) is Some {
                    sync_from(page@, cur as int)
                } else {
                    opt_text_view(best)
                }),
            ensures
                sync_from(page@, 0) == opt_text_view(best),
            decreases len - cur,
        {
            proof {
                reveal_strlit("<h5 class=\"cpfont6 pt-3\">");
            }
            match find_sub_from(page, "<h5 class=\"cpfont6 pt-3\">", cur) {
                None => {
                    break;
                },
                Some(i) => {
                    proof {
                        lemma_first_sub_props(page@, sync_open(), cur as int);
                    }
                    let start = i + 25;
                    match find_char_from(page, '&', start) {
                        None => {
                            cur = i + 1;
                        },
                        Some(e) => {
                            proof {
                                lemma_first_char_props(page@, '&', start as int);
                            }
                            if span_has_lt(page, start, e) {
                                cur = i + 1;
                            } else {
                                let cap = page.substring_char(start, e).to_owned();
                                best = Some(cap);
                                cur = i + 1;
                            }
                        },
                    }
                },
            }
        }
        best
    }
}

/// Tests whether a span contains `<`.
fn span_has_lt(s: &str, lo: usize, hi: usize) -> (r: bool)
    requires
        lo <= hi <= s@.len(),
    ensures
        r == !(forall|m: int| lo <= m < hi ==> s@[m] != '<'),
{
    let mut k = lo;
    while k < hi
        invariant
            lo <= k <= hi <= s@.len(),
            forall|m: int| lo <= m < k ==> s@[m] != '<',
        decreases hi - k,
    {
        if s.get_char(k) == '<' {
            return true;
        }
        k = k + 1;
    }
    false
}

/// What str::to_lowercase returns for given characters; the result depends
/// on the characters alone.
pub uninterp spec fn lower_of(s: Seq<char>) -> Seq<char>;

/// Lower-cases text for the case-insensitive title search.
/// Relies on str::to_lowercase: the result depends on the characters alone.
#[verifier::external_body]
fn lowercase(s: &str) -> (r: String)
    ensures
        r@ == lower_of(s@),
{
    s.to_lowercase()
}

/// Whether a listing title matches a wanted name: the lower-cased title
/// contains the lower-cased name.
pub fn matches_series(titel: &str, wanted: &str) -> (r: bool)
    ensures
        r == contains_sub(lower_of(titel@), lower_of(wanted@)),
{
    let lt = lowercase(titel);
    let lw = lowercase(wanted);
    has_sub(lt.as_str(), lw.as_str())
}

/// The synchronisation named by a listing value.
fn language_from_name(s: &str) -> (r: Language)
    ensures
        s@ == "gersub"@ ==> r is JapaneseWithGermanSubtitles,
        s@ == "gerdub"@ ==> r is German,
        s@ != "gersub"@ && s@ != "gerdub"@ ==> (r matches Language::Other(o) && o@ == s@),
{
    proof {
        reveal_strlit("gersub");
        reveal_strlit("gerdub");
        assert("gersub"@ != "gerdub"@) by {
            assert("gersub"@[3] != "gerdub"@[3]);
        }
    }
    if str_eq(s, "gersub") {
        Language::JapaneseWithGermanSubtitles
    } else if str_eq(s, "gerdub") {
        Language::German
    } else {
        Language::Other(s.to_owned())
    }
}

/// What the entries of the JSON listing in `body` hold: each entry read as
/// its `titel`, `Untertitel`, `aid` and `Folgen` string fields (`None` where
/// the entry is no object, lacks the field, or holds no string); `None` when
/// the body is not a JSON array. A pure function of the text.
pub uninterp spec fn listing_entries(body: Seq<char>) -> Option<
    Seq<(Option<Seq<char>>, Option<Seq<char>>, Option<Seq<char>>, Option<Seq<char>>)>,
>;

/// The view of one read listing entry.
pub open spec fn entry_view(e: (Option<String>, Option<String>, Option<String>, Option<String>)) -> (
    Option<Seq<char>>,
    Option<Seq<char>>,
    Option<Seq<char>>,
    Option<Seq<char>>,
) {
    (opt_text_view(e.0), opt_text_view(e.1), opt_text_view(e.2), opt_text_view(e.3))
}

/// Reads the series listing.
/// Relies on serde_json::from_str and Value::{as_array, get, as_str}: the
/// array's entries are handed out in order, each mapped to its four string
/// fields; all of it deterministic in the text and free of panics.
#[verifier::external_body]
fn read_listing(body: &str) -> (r: Option<
    Vec<(Option<String>, Option<String>, Option<String>, Option<String>)>,
>)
    ensures
        match r {
            Some(v) => listing_entries(body@) == Some(
                v@.map_values(
                    |e: (Option<String>, Option<String>, Option<String>, Option<String>)|
                        entry_view(e),
                ),
            ),
            None => listing_entries(body@) is None,
        },
{
    let v: serde_json::Value = serde_json::from_str(body).ok()?;
    let arr = v.as_array()?;
    Some(arr.iter().map(|e| (
        e.get("titel").and_then(|f| f.as_str()).map(String::from),
        e.get("Untertitel").and_then(|f| f.as_str()).map(String::from),
        e.get("aid").and_then(|f| f.as_str()).map(String::from),
        e.get("Folgen").and_then(|f| f.as_str()).map(String::from),
    )).collect())
}

/// The walk over the listing entries, in order: an entry without a title
/// string stops the search; a title that contains the wanted name (both
/// lower-cased) must carry the wanted synchronisation value or the walk
/// moves on; the first entry matching both yields its title, its
/// synchronisation value and its parsed id and episode count, or stops the
/// search if a field is missing or does not parse. `None` is a failed or
/// empty search.
pub open spec fn search_spec(
    es: Seq<(Option<Seq<char>>, Option<Seq<char>>, Option<Seq<char>>, Option<Seq<char>>)>,
    name: Seq<char>,
    lang: Seq<char>,
) -> Option<(Seq<char>, Seq<char>, int, int)>
    decreases es.len(),
{
    if es.len() == 0 {
        None
    } else {
        match es[0].0 {
            None => None,
            Some(t) => if contains_sub(lower_of(t), lower_of(name)) {
                match es[0].1 {
                    None => None,
                    Some(u) => if u == lang {
                        match (es[0].2, es[0].3) {
                            (Some(aid), Some(folgen)) => match (
                                parse_u32_spec(aid),
                                parse_u32_spec(folgen),
                            ) {
                                (Some(id), Some(eps)) => Some((t, u, id, eps)),
                                _ => None,
                            },
                            _ => None,
                        }
                    } else {
                        search_spec(es.drop_first(), name, lang)
                    },
                }
            } else {
                search_spec(es.drop_first(), name, lang)
            },
        }
    }
}

impl Series {
    /// Searches the JSON listing for the first series whose lower-cased
    /// title contains the lower-cased name and whose synchronisation value
    /// equals the wanted one, and reads its record. Succeeds exactly when
    /// the walk of [`search_spec`] finds such an entry with a well-formed
    /// record; the result is built from that entry. Fails with a protocol
    /// error naming the offending field, or when no series matches.
    pub fn find_in_listing(listing: &str, name: &str, language: &Language) -> (r: Result<
        Series,
        Error,
    >)
        ensures
            r is Ok <==> (listing_entries(listing@) matches Some(es) && search_spec(
                es,
                name@,
                language_name_spec(*language),
            ) is Some),
            r is Ok ==> (listing_entries(listing@) matches Some(es) && search_spec(
                es,
                name@,
                language_name_spec(*language),
            ) matches Some(f) && {
                let s = r->Ok_0;
                &&& s.title@ == f.0
                &&& s.id as int == f.2
                &&& s.episodes as int == f.3
                &&& (if f.1 == "gersub"@ {
                    s.language is JapaneseWithGermanSubtitles
                } else if f.1 == "gerdub"@ {
                    s.language is German
                } else {
                    s.language matches Language::Other(o) && o@ == f.1
                })
            }),
            r is Err ==> r->Err_0 is Protocol,
    {
        let entries = match read_listing(listing) {
            Some(es) => es,
            None => {
                return Err(Error::Protocol("listing response is not an array".to_owned()));
            },
        };
        let lang_name = language.get_name();
        let ghost ges = entries@.map_values(
            |e: (Option<String>, Option<String>, Option<String>, Option<String>)| entry_view(e),
        );
        let mut i: usize = 0;
        proof {
            assert(ges.skip(0) =~= ges);
        }
        while i < entries.len()
            invariant
                i <= entries.len(),
                listing_entries(listing@) == Some(ges),
                ges == entries@.map_values(
                    |e: (Option<String>, Option<String>, Option<String>, Option<String>)|
                        entry_view(e),
                ),
                lang_name@ == language_name_spec(*language),
                search_spec(ges, name@, lang_name@) == search_spec(
                    ges.skip(i as int),
                    name@,
                    lang_name@,
                ),
            decreases entries.len() - i,
        {
            let ghost rest = ges.skip(i as int);
            proof {
                assert(rest[0] == ges[i as int]);
                assert(ges[i as int] == entry_view(entries@[i as int]));
                assert(rest.drop_first() =~= ges.skip(i as int + 1));
            }
            let e = &entries[i];
            let titel = match &e.0 {
                Some(t) => t,
                None => {
                    return Err(
                        Error::Protocol("listing entry has no titel string".to_owned()),
                    );
                },
            };
            if matches_series(titel.as_str(), name) {
                let unter = match &e.1 {
                    Some(u) => u,
                    None => {
                        return Err(
                            Error::Protocol(
                                "listing entry has no Untertitel string".to_owned(),
                            ),
                        );
                    },
                };
                if str_eq(unter.as_str(), lang_name) {
                    let aid = match &e.2 {
                        Some(a) => a,
                        None => {
                            return Err(
                                Error::Protocol("listing entry has no aid string".to_owned()),
                            );
                        },
                    };
                    let id = match parse_u32(aid.as_str()) {
                        Some(v) => v,
                        None => {
                            return Err(
                                Error::Protocol(
                                    "listing field aid is not a number".to_owned(),
                                ),
                            );
                        },
                    };
                    let folgen = match &e.3 {
                        Some(f) => f,
                        None => {
                            return Err(
                                Error::Protocol(
                                    "listing entry has no Folgen string".to_owned(),
                                ),
                            );
                        },
                    };
                    let episodes = match parse_u32(folgen.as_str()) {
                        Some(v) => v,
                        None => {
                            return Err(
                                Error::Protocol(
                                    "listing field Folgen is not a number".to_owned(),
                                ),
                            );
                        },
                    };
                    return Ok(
                        Series {
                            id,
                            title: titel.clone(),
                            episodes,
                            language: language_from_name(unter.as_str()),
                        },
                    );
                }
            }
            i = i + 1;
        }
        proof {
            assert(ges.skip(entries@.len() as int) =~= Seq::<
                (Option<Seq<char>>, Option<Seq<char>>, Option<Seq<char>>, Option<Seq<char>>),
            >::empty());
        }
        Err(Error::Protocol("series not found in listing".to_owned()))
    }
}

} // verus!
