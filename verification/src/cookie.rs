//! Session cookies for one content-unit context: an ordered-by-insertion
//! mapping from cookie key to value, folded from `Set-Cookie` headers.

use vstd::prelude::*;

use crate::error::Error;
use crate::text::{find_char_from, first_char_at, lemma_first_char_props, str_eq};

verus! {

/// One cookie: a key and a value.
#[derive(Clone, Debug)]
pub struct Cookie {
    pub key: String,
    pub value: String,
}

impl View for Cookie {
    type V = (Seq<char>, Seq<char>);

    open spec fn view(&self) -> (Seq<char>, Seq<char>) {
        (self.key@, self.value@)
    }
}

/// The sentinel value that removes a key instead of storing it.
pub open spec fn deleted_lit() -> Seq<char> {
    seq!['d', 'e', 'l', 'e', 't', 'e', 'd']
}

/// The jar `jar` with every entry for key `k` removed, order otherwise kept.
pub open spec fn remove_key(jar: Seq<(Seq<char>, Seq<char>)>, k: Seq<char>) -> Seq<
    (Seq<char>, Seq<char>),
>
    decreases jar.len(),
{
    if jar.len() == 0 {
        Seq::empty()
    } else {
        let rest = remove_key(jar.drop_first(), k);
        if jar[0].0 == k {
            rest
        } else {
            seq![jar[0]] + rest
        }
    }
}

/// The insert rule of the session: a duplicate key replaces (the new entry
/// moves to the end), and the value `deleted` removes the key.
pub open spec fn insert_cookie(
    jar: Seq<(Seq<char>, Seq<char>)>,
    k: Seq<char>,
    v: Seq<char>,
) -> Seq<(Seq<char>, Seq<char>)> {
    if v == deleted_lit() {
        remove_key(jar, k)
    } else {
        remove_key(jar, k).push((k, v))
    }
}

/// True when `jar` holds some entry with key `k`.
pub open spec fn has_key(jar: Seq<(Seq<char>, Seq<char>)>, k: Seq<char>) -> bool {
    exists|i: int| 0 <= i < jar.len() && jar[i].0 == k
}

/// Appending one entry to a jar commutes with `remove_key`.
pub proof fn lemma_remove_key_push(jar: Seq<(Seq<char>, Seq<char>)>, p: (Seq<char>, Seq<char>), k: Seq<char>)
    ensures
        remove_key(jar.push(p), k) == if p.0 == k {
            remove_key(jar, k)
        } else {
            remove_key(jar, k).push(p)
        },
    decreases jar.len(),
{
    if jar.len() == 0 {
        assert(jar.push(p).drop_first() =~= Seq::<(Seq<char>, Seq<char>)>::empty());
        assert(jar.push(p)[0] == p);
        assert(remove_key(Seq::<(Seq<char>, Seq<char>)>::empty(), k)
            =~= Seq::<(Seq<char>, Seq<char>)>::empty());
        assert(remove_key(jar, k) =~= Seq::<(Seq<char>, Seq<char>)>::empty());
        if p.0 != k {
            assert(remove_key(jar.push(p), k) =~~= remove_key(jar, k).push(p));
        }
    } else {
        assert(jar.push(p).drop_first() =~= jar.drop_first().push(p));
        assert(jar.push(p)[0] == jar[0]);
        lemma_remove_key_push(jar.drop_first(), p, k);
        if p.0 == k {
            assert(remove_key(jar.push(p), k) =~~= remove_key(jar, k));
        } else {
            assert(remove_key(jar.push(p), k) =~~= remove_key(jar, k).push(p));
        }
    }
}

/// `remove_key` removes exactly the entries with key `k`.
pub proof fn lemma_remove_key_props(jar: Seq<(Seq<char>, Seq<char>)>, k: Seq<char>)
    ensures
        !has_key(remove_key(jar, k), k),
        forall|k2: Seq<char>| k2 != k ==> (has_key(remove_key(jar, k), k2) == has_key(jar, k2)),
        remove_key(jar, k).len() <= jar.len(),
    decreases jar.len(),
{
    if jar.len() > 0 {
        lemma_remove_key_props(jar.drop_first(), k);
        let rest = remove_key(jar.drop_first(), k);
        assert forall|k2: Seq<char>| k2 != k implies has_key(remove_key(jar, k), k2) == has_key(
            jar,
            k2,
        ) by {
            if jar[0].0 == k {
                assert(has_key(jar, k2) == has_key(jar.drop_first(), k2)) by {
                    if has_key(jar, k2) {
                        let i = choose|i: int| 0 <= i < jar.len() && jar[i].0 == k2;
                        assert(jar.drop_first()[i - 1] == jar[i]);
                    }
                    if has_key(jar.drop_first(), k2) {
                        let i = choose|i: int|
                            0 <= i < jar.drop_first().len() && jar.drop_first()[i].0 == k2;
                        assert(jar[i + 1].0 == k2);
                    }
                }
            } else {
                let out = seq![jar[0]] + rest;
                if has_key(jar, k2) {
                    let i = choose|i: int| 0 <= i < jar.len() && jar[i].0 == k2;
                    if i == 0 {
                        assert(out[0].0 == k2);
                    } else {
                        assert(jar.drop_first()[i - 1].0 == k2);
                        assert(has_key(jar.drop_first(), k2));
                        assert(has_key(rest, k2));
                        let j = choose|j: int| 0 <= j < rest.len() && rest[j].0 == k2;
                        assert(out[j + 1] == rest[j]);
                        assert(out[j + 1].0 == k2);
                    }
                }
                if has_key(out, k2) {
                    let i = choose|i: int| 0 <= i < out.len() && out[i].0 == k2;
                    if i == 0 {
                        assert(jar[0].0 == k2);
                    } else {
                        assert(out[i] == rest[i - 1]);
                        assert(rest[i - 1].0 == k2);
                        assert(has_key(rest, k2));
                        assert(has_key(jar.drop_first(), k2));
                        let j = choose|j: int|
                            0 <= j < jar.drop_first().len() && jar.drop_first()[j].0 == k2;
                        assert(jar[j + 1] == jar.drop_first()[j]);
                        assert(jar[j + 1].0 == k2);
                    }
                }
            }
        }
        if jar[0].0 != k {
            let out = seq![jar[0]] + rest;
            if has_key(out, k) {
                let i = choose|i: int| 0 <= i < out.len() && out[i].0 == k;
                assert(i > 0);
                assert(rest[i - 1].0 == k);
            }
        }
    }
}

/// A jar that accumulates cookies for one content-unit context.
#[derive(Clone, Debug)]
pub struct CookieJar {
    pub cookies: Vec<Cookie>,
}

impl View for CookieJar {
    type V = Seq<(Seq<char>, Seq<char>)>;

    open spec fn view(&self) -> Seq<(Seq<char>, Seq<char>)> {
        self.cookies@.map_values(|c: Cookie| c@)
    }
}

impl CookieJar {
    /// At most one entry per key.
    pub open spec fn wf(&self) -> bool {
        forall|i: int, j: int|
            0 <= i < j < self@.len() ==> self@[i].0 != self@[j].0
    }

    /// Creates an empty jar.
    pub fn new() -> (r: CookieJar)
        ensures
            r@ == Seq::<(Seq<char>, Seq<char>)>::empty(),
            r.wf(),
    {
        let r = CookieJar { cookies: Vec::new() };
        proof {
            assert(r@ =~= Seq::<(Seq<char>, Seq<char>)>::empty());
        }
        r
    }

    /// Folds one cookie into the jar: a duplicate key is replaced, and the
    /// value `deleted` removes the key instead of storing it.
    pub fn add_cookie(&mut self, cookie: Cookie)
        requires
            old(self).wf(),
        ensures
            final(self)@ == insert_cookie(old(self)@, cookie.key@, cookie.value@),
            final(self).wf(),
    {
        let ghost jar0 = self@;
        let ghost k = cookie.key@;
        let mut kept: Vec<Cookie> = Vec::new();
        let mut i: usize = 0;
        proof {
            assert(kept@.map_values(|c: Cookie| c@) =~= remove_key(jar0.take(0), k));
        }
        while i < self.cookies.len()
            invariant
                i <= self.cookies.len(),
                jar0 == self@,
                k == cookie.key@,
                kept@.map_values(|c: Cookie| c@) == remove_key(jar0.take(i as int), k),
            decreases self.cookies.len() - i,
        {
            let c = &self.cookies[i];
            let ghost pre = jar0.take(i as int);
            proof {
                assert(jar0.take(i + 1) =~= pre.push(jar0[i as int]));
                lemma_remove_key_push(pre, jar0[i as int], k);
            }
            if !str_eq(c.key.as_str(), cookie.key.as_str()) {
                let ghost kv = kept@.map_values(|c: Cookie| c@);
                let copy = Cookie { key: c.key.clone(), value: c.value.clone() };
                proof {
                    assert(copy@ == jar0[i as int]);
                }
                kept.push(copy);
                proof {
                    assert(kept@.map_values(|c: Cookie| c@) =~= kv.push(jar0[i as int]));
                }
            }
            i = i + 1;
        }
        proof {
            assert(jar0.take(self.cookies@.len() as int) =~= jar0);
        }
        if !str_eq(cookie.value.as_str(), "deleted") {
            proof {
                reveal_strlit("deleted");
                assert("deleted"@ =~= deleted_lit());
            }
            let ghost kv = kept@.map_values(|c: Cookie| c@);
            kept.push(cookie);
            proof {
                assert(kept@.map_values(|c: Cookie| c@) =~= kv.push((k, cookie.value@)));
            }
        } else {
            proof {
                reveal_strlit("deleted");
                assert("deleted"@ =~= deleted_lit());
            }
        }
        self.cookies = kept;
        proof {
            lemma_remove_key_props(jar0, k);
            lemma_wf_insert(jar0, k, cookie.value@);
            let out = insert_cookie(jar0, k, cookie.value@);
            assert(self@ == out);
            assert forall|i: int, j: int| 0 <= i < j < self@.len() implies self@[i].0
                != self@[j].0 by {
                assert(out[i].0 != out[j].0);
            }
        }
    }

    /// Serialises the jar as a `Cookie` request header value.
    pub fn serialize(&self) -> (r: String)
        ensures
            r@ == jar_str(self@),
    {
        let mut buf = String::new();
        let mut i: usize = 0;
        while i < self.cookies.len()
            invariant
                i <= self.cookies.len(),
                buf@ == jar_str(self@.take(i as int)),
            decreases self.cookies.len() - i,
        {
            let ghost pre = self@.take(i as int);
            if i > 0 {
                buf.append("; ");
            }
            buf.append(self.cookies[i].key.as_str());
            buf.append("=");
            buf.append(self.cookies[i].value.as_str());
            proof {
                reveal_strlit("; ");
                reveal_strlit("=");
                assert(self@.take(i + 1) =~= pre.push(self@[i as int]));
                lemma_jar_str_push(pre, self@[i as int]);
                assert(self@[i as int] == (self.cookies@[i as int].key@,
                    self.cookies@[i as int].value@));
                assert(buf@ =~= jar_str(self@.take(i + 1)));
            }
            i = i + 1;
        }
        proof {
            assert(self@.take(self.cookies@.len() as int) =~= self@);
        }
        buf
    }

    /// Parses a sequence of `Set-Cookie` header values and folds each
    /// `key=value;` pair into a fresh jar.
    pub fn parse(headers: &Vec<String>) -> (r: Result<CookieJar, Error>)
        ensures
            match r {
                Ok(jar) => {
                    &&& fold_headers(headers.deep_view()) == Some(jar@)
                    &&& jar.wf()
                },
                Err(e) => fold_headers(headers.deep_view()) is None && e is Protocol,
            },
    {
        let mut jar = CookieJar::new();
        let mut i: usize = 0;
        proof {
            assert(headers.deep_view().take(0) =~= Seq::<Seq<char>>::empty());
        }
        while i < headers.len()
            invariant
                i <= headers.len(),
                fold_headers(headers.deep_view().take(i as int)) == Some(jar@),
                jar.wf(),
            decreases headers.len() - i,
        {
            let h = &headers[i];
            let ghost hs = headers.deep_view();
            proof {
                assert(hs[i as int] == h@);
                assert(hs.take(i + 1) =~= hs.take(i as int).push(h@));
                lemma_fold_headers_push(hs.take(i as int), h@);
            }
            match Self::parse_header(h.as_str()) {
                Some(c) => {
                    jar.add_cookie(c);
                },
                None => {
                    proof {
                        lemma_fold_headers_extends_none(hs, i as int + 1);
                    }
                    return Err(
                        Error::Protocol("set-cookie header without key=value; pair".to_owned()),
                    );
                },
            }
            i = i + 1;
        }
        proof {
            assert(headers.deep_view().take(headers@.len() as int) =~= headers.deep_view());
        }
        Ok(jar)
    }

    /// Extracts the `key=value;` pair of one header: the key is everything
    /// before the first `=`, the value everything from there to the first
    /// following `;`.
    fn parse_header(h: &str) -> (r: Option<Cookie>)
        ensures
            match r {
                Some(c) => header_pair(h@) == Some((c.key@, c.value@)),
                None => header_pair(h@) is None,
            },
    {
        let len = h.unicode_len();
        match find_char_from(h, '=', 0) {
            None => None,
            Some(e) => {
                proof {
                    lemma_first_char_props(h@, '=', 0);
                }
                match find_char_from(h, ';', e + 1) {
                    None => None,
                    Some(sc) => {
                        proof {
                            lemma_first_char_props(h@, ';', e as int + 1);
                        }
                        let key = h.substring_char(0, e).to_owned();
                        let value = h.substring_char(e + 1, sc).to_owned();
                        Some(Cookie { key, value })
                    },
                }
            },
        }
    }

    /// Folds every cookie of `other` into this jar, in order.
    pub fn _update(&mut self, other: CookieJar)
        requires
            old(self).wf(),
        ensures
            final(self)@ == fold_cookies(old(self)@, other@),
            final(self).wf(),
    {
        let mut i: usize = 0;
        let ghost jar0 = self@;
        let ghost os = other@;
        proof {
            assert(os.take(0) =~= Seq::<(Seq<char>, Seq<char>)>::empty());
        }
        while i < other.cookies.len()
            invariant
                i <= other.cookies.len(),
                os == other@,
                self@ == fold_cookies(jar0, os.take(i as int)),
                self.wf(),
            decreases other.cookies.len() - i,
        {
            proof {
                assert(os.take(i + 1) =~= os.take(i as int).push(os[i as int]));
                lemma_fold_cookies_push(jar0, os.take(i as int), os[i as int]);
                assert(other.cookies@[i as int]@ == os[i as int]);
            }
            let c = &other.cookies[i];
            let copy = Cookie { key: c.key.clone(), value: c.value.clone() };
            proof {
                assert(copy@ == os[i as int]);
            }
            self.add_cookie(copy);
            i = i + 1;
        }
        proof {
            assert(os.take(other.cookies@.len() as int) =~= os);
        }
    }
}

impl Cookie {
    /// Serialises one cookie as `key=value`.
    pub fn serialize(&self) -> (r: String)
        ensures
            r@ == cookie_str(self@),
    {
        let mut buf = self.key.clone();
        buf.append("=");
        buf.append(self.value.as_str());
        proof {
            reveal_strlit("=");
            assert(buf@ =~= cookie_str(self@));
        }
        buf
    }
}

/// `key=value` for one entry.
pub open spec fn cookie_str(p: (Seq<char>, Seq<char>)) -> Seq<char> {
    p.0 + seq!['='] + p.1
}

/// The `Cookie` header form of a jar: entries joined with `; `.
pub open spec fn jar_str(jar: Seq<(Seq<char>, Seq<char>)>) -> Seq<char>
    decreases jar.len(),
{
    if jar.len() == 0 {
        Seq::empty()
    } else if jar.len() == 1 {
        cookie_str(jar[0])
    } else {
        cookie_str(jar[0]) + seq![';', ' '] + jar_str(jar.drop_first())
    }
}

/// Serialisation grows at the tail when an entry is appended.
pub proof fn lemma_jar_str_push(jar: Seq<(Seq<char>, Seq<char>)>, p: (Seq<char>, Seq<char>))
    ensures
        jar_str(jar.push(p)) == if jar.len() == 0 {
            cookie_str(p)
        } else {
            jar_str(jar) + seq![';', ' '] + cookie_str(p)
        },
    decreases jar.len(),
{
    if jar.len() == 0 {
        assert(jar.push(p)[0] == p);
        assert(jar_str(jar.push(p)) == cookie_str(p));
    } else {
        assert(jar.push(p).drop_first() =~= jar.drop_first().push(p));
        lemma_jar_str_push(jar.drop_first(), p);
        if jar.len() == 1 {
            assert(jar.drop_first().len() == 0);
            assert(jar_str(jar.push(p)) =~= jar_str(jar) + seq![';', ' '] + cookie_str(p));
        } else {
            assert(jar_str(jar.push(p)) =~= jar_str(jar) + seq![';', ' '] + cookie_str(p));
        }
    }
}

/// The `key=value` pair of one `Set-Cookie` header: the key is everything
/// before the first `=`, the value everything from there to the first
/// following `;`. `None` when the header has no such pair.
pub open spec fn header_pair(h: Seq<char>) -> Option<(Seq<char>, Seq<char>)> {
    match first_char_at(h, '=', 0) {
        None => None,
        Some(e) => match first_char_at(h, ';', e + 1) {
            None => None,
            Some(sc) => Some((h.subrange(0, e), h.subrange(e + 1, sc))),
        },
    }
}

/// Folds a sequence of headers into a jar; `None` when any header is
/// malformed.
pub open spec fn fold_headers(hs: Seq<Seq<char>>) -> Option<Seq<(Seq<char>, Seq<char>)>>
    decreases hs.len(),
{
    if hs.len() == 0 {
        Some(Seq::empty())
    } else {
        match fold_headers(hs.drop_last()) {
            None => None,
            Some(jar) => match header_pair(hs.last()) {
                None => None,
                Some(p) => Some(insert_cookie(jar, p.0, p.1)),
            },
        }
    }
}

/// Folding distributes over appending one header.
pub proof fn lemma_fold_headers_push(hs: Seq<Seq<char>>, h: Seq<char>)
    ensures
        fold_headers(hs.push(h)) == match fold_headers(hs) {
            None => None::<Seq<(Seq<char>, Seq<char>)>>,
            Some(jar) => match header_pair(h) {
                None => None,
                Some(p) => Some(insert_cookie(jar, p.0, p.1)),
            },
        },
{
    assert(hs.push(h).drop_last() =~= hs);
    assert(hs.push(h).last() == h);
}

/// Once a prefix fails to fold, the whole sequence fails to fold.
pub proof fn lemma_fold_headers_extends_none(hs: Seq<Seq<char>>, m: int)
    requires
        0 <= m <= hs.len(),
        fold_headers(hs.take(m)) is None,
    ensures
        fold_headers(hs) is None,
    decreases hs.len() - m,
{
    if m == hs.len() {
        assert(hs.take(m) =~= hs);
    } else {
        assert(hs.take(m + 1).drop_last() =~= hs.take(m));
        lemma_fold_headers_extends_none(hs, m + 1);
    }
}

/// Folds a sequence of entries into a jar with the insert rule.
pub open spec fn fold_cookies(
    jar: Seq<(Seq<char>, Seq<char>)>,
    entries: Seq<(Seq<char>, Seq<char>)>,
) -> Seq<(Seq<char>, Seq<char>)>
    decreases entries.len(),
{
    if entries.len() == 0 {
        jar
    } else {
        insert_cookie(fold_cookies(jar, entries.drop_last()), entries.last().0, entries.last().1)
    }
}

/// Folding distributes over appending one entry.
pub proof fn lemma_fold_cookies_push(
    jar: Seq<(Seq<char>, Seq<char>)>,
    entries: Seq<(Seq<char>, Seq<char>)>,
    p: (Seq<char>, Seq<char>),
)
    ensures
        fold_cookies(jar, entries.push(p)) == insert_cookie(fold_cookies(jar, entries), p.0, p.1),
{
    assert(entries.push(p).drop_last() =~= entries);
    assert(entries.push(p).last() == p);
}

/// The insert rule keeps keys unique.
pub proof fn lemma_wf_insert(jar: Seq<(Seq<char>, Seq<char>)>, k: Seq<char>, v: Seq<char>)
    requires
        forall|i: int, j: int| 0 <= i < j < jar.len() ==> jar[i].0 != jar[j].0,
    ensures
        forall|i: int, j: int|
            0 <= i < j < insert_cookie(jar, k, v).len() ==> insert_cookie(jar, k, v)[i].0
                != insert_cookie(jar, k, v)[j].0,
{
    lemma_remove_key_unique(jar, k);
    let out = remove_key(jar, k);
    lemma_remove_key_props(jar, k);
    if v != deleted_lit() {
        let pushed = out.push((k, v));
        assert forall|i: int, j: int| 0 <= i < j < pushed.len() implies pushed[i].0 != pushed[j].0 by {
            if j < out.len() {
            } else {
                assert(pushed[j].0 == k);
                if pushed[i].0 == k {
                    assert(has_key(out, k));
                }
            }
        }
    }
}

/// Removing a key keeps the remaining keys unique.
pub proof fn lemma_remove_key_unique(jar: Seq<(Seq<char>, Seq<char>)>, k: Seq<char>)
    requires
        forall|i: int, j: int| 0 <= i < j < jar.len() ==> jar[i].0 != jar[j].0,
    ensures
        forall|i: int, j: int|
            0 <= i < j < remove_key(jar, k).len() ==> remove_key(jar, k)[i].0 != remove_key(
                jar,
                k,
            )[j].0,
    decreases jar.len(),
{
    if jar.len() > 0 {
        let rest0 = jar.drop_first();
        assert(forall|i: int, j: int| 0 <= i < j < rest0.len() ==> rest0[i].0 != rest0[j].0) by {
            assert(forall|i: int| 0 <= i < rest0.len() ==> rest0[i] == jar[i + 1]);
        }
        lemma_remove_key_unique(rest0, k);
        if jar[0].0 != k {
            let rest = remove_key(rest0, k);
            let out = seq![jar[0]] + rest;
            assert forall|i: int, j: int| 0 <= i < j < out.len() implies out[i].0 != out[j].0 by {
                if i == 0 {
                    assert(out[j] == rest[j - 1]);
                    lemma_remove_key_member(rest0, k, j - 1);
                } else {
                    assert(out[i] == rest[i - 1] && out[j] == rest[j - 1]);
                }
            }
        }
    }
}

/// Every entry of `remove_key(jar, k)` is an entry of `jar`.
pub proof fn lemma_remove_key_member(jar: Seq<(Seq<char>, Seq<char>)>, k: Seq<char>, i: int)
    requires
        0 <= i < remove_key(jar, k).len(),
    ensures
        exists|j: int| 0 <= j < jar.len() && jar[j] == remove_key(jar, k)[i],
    decreases jar.len(),
{
    if jar.len() > 0 {
        let rest = remove_key(jar.drop_first(), k);
        if jar[0].0 == k {
            lemma_remove_key_member(jar.drop_first(), k, i);
            let j = choose|j: int|
                0 <= j < jar.drop_first().len() && jar.drop_first()[j] == rest[i];
            assert(jar[j + 1] == remove_key(jar, k)[i]);
        } else {
            if i == 0 {
                assert(jar[0] == remove_key(jar, k)[0]);
            } else {
                lemma_remove_key_member(jar.drop_first(), k, i - 1);
                let j = choose|j: int|
                    0 <= j < jar.drop_first().len() && jar.drop_first()[j] == rest[i - 1];
                assert(jar[j + 1] == remove_key(jar, k)[i]);
            }
        }
    }
}

/// Folding the same header twice yields the same jar as folding it once, and
/// folding `key=deleted` after `key=value` leaves no entry for `key`.
pub proof fn lemma_cookie_fold_idempotent(
    jar: Seq<(Seq<char>, Seq<char>)>,
    k: Seq<char>,
    v: Seq<char>,
)
    requires
        forall|i: int, j: int| 0 <= i < j < jar.len() ==> jar[i].0 != jar[j].0,
    ensures
        insert_cookie(insert_cookie(jar, k, v), k, v) == insert_cookie(jar, k, v),
        !has_key(insert_cookie(insert_cookie(jar, k, v), k, deleted_lit()), k),
{
    lemma_remove_key_props(jar, k);
    let once = insert_cookie(jar, k, v);
    if v == deleted_lit() {
        lemma_remove_key_absent(remove_key(jar, k), k);
        lemma_remove_key_props(once, k);
    } else {
        let r1 = remove_key(jar, k);
        lemma_remove_key_push(r1, (k, v), k);
        lemma_remove_key_absent(r1, k);
        assert(remove_key(once, k) == r1);
        lemma_remove_key_props(once, k);
    }
}

/// Removing a key that is absent changes nothing.
pub proof fn lemma_remove_key_absent(jar: Seq<(Seq<char>, Seq<char>)>, k: Seq<char>)
    requires
        !has_key(jar, k),
    ensures
        remove_key(jar, k) == jar,
    decreases jar.len(),
{
    if jar.len() > 0 {
        assert(jar[0].0 != k);
        assert(!has_key(jar.drop_first(), k)) by {
            if has_key(jar.drop_first(), k) {
                let i = choose|i: int|
                    0 <= i < jar.drop_first().len() && jar.drop_first()[i].0 == k;
                assert(jar[i + 1].0 == k);
            }
        }
        lemma_remove_key_absent(jar.drop_first(), k);
        assert(remove_key(jar, k) =~= jar);
    }
}


/// The `key=value` pairs of a header sequence; `None` when any header is
/// malformed.
pub open spec fn pairs_of(hs: Seq<Seq<char>>) -> Option<Seq<(Seq<char>, Seq<char>)>>
    decreases hs.len(),
{
    if hs.len() == 0 {
        Some(Seq::empty())
    } else {
        match (pairs_of(hs.drop_last()), header_pair(hs.last())) {
            (Some(ps), Some(p)) => Some(ps.push(p)),
            _ => None,
        }
    }
}

/// Folding headers is folding their pairs.
pub proof fn lemma_fold_headers_as_pairs(hs: Seq<Seq<char>>)
    ensures
        fold_headers(hs) == match pairs_of(hs) {
            Some(ps) => Some(fold_cookies(Seq::empty(), ps)),
            None => None,
        },
    decreases hs.len(),
{
    if hs.len() > 0 {
        lemma_fold_headers_as_pairs(hs.drop_last());
        match (pairs_of(hs.drop_last()), header_pair(hs.last())) {
            (Some(ps), Some(p)) => {
                lemma_fold_cookies_push(Seq::empty(), ps, p);
                assert(ps.push(p).drop_last() =~= ps);
            },
            _ => {},
        }
    }
}

/// Reading pairs distributes over concatenation.
pub proof fn lemma_pairs_of_concat(a: Seq<Seq<char>>, b: Seq<Seq<char>>)
    ensures
        pairs_of(a + b) == match (pairs_of(a), pairs_of(b)) {
            (Some(x), Some(y)) => Some(x + y),
            (Some(x), None) => None::<Seq<(Seq<char>, Seq<char>)>>,
            (None, _) => None,
        },
    decreases b.len(),
{
    if b.len() == 0 {
        assert(a + b =~= a);
        match pairs_of(a) {
            Some(x) => {
                assert(x + Seq::<(Seq<char>, Seq<char>)>::empty() =~= x);
            },
            None => {},
        }
    } else {
        assert((a + b).drop_last() =~= a + b.drop_last());
        assert((a + b).last() == b.last());
        lemma_pairs_of_concat(a, b.drop_last());
        match (pairs_of(a), pairs_of(b.drop_last()), header_pair(b.last())) {
            (Some(x), Some(y), Some(p)) => {
                assert(x + y.push(p) =~= (x + y).push(p));
                assert(y.push(p).drop_last() =~= y);
            },
            _ => {},
        }
    }
}

/// Folding entries distributes over concatenation.
pub proof fn lemma_fold_cookies_concat(
    jar: Seq<(Seq<char>, Seq<char>)>,
    x: Seq<(Seq<char>, Seq<char>)>,
    y: Seq<(Seq<char>, Seq<char>)>,
)
    ensures
        fold_cookies(jar, x + y) == fold_cookies(fold_cookies(jar, x), y),
    decreases y.len(),
{
    if y.len() == 0 {
        assert(x + y =~= x);
    } else {
        assert((x + y).drop_last() =~= x + y.drop_last());
        assert((x + y).last() == y.last());
        lemma_fold_cookies_concat(jar, x, y.drop_last());
    }
}

/// Removing a key distributes over concatenation.
pub proof fn lemma_remove_key_concat(
    a: Seq<(Seq<char>, Seq<char>)>,
    b: Seq<(Seq<char>, Seq<char>)>,
    k: Seq<char>,
)
    ensures
        remove_key(a + b, k) == remove_key(a, k) + remove_key(b, k),
    decreases a.len(),
{
    if a.len() == 0 {
        assert(a + b =~= b);
        assert(remove_key(a, k) =~= Seq::<(Seq<char>, Seq<char>)>::empty());
        assert(remove_key(a, k) + remove_key(b, k) =~= remove_key(b, k));
    } else {
        assert((a + b).drop_first() =~= a.drop_first() + b);
        assert((a + b)[0] == a[0]);
        lemma_remove_key_concat(a.drop_first(), b, k);
        assert(remove_key(a + b, k) =~= remove_key(a, k) + remove_key(b, k));
    }
}

/// The jar with the key of every one of `entries` removed, in order.
pub open spec fn remove_all_keys(
    jar: Seq<(Seq<char>, Seq<char>)>,
    entries: Seq<(Seq<char>, Seq<char>)>,
) -> Seq<(Seq<char>, Seq<char>)>
    decreases entries.len(),
{
    if entries.len() == 0 {
        jar
    } else {
        remove_key(remove_all_keys(jar, entries.drop_last()), entries.last().0)
    }
}

/// A fold splits into the untouched part of the starting jar and the fold
/// from an empty jar: inserted keys land behind, untouched keys stay ahead.
pub proof fn lemma_fold_cookies_decompose(
    jar: Seq<(Seq<char>, Seq<char>)>,
    es: Seq<(Seq<char>, Seq<char>)>,
)
    ensures
        fold_cookies(jar, es) == remove_all_keys(jar, es) + fold_cookies(Seq::empty(), es),
    decreases es.len(),
{
    if es.len() == 0 {
        assert(fold_cookies(jar, es) =~= remove_all_keys(jar, es) + fold_cookies(
            Seq::empty(),
            es,
        ));
    } else {
        let d = es.drop_last();
        let k = es.last().0;
        let v = es.last().1;
        lemma_fold_cookies_decompose(jar, d);
        let rp = remove_all_keys(jar, d);
        let tp = fold_cookies(Seq::empty(), d);
        lemma_remove_key_concat(rp, tp, k);
        if v == deleted_lit() {
            assert(fold_cookies(jar, es) =~= remove_all_keys(jar, es) + fold_cookies(
                Seq::empty(),
                es,
            ));
        } else {
            assert((remove_key(rp, k) + remove_key(tp, k)).push((k, v)) =~= remove_key(rp, k)
                + remove_key(tp, k).push((k, v)));
            assert(fold_cookies(jar, es) =~= remove_all_keys(jar, es) + fold_cookies(
                Seq::empty(),
                es,
            ));
        }
    }
}

/// Every key of a fold from the empty jar comes from the folded entries.
pub proof fn lemma_fold_cookies_keys(es: Seq<(Seq<char>, Seq<char>)>, q: Seq<char>)
    requires
        has_key(fold_cookies(Seq::empty(), es), q),
    ensures
        exists|m: int| 0 <= m < es.len() && es[m].0 == q,
    decreases es.len(),
{
    if es.len() == 0 {
        let i = choose|i: int|
            0 <= i < fold_cookies(Seq::empty(), es).len() && fold_cookies(
                Seq::empty(),
                es,
            )[i].0 == q;
        assert(false);
    } else {
        let d = es.drop_last();
        let k = es.last().0;
        let v = es.last().1;
        let fp = fold_cookies(Seq::empty(), d);
        lemma_remove_key_props(fp, k);
        if v == deleted_lit() {
            assert(q != k);
            assert(has_key(fp, q));
            lemma_fold_cookies_keys(d, q);
            let m = choose|m: int| 0 <= m < d.len() && d[m].0 == q;
            assert(es[m].0 == q);
        } else {
            let out = remove_key(fp, k).push((k, v));
            let i = choose|i: int| 0 <= i < out.len() && out[i].0 == q;
            if i == out.len() - 1 {
                assert(es[es.len() - 1].0 == q);
            } else {
                assert(out[i] == remove_key(fp, k)[i]);
                assert(has_key(remove_key(fp, k), q));
                assert(q != k);
                assert(has_key(fp, q));
                lemma_fold_cookies_keys(d, q);
                let m = choose|m: int| 0 <= m < d.len() && d[m].0 == q;
                assert(es[m].0 == q);
            }
        }
    }
}

/// A key survives removing all entry keys exactly when the jar had it and no
/// entry names it.
pub proof fn lemma_remove_all_keys_props(
    jar: Seq<(Seq<char>, Seq<char>)>,
    es: Seq<(Seq<char>, Seq<char>)>,
    q: Seq<char>,
)
    ensures
        has_key(remove_all_keys(jar, es), q) <==> (has_key(jar, q) && forall|m: int|
            0 <= m < es.len() ==> es[m].0 != q),
    decreases es.len(),
{
    if es.len() > 0 {
        let d = es.drop_last();
        let k = es.last().0;
        lemma_remove_all_keys_props(jar, d, q);
        lemma_remove_key_props(remove_all_keys(jar, d), k);
        if q == k {
            assert(es[es.len() - 1].0 == q);
        } else {
            assert(forall|m: int| 0 <= m < d.len() ==> d[m] == es[m]);
        }
    }
}

/// Folding the same entries a second time changes nothing.
pub proof fn lemma_fold_cookies_idempotent(es: Seq<(Seq<char>, Seq<char>)>)
    ensures
        fold_cookies(fold_cookies(Seq::empty(), es), es) == fold_cookies(Seq::empty(), es),
{
    let t = fold_cookies(Seq::empty(), es);
    lemma_fold_cookies_decompose(t, es);
    let r = remove_all_keys(t, es);
    if r.len() > 0 {
        let q = r[0].0;
        assert(has_key(r, q));
        lemma_remove_all_keys_props(t, es, q);
        lemma_fold_cookies_keys(es, q);
        let m = choose|m: int| 0 <= m < es.len() && es[m].0 == q;
        assert(false);
    }
    assert(r =~= Seq::<(Seq<char>, Seq<char>)>::empty());
    assert(fold_cookies(t, es) =~= t);
}

/// Applying the same Set-Cookie headers twice yields the same session as
/// applying them once: the whole jar, entries and insertion order alike.
pub proof fn lemma_parse_headers_idempotent(hs: Seq<Seq<char>>)
    ensures
        fold_headers(hs + hs) == fold_headers(hs),
{
    lemma_fold_headers_as_pairs(hs);
    lemma_fold_headers_as_pairs(hs + hs);
    lemma_pairs_of_concat(hs, hs);
    match pairs_of(hs) {
        None => {},
        Some(ps) => {
            lemma_fold_cookies_concat(Seq::empty(), ps, ps);
            lemma_fold_cookies_idempotent(ps);
        },
    }
}

} // verus!
