//! The durable answer cache: a first-writer-wins mapping from CAPTCHA
//! question text to the reference answer image, with an exact byte codec for
//! the on-disk store.

use vstd::bytes::{spec_u64_to_le_bytes, u64_from_le_bytes, u64_to_le_bytes};
use vstd::prelude::*;
use vstd::slice::slice_to_vec;
use vstd::string::StrSliceExecFns;
use vstd::utf8::{decode_utf8_encode_utf8, encode_utf8};

use crate::text::{str_eq, string_from_utf8};

verus! {

/// The reference image stored for `q`, if any: the first entry whose
/// question equals `q`.
pub open spec fn lookup_spec(es: Seq<(Seq<char>, Seq<u8>)>, q: Seq<char>) -> Option<Seq<u8>>
    decreases es.len(),
{
    if es.len() == 0 {
        None
    } else if es[0].0 == q {
        Some(es[0].1)
    } else {
        lookup_spec(es.drop_first(), q)
    }
}

/// True when the cache already holds an answer for `q`.
pub open spec fn contains_question(es: Seq<(Seq<char>, Seq<u8>)>, q: Seq<char>) -> bool {
    lookup_spec(es, q) is Some
}

/// The insert rule of the cache: the first writer for a question wins, a
/// later write for the same question is a no-op.
pub open spec fn record_spec(
    es: Seq<(Seq<char>, Seq<u8>)>,
    q: Seq<char>,
    img: Seq<u8>,
) -> Seq<(Seq<char>, Seq<u8>)> {
    if contains_question(es, q) {
        es
    } else {
        es.push((q, img))
    }
}

/// Looking up skips entries with other questions.
pub proof fn lemma_lookup_skip(es: Seq<(Seq<char>, Seq<u8>)>, q: Seq<char>, i: int)
    requires
        0 <= i <= es.len(),
        forall|j: int| 0 <= j < i ==> es[j].0 != q,
    ensures
        lookup_spec(es, q) == lookup_spec(es.skip(i), q),
    decreases i,
{
    if i > 0 {
        assert(es[0].0 != q);
        assert(es.drop_first() =~= es.skip(1));
        assert(lookup_spec(es, q) == lookup_spec(es.skip(1), q));
        assert(forall|j: int| 0 <= j < i - 1 ==> es.skip(1)[j] == es[j + 1]);
        assert(forall|j: int| 0 <= j < i - 1 ==> es.skip(1)[j].0 != q);
        lemma_lookup_skip(es.skip(1), q, i - 1);
        assert(es.skip(1).skip(i - 1) =~= es.skip(i));
    } else {
        assert(es.skip(0) =~= es);
    }
}

/// Looking up after appending an entry: an existing answer still wins, and a
/// fresh question finds the appended image.
pub proof fn lemma_lookup_push(es: Seq<(Seq<char>, Seq<u8>)>, p: (Seq<char>, Seq<u8>), q: Seq<char>)
    ensures
        lookup_spec(es.push(p), q) == if contains_question(es, q) {
            lookup_spec(es, q)
        } else if p.0 == q {
            Some(p.1)
        } else {
            None::<Seq<u8>>
        },
    decreases es.len(),
{
    if es.len() == 0 {
        assert(es.push(p)[0] == p);
        if p.0 != q {
            assert(es.push(p).drop_first() =~= Seq::<(Seq<char>, Seq<u8>)>::empty());
        }
    } else {
        assert(es.push(p).drop_first() =~= es.drop_first().push(p));
        lemma_lookup_push(es.drop_first(), p, q);
    }
}

/// The first writer wins: after a successful `record` of `a` for a fresh
/// question, a second `record` of any `b` for the same question changes
/// nothing, and the lookup still answers with `a`.
pub proof fn lemma_record_first_writer_wins(
    es: Seq<(Seq<char>, Seq<u8>)>,
    q: Seq<char>,
    a: Seq<u8>,
    b: Seq<u8>,
)
    requires
        !contains_question(es, q),
    ensures
        record_spec(record_spec(es, q, a), q, b) == record_spec(es, q, a),
        lookup_spec(record_spec(record_spec(es, q, a), q, b), q) == Some(a),
{
    lemma_lookup_push(es, (q, a), q);
}

/// One cache entry as stored bytes: the UTF-8 of the question and the raw
/// image bytes, each with a little-endian 64-bit length prefix.
pub open spec fn entry_bytes(e: (Seq<char>, Seq<u8>)) -> Seq<u8> {
    let kb = encode_utf8(e.0);
    spec_u64_to_le_bytes(kb.len() as u64) + kb + spec_u64_to_le_bytes(e.1.len() as u64) + e.1
}

/// The stored bytes of a sequence of entries.
pub open spec fn entries_bytes(es: Seq<(Seq<char>, Seq<u8>)>) -> Seq<u8>
    decreases es.len(),
{
    if es.len() == 0 {
        Seq::empty()
    } else {
        entry_bytes(es[0]) + entries_bytes(es.drop_first())
    }
}

/// The whole store: a little-endian 64-bit entry count, then the entries in
/// cache order.
pub open spec fn store_bytes(es: Seq<(Seq<char>, Seq<u8>)>) -> Seq<u8> {
    spec_u64_to_le_bytes(es.len() as u64) + entries_bytes(es)
}

/// The stored bytes grow at the tail when an entry is appended.
pub proof fn lemma_entries_bytes_push(es: Seq<(Seq<char>, Seq<u8>)>, e: (Seq<char>, Seq<u8>))
    ensures
        entries_bytes(es.push(e)) == entries_bytes(es) + entry_bytes(e),
    decreases es.len(),
{
    if es.len() == 0 {
        assert(es.push(e).drop_first() =~= Seq::<(Seq<char>, Seq<u8>)>::empty());
        assert(es.push(e)[0] == e);
        assert(entries_bytes(es) =~= Seq::<u8>::empty());
        assert(entries_bytes(es.push(e).drop_first()) =~= Seq::<u8>::empty());
        assert(entries_bytes(es.push(e)) =~= entries_bytes(es) + entry_bytes(e));
    } else {
        assert(es.push(e).drop_first() =~= es.drop_first().push(e));
        assert(es.push(e)[0] == es[0]);
        lemma_entries_bytes_push(es.drop_first(), e);
        assert(entries_bytes(es.push(e)) =~= entries_bytes(es) + entry_bytes(e));
    }
}

/// At most one entry per question.
pub open spec fn unique_questions(es: Seq<(Seq<char>, Seq<u8>)>) -> bool {
    forall|i: int, j: int| 0 <= i < j < es.len() ==> es[i].0 != es[j].0
}

/// The stored bytes split at any entry boundary.
pub proof fn lemma_entries_bytes_split(es: Seq<(Seq<char>, Seq<u8>)>, i: int)
    requires
        0 <= i <= es.len(),
    ensures
        entries_bytes(es) == entries_bytes(es.take(i)) + entries_bytes(es.skip(i)),
    decreases i,
{
    if i == 0 {
        assert(es.take(0) =~= Seq::<(Seq<char>, Seq<u8>)>::empty());
        assert(es.skip(0) =~= es);
        assert(entries_bytes(es.take(0)) =~= Seq::<u8>::empty());
        assert(entries_bytes(es) =~= entries_bytes(es.take(0)) + entries_bytes(es.skip(0)));
    } else {
        let d = es.drop_first();
        lemma_entries_bytes_split(d, i - 1);
        assert(es.take(i)[0] == es[0]);
        assert(es.take(i).drop_first() =~= d.take(i - 1));
        assert(es.skip(i) =~= d.skip(i - 1));
        assert(entries_bytes(es) =~= entries_bytes(es.take(i)) + entries_bytes(es.skip(i)));
    }
}

/// Every stored entry takes at least its two length prefixes.
pub proof fn lemma_entries_bytes_min_len(es: Seq<(Seq<char>, Seq<u8>)>)
    ensures
        entries_bytes(es).len() >= 16 * es.len(),
    decreases es.len(),
{
    vstd::bytes::lemma_auto_spec_u64_to_from_le_bytes();
    if es.len() > 0 {
        lemma_entries_bytes_min_len(es.drop_first());
    }
}

/// The durable mapping from CAPTCHA question text to the confirmed reference
/// answer image. Loaded once at start, written through on every insert.
pub struct AnswerCache {
    pub entries: Vec<(String, Vec<u8>)>,
}

impl View for AnswerCache {
    type V = Seq<(Seq<char>, Seq<u8>)>;

    open spec fn view(&self) -> Seq<(Seq<char>, Seq<u8>)> {
        self.entries@.map_values(|e: (String, Vec<u8>)| (e.0@, e.1@))
    }
}

impl AnswerCache {
    /// At most one entry per question.
    pub open spec fn wf(&self) -> bool {
        forall|i: int, j: int| 0 <= i < j < self@.len() ==> self@[i].0 != self@[j].0
    }

    /// Creates an empty cache.
    pub fn new() -> (r: AnswerCache)
        ensures
            r@ == Seq::<(Seq<char>, Seq<u8>)>::empty(),
            r.wf(),
    {
        let r = AnswerCache { entries: Vec::new() };
        proof {
            assert(r@ =~= Seq::<(Seq<char>, Seq<u8>)>::empty());
        }
        r
    }

    /// The number of stored answers.
    pub fn len(&self) -> (r: usize)
        ensures
            r == self@.len(),
    {
        self.entries.len()
    }

    /// Returns the stored reference image for `question`, if any.
    pub fn lookup(&self, question: &str) -> (r: Option<&Vec<u8>>)
        ensures
            match r {
                Some(img) => lookup_spec(self@, question@) == Some(img@),
                None => lookup_spec(self@, question@) is None,
            },
    {
        let mut i: usize = 0;
        while i < self.entries.len()
            invariant
                i <= self.entries.len(),
                forall|j: int| 0 <= j < i ==> self@[j].0 != question@,
            decreases self.entries.len() - i,
        {
            if str_eq(self.entries[i].0.as_str(), question) {
                proof {
                    lemma_lookup_skip(self@, question@, i as int);
                    assert(self@.skip(i as int)[0] == self@[i as int]);
                }
                return Some(&self.entries[i].1);
            }
            i = i + 1;
        }
        proof {
            lemma_lookup_skip(self@, question@, i as int);
            assert(self@.skip(i as int) =~= Seq::<(Seq<char>, Seq<u8>)>::empty());
        }
        None
    }

    /// Inserts an answer unless the question already has one: the first
    /// writer wins. Returns whether the entry was inserted.
    pub fn record(&mut self, question: String, image: Vec<u8>) -> (inserted: bool)
        requires
            old(self).wf(),
        ensures
            final(self)@ == record_spec(old(self)@, question@, image@),
            inserted == !contains_question(old(self)@, question@),
            final(self).wf(),
    {
        if self.lookup(question.as_str()).is_some() {
            return false;
        }
        let ghost es0 = self@;
        let ghost p = (question@, image@);
        self.entries.push((question, image));
        proof {
            assert(self@ =~= es0.push(p));
            assert forall|i: int, j: int| 0 <= i < j < self@.len() implies self@[i].0
                != self@[j].0 by {
                if j == es0.len() {
                    if self@[i].0 == p.0 {
                        assert(forall|m: int| 0 <= m < i ==> es0[m].0 != p.0);
                        lemma_lookup_skip(es0, p.0, i);
                        assert(es0.skip(i)[0] == es0[i]);
                    }
                }
            }
        }
        true
    }

    /// Encodes the cache for durable storage.
    pub fn encode(&self) -> (r: Vec<u8>)
        ensures
            r@ == store_bytes(self@),
    {
        let n = self.entries.len();
        let mut out = u64_to_le_bytes(n as u64);
        let mut i: usize = 0;
        proof {
            assert(entries_bytes(self@.take(0)) =~= Seq::<u8>::empty());
            assert(out@ =~= spec_u64_to_le_bytes(n as u64) + entries_bytes(self@.take(0)));
        }
        while i < n
            invariant
                i <= n,
                n == self.entries.len(),
                out@ == spec_u64_to_le_bytes(n as u64) + entries_bytes(self@.take(i as int)),
            decreases n - i,
        {
            let ghost pre = self@.take(i as int);
            let mut kb = self.entries[i].0.as_str().as_bytes_vec();
            let mut klb = u64_to_le_bytes(kb.len() as u64);
            let mut vb = slice_to_vec(self.entries[i].1.as_slice());
            let mut vlb = u64_to_le_bytes(vb.len() as u64);
            let ghost e = self@[i as int];
            proof {
                assert(kb@ == encode_utf8(e.0));
                assert(vb@ == e.1);
            }
            out.append(&mut klb);
            out.append(&mut kb);
            out.append(&mut vlb);
            out.append(&mut vb);
            proof {
                assert(self@.take(i + 1) =~= pre.push(e));
                lemma_entries_bytes_push(pre, e);
                assert(out@ =~= spec_u64_to_le_bytes(n as u64) + entries_bytes(self@.take(i + 1)));
            }
            i = i + 1;
        }
        proof {
            assert(self@.take(self.entries@.len() as int) =~= self@);
        }
        out
    }

    /// Decodes a durable store: the exact inverse of `encode`. It succeeds
    /// on precisely the encodings of key-unique entry sequences, and then
    /// returns exactly the encoded cache.
    #[verifier::rlimit(60)]
    pub fn decode(bytes: &[u8]) -> (r: Option<AnswerCache>)
        ensures
            match r {
                Some(c) => bytes@ == store_bytes(c@) && c.wf(),
                None => true,
            },
            (exists|es: Seq<(Seq<char>, Seq<u8>)>|
                unique_questions(es) && bytes@ == store_bytes(es)) ==> r is Some,
    {
        let ghost encoded = exists|es: Seq<(Seq<char>, Seq<u8>)>|
            unique_questions(es) && bytes@ == store_bytes(es);
        let ghost ges: Seq<(Seq<char>, Seq<u8>)> = if encoded {
            choose|es: Seq<(Seq<char>, Seq<u8>)>|
                unique_questions(es) && bytes@ == store_bytes(es)
        } else {
            Seq::empty()
        };
        let len = bytes.len();
        proof {
            if encoded {
                vstd::bytes::lemma_auto_spec_u64_to_from_le_bytes();
                lemma_entries_bytes_min_len(ges);
            }
        }
        if len < 8 {
            return None;
        }
        let n64 = u64_from_le_bytes(&bytes[0..8]);
        proof {
            vstd::bytes::lemma_auto_spec_u64_to_from_le_bytes();
            if encoded {
                assert(bytes@.subrange(0, 8) =~= spec_u64_to_le_bytes(ges.len() as u64));
                assert(n64 == ges.len() as u64);
            }
        }
        if n64 > len as u64 {
            return None;
        }
        let n = n64 as usize;
        let mut cache = AnswerCache::new();
        let mut off: usize = 8;
        let mut i: usize = 0;
        proof {
            assert(bytes@.subrange(0, 8) =~= spec_u64_to_le_bytes(n as u64));
            assert(entries_bytes(cache@) =~= Seq::<u8>::empty());
            assert(bytes@.subrange(0, 8) =~= spec_u64_to_le_bytes(n as u64) + entries_bytes(
                cache@,
            ));
            if encoded {
                assert(cache@ =~= ges.take(0));
            }
        }
        while i < n
            invariant
                i <= n,
                8 <= off <= len,
                len == bytes@.len(),
                cache@.len() == i,
                cache.wf(),
                bytes@.subrange(0, off as int) == spec_u64_to_le_bytes(n as u64) + entries_bytes(
                    cache@,
                ),
                encoded == exists|es: Seq<(Seq<char>, Seq<u8>)>|
                    unique_questions(es) && bytes@ == store_bytes(es),
                encoded ==> unique_questions(ges) && bytes@ == store_bytes(ges),
                encoded ==> n == ges.len(),
                encoded ==> cache@ == ges.take(i as int),
            decreases n - i,
        {
            let ghost es = cache@;
            let ghost off0 = off as int;
            let ghost kbg = encode_utf8(ges[i as int].0);
            let ghost vbg = ges[i as int].1;
            let ghost tail = entries_bytes(ges.skip(i as int));
            proof {
                if encoded {
                    vstd::bytes::lemma_auto_spec_u64_to_from_le_bytes();
                    lemma_entries_bytes_split(ges, i as int);
                    lemma_entries_bytes_min_len(ges.skip(i as int + 1));
                    assert(bytes@ =~= bytes@.subrange(0, off0) + bytes@.subrange(
                        off0,
                        len as int,
                    ));
                    assert(store_bytes(ges) =~= (spec_u64_to_le_bytes(n as u64) + entries_bytes(
                        ges.take(i as int),
                    )) + tail);
                    assert(bytes@.subrange(off0, len as int) =~= tail);
                    assert(ges.skip(i as int)[0] == ges[i as int]);
                    assert(ges.skip(i as int).drop_first() =~= ges.skip(i as int + 1));
                    assert(tail == entry_bytes(ges[i as int]) + entries_bytes(
                        ges.skip(i as int + 1),
                    ));
                    assert(tail.len() == 16 + kbg.len() + vbg.len() + entries_bytes(
                        ges.skip(i as int + 1),
                    ).len());
                    assert(bytes@.subrange(off0, off0 + 8) =~= spec_u64_to_le_bytes(
                        kbg.len() as u64,
                    ));
                }
            }
            if len - off < 8 {
                return None;
            }
            let kl64 = u64_from_le_bytes(&bytes[off..off + 8]);
            proof {
                vstd::bytes::lemma_auto_spec_u64_to_from_le_bytes();
                if encoded {
                    assert(kl64 == kbg.len() as u64);
                }
            }
            if kl64 > (len - (off + 8)) as u64 {
                return None;
            }
            let klen = kl64 as usize;
            let kb = slice_to_vec(&bytes[off + 8..off + 8 + klen]);
            proof {
                if encoded {
                    assert(kb@ =~= kbg);
                    vstd::utf8::encode_utf8_valid_utf8(ges[i as int].0);
                    vstd::utf8::encode_utf8_decode_utf8(ges[i as int].0);
                }
            }
            let key = match string_from_utf8(kb) {
                Some(s) => s,
                None => {
                    return None;
                },
            };
            let koff = off + 8 + klen;
            proof {
                if encoded {
                    assert(bytes@.subrange(koff as int, koff as int + 8) =~= spec_u64_to_le_bytes(
                        vbg.len() as u64,
                    ));
                }
            }
            if len - koff < 8 {
                return None;
            }
            let vl64 = u64_from_le_bytes(&bytes[koff..koff + 8]);
            proof {
                vstd::bytes::lemma_auto_spec_u64_to_from_le_bytes();
                if encoded {
                    assert(vl64 == vbg.len() as u64);
                }
            }
            if vl64 > (len - (koff + 8)) as u64 {
                return None;
            }
            let vlen = vl64 as usize;
            let vb = slice_to_vec(&bytes[koff + 8..koff + 8 + vlen]);
            proof {
                if encoded {
                    assert(vb@ =~= vbg);
                    assert((key@, vb@) == ges[i as int]);
                    assert forall|j: int| 0 <= j < cache@.len() implies cache@[j].0 != key@ by {
                        assert(cache@[j] == ges[j]);
                    }
                    lemma_lookup_skip(cache@, key@, i as int);
                    assert(cache@.skip(i as int) =~= Seq::<(Seq<char>, Seq<u8>)>::empty());
                }
            }
            if cache.lookup(key.as_str()).is_some() {
                return None;
            }
            let ghost e = (key@, vb@);
            cache.record(key, vb);
            off = koff + 8 + vlen;
            proof {
                decode_utf8_encode_utf8(bytes@.subrange(off0 + 8, off0 + 8 + klen as int));
                assert(encode_utf8(e.0) == bytes@.subrange(off0 + 8, off0 + 8 + klen as int));
                assert(cache@ =~= es.push(e));
                lemma_entries_bytes_push(es, e);
                vstd::bytes::lemma_auto_spec_u64_to_from_le_bytes();
                assert(spec_u64_to_le_bytes(klen as u64) =~= bytes@.subrange(off0, off0 + 8));
                assert(spec_u64_to_le_bytes(vlen as u64) =~= bytes@.subrange(
                    off0 + 8 + klen as int,
                    off0 + 16 + klen as int,
                ));
                assert(e.1 =~= bytes@.subrange(off0 + 16 + klen as int, off as int));
                assert(entry_bytes(e) =~= bytes@.subrange(off0, off as int));
                assert(bytes@.subrange(0, off as int) =~= bytes@.subrange(0, off0)
                    + bytes@.subrange(off0, off as int));
                assert(bytes@.subrange(0, off as int) =~= spec_u64_to_le_bytes(n as u64)
                    + entries_bytes(cache@));
                if encoded {
                    assert(cache@ =~= ges.take(i as int + 1));
                }
            }
            i = i + 1;
        }
        proof {
            if encoded {
                assert(cache@ =~= ges);
                assert(bytes@.subrange(0, off as int) =~= bytes@);
            }
        }
        if off != len {
            return None;
        }
        proof {
            assert(bytes@.subrange(0, len as int) =~= bytes@);
        }
        Some(cache)
    }
}

} // verus!
