//! Link extraction from an unlocked payload, and ordering of resolved links
//! by host priority: descending, stable on ties in discovery order.

use vstd::prelude::*;

use crate::host::{host_of, link_priority, priority_spec};
use crate::text::{find_sub_from, first_sub_at, lemma_first_sub_props};

verus! {

/// A playable link tagged with the priority of its host.
pub struct ResolvedLink {
    pub url: String,
    pub host_priority: u32,
}

impl View for ResolvedLink {
    type V = (Seq<char>, u32);

    open spec fn view(&self) -> (Seq<char>, u32) {
        (self.url@, self.host_priority)
    }
}

/// A link tagged with its host's table priority.
pub open spec fn tag_spec(u: Seq<char>) -> (Seq<char>, u32) {
    (u, priority_spec(host_of(u)) as u32)
}

/// Inserts `x` behind every element whose priority is at least as high:
/// the insertion that keeps a descending order stable.
pub open spec fn insert_ordered(x: (Seq<char>, u32), s: Seq<(Seq<char>, u32)>) -> Seq<
    (Seq<char>, u32),
>
    decreases s.len(),
{
    if s.len() == 0 {
        seq![x]
    } else if x.1 > s[0].1 {
        seq![x] + s
    } else {
        seq![s[0]] + insert_ordered(x, s.drop_first())
    }
}

/// Sorts by priority, descending, stable in the original order: each element
/// is inserted behind its equals, in discovery order.
pub open spec fn sort_by_priority(s: Seq<(Seq<char>, u32)>) -> Seq<(Seq<char>, u32)>
    decreases s.len(),
{
    if s.len() == 0 {
        Seq::empty()
    } else {
        insert_ordered(s.last(), sort_by_priority(s.drop_last()))
    }
}

/// Priorities never increase along the sequence.
pub open spec fn sorted_desc(s: Seq<(Seq<char>, u32)>) -> bool {
    forall|i: int, j: int| 0 <= i < j < s.len() ==> s[i].1 >= s[j].1
}

/// Stable insertion keeps a descending order.
pub proof fn lemma_insert_ordered_sorted(x: (Seq<char>, u32), s: Seq<(Seq<char>, u32)>)
    requires
        sorted_desc(s),
    ensures
        sorted_desc(insert_ordered(x, s)),
    decreases s.len(),
{
    if s.len() == 0 {
    } else if x.1 > s[0].1 {
        let out = seq![x] + s;
        assert forall|i: int, j: int| 0 <= i < j < out.len() implies out[i].1 >= out[j].1 by {
            if i > 0 {
                assert(out[i] == s[i - 1] && out[j] == s[j - 1]);
            } else {
                assert(out[j] == s[j - 1]);
            }
        }
    } else {
        let rest = s.drop_first();
        assert(sorted_desc(rest)) by {
            assert(forall|i: int| 0 <= i < rest.len() ==> rest[i] == s[i + 1]);
        }
        lemma_insert_ordered_sorted(x, rest);
        let ins = insert_ordered(x, rest);
        let out = seq![s[0]] + ins;
        assert forall|i: int, j: int| 0 <= i < j < out.len() implies out[i].1 >= out[j].1 by {
            if i == 0 {
                assert(out[j] == ins[j - 1]);
                lemma_insert_ordered_head(x, rest, j - 1);
            } else {
                assert(out[i] == ins[i - 1] && out[j] == ins[j - 1]);
            }
        }
    }
}

/// Every element of an insertion is the inserted element or one of the old
/// ones.
proof fn lemma_insert_ordered_head(x: (Seq<char>, u32), s: Seq<(Seq<char>, u32)>, i: int)
    requires
        0 <= i < insert_ordered(x, s).len(),
    ensures
        insert_ordered(x, s)[i] == x || exists|j: int|
            0 <= j < s.len() && s[j] == insert_ordered(x, s)[i],
    decreases s.len(),
{
    if s.len() == 0 {
    } else if x.1 > s[0].1 {
        if i > 0 {
            assert(s[i - 1] == insert_ordered(x, s)[i]);
        }
    } else {
        if i > 0 {
            lemma_insert_ordered_head(x, s.drop_first(), i - 1);
            let ins = insert_ordered(x, s.drop_first());
            assert(insert_ordered(x, s)[i] == ins[i - 1]);
            if ins[i - 1] != x {
                let j = choose|j: int|
                    0 <= j < s.drop_first().len() && s.drop_first()[j] == ins[i - 1];
                assert(s[j + 1] == ins[i - 1]);
            }
        }
    }
}

/// The stable priority sort always yields a descending sequence.
pub proof fn lemma_sort_by_priority_sorted(s: Seq<(Seq<char>, u32)>)
    ensures
        sorted_desc(sort_by_priority(s)),
    decreases s.len(),
{
    if s.len() > 0 {
        lemma_sort_by_priority_sorted(s.drop_last());
        lemma_insert_ordered_sorted(s.last(), sort_by_priority(s.drop_last()));
    }
}

/// Inserting at the boundary scanned by the loop matches `insert_ordered`.
proof fn lemma_insert_ordered_at(x: (Seq<char>, u32), s: Seq<(Seq<char>, u32)>, j: int)
    requires
        0 <= j <= s.len(),
        forall|k: int| 0 <= k < j ==> s[k].1 >= x.1,
        j < s.len() ==> s[j].1 < x.1,
    ensures
        insert_ordered(x, s) == s.take(j) + seq![x] + s.skip(j),
    decreases s.len(),
{
    if j == 0 {
        if s.len() == 0 {
            assert(insert_ordered(x, s) =~= s.take(0) + seq![x] + s.skip(0));
        } else {
            assert(x.1 > s[0].1);
            assert(insert_ordered(x, s) =~= s.take(0) + seq![x] + s.skip(0));
        }
    } else {
        assert(s[0].1 >= x.1);
        let rest = s.drop_first();
        assert(forall|k: int| 0 <= k < j - 1 ==> rest[k] == s[k + 1]);
        assert(j - 1 < rest.len() ==> rest[j - 1] == s[j]);
        lemma_insert_ordered_at(x, rest, j - 1);
        assert(insert_ordered(x, s) == seq![s[0]] + insert_ordered(x, rest));
        assert(insert_ordered(x, s) =~= s.take(j) + seq![x] + s.skip(j));
    }
}

/// Tags every link with its host priority and sorts the result descending by
/// priority, stable on ties in the original discovery order.
pub fn order_links(urls: &Vec<String>) -> (r: Vec<ResolvedLink>)
    ensures
        r@.map_values(|l: ResolvedLink| l@) == sort_by_priority(
            urls@.map_values(|u: String| tag_spec(u@)),
        ),
{
    let ghost tagged = urls@.map_values(|u: String| tag_spec(u@));
    let mut out: Vec<ResolvedLink> = Vec::new();
    let mut i: usize = 0;
    proof {
        assert(tagged.take(0) =~= Seq::<(Seq<char>, u32)>::empty());
        assert(out@.map_values(|l: ResolvedLink| l@) =~= sort_by_priority(tagged.take(0)));
    }
    while i < urls.len()
        invariant
            i <= urls.len(),
            tagged == urls@.map_values(|u: String| tag_spec(u@)),
            out@.map_values(|l: ResolvedLink| l@) == sort_by_priority(tagged.take(i as int)),
        decreases urls.len() - i,
    {
        let url = urls[i].clone();
        let p = link_priority(url.as_str());
        let link = ResolvedLink { url, host_priority: p };
        let ghost x = tagged[i as int];
        let ghost dev = out@.map_values(|l: ResolvedLink| l@);
        proof {
            assert(link@ == x);
        }
        let mut j: usize = 0;
        while j < out.len() && out[j].host_priority >= p
            invariant
                j <= out.len(),
                forall|k: int| 0 <= k < j ==> out@[k].host_priority >= p,
            decreases out.len() - j,
        {
            j = j + 1;
        }
        let ghost jj = j as int;
        proof {
            assert forall|k: int| 0 <= k < jj implies dev[k].1 >= x.1 by {
                assert(dev[k] == out@[k]@);
            }
            if jj < dev.len() {
                assert(dev[jj] == out@[jj]@);
            }
        }
        out.insert(j, link);
        proof {
            lemma_insert_ordered_at(x, dev, jj);
            assert(out@.map_values(|l: ResolvedLink| l@) =~= dev.take(jj) + seq![x] + dev.skip(
                jj,
            ));
            assert(tagged.take(i + 1).drop_last() =~= tagged.take(i as int));
            assert(tagged.take(i + 1).last() == x);
            assert(out@.map_values(|l: ResolvedLink| l@) == sort_by_priority(tagged.take(i + 1)));
        }
        i = i + 1;
    }
    proof {
        assert(tagged.take(urls@.len() as int) =~= tagged);
    }
    out
}

/// The characters of the opening of the direct-link pattern.
pub open spec fn direct_open() -> Seq<char> {
    seq!['<', 'b', 'u', 't', 't', 'o', 'n', ' ', 'h', 'r', 'e', 'f', '=', '\'']
}

/// The characters of the closing of the direct-link pattern.
pub open spec fn direct_close() -> Seq<char> {
    seq!['\'', ' ', 'd', 'a', 't', 'a', '-', 's', 'r', 'c']
}

/// The characters of the opening of the indirect-link pattern.
pub open spec fn alt_open() -> Seq<char> {
    seq!['<', 'b', 'u', 't', 't', 'o', 'n', ' ', 'd', 'a', 't', 'a', '-', 's', 'r', 'c', '=', '\'']
}

/// The characters of the closing of the indirect-link pattern.
pub open spec fn alt_close() -> Seq<char> {
    seq!['\'', ' ', 'c', 'l', 'a', 's', 's']
}

/// The direct link of a payload: the non-empty text between the first
/// `<button href='` and the nearest following `' data-src`.
pub open spec fn direct_link_of(s: Seq<char>) -> Option<Seq<char>> {
    match first_sub_at(s, direct_open(), 0) {
        None => None,
        Some(i) => match first_sub_at(s, direct_close(), i + 14) {
            None => None,
            Some(e) => if e > i + 14 {
                Some(s.subrange(i + 14, e))
            } else {
                None
            },
        },
    }
}

/// Extracts the direct link of a payload, if one is offered.
pub fn extract_direct(payload: &str) -> (r: Option<String>)
    ensures
        match r {
            Some(u) => direct_link_of(payload@) == Some(u@),
            None => direct_link_of(payload@) is None,
        },
{
    proof {
        reveal_strlit("<button href='");
        reveal_strlit("' data-src");
        assert("<button href='"@ =~= direct_open());
        assert("' data-src"@ =~= direct_close());
    }
    let len = payload.unicode_len();
    match find_sub_from(payload, "<button href='", 0) {
        None => None,
        Some(i) => {
            proof {
                lemma_first_sub_props(payload@, direct_open(), 0);
            }
            match find_sub_from(payload, "' data-src", i + 14) {
                None => None,
                Some(e) => {
                    proof {
                        lemma_first_sub_props(payload@, direct_close(), i as int + 14);
                    }
                    if e > i + 14 {
                        Some(payload.substring_char(i + 14, e).to_owned())
                    } else {
                        None
                    }
                },
            }
        },
    }
}

/// The opaque hashes of the indirect-link pattern, scanned left to right:
/// each is the `<`-free text between a `<button data-src='` and the nearest
/// following `' class`; a span containing `<` is skipped.
pub open spec fn hashes_from(s: Seq<char>, from: int) -> Seq<Seq<char>>
    decreases s.len() - from
        when 0 <= from <= s.len()
        via hashes_from_decreases
{
    match first_sub_at(s, alt_open(), from) {
        None => Seq::empty(),
        Some(i) => match first_sub_at(s, alt_close(), i + 18) {
            None => Seq::empty(),
            Some(e) => {
                let cap = s.subrange(i + 18, e);
                if forall|k: int| 0 <= k < cap.len() ==> cap[k] != '<' {
                    seq![cap] + hashes_from(s, e + 7)
                } else {
                    hashes_from(s, i + 1)
                }
            },
        },
    }
}

#[via_fn]
proof fn hashes_from_decreases(s: Seq<char>, from: int) {
    lemma_first_sub_props(s, alt_open(), from);
    match first_sub_at(s, alt_open(), from) {
        Some(i) => {
            lemma_first_sub_props(s, alt_close(), i + 18);
        },
        None => {},
    }
}

/// Tests that a span of the payload is free of `<`.
fn span_clean(s: &str, lo: usize, hi: usize) -> (r: bool)
    requires
        lo <= hi <= s@.len(),
    ensures
        r == forall|k: int| lo <= k < hi ==> s@[k] != '<',
{
    let mut k = lo;
    while k < hi
        invariant
            lo <= k <= hi <= s@.len(),
            forall|m: int| lo <= m < k ==> s@[m] != '<',
        decreases hi - k,
    {
        if s.get_char(k) == '<' {
            return false;
        }
        k = k + 1;
    }
    true
}

/// Extracts every indirect-link hash of a payload, in discovery order.
pub fn extract_hashes(payload: &str) -> (r: Vec<String>)
    ensures
        r.deep_view() == hashes_from(payload@, 0),
{
    proof {
        reveal_strlit("<button data-src='");
        reveal_strlit("' class");
        assert("<button data-src='"@ =~= alt_open());
        assert("' class"@ =~= alt_close());
    }
    let len = payload.unicode_len();
    let mut acc: Vec<String> = Vec::new();
    let mut cur: usize = 0;
    proof {
        assert(acc.deep_view() =~= Seq::<Seq<char>>::empty());
    }
    loop
        invariant
            cur <= len,
            len == payload@.len(),
            "<button data-src='"@ == alt_open(),
            "' class"@ == alt_close(),
            hashes_from(payload@, 0) == acc.deep_view() + hashes_from(payload@, cur as int),
        ensures
            hashes_from(payload@, 0) == acc.deep_view(),
        decreases len - cur,
    {
        let ghost dev = acc.deep_view();
        match find_sub_from(payload, "<button data-src='", cur) {
            None => {
                proof {
                    assert(hashes_from(payload@, cur as int) =~= Seq::<Seq<char>>::empty());
                    assert(acc.deep_view() + hashes_from(payload@, cur as int) =~= acc.deep_view());
                }
                break;
            },
            Some(i) => {
                proof {
                    lemma_first_sub_props(payload@, alt_open(), cur as int);
                }
                match find_sub_from(payload, "' class", i + 18) {
                    None => {
                        proof {
                            assert(hashes_from(payload@, cur as int) =~= Seq::<Seq<char>>::empty());
                            assert(acc.deep_view() + hashes_from(payload@, cur as int)
                                =~= acc.deep_view());
                        }
                        break;
                    },
                    Some(e) => {
                        proof {
                            lemma_first_sub_props(payload@, alt_close(), i as int + 18);
                        }
                        let ghost cap = payload@.subrange(i as int + 18, e as int);
                        if span_clean(payload, i + 18, e) {
                            proof {
                                assert forall|k: int| 0 <= k < cap.len() implies cap[k]
                                    != '<' by {
                                    assert(cap[k] == payload@[i + 18 + k]);
                                }
                            }
                            let h = payload.substring_char(i + 18, e).to_owned();
                            acc.push(h);
                            proof {
                                assert(acc.deep_view() =~= dev.push(cap));
                                assert(hashes_from(payload@, cur as int) == seq![cap]
                                    + hashes_from(payload@, e as int + 7));
                                assert(dev + (seq![cap] + hashes_from(payload@, e as int + 7))
                                    =~= dev.push(cap) + hashes_from(payload@, e as int + 7));
                            }
                            cur = e + 7;
                        } else {
                            proof {
                                let k = choose|k: int|
                                    i + 18 <= k < e && payload@[k] == '<';
                                assert(cap[k - (i + 18)] == '<');
                                assert(!(forall|kk: int|
                                    0 <= kk < cap.len() ==> cap[kk] != '<'));
                            }
                            cur = i + 1;
                        }
                    },
                }
            },
        }
    }
    acc
}

} // verus!
