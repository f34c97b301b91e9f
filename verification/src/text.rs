//! Character-level text utilities: exact search, equality, numeric parsing
//! and string building, with full functional contracts.

use vstd::prelude::*;

verus! {

/// Appends one character to a string.
/// Relies on String::push, which appends the given char to the end of the string.
pub assume_specification[ String::push ](s: &mut String, c: char)
    ensures
        final(s)@ == old(s)@.push(c),
;

/// Converts UTF-8 bytes into a string.
/// Relies on String::from_utf8: it accepts exactly the valid UTF-8 byte
/// sequences and keeps the bytes unchanged.
#[verifier::external_body]
pub fn string_from_utf8(v: Vec<u8>) -> (r: Option<String>)
    ensures
        r is Some <==> vstd::utf8::valid_utf8(v@),
        r is Some ==> r->0@ == vstd::utf8::decode_utf8(v@),
{
    String::from_utf8(v).ok()
}

/// The view of an optional string.
pub open spec fn opt_text_view(o: Option<String>) -> Option<Seq<char>> {
    match o {
        Some(b) => Some(b@),
        None => None,
    }
}

/// First index `i >= from` with `s[i] == c`, if any.
pub open spec fn first_char_at(s: Seq<char>, c: char, from: int) -> Option<int>
    decreases s.len() - from when 0 <= from <= s.len()
{
    if from < 0 || from >= s.len() {
        None
    } else if s[from] == c {
        Some(from)
    } else {
        first_char_at(s, c, from + 1)
    }
}

/// Scanning over characters that are not `c` does not change the first hit.
pub proof fn lemma_first_char_skip(s: Seq<char>, c: char, from: int, upto: int)
    requires
        0 <= from <= upto <= s.len(),
        forall|j: int| from <= j < upto ==> s[j] != c,
    ensures
        first_char_at(s, c, from) == first_char_at(s, c, upto),
    decreases upto - from,
{
    if from < upto {
        lemma_first_char_skip(s, c, from + 1, upto);
    }
}

/// Properties of the first hit.
pub proof fn lemma_first_char_props(s: Seq<char>, c: char, from: int)
    requires
        0 <= from <= s.len(),
    ensures
        match first_char_at(s, c, from) {
            Some(i) => from <= i < s.len() && s[i] == c && forall|j: int|
                from <= j < i ==> s[j] != c,
            None => forall|j: int| from <= j < s.len() ==> s[j] != c,
        },
    decreases s.len() - from,
{
    if from < s.len() && s[from] != c {
        lemma_first_char_props(s, c, from + 1);
    }
}

/// Finds the first occurrence of the character `c` in `s` at or after `from`.
pub fn find_char_from(s: &str, c: char, from: usize) -> (r: Option<usize>)
    requires
        from <= s@.len(),
    ensures
        match r {
            Some(i) => first_char_at(s@, c, from as int) == Some(i as int),
            None => first_char_at(s@, c, from as int) is None,
        },
{
    let len = s.unicode_len();
    let mut i = from;
    while i < len
        invariant
            from <= i <= len,
            len == s@.len(),
            from <= s@.len(),
            forall|j: int| from <= j < i ==> s@[j] != c,
        decreases len - i,
    {
        if s.get_char(i) == c {
            proof {
                lemma_first_char_skip(s@, c, from as int, i as int);
            }
            return Some(i);
        }
        i = i + 1;
    }
    proof {
        lemma_first_char_skip(s@, c, from as int, len as int);
    }
    None
}

/// Last index `i < upto` with `s[i] == c`, if any.
pub open spec fn last_char_before(s: Seq<char>, c: char, upto: int) -> Option<int>
    decreases upto when 0 <= upto <= s.len()
{
    if upto <= 0 || upto > s.len() {
        None
    } else if s[upto - 1] == c {
        Some(upto - 1)
    } else {
        last_char_before(s, c, upto - 1)
    }
}

/// Properties of the last hit.
pub proof fn lemma_last_char_props(s: Seq<char>, c: char, upto: int)
    requires
        0 <= upto <= s.len(),
    ensures
        match last_char_before(s, c, upto) {
            Some(i) => 0 <= i < upto && s[i] == c && forall|j: int| i < j < upto ==> s[j] != c,
            None => forall|j: int| 0 <= j < upto ==> s[j] != c,
        },
    decreases upto,
{
    if upto > 0 && s[upto - 1] != c {
        lemma_last_char_props(s, c, upto - 1);
    }
}

/// Finds the last occurrence of the character `c` in `s` before index `upto`.
pub fn rfind_char_before(s: &str, c: char, upto: usize) -> (r: Option<usize>)
    requires
        upto <= s@.len(),
    ensures
        match r {
            Some(i) => last_char_before(s@, c, upto as int) == Some(i as int),
            None => last_char_before(s@, c, upto as int) is None,
        },
{
    let mut i = upto;
    while i > 0
        invariant
            i <= upto <= s@.len(),
            forall|j: int| i <= j < upto ==> s@[j] != c,
        decreases i,
    {
        i = i - 1;
        if s.get_char(i) == c {
            proof {
                lemma_last_skip(s@, c, i as int + 1, upto as int);
            }
            return Some(i);
        }
    }
    proof {
        lemma_last_skip(s@, c, 0, upto as int);
    }
    None
}

/// Scanning back over characters that are not `c` does not change the last hit.
proof fn lemma_last_skip(s: Seq<char>, c: char, lo: int, upto: int)
    requires
        0 <= lo <= upto <= s.len(),
        forall|j: int| lo <= j < upto ==> s[j] != c,
    ensures
        last_char_before(s, c, upto) == last_char_before(s, c, lo),
    decreases upto - lo,
{
    if lo < upto {
        lemma_last_skip(s, c, lo, upto - 1);
    }
}

/// True when `pat` occurs in `s` starting exactly at index `i`.
pub open spec fn occurs_at(s: Seq<char>, pat: Seq<char>, i: int) -> bool {
    0 <= i && i + pat.len() <= s.len() && forall|k: int|
        0 <= k < pat.len() ==> s[i + k] == pat[k]
}

/// Tests whether `pat` occurs in `s` at index `i`.
pub fn match_at(s: &str, pat: &str, i: usize) -> (r: bool)
    requires
        i <= s@.len(),
    ensures
        r == occurs_at(s@, pat@, i as int),
{
    let slen = s.unicode_len();
    let plen = pat.unicode_len();
    if plen > slen - i {
        return false;
    }
    let mut k: usize = 0;
    while k < plen
        invariant
            k <= plen,
            plen == pat@.len(),
            slen == s@.len(),
            i + plen <= slen,
            forall|j: int| 0 <= j < k ==> s@[i + j] == pat@[j],
        decreases plen - k,
    {
        if s.get_char(i + k) != pat.get_char(k) {
            return false;
        }
        k = k + 1;
    }
    true
}

/// First index `i >= from` where `pat` occurs in `s`, if any.
pub open spec fn first_sub_at(s: Seq<char>, pat: Seq<char>, from: int) -> Option<int>
    decreases s.len() - from when 0 <= from <= s.len()
{
    if from < 0 || from > s.len() {
        None
    } else if occurs_at(s, pat, from) {
        Some(from)
    } else if from >= s.len() {
        None
    } else {
        first_sub_at(s, pat, from + 1)
    }
}

/// Scanning over positions without an occurrence does not change the first one.
pub proof fn lemma_first_sub_skip(s: Seq<char>, pat: Seq<char>, from: int, upto: int)
    requires
        0 <= from <= upto <= s.len(),
        forall|j: int| from <= j < upto ==> !occurs_at(s, pat, j),
    ensures
        first_sub_at(s, pat, from) == first_sub_at(s, pat, upto),
    decreases upto - from,
{
    if from < upto {
        lemma_first_sub_skip(s, pat, from + 1, upto);
    }
}

/// Properties of the first occurrence.
pub proof fn lemma_first_sub_props(s: Seq<char>, pat: Seq<char>, from: int)
    requires
        0 <= from <= s.len(),
    ensures
        match first_sub_at(s, pat, from) {
            Some(i) => from <= i && occurs_at(s, pat, i) && forall|j: int|
                from <= j < i ==> !occurs_at(s, pat, j),
            None => forall|j: int| from <= j ==> !occurs_at(s, pat, j),
        },
    decreases s.len() - from,
{
    if !occurs_at(s, pat, from) && from < s.len() {
        lemma_first_sub_props(s, pat, from + 1);
    }
}

/// Finds the first occurrence of `pat` in `s` at or after `from`.
pub fn find_sub_from(s: &str, pat: &str, from: usize) -> (r: Option<usize>)
    requires
        from <= s@.len(),
    ensures
        match r {
            Some(i) => first_sub_at(s@, pat@, from as int) == Some(i as int),
            None => first_sub_at(s@, pat@, from as int) is None,
        },
{
    let len = s.unicode_len();
    let mut i = from;
    while i < len
        invariant
            from <= i,
            i <= len,
            len == s@.len(),
            forall|j: int| from <= j < i ==> !occurs_at(s@, pat@, j),
        decreases len - i,
    {
        if match_at(s, pat, i) {
            proof {
                lemma_first_sub_skip(s@, pat@, from as int, i as int);
            }
            return Some(i);
        }
        i = i + 1;
    }
    if match_at(s, pat, len) {
        proof {
            lemma_first_sub_skip(s@, pat@, from as int, len as int);
        }
        return Some(len);
    }
    proof {
        lemma_first_sub_skip(s@, pat@, from as int, len as int);
    }
    None
}

/// True when `pat` occurs somewhere in `s`.
pub open spec fn contains_sub(s: Seq<char>, pat: Seq<char>) -> bool {
    first_sub_at(s, pat, 0) is Some
}

/// Tests whether `pat` occurs somewhere in `s`.
pub fn has_sub(s: &str, pat: &str) -> (r: bool)
    ensures
        r == contains_sub(s@, pat@),
{
    find_sub_from(s, pat, 0).is_some()
}

/// Decimal value of an ASCII digit character.
pub open spec fn digit_value(c: char) -> int {
    c as int - '0' as int
}

/// True when `c` is an ASCII decimal digit.
pub open spec fn is_digit(c: char) -> bool {
    '0' <= c && c <= '9'
}

/// True when every character of `s` is an ASCII decimal digit.
pub open spec fn all_digits(s: Seq<char>) -> bool {
    forall|i: int| 0 <= i < s.len() ==> is_digit(s[i])
}

/// The integer a digit string denotes in base ten.
pub open spec fn dec_value(s: Seq<char>) -> int
    decreases s.len(),
{
    if s.len() == 0 {
        0
    } else {
        dec_value(s.drop_last()) * 10 + digit_value(s.last())
    }
}

/// A digit string denotes a non-negative number.
pub proof fn lemma_dec_value_nonneg(s: Seq<char>)
    requires
        all_digits(s),
    ensures
        dec_value(s) >= 0,
    decreases s.len(),
{
    if s.len() > 0 {
        assert(all_digits(s.drop_last())) by {
            assert(forall|i: int| 0 <= i < s.len() - 1 ==> s.drop_last()[i] == s[i]);
        }
        lemma_dec_value_nonneg(s.drop_last());
    }
}

/// A digit string denotes at least as much as any of its prefixes.
pub proof fn lemma_dec_value_prefix_le(s: Seq<char>, k: int)
    requires
        all_digits(s),
        0 <= k <= s.len(),
    ensures
        dec_value(s.take(k)) <= dec_value(s),
    decreases s.len(),
{
    if k < s.len() {
        let d = s.drop_last();
        assert(all_digits(d)) by {
            assert(forall|i: int| 0 <= i < d.len() ==> d[i] == s[i]);
        }
        assert(s.take(k) =~= d.take(k));
        lemma_dec_value_prefix_le(d, k);
        lemma_dec_value_nonneg(d);
    } else {
        assert(s.take(k) =~= s);
    }
}

/// Ten to the `n`th power.
pub open spec fn pow10(n: nat) -> int
    decreases n,
{
    if n == 0 {
        1
    } else {
        10 * pow10((n - 1) as nat)
    }
}

/// A digit string's value is below ten to its length.
pub proof fn lemma_dec_value_bound(s: Seq<char>)
    requires
        all_digits(s),
    ensures
        0 <= dec_value(s) < pow10(s.len()),
    decreases s.len(),
{
    if s.len() > 0 {
        let d = s.drop_last();
        assert(all_digits(d)) by {
            assert(forall|i: int| 0 <= i < d.len() ==> d[i] == s[i]);
        }
        lemma_dec_value_bound(d);
        assert(pow10(s.len()) == 10 * pow10(d.len()));
    }
}

/// A string of `0` digits denotes zero.
pub proof fn lemma_dec_value_zeros(s: Seq<char>)
    requires
        forall|i: int| 0 <= i < s.len() ==> s[i] == '0',
    ensures
        dec_value(s) == 0,
    decreases s.len(),
{
    if s.len() > 0 {
        let d = s.drop_last();
        assert(forall|i: int| 0 <= i < d.len() ==> d[i] == '0');
        lemma_dec_value_zeros(d);
    }
}

/// The number a string denotes when read the way `u32` is parsed from decimal
/// text: an optional leading plus sign, then one or more digits, the whole
/// value fitting in 32 bits. `None` when the string has any other shape.
pub open spec fn parse_u32_spec(s: Seq<char>) -> Option<int> {
    let t = if s.len() > 0 && s[0] == '+' {
        s.drop_first()
    } else {
        s
    };
    if t.len() > 0 && all_digits(t) && dec_value(t) <= u32::MAX {
        Some(dec_value(t))
    } else {
        None
    }
}

/// Parses a `u32` from decimal text: an optional leading plus sign, then one
/// or more digits; rejects any other shape and values that overflow 32 bits.
pub fn parse_u32(s: &str) -> (r: Option<u32>)
    ensures
        match r {
            Some(v) => parse_u32_spec(s@) == Some(v as int),
            None => parse_u32_spec(s@) is None,
        },
{
    let len = s.unicode_len();
    let b: usize = if len > 0 && s.get_char(0) == '+' {
        1
    } else {
        0
    };
    let ghost t = if s@.len() > 0 && s@[0] == '+' {
        s@.drop_first()
    } else {
        s@
    };
    proof {
        assert(t =~= s@.subrange(b as int, len as int));
    }
    if b >= len {
        return None;
    }
    let mut i = b;
    let mut val: u32 = 0;
    while i < len
        invariant
            b <= i <= len,
            len == s@.len(),
            b <= 1,
            t == (if s@.len() > 0 && s@[0] == '+' {
                s@.drop_first()
            } else {
                s@
            }),
            b == 1 <==> s@.len() > 0 && s@[0] == '+',
            t =~= s@.subrange(b as int, len as int),
            all_digits(s@.subrange(b as int, i as int)),
            val == dec_value(s@.subrange(b as int, i as int)),
        decreases len - i,
    {
        let c = s.get_char(i);
        let ghost pre = s@.subrange(b as int, i as int);
        let ghost ext = s@.subrange(b as int, i as int + 1);
        proof {
            assert(ext.drop_last() =~= pre);
        }
        if c < '0' || c > '9' {
            proof {
                assert(!all_digits(t)) by {
                    assert(t[i - b] == c);
                }
            }
            return None;
        }
        let d: u32 = (c as u32) - ('0' as u32);
        let wide: u64 = (val as u64) * 10 + (d as u64);
        proof {
            assert(dec_value(ext) == dec_value(pre) * 10 + digit_value(s@[i as int]));
        }
        if wide > u32::MAX as u64 {
            proof {
                if all_digits(t) {
                    lemma_dec_value_prefix_le(t, i + 1 - b);
                    assert(t.take(i + 1 - b) =~= ext);
                }
            }
            return None;
        }
        val = wide as u32;
        i = i + 1;
    }
    proof {
        assert(s@.subrange(b as int, len as int) =~= t);
    }
    Some(val)
}

/// A string is accepted as an episode count exactly when it parses as `u32`.
pub fn is_number(test: String) -> (r: Result<(), String>)
    ensures
        r is Ok <==> parse_u32_spec(test@) is Some,
{
    match parse_u32(test.as_str()) {
        Some(_) => Ok(()),
        None => Err("expected a non-negative number fitting 32 bits".to_owned()),
    }
}

/// An episode range: either one number, or two numbers separated by a single
/// comma.
pub open spec fn range_ok(s: Seq<char>) -> bool {
    match first_char_at(s, ',', 0) {
        None => parse_u32_spec(s) is Some,
        Some(p) => {
            &&& first_char_at(s, ',', p + 1) is None
            &&& parse_u32_spec(s.subrange(0, p)) is Some
            &&& parse_u32_spec(s.subrange(p + 1, s.len() as int)) is Some
        },
    }
}

/// A string is accepted as an episode range exactly when it is one number or
/// two numbers separated by a single comma.
pub fn is_range(test: String) -> (r: Result<(), String>)
    ensures
        r is Ok <==> range_ok(test@),
{
    let s = test.as_str();
    let len = s.unicode_len();
    match find_char_from(s, ',', 0) {
        None => is_number(test),
        Some(p) => {
            proof {
                lemma_first_char_props(s@, ',', 0);
            }
            if find_char_from(s, ',', p + 1).is_some() {
                return Err("more than 2 numbers were entered".to_owned());
            }
            let first = s.substring_char(0, p);
            let second = s.substring_char(p + 1, len);
            if parse_u32(first).is_none() || parse_u32(second).is_none() {
                return Err("expected a non-negative number fitting 32 bits".to_owned());
            }
            Ok(())
        },
    }
}

/// Compares two string slices character by character.
pub fn str_eq(a: &str, b: &str) -> (r: bool)
    ensures
        r == (a@ == b@),
{
    let la = a.unicode_len();
    let lb = b.unicode_len();
    if la != lb {
        return false;
    }
    let mut i: usize = 0;
    while i < la
        invariant
            i <= la,
            la == a@.len(),
            la == b@.len(),
            forall|j: int| 0 <= j < i ==> a@[j] == b@[j],
        decreases la - i,
    {
        if a.get_char(i) != b.get_char(i) {
            return false;
        }
        i = i + 1;
    }
    proof {
        assert(a@ =~= b@);
    }
    true
}

} // verus!
