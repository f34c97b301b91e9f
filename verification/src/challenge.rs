//! The CAPTCHA challenge: its model, the parse of the challenge-issuing
//! endpoint's response, the question-prompt extraction rule, and the
//! verdict sentinel of the verification endpoint.

use vstd::prelude::*;

use crate::error::Error;
use crate::text::{last_char_before, lemma_last_char_props, match_at, occurs_at, opt_text_view,
    rfind_char_before};

verus! {

/// One single-use CAPTCHA instance: burned by any submission.
#[derive(Clone, Debug)]
pub struct Captcha {
    pub session: String,
    pub id_prefix: String,
    pub question: String,
    pub images: Vec<String>,
}

impl Captcha {
    /// Assembles a challenge from its parsed fields.
    pub fn new(session: String, id_prefix: String, question: String, images: Vec<String>) -> (r:
        Captcha)
        ensures
            r.session@ == session@,
            r.id_prefix@ == id_prefix@,
            r.question@ == question@,
            r.images == images,
    {
        Captcha { session, id_prefix, question, images }
    }
}

/// The first index at or after `i` that is not a space.
pub open spec fn skip_spaces(s: Seq<char>, i: int) -> int
    decreases s.len() - i when 0 <= i <= s.len()
{
    if i < s.len() && s[i] == ' ' {
        skip_spaces(s, i + 1)
    } else {
        i
    }
}

/// Skipping spaces from anywhere within a run of spaces ends at the same
/// place.
pub proof fn lemma_skip_spaces_run(s: Seq<char>, i: int, j: int)
    requires
        0 <= i <= j <= s.len(),
        forall|k: int| i <= k < j ==> s[k] == ' ',
    ensures
        skip_spaces(s, i) == skip_spaces(s, j),
    decreases j - i,
{
    if i < j {
        lemma_skip_spaces_run(s, i + 1, j);
    }
}

/// Where skipping spaces lands: on the first non-space, past only spaces.
pub proof fn lemma_skip_spaces_props(s: Seq<char>, i: int)
    requires
        0 <= i <= s.len(),
    ensures
        i <= skip_spaces(s, i) <= s.len(),
        skip_spaces(s, i) < s.len() ==> s[skip_spaces(s, i)] != ' ',
        forall|k: int| i <= k < skip_spaces(s, i) ==> s[k] == ' ',
    decreases s.len() - i,
{
    if i < s.len() && s[i] == ' ' {
        lemma_skip_spaces_props(s, i + 1);
    }
}

/// The human-readable prompt of a raw question: the text after the last
/// colon (and any spaces that follow it), up to and excluding the trailing
/// period. A question without a trailing period has no prompt.
pub open spec fn prompt_of(s: Seq<char>) -> Option<Seq<char>> {
    if s.len() == 0 || s.last() != '.' {
        None
    } else {
        let start = match last_char_before(s, ':', s.len() - 1) {
            None => 0,
            Some(i) => i + 1,
        };
        Some(s.subrange(skip_spaces(s, start), s.len() - 1))
    }
}

/// Extracts the prompt of a raw question: everything after the last colon,
/// spaces trimmed, up to and excluding the mandatory trailing period.
pub fn extract_prompt(question: &str) -> (r: Result<String, Error>)
    ensures
        match r {
            Ok(p) => prompt_of(question@) == Some(p@),
            Err(e) => prompt_of(question@) is None && e is Protocol,
        },
{
    let len = question.unicode_len();
    if len == 0 || question.get_char(len - 1) != '.' {
        return Err(Error::Protocol("question text does not end in a period".to_owned()));
    }
    let start = match rfind_char_before(question, ':', len - 1) {
        None => 0,
        Some(i) => {
            proof {
                lemma_last_char_props(question@, ':', len as int - 1);
            }
            i + 1
        },
    };
    let mut b = start;
    while b < len - 1 && question.get_char(b) == ' '
        invariant
            start <= b <= len,
            b <= len - 1,
            len == question@.len(),
            len >= 1,
            forall|k: int| start <= k < b ==> question@[k] == ' ',
        decreases len - b,
    {
        b = b + 1;
    }
    proof {
        lemma_skip_spaces_run(question@, start as int, b as int);
        lemma_skip_spaces_props(question@, b as int);
        if b < len - 1 {
            assert(skip_spaces(question@, b as int) == b);
        } else {
            assert(question@[len - 1] == '.');
            assert(skip_spaces(question@, b as int) == b);
        }
    }
    Ok(question.substring_char(b, len - 1).to_owned())
}

/// The rejection sentinel of the verification endpoint.
pub open spec fn false_lit() -> Seq<char> {
    seq!['F', 'A', 'L', 'S', 'E']
}

/// A verification response body means rejection exactly when it starts with
/// the sentinel `FALSE`; any other body is the unlocked payload.
pub open spec fn rejected_spec(s: Seq<char>) -> bool {
    occurs_at(s, false_lit(), 0)
}

/// Classifies a verification response body: rejected, or accepted with the
/// body as the unlocked payload.
pub fn is_rejected(body: &str) -> (r: bool)
    ensures
        r == rejected_spec(body@),
{
    proof {
        reveal_strlit("FALSE");
        assert("FALSE"@ =~= false_lit());
    }
    match_at(body, "FALSE", 0)
}

/// What the string field `key` of the JSON object in `body` holds: `None`
/// when the body is not a JSON object, the field is absent, or it is not a
/// string. A pure function of the text.
pub uninterp spec fn json_str_field(body: Seq<char>, key: Seq<char>) -> Option<Seq<char>>;

/// What the string-array field `key` of the JSON object in `body` holds, in
/// array order: `None` when the body is not a JSON object, the field is
/// absent, it is not an array, or any element is not a string. A pure
/// function of the text.
pub uninterp spec fn json_str_array_field(body: Seq<char>, key: Seq<char>) -> Option<
    Seq<Seq<char>>,
>;

/// Reads one string field of a JSON object.
/// Relies on serde_json::from_str and Value::{get, as_str}: parsing and the
/// field lookup are deterministic in the text, fail rather than panic, and
/// `as_str` answers exactly for JSON strings.
#[verifier::external_body]
fn json_field_str(body: &str, key: &str) -> (r: Option<String>)
    ensures
        opt_text_view(r) == json_str_field(body@, key@),
{
    let v: serde_json::Value = serde_json::from_str(body).ok()?;
    Some(v.get(key)?.as_str()?.to_owned())
}

/// Reads one string-array field of a JSON object.
/// Relies on serde_json::from_str and Value::{get, as_array, as_str}: the
/// array's elements are handed out in order, each converted to its text.
#[verifier::external_body]
fn json_field_str_array(body: &str, key: &str) -> (r: Option<Vec<String>>)
    ensures
        match r {
            Some(v) => json_str_array_field(body@, key@) == Some(v.deep_view()),
            None => json_str_array_field(body@, key@) is None,
        },
{
    let v: serde_json::Value = serde_json::from_str(body).ok()?;
    let arr = v.get(key)?.as_array()?;
    arr.iter().map(|e| e.as_str().map(String::from)).collect()
}

/// A challenge response is well-formed: the session, id-prefix and question
/// fields are strings, the answers field is a non-empty string array, and
/// the question has the prompt shape.
pub open spec fn challenge_ok(body: Seq<char>) -> bool {
    &&& (json_str_array_field(body, "answers"@) matches Some(answers) && answers.len() >= 1)
    &&& json_str_field(body, "session"@) is Some
    &&& json_str_field(body, "id_prefix"@) is Some
    &&& (json_str_field(body, "question_i"@) matches Some(q) && prompt_of(q) is Some)
}

/// Parses the challenge-issuing endpoint's JSON response. Succeeds exactly
/// when the response is well-formed; then the session token, the id prefix
/// and the candidate list equal the response's fields, in order, and the
/// question is the prompt extracted from the raw question field. Fails with
/// a protocol error naming the offending field.
pub fn parse_challenge(body: &str) -> (r: Result<Captcha, Error>)
    ensures
        r is Ok <==> challenge_ok(body@),
        r is Ok ==> {
            let c = r->Ok_0;
            &&& Some(c.session@) == json_str_field(body@, "session"@)
            &&& Some(c.id_prefix@) == json_str_field(body@, "id_prefix"@)
            &&& Some(c.images.deep_view()) == json_str_array_field(body@, "answers"@)
            &&& (json_str_field(body@, "question_i"@) matches Some(q) && prompt_of(q) == Some(
                c.question@,
            ))
        },
        r is Err ==> r->Err_0 is Protocol,
{
    let images = match json_field_str_array(body, "answers") {
        Some(a) => a,
        None => {
            return Err(
                Error::Protocol("challenge response: no answers string array".to_owned()),
            );
        },
    };
    if images.len() == 0 {
        return Err(Error::Protocol("challenge response: empty answers array".to_owned()));
    }
    let session = match json_field_str(body, "session") {
        Some(s) => s,
        None => {
            return Err(Error::Protocol("challenge response: no session string".to_owned()));
        },
    };
    let id_prefix = match json_field_str(body, "id_prefix") {
        Some(s) => s,
        None => {
            return Err(Error::Protocol("challenge response: no id_prefix string".to_owned()));
        },
    };
    let raw_question = match json_field_str(body, "question_i") {
        Some(s) => s,
        None => {
            return Err(Error::Protocol("challenge response: no question_i string".to_owned()));
        },
    };
    let question = match extract_prompt(raw_question.as_str()) {
        Ok(q) => q,
        Err(e) => {
            return Err(e);
        },
    };
    Ok(Captcha::new(session, id_prefix, question, images))
}

} // verus!
