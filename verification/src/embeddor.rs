//! What is sent to the summary and embedding services: the summary prompt,
//! the authorization header, and images encoded as Base64 text.

use vstd::prelude::*;

verus! {

/// The instruction placed before a file's content when asking for its
/// summary.
pub const SUMMARY_CONTEXT: &'static str = "
    Please provide a summary of 3 paragraphs or 
    less for the following content, focusing on 
    whats being represented as well as the context of 
    relevance with file format. If you're not sure,
    just don't mention uncertainty:";

/// The prompt that asks for a summary of `content`: the instruction, a blank
/// line, then the content.
pub fn summary_prompt(content: &str) -> (res: String)
    ensures
        res@ == SUMMARY_CONTEXT@ + "\n\n"@ + content@,
{
    String::from_str(SUMMARY_CONTEXT).concat("\n\n").concat(content)
}

/// The `Authorization` header for an API key.
pub fn auth_header(api_key: &str) -> (res: String)
    ensures
        res@ == "Bearer "@ + api_key@,
{
    String::from_str("Bearer ").concat(api_key)
}

/// The char of the standard Base64 alphabet (`A-Z a-z 0-9 + /`) for a
/// six-bit value.
pub open spec fn base64_digit(v: int) -> char {
    if v < 26 {
        (65 + v) as char
    } else if v < 52 {
        (97 + v - 26) as char
    } else if v < 62 {
        (48 + v - 52) as char
    } else if v == 62 {
        '+'
    } else {
        '/'
    }
}

/// The standard Base64 text of a sequence of bytes (RFC 4648): each group
/// of three bytes becomes four chars of six bits each, and a last group of
/// one or two bytes is padded with `=` to four chars.
pub open spec fn base64_standard(data: Seq<u8>) -> Seq<char>
    decreases data.len(),
{
    if data.len() == 0 {
        Seq::empty()
    } else if data.len() == 1 {
        let a = data[0] as int;
        seq![base64_digit(a / 4), base64_digit((a % 4) * 16), '=', '=']
    } else if data.len() == 2 {
        let a = data[0] as int;
        let b = data[1] as int;
        seq![base64_digit(a / 4), base64_digit((a % 4) * 16 + b / 16), base64_digit((b % 16) * 4), '=']
    } else {
        let a = data[0] as int;
        let b = data[1] as int;
        let c = data[2] as int;
        seq![
            base64_digit(a / 4),
            base64_digit((a % 4) * 16 + b / 16),
            base64_digit((b % 16) * 4 + c / 64),
            base64_digit(c % 64),
        ] + base64_standard(data.skip(3))
    }
}

/// The length of padded Base64 text for `n` bytes: four chars for every
/// started group of three bytes.
pub open spec fn base64_len(n: nat) -> nat {
    ((n + 2) / 3 * 4) as nat
}

/// The Base64 text of `n` bytes is `base64_len(n)` chars long.
pub proof fn lemma_base64_len(data: Seq<u8>)
    ensures
        base64_standard(data).len() == base64_len(data.len()),
    decreases data.len(),
{
    if data.len() >= 3 {
        lemma_base64_len(data.skip(3));
    }
}

/// Encodes bytes with `base64::encode`, the standard alphabet with padding.
///
/// The contract claims that the result is the standard Base64 text of the
/// bytes. `encode` panics when the length of that text overflows `usize`
/// (`base64::encoded_len` returns `None`), which `requires` rules out.
#[verifier::external_body]
fn base64_encode(data: &[u8]) -> (res: String)
    requires
        base64_len(data@.len()) <= usize::MAX,
    ensures
        res@ == base64_standard(data@),
{
    #[allow(deprecated)]
    base64::encode(data)
}

/// An image's bytes as the Base64 text that is sent for embedding.
pub fn encode_image(image_data: &[u8]) -> (res: String)
    requires
        base64_len(image_data@.len()) <= usize::MAX,
    ensures
        res@ == base64_standard(image_data@),
        res@.len() == base64_len(image_data@.len()),
{
    proof {
        lemma_base64_len(image_data@);
    }
    base64_encode(image_data)
}

/// A candidate of the summary service's reply: the `text` of each of its
/// content's parts, where it is a string.
pub struct SummaryCandidate {
    pub parts: Vec<Option<String>>,
}

/// The reply of the summary service, as far as the summary is read from
/// it: its candidates (none when `candidates` is not a list), each with its
/// parts (none when `content.parts` is not a list).
pub struct SummaryReply {
    pub candidates: Vec<SummaryCandidate>,
}

/// The reply holds no summary text where it is looked for.
#[derive(PartialEq, Eq, Structural, Debug, Clone, Copy)]
pub enum SummaryError {
    MissingText,
}

impl SummaryError {
    /// The error reported for a reply without summary text.
    pub fn message(&self) -> (res: &'static str)
        ensures
            res@ == "Failed to get summary text"@,
    {
        "Failed to get summary text"
    }
}

/// The summary in a reply: the text of the first part of the first
/// candidate.
pub open spec fn summary_text_spec(reply: Seq<Seq<Option<Seq<char>>>>) -> Option<Seq<char>> {
    if reply.len() > 0 && reply[0].len() > 0 {
        reply[0][0]
    } else {
        None
    }
}

/// The reply as the contracts see it: the texts of the parts, candidate by
/// candidate.
pub open spec fn reply_view(reply: &SummaryReply) -> Seq<Seq<Option<Seq<char>>>> {
    reply.candidates@.map_values(
        |c: SummaryCandidate|
            c.parts@.map_values(
                |t: Option<String>|
                    match t {
                        Some(s) => Some(s@),
                        None => None,
                    },
            ),
    )
}

/// Reads the summary from the service's reply: the text of the first part
/// of the first candidate, or an error when there is none.
pub fn summary_text(reply: &SummaryReply) -> (res: Result<String, SummaryError>)
    ensures
        match summary_text_spec(reply_view(reply)) {
            Some(t) => res matches Ok(s) && s@ == t,
            None => res == Err::<String, SummaryError>(SummaryError::MissingText),
        },
{
    if reply.candidates.len() == 0 {
        return Err(SummaryError::MissingText);
    }
    let first = &reply.candidates[0];
    if first.parts.len() == 0 {
        return Err(SummaryError::MissingText);
    }
    assert(reply_view(reply)[0] == first.parts@.map_values(
        |t: Option<String>|
            match t {
                Some(s) => Some(s@),
                None => None,
            },
    ));
    match &first.parts[0] {
        Some(text) => Ok(text.clone()),
        None => Err(SummaryError::MissingText),
    }
}

} // verus!
