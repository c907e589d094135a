//! What a request must look like before anything is spoken: the arguments
//! of its query string and the limits on them.

use vstd::prelude::*;
use vstd::utf8::{encode_utf8, is_ascii_chars};

verus! {

/// The most bytes that a text or a voice name may have.
pub const MAX_SIZE: usize = 512;

/// The voice used where a request names none.
pub const DEFAULT_VOICE: &'static str = "en";

/// The name of the argument that holds the text to speak.
pub const TEXT_ARGUMENT: &'static str = "text";

/// The name of the argument that holds the voice to speak in.
pub const VOICE_ARGUMENT: &'static str = "voice";

/// Why a request is turned away.
#[derive(Clone, Copy, Debug, PartialEq, Eq, Structural)]
pub enum RequestError {
    /// The query holds an argument other than the text and the voice.
    UnknownArgument,
    /// The query holds no text.
    MissingText,
    /// The text has more than `MAX_SIZE` bytes.
    TextTooLong,
    /// The text holds a zero byte.
    TextHasNul,
    /// The voice has more than `MAX_SIZE` bytes.
    VoiceTooLong,
    /// The voice holds a character outside ASCII.
    VoiceNotAscii,
}

impl RequestError {
    /// The sentence sent back to whoever made the request.
    pub fn message(&self) -> (text: &'static str)
        ensures
            text@ == match self {
                RequestError::UnknownArgument => "Unknown query argument"@,
                RequestError::MissingText => "No text= query parameter"@,
                RequestError::TextTooLong => "Text is too long."@,
                RequestError::TextHasNul => "Text cannot contain special characters."@,
                RequestError::VoiceTooLong => "Voice is too long."@,
                RequestError::VoiceNotAscii => "Voice must be ASCII only."@,
            },
    {
        match self {
            RequestError::UnknownArgument => "Unknown query argument",
            RequestError::MissingText => "No text= query parameter",
            RequestError::TextTooLong => "Text is too long.",
            RequestError::TextHasNul => "Text cannot contain special characters.",
            RequestError::VoiceTooLong => "Voice is too long.",
            RequestError::VoiceNotAscii => "Voice must be ASCII only.",
        }
    }
}

/// A request that may be spoken.
#[derive(Debug, PartialEq, Eq)]
pub struct SpeakRequest {
    /// The text to speak.
    pub text: String,
    /// The voice to speak it in.
    pub voice: String,
}

/// The arguments of a query, as names and values in the order they came.
pub type Arguments = Seq<(Seq<char>, Seq<char>)>;

/// The arguments that a vector of pairs holds.
pub open spec fn arguments_of(pairs: Seq<(String, String)>) -> Arguments {
    Seq::new(pairs.len(), |i: int| (pairs[i].0@, pairs[i].1@))
}

/// Whether some argument is neither the text nor the voice.
pub open spec fn has_unknown_argument(arguments: Arguments) -> bool {
    exists|i: int|
        0 <= i < arguments.len() && #[trigger] arguments[i].0 != TEXT_ARGUMENT@ && arguments[i].0
            != VOICE_ARGUMENT@
}

/// The value of the last argument called `name`, if there is one.
pub open spec fn last_value(arguments: Arguments, name: Seq<char>) -> Option<Seq<char>>
    decreases arguments.len(),
{
    if arguments.len() == 0 {
        None
    } else if arguments.last().0 == name {
        Some(arguments.last().1)
    } else {
        last_value(arguments.drop_last(), name)
    }
}

/// The first limit that a text and a voice break, if they break one.
pub open spec fn broken_limit(text: Seq<char>, voice: Seq<char>) -> Option<RequestError> {
    if encode_utf8(text).len() > MAX_SIZE {
        Some(RequestError::TextTooLong)
    } else if encode_utf8(text).contains(0u8) {
        Some(RequestError::TextHasNul)
    } else if encode_utf8(voice).len() > MAX_SIZE {
        Some(RequestError::VoiceTooLong)
    } else if !is_ascii_chars(voice) {
        Some(RequestError::VoiceNotAscii)
    } else {
        None
    }
}

/// The text and the voice that a query's arguments ask for, or why they are
/// turned away. Later arguments override earlier ones of the same name,
/// and a query without a voice asks for the default voice.
pub open spec fn request_of(arguments: Arguments) -> Result<(Seq<char>, Seq<char>), RequestError> {
    if has_unknown_argument(arguments) {
        Err(RequestError::UnknownArgument)
    } else {
        match last_value(arguments, TEXT_ARGUMENT@) {
            None => Err(RequestError::MissingText),
            Some(text) => {
                let voice = match last_value(arguments, VOICE_ARGUMENT@) {
                    Some(voice) => voice,
                    None => DEFAULT_VOICE@,
                };
                match broken_limit(text, voice) {
                    Some(error) => Err(error),
                    None => Ok((text, voice)),
                }
            },
        }
    }
}

/// Whether an outcome is the one that `expected` describes.
pub open spec fn is_outcome(
    outcome: Result<SpeakRequest, RequestError>,
    expected: Result<(Seq<char>, Seq<char>), RequestError>,
) -> bool {
    match (outcome, expected) {
        (Ok(request), Ok((text, voice))) => request.text@ == text && request.voice@ == voice,
        (Err(error), Err(expected)) => error == expected,
        _ => false,
    }
}

/// Whether `bytes` holds a zero byte.
pub fn has_nul(bytes: &[u8]) -> (found: bool)
    ensures
        found == bytes@.contains(0u8),
{
    let mut i: usize = 0;
    while i < bytes.len()
        invariant
            i <= bytes.len(),
            forall|k: int| 0 <= k < i ==> bytes@[k] != 0u8,
        decreases bytes.len() - i,
    {
        if bytes[i] == 0 {
            return true;
        }
        i = i + 1;
    }
    false
}

/// Holds a text and a voice against the limits.
pub fn check_limits(text: &str, voice: &str) -> (broken: Option<RequestError>)
    ensures
        broken == broken_limit(text@, voice@),
{
    if text.as_bytes().len() > MAX_SIZE {
        Some(RequestError::TextTooLong)
    } else if has_nul(text.as_bytes()) {
        Some(RequestError::TextHasNul)
    } else if voice.as_bytes().len() > MAX_SIZE {
        Some(RequestError::VoiceTooLong)
    } else if !voice.is_ascii() {
        Some(RequestError::VoiceNotAscii)
    } else {
        None
    }
}

/// The two argument names differ.
proof fn lemma_names_differ()
    ensures
        TEXT_ARGUMENT@ != VOICE_ARGUMENT@,
{
    reveal_strlit("text");
    reveal_strlit("voice");
    assert(TEXT_ARGUMENT@.len() == 4);
    assert(VOICE_ARGUMENT@.len() == 5);
}

/// Picks the text and the voice out of the arguments of a query and holds
/// them against the limits.
pub fn select_arguments(pairs: &Vec<(String, String)>) -> (outcome: Result<
    SpeakRequest,
    RequestError,
>)
    ensures
        is_outcome(outcome, request_of(arguments_of(pairs@))),
{
    let text_name = TEXT_ARGUMENT.to_owned();
    let voice_name = VOICE_ARGUMENT.to_owned();
    let ghost arguments = arguments_of(pairs@);
    let mut text_at: Option<usize> = None;
    let mut voice_at: Option<usize> = None;
    let mut i: usize = 0;
    proof {
        lemma_names_differ();
    }
    while i < pairs.len()
        invariant
            arguments == arguments_of(pairs@),
            text_name@ == TEXT_ARGUMENT@,
            voice_name@ == VOICE_ARGUMENT@,
            TEXT_ARGUMENT@ != VOICE_ARGUMENT@,
            i <= pairs.len(),
            forall|k: int|
                0 <= k < i ==> #[trigger] arguments[k].0 == TEXT_ARGUMENT@ || arguments[k].0
                    == VOICE_ARGUMENT@,
            match text_at {
                Some(at) => at < i && last_value(arguments.take(i as int), TEXT_ARGUMENT@) == Some(
                    arguments[at as int].1,
                ),
                None => last_value(arguments.take(i as int), TEXT_ARGUMENT@).is_none(),
            },
            match voice_at {
                Some(at) => at < i && last_value(arguments.take(i as int), VOICE_ARGUMENT@) == Some(
                    arguments[at as int].1,
                ),
                None => last_value(arguments.take(i as int), VOICE_ARGUMENT@).is_none(),
            },
        decreases pairs.len() - i,
    {
        proof {
            let before = arguments.take(i as int);
            let after = arguments.take(i + 1);
            assert(after.drop_last() =~= before);
            assert(after.last() == arguments[i as int]);
        }
        if pairs[i].0 == text_name {
            text_at = Some(i);
        } else if pairs[i].0 == voice_name {
            voice_at = Some(i);
        } else {
            assert(has_unknown_argument(arguments)) by {
                assert(arguments[i as int].0 != TEXT_ARGUMENT@);
            }
            return Err(RequestError::UnknownArgument);
        }
        i = i + 1;
    }
    assert(arguments.take(i as int) =~= arguments);
    let text: String = match text_at {
        Some(at) => pairs[at].1.clone(),
        None => {
            return Err(RequestError::MissingText);
        },
    };
    let voice: String = match voice_at {
        Some(at) => pairs[at].1.clone(),
        None => DEFAULT_VOICE.to_owned(),
    };
    match check_limits(text.as_str(), voice.as_str()) {
        Some(error) => Err(error),
        None => Ok(SpeakRequest { text, voice }),
    }
}

/// What `form_urlencoded::parse` makes of a query: its arguments, with
/// their names and values decoded, in the order they stand in the query.
pub uninterp spec fn form_arguments(query: Seq<char>) -> Seq<(Seq<char>, Seq<char>)>;

/// Calls `form_urlencoded::parse` on the bytes of `query` and gathers what
/// it yields. Believed, not proved: the pairs are a function of the query
/// alone, and an empty query yields none.
#[verifier::external_body]
fn query_arguments(query: &str) -> (pairs: Vec<(String, String)>)
    ensures
        arguments_of(pairs@) == form_arguments(query@),
        query@.len() == 0 ==> pairs@.len() == 0,
{
    form_urlencoded::parse(query.as_bytes()).into_owned().collect()
}

/// Reads the request out of a query string.
pub fn parse_request(query: &str) -> (outcome: Result<SpeakRequest, RequestError>)
    ensures
        is_outcome(outcome, request_of(form_arguments(query@))),
        query@.len() == 0 ==> outcome == Err::<SpeakRequest, RequestError>(
            RequestError::MissingText,
        ),
{
    let pairs = query_arguments(query);
    let outcome = select_arguments(&pairs);
    proof {
        if query@.len() == 0 {
            assert(arguments_of(pairs@) =~= Seq::<(Seq<char>, Seq<char>)>::empty());
        }
    }
    outcome
}

} // verus!
