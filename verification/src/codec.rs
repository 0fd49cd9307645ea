//! The encodings a session can use. JSON is the one of the handshake, and the
//! only one in protocol version 1; others negotiate through the handshake.

use crate::strings::append;
use crate::strings::same;
use vstd::prelude::*;

verus! {

#[derive(Debug, Clone, Copy, PartialEq, Eq, Structural)]
pub enum Codec {
    Json,
}

/// The name a codec goes by in a handshake.
pub open spec fn codec_name(codec: Codec) -> Seq<char> {
    match codec {
        Codec::Json => "json"@,
    }
}

/// The codec that goes by `name`, if there is one.
pub open spec fn codec_named(name: Seq<char>) -> Option<Codec> {
    if name == "json"@ {
        Some(Codec::Json)
    } else {
        None
    }
}

/// A codec is found again by its name, and nothing else is found by it.
pub proof fn law_names_tell_codecs_apart(codec: Codec, name: Seq<char>)
    ensures
        codec_named(name) == Some(codec) <==> name == codec_name(codec),
{
}

impl Codec {
    pub const HANDSHAKE: Codec = Codec::Json;

    pub fn name(self) -> (name: &'static str)
        ensures
            name@ == codec_name(self),
    {
        match self {
            Self::Json => "json",
        }
    }

    pub fn from_name(name: &str) -> (codec: Option<Self>)
        ensures
            codec == codec_named(name@),
    {
        if same(name, "json") {
            Some(Self::Json)
        } else {
            None
        }
    }
}

/// Why bytes could not be decoded, or a message not encoded.
#[derive(Debug, Clone, PartialEq, Eq)]
pub struct CodecError(pub String);

impl CodecError {
    /// The error in words.
    pub fn message(&self) -> (text: String)
        ensures
            text@ == "codec error: "@ + self.0@,
    {
        let mut text: String = "codec error: ".to_owned();
        append(&mut text, self.0.as_str());
        text
    }
}

} // verus!
