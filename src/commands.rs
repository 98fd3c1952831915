//! The values that the application's commands hand back to the front end.
use vstd::prelude::*;

use crate::base64::{base64_encode, encode};

verus! {

/// The greeting for `name`.
pub open spec fn greeting(name: Seq<char>) -> Seq<char> {
    "Hello, "@ + name + "! You've been greeted from Rust!"@
}

/// A `data:` URL that carries WAV audio as base64 text.
pub open spec fn wav_data_url(audio: Seq<u8>) -> Seq<char> {
    "data:audio/wav;base64,"@ + encode(audio)
}

/// Greets `name`.
pub fn greet(name: &str) -> (r: String)
    ensures
        r@ == greeting(name@),
{
    let mut s = "Hello, ".to_owned();
    s.append(name);
    s.append("! You've been greeted from Rust!");
    s
}

/// Wraps synthesized WAV bytes in a `data:audio/wav;base64,` URL.
pub fn audio_data_url(audio: &[u8]) -> (r: String)
    ensures
        r@ == wav_data_url(audio@),
{
    let mut s = "data:audio/wav;base64,".to_owned();
    let payload = base64_encode(audio);
    s.append(payload.as_str());
    s
}

} // verus!
