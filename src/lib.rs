//! Backend logic of a small text-to-speech desktop application: the greeting
//! command and the base64 data URL that carries synthesized audio.
pub mod base64;
pub mod commands;
