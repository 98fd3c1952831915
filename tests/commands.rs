use tts_app::commands::{audio_data_url, greet};

#[test]
fn greet_names_the_caller() {
    assert_eq!(greet("Ana"), "Hello, Ana! You've been greeted from Rust!");
    assert_eq!(greet(""), "Hello, ! You've been greeted from Rust!");
}

#[test]
fn data_url_wraps_payload() {
    assert_eq!(audio_data_url(&[0x4D, 0x61, 0x6E]), "data:audio/wav;base64,TWFu");
    assert_eq!(audio_data_url(&[0x4D]), "data:audio/wav;base64,TQ==");
}

#[test]
fn data_url_of_empty_audio() {
    assert_eq!(audio_data_url(&[]), "data:audio/wav;base64,");
}

#[test]
fn data_url_of_wav_header() {
    assert_eq!(audio_data_url(b"RIFF"), "data:audio/wav;base64,UklGRg==");
}
