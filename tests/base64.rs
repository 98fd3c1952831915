use tts_app::base64::base64_encode;

const ALPHABET: &str = "ABCDEFGHIJKLMNOPQRSTUVWXYZabcdefghijklmnopqrstuvwxyz0123456789+/";

fn decode_text(s: &str) -> Vec<u8> {
    let mut out = Vec::new();
    let chars: Vec<char> = s.chars().collect();
    assert_eq!(chars.len() % 4, 0);
    for q in chars.chunks(4) {
        let mut n: u32 = 0;
        for &c in q {
            let v = if c == '=' { 0 } else { ALPHABET.find(c).unwrap() as u32 };
            n = n * 64 + v;
        }
        out.push((n >> 16) as u8);
        if q[2] != '=' {
            out.push((n >> 8) as u8);
        }
        if q[3] != '=' {
            out.push(n as u8);
        }
    }
    out
}

fn sample(n: usize) -> Vec<u8> {
    (0..n).map(|i| (i * 37 + 11) as u8).collect()
}

#[test]
fn encode_empty_is_empty() {
    assert_eq!(base64_encode(&[]), "");
}

#[test]
fn encode_full_group() {
    assert_eq!(base64_encode(&[0x4D, 0x61, 0x6E]), "TWFu");
}

#[test]
fn encode_two_bytes_one_pad() {
    assert_eq!(base64_encode(&[0x4D, 0x61]), "TWE=");
}

#[test]
fn encode_one_byte_two_pads() {
    assert_eq!(base64_encode(&[0x4D]), "TQ==");
}

#[test]
fn encode_rfc_vectors() {
    assert_eq!(base64_encode(b"f"), "Zg==");
    assert_eq!(base64_encode(b"fo"), "Zm8=");
    assert_eq!(base64_encode(b"foo"), "Zm9v");
    assert_eq!(base64_encode(b"foob"), "Zm9vYg==");
    assert_eq!(base64_encode(b"fooba"), "Zm9vYmE=");
    assert_eq!(base64_encode(b"foobar"), "Zm9vYmFy");
}

#[test]
fn encode_uses_last_symbols() {
    assert_eq!(base64_encode(&[0xFB, 0xFF, 0xBF]), "+/+/");
    assert_eq!(base64_encode(&[0xFF, 0xFF, 0xFF]), "////");
    assert_eq!(base64_encode(&[0x00, 0x00, 0x00]), "AAAA");
}

#[test]
fn encode_length_is_four_per_started_group() {
    for n in 0..50usize {
        assert_eq!(base64_encode(&sample(n)).len(), 4 * ((n + 2) / 3));
    }
}

#[test]
fn encode_output_alphabet() {
    let all: Vec<u8> = (0..=255u8).collect();
    for n in 0..10usize {
        let mut data = all.clone();
        data.truncate(250 + n % 6);
        let text = base64_encode(&data);
        assert!(text.chars().all(|c| ALPHABET.contains(c) || c == '='));
    }
}

#[test]
fn encode_round_trip() {
    for n in 0..64usize {
        let data = sample(n);
        assert_eq!(decode_text(&base64_encode(&data)), data);
    }
    let all: Vec<u8> = (0..=255u8).collect();
    assert_eq!(decode_text(&base64_encode(&all)), all);
}

#[test]
fn encode_padding_at_end() {
    for n in 0..30usize {
        let text = base64_encode(&sample(n));
        let pads = text.chars().filter(|&c| c == '=').count();
        assert_eq!(pads, (3 - n % 3) % 3);
        assert!(pads <= 2);
        assert!(text.chars().rev().take(pads).all(|c| c == '='));
    }
}
