use acs_seed_finder::crypto::decode_game_text;
use aes::cipher::{generic_array::GenericArray, BlockEncrypt, KeyInit};
use base64::Engine;

fn game_key() -> [u8; 16] {
    let mut key = [0u8; 16];
    pbkdf2::pbkdf2_hmac::<sha1::Sha1>(b"no spoilers please", b"XhSG9hLyZ7T~Ge3@", 1000, &mut key);
    key
}

fn encrypt(plain: &[u8]) -> Vec<u8> {
    let cipher = aes::Aes128::new(GenericArray::from_slice(&game_key()));
    let mut buf = plain.to_vec();
    while buf.len() % 16 != 0 {
        buf.push(0);
    }
    let mut prev: [u8; 16] = *b"~8YSi0Xv2@|{aDfb";
    let mut out = Vec::new();
    for chunk in buf.chunks(16) {
        let mut block = [0u8; 16];
        for i in 0..16 {
            block[i] = chunk[i] ^ prev[i];
        }
        let mut b = GenericArray::clone_from_slice(&block);
        cipher.encrypt_block(&mut b);
        prev.copy_from_slice(&b);
        out.extend_from_slice(&b);
    }
    out
}

fn game_file(plain: &str) -> Vec<u8> {
    let b64 = base64::engine::general_purpose::STANDARD.encode(encrypt(plain.as_bytes()));
    format!("\u{feff}  |E|{}\n", b64).into_bytes()
}

#[test]
fn plain_file_is_returned_as_decoded() {
    let text = "\u{feff}<Root><A>1</A></Root>";
    assert_eq!(decode_game_text(text.as_bytes()), text);
}

#[test]
fn encrypted_xml_is_decrypted_and_trailing_nuls_cut() {
    let plain = "<Settings><Item Name=\"Sword\"/></Settings>";
    assert_eq!(decode_game_text(&game_file(plain)), plain);
}

#[test]
fn encrypted_xml_with_block_sized_text() {
    let plain = "<A>0123456789</A>";
    assert_eq!(plain.len(), 17);
    assert_eq!(decode_game_text(&game_file(plain)), plain);
}

#[test]
fn decrypted_text_that_is_not_xml_falls_back() {
    let bytes = game_file("just text, no markup");
    assert_eq!(decode_game_text(&bytes), String::from_utf8_lossy(&bytes));
}

#[test]
fn bad_base64_falls_back_to_the_text() {
    let text = "|E|not base64 at all!!";
    assert_eq!(decode_game_text(text.as_bytes()), text);
}

#[test]
fn invalid_utf8_is_replaced() {
    let bytes = [b'<', b'a', 0xFF, b'>'];
    assert_eq!(decode_game_text(&bytes), "<a\u{FFFD}>");
}
