//! The game's encrypted text files. A file whose text (after a byte-order
//! mark and white space) starts with `|E|` holds Base64 of an AES-128-CBC
//! ciphertext, with the key derived by PBKDF2-HMAC-SHA1 from a fixed password
//! and salt; the plain text, once trailing NUL bytes are cut, is XML.
use aes::cipher::{generic_array::GenericArray, BlockDecrypt, KeyInit};
use base64::Engine;
use vstd::prelude::*;
use crate::text::{decode_utf8_lossy, is_white_space, string_from_chars, unicode_white_space, utf8_lossy};

verus! {

/// The 16-byte PBKDF2-HMAC-SHA1 output for `password`, `salt` and `rounds`.
pub uninterp spec fn pbkdf2_hmac_sha1_16(password: Seq<u8>, salt: Seq<u8>, rounds: u32) -> Seq<u8>;

/// AES-128 decryption of one 16-byte block under a 16-byte key.
pub uninterp spec fn aes128_decrypt(key: Seq<u8>, block: Seq<u8>) -> Seq<u8>;

/// Standard Base64 (with padding) decoding of a text, or `None` when the text
/// is not valid Base64.
pub uninterp spec fn base64_standard(text: Seq<char>) -> Option<Seq<u8>>;


/// Derives the AES key: PBKDF2 with HMAC-SHA1 (`pbkdf2::pbkdf2_hmac`).
/// Trusted: the 16 bytes are the PBKDF2 output for these arguments, a
/// function of them alone.
#[verifier::external_body]
fn derive_key(password: &[u8], salt: &[u8], iterations: u32) -> (key: [u8; 16])
    ensures
        key@ == pbkdf2_hmac_sha1_16(password@, salt@, iterations),
{
    let mut key = [0u8; 16];
    pbkdf2::pbkdf2_hmac::<sha1::Sha1>(password, salt, iterations, &mut key);
    key
}

/// Decrypts one block with AES-128 (`aes::Aes128`, `BlockDecrypt::decrypt_block`).
/// Trusted: the plain block is the AES-128 decryption of `block` under `key`,
/// a function of the two alone.
#[verifier::external_body]
fn decrypt_block(key: &[u8; 16], block: &[u8; 16]) -> (plain: [u8; 16])
    ensures
        plain@ == aes128_decrypt(key@, block@),
{
    let cipher = aes::Aes128::new(GenericArray::from_slice(key));
    let mut b = GenericArray::clone_from_slice(block);
    cipher.decrypt_block(&mut b);
    b.into()
}

/// Decodes standard Base64 (`base64::engine::general_purpose::STANDARD.decode`).
/// Trusted: the result is the decoding of the text, `None` when the text is
/// not valid Base64; a function of the text alone.
#[verifier::external_body]
fn base64_decode(text: &[char]) -> (r: Option<Vec<u8>>)
    ensures
        base64_standard(text@) == match r {
            Some(v) => Some(v@),
            None => None::<Seq<u8>>,
        },
{
    let s: String = text.iter().collect();
    base64::engine::general_purpose::STANDARD.decode(s.as_bytes()).ok()
}

/// A byte-order mark or white space.
pub open spec fn is_leading_noise(c: char) -> bool {
    c == '\u{FEFF}' || unicode_white_space(c)
}

/// The index of the first character that is not leading noise.
pub open spec fn leading_noise_len(s: Seq<char>, from: int) -> int
    decreases s.len() - from,
{
    if from < s.len() && is_leading_noise(s[from]) {
        leading_noise_len(s, from + 1)
    } else {
        from
    }
}

/// The text without its leading byte-order marks and white space.
pub open spec fn skip_leading(s: Seq<char>) -> Seq<char> {
    s.skip(leading_noise_len(s, 0))
}

/// The length of the text without its trailing NUL characters.
pub open spec fn nul_trimmed_len(s: Seq<char>, len: int) -> int
    decreases len,
{
    if len > 0 && s[len - 1] == '\0' {
        nul_trimmed_len(s, len - 1)
    } else {
        len
    }
}

/// The text without its trailing NUL characters.
pub open spec fn drop_trailing_nul(s: Seq<char>) -> Seq<char> {
    s.take(nul_trimmed_len(s, s.len() as int))
}

/// The text without its white space.
pub open spec fn without_white_space(s: Seq<char>) -> Seq<char> {
    s.filter(|c: char| !unicode_white_space(c))
}

/// The ciphertext extended with zero bytes to a multiple of 16.
pub open spec fn zero_padded(c: Seq<u8>) -> Seq<u8> {
    let pad = if c.len() % 16 == 0 {
        0
    } else {
        16 - c.len() % 16
    };
    c + Seq::new(pad as nat, |i: int| 0u8)
}

/// CBC decryption of a padded ciphertext: plain block `i` is the decryption
/// of cipher block `i`, XORed with cipher block `i - 1` (the IV for block 0).
pub open spec fn cbc_decrypt(key: Seq<u8>, iv: Seq<u8>, c: Seq<u8>) -> Seq<u8> {
    Seq::new(
        c.len(),
        |i: int|
            {
                let b = i / 16;
                let prev = if b == 0 {
                    iv
                } else {
                    c.subrange((b - 1) * 16, b * 16)
                };
                aes128_decrypt(key, c.subrange(b * 16, b * 16 + 16))[i % 16] ^ prev[i % 16]
            },
    )
}

/// The password of the game's encrypted files, `no spoilers please`.
pub open spec fn password_bytes() -> Seq<u8> {
    seq![110u8, 111, 32, 115, 112, 111, 105, 108, 101, 114, 115, 32, 112, 108, 101, 97, 115, 101]
}

/// The salt, `XhSG9hLyZ7T~Ge3@`.
pub open spec fn salt_bytes() -> Seq<u8> {
    seq![88u8, 104, 83, 71, 57, 104, 76, 121, 90, 55, 84, 126, 71, 101, 51, 64]
}

/// The IV, `~8YSi0Xv2@|{aDfb`.
pub open spec fn iv_bytes() -> Seq<u8> {
    seq![126u8, 56, 89, 83, 105, 48, 88, 118, 50, 64, 124, 123, 97, 68, 102, 98]
}

/// The text of a game file's bytes: decrypted when the file is an encrypted
/// one whose plain text is XML, else the bytes decoded as they are.
pub open spec fn decoded_text(bytes: Seq<u8>) -> Seq<char> {
    let content = utf8_lossy(bytes);
    let t = skip_leading(content);
    if t.len() >= 3 && t[0] == '|' && t[1] == 'E' && t[2] == '|' {
        match base64_standard(without_white_space(t.skip(3))) {
            Some(c) => {
                let key = pbkdf2_hmac_sha1_16(password_bytes(), salt_bytes(), 1000);
                let s = drop_trailing_nul(utf8_lossy(cbc_decrypt(key, iv_bytes(), zero_padded(c))));
                let st = skip_leading(s);
                if st.len() > 0 && st[0] == '<' {
                    s
                } else {
                    content
                }
            },
            None => content,
        }
    } else {
        content
    }
}

/// AES-128-CBC decryption without padding removal: the ciphertext is first
/// extended with zero bytes to a multiple of 16.
fn aes_cbc_decrypt(ciphertext: &[u8], key: &[u8; 16], iv: &[u8; 16]) -> (r: Vec<u8>)
    ensures
        r@ == cbc_decrypt(key@, iv@, zero_padded(ciphertext@)),
        r@.len() % 16 == 0,
        ciphertext@.len() <= r@.len() < ciphertext@.len() + 16,
{
    let mut buf: Vec<u8> = Vec::new();
    let mut i: usize = 0;
    while i < ciphertext.len()
        invariant
            i <= ciphertext@.len(),
            buf@ == ciphertext@.take(i as int),
        decreases ciphertext@.len() - i,
    {
        buf.push(ciphertext[i]);
        i = i + 1;
        proof {
            assert(buf@ =~= ciphertext@.take(i as int));
        }
    }
    if buf.len() % 16 != 0 {
        let rem = 16 - (buf.len() % 16);
        let mut k: usize = 0;
        let ghost base = buf@;
        while k < rem
            invariant
                k <= rem,
                rem < 16,
                base == ciphertext@,
                buf@ == base + Seq::new(k as nat, |j: int| 0u8),
            decreases rem - k,
        {
            buf.push(0);
            k = k + 1;
            proof {
                assert(buf@ =~= base + Seq::new(k as nat, |j: int| 0u8));
            }
        }
    }
    proof {
        assert(ciphertext@.take(ciphertext@.len() as int) =~= ciphertext@);
        assert(buf@ =~= zero_padded(ciphertext@));
    }
    let ghost padded = buf@;
    let n = buf.len();
    let mut out: Vec<u8> = Vec::new();
    let mut prev: [u8; 16] = *iv;
    let mut b: usize = 0;
    while b * 16 < n
        invariant
            n == padded.len(),
            n % 16 == 0,
            b * 16 <= n,
            buf@ == padded,
            out@.len() == b * 16,
            b == 0 ==> prev@ == iv@,
            b > 0 ==> prev@ == padded.subrange((b - 1) * 16, b * 16),
            forall|j: int| 0 <= j < b * 16 ==> #[trigger] out@[j] == cbc_decrypt(key@, iv@, padded)[j],
        decreases n - b * 16,
    {
        let start = b * 16;
        let mut block = [0u8; 16];
        let mut j: usize = 0;
        while j < 16
            invariant
                j <= 16,
                start + 16 <= n,
                n == buf@.len(),
                forall|q: int| 0 <= q < j ==> #[trigger] block@[q] == buf@[start + q],
            decreases 16 - j,
        {
            block[j] = buf[start + j];
            j = j + 1;
        }
        proof {
            assert(block@ =~= padded.subrange(start as int, start + 16));
        }
        let plain = decrypt_block(key, &block);
        let mut j: usize = 0;
        let ghost out0 = out@;
        while j < 16
            invariant
                j <= 16,
                out@.len() == start + j,
                out@.subrange(0, start as int) == out0,
                out0.len() == start,
                forall|q: int| 0 <= q < j ==> #[trigger] out@[start + q] == plain@[q] ^ prev@[q],
            decreases 16 - j,
        {
            out.push(plain[j] ^ prev[j]);
            j = j + 1;
            proof {
                assert(out@.subrange(0, start as int) =~= out0);
            }
        }
        proof {
            assert forall|q: int| 0 <= q < (b + 1) * 16 implies #[trigger] out@[q] == cbc_decrypt(
                key@,
                iv@,
                padded,
            )[q] by {
                if q < start {
                    assert(out@[q] == out0[q]);
                } else {
                    let r = q - start;
                    assert(out@[start + r] == plain@[r] ^ prev@[r]);
                    assert(q / 16 == b) by {
                        assert(b * 16 <= q < b * 16 + 16);
                    }
                    assert(q % 16 == r) by {
                        assert(b * 16 <= q < b * 16 + 16);
                    }
                }
            }
        }
        prev = block;
        b = b + 1;
    }
    proof {
        assert(out@ =~= cbc_decrypt(key@, iv@, padded));
    }
    out
}

/// Skips leading byte-order marks and white space.
fn leading_noise_end(s: &Vec<char>) -> (k: usize)
    ensures
        k == leading_noise_len(s@, 0),
        k <= s@.len(),
{
    let mut k: usize = 0;
    while k < s.len() && (s[k] == '\u{FEFF}' || is_white_space(s[k]))
        invariant
            k <= s@.len(),
            leading_noise_len(s@, 0) == leading_noise_len(s@, k as int),
        decreases s@.len() - k,
    {
        k = k + 1;
    }
    k
}

/// The text of a game file's bytes: encrypted files (see the module
/// documentation) are decrypted when the plain text is XML; everything else is
/// the bytes decoded as UTF-8 with replacement characters.
pub fn decode_game_text(bytes: &[u8]) -> (r: String)
    ensures
        r@ == decoded_text(bytes@),
{
    let content = decode_utf8_lossy(bytes);
    let start = leading_noise_end(&content);
    if start < content.len() && content.len() - start >= 3 && content[start] == '|' && content[start
        + 1] == 'E' && content[start + 2] == '|' {
        let ghost t = skip_leading(content@);
        let mut b64: Vec<char> = Vec::new();
        let mut i: usize = start + 3;
        proof {
            assert(t.skip(3).take(0).filter(|c: char| !unicode_white_space(c)) =~= Seq::<char>::empty());
        }
        while i < content.len()
            invariant
                start + 3 <= i <= content@.len(),
                t == content@.skip(start as int),
                b64@ == t.skip(3).take(i - start - 3).filter(|c: char| !unicode_white_space(c)),
            decreases content@.len() - i,
        {
            let c = content[i];
            proof {
                let u = t.skip(3);
                let k = i - start - 3;
                assert(u[k] == c);
                assert(u.take(k + 1).drop_last() =~= u.take(k));
                assert(u.take(k + 1).last() == c);
                reveal(Seq::filter);
            }
            if !is_white_space(c) {
                b64.push(c);
            }
            i = i + 1;
        }
        proof {
            let u = t.skip(3);
            assert(u.take(u.len() as int) =~= u);
        }
        match base64_decode(b64.as_slice()) {
            Some(cipher_bytes) => {
                let password: [u8; 18] = [
                    110,
                    111,
                    32,
                    115,
                    112,
                    111,
                    105,
                    108,
                    101,
                    114,
                    115,
                    32,
                    112,
                    108,
                    101,
                    97,
                    115,
                    101,
                ];
                let salt: [u8; 16] = [88, 104, 83, 71, 57, 104, 76, 121, 90, 55, 84, 126, 71, 101, 51, 64];
                let iv: [u8; 16] = [126, 56, 89, 83, 105, 48, 88, 118, 50, 64, 124, 123, 97, 68, 102, 98];
                proof {
                    assert(password@ =~= password_bytes());
                    assert(salt@ =~= salt_bytes());
                    assert(iv@ =~= iv_bytes());
                }
                let key = derive_key(password.as_slice(), salt.as_slice(), 1000);
                let decrypted = aes_cbc_decrypt(cipher_bytes.as_slice(), &key, &iv);
                let s = decode_utf8_lossy(decrypted.as_slice());
                let mut len = s.len();
                while len > 0 && s[len - 1] == '\0'
                    invariant
                        len <= s@.len(),
                        nul_trimmed_len(s@, s@.len() as int) == nul_trimmed_len(s@, len as int),
                    decreases len,
                {
                    len = len - 1;
                }
                let mut trimmed: Vec<char> = Vec::new();
                let mut j: usize = 0;
                while j < len
                    invariant
                        j <= len <= s@.len(),
                        trimmed@ == s@.take(j as int),
                    decreases len - j,
                {
                    trimmed.push(s[j]);
                    j = j + 1;
                    proof {
                        assert(trimmed@ =~= s@.take(j as int));
                    }
                }
                let k = leading_noise_end(&trimmed);
                proof {
                    assert(trimmed@ == drop_trailing_nul(s@));
                }
                if k < trimmed.len() && trimmed[k] == '<' {
                    return string_from_chars(trimmed.as_slice());
                }
            },
            None => {},
        }
    }
    string_from_chars(content.as_slice())
}

} // verus!
