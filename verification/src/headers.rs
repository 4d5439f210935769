//! Items relating to processing of headers
//!
//! The header line of a "dec" file is made of fields separated by `::`: the
//! prefix `#DEC_ENC`, the message, the source IP, a check field and, when
//! present, the file extension. The check field is encrypted under the file's
//! passcode, which is not stored: it is the smallest one under which the check
//! field decrypts to `ENCODED`. The other fields are always encrypted under
//! [`DEFAULT_PASSCODE`](crate::DEFAULT_PASSCODE).
use vstd::prelude::*;
use vstd::std_specs::convert::FromSpecImpl;

use crate::decrypt::{
    decrypt_chars, is_char_code, key_shift, lemma_decrypt_encrypt, lemma_decrypt_encrypt_shifted,
    lemma_encrypt_chars, shift_stays_chars, shift_text, shifted_char, spec_decrypt, spec_encrypt,
    DecryptError, DecryptFailure, SCALE,
};
use crate::DEFAULT_PASSCODE;
use crate::text::{
    char_vecs, chars_eq, chars_to_string, lemma_find_sep_absent, lemma_split_after_plain,
    spec_is_whitespace, split_on, split_on_chars, str_chars, trim,
};

verus! {

/// Items from the header of a .dec file
///
/// The passcode isn't stored in the header directly, but
/// can be brute forced relatively easily.
#[derive(Debug)]
pub struct HeaderValues {
    pub passcode: u16,
    pub header_msg: String,
    pub src_ip: String,
    pub file_extension: Option<String>,
}

/// The header values as plain values.
pub struct HeaderModel {
    pub passcode: u16,
    pub header_msg: Seq<char>,
    pub src_ip: Seq<char>,
    pub file_extension: Option<Seq<char>>,
}

impl View for HeaderValues {
    type V = HeaderModel;

    open spec fn view(&self) -> HeaderModel {
        HeaderModel {
            passcode: self.passcode,
            header_msg: self.header_msg@,
            src_ip: self.src_ip@,
            file_extension: match self.file_extension {
                Some(e) => Some(e@),
                None => None,
            },
        }
    }
}

/// Reasons decrypting headers can fail
#[derive(Debug)]
pub enum HeaderDecryptError {
    /// The header has fewer than 4 fields (the count is given).
    InvalidHeaderLength(usize),
    /// The first field is not `#DEC_ENC`.
    MissingPrefix,
    /// No passcode makes the check field decrypt to `ENCODED`.
    DeterminePasscodeFail,
    /// A field could not be decrypted.
    DecryptError(DecryptError),
}

/// What a header failure says, as plain values.
pub enum HeaderFailure {
    InvalidHeaderLength(usize),
    MissingPrefix,
    DeterminePasscodeFail,
    Decrypt(DecryptFailure),
}

impl View for HeaderDecryptError {
    type V = HeaderFailure;

    open spec fn view(&self) -> HeaderFailure {
        match self {
            HeaderDecryptError::InvalidHeaderLength(n) => HeaderFailure::InvalidHeaderLength(*n),
            HeaderDecryptError::MissingPrefix => HeaderFailure::MissingPrefix,
            HeaderDecryptError::DeterminePasscodeFail => HeaderFailure::DeterminePasscodeFail,
            HeaderDecryptError::DecryptError(e) => HeaderFailure::Decrypt(e@),
        }
    }
}

impl From<DecryptError> for HeaderDecryptError {
    fn from(value: DecryptError) -> (res: Self) {
        HeaderDecryptError::DecryptError(value)
    }
}

impl FromSpecImpl<DecryptError> for HeaderDecryptError {
    open spec fn obeys_from_spec() -> bool {
        true
    }

    open spec fn from_spec(value: DecryptError) -> HeaderDecryptError {
        HeaderDecryptError::DecryptError(value)
    }
}

/// The number of passcodes there are.
pub open spec fn passcode_count() -> nat {
    0x1_0000
}

/// The header values once the passcode is found: the message, the source IP
/// and, when present, the file extension, decrypted under
/// [`DEFAULT_PASSCODE`](crate::DEFAULT_PASSCODE); the first field that fails
/// decides the failure.
pub open spec fn header_fields(parts: Seq<Seq<char>>, passcode: u16) -> Result<
    HeaderModel,
    HeaderFailure,
> {
    match spec_decrypt(parts[1], DEFAULT_PASSCODE) {
        Err(e) => Err(HeaderFailure::Decrypt(e)),
        Ok(header_msg) => match spec_decrypt(parts[2], DEFAULT_PASSCODE) {
            Err(e) => Err(HeaderFailure::Decrypt(e)),
            Ok(src_ip) => {
                if parts.len() > 4 {
                    match spec_decrypt(parts[4], DEFAULT_PASSCODE) {
                        Err(e) => Err(HeaderFailure::Decrypt(e)),
                        Ok(ext) => Ok(
                            HeaderModel { passcode, header_msg, src_ip, file_extension: Some(ext) },
                        ),
                    }
                } else {
                    Ok(HeaderModel { passcode, header_msg, src_ip, file_extension: None })
                }
            },
        },
    }
}

/// Tries the passcodes from `from` upward: the first under which the check
/// field fails to decrypt gives that failure, the first under which it
/// decrypts to `ENCODED` is the file's passcode, with the header fields.
pub open spec fn passcode_search(parts: Seq<Seq<char>>, from: nat) -> Result<
    HeaderModel,
    HeaderFailure,
>
    decreases passcode_count() - from,
{
    if from >= passcode_count() {
        Err(HeaderFailure::DeterminePasscodeFail)
    } else {
        match spec_decrypt(parts[3], from as u16) {
            Err(e) => Err(HeaderFailure::Decrypt(e)),
            Ok(check) => {
                if check == "ENCODED"@ {
                    header_fields(parts, from as u16)
                } else {
                    passcode_search(parts, from + 1)
                }
            },
        }
    }
}

/// The fields of a header line.
pub open spec fn header_parts(header_data: Seq<char>) -> Seq<Seq<char>> {
    split_on(header_data, "::"@)
}

/// The decryption of the header line `header_data`.
pub open spec fn spec_decrypt_headers(header_data: Seq<char>) -> Result<HeaderModel, HeaderFailure> {
    let parts = header_parts(header_data);
    if parts.len() < 4 {
        Err(HeaderFailure::InvalidHeaderLength(parts.len() as usize))
    } else if parts[0] != "#DEC_ENC"@ {
        Err(HeaderFailure::MissingPrefix)
    } else {
        passcode_search(parts, 0)
    }
}

/// Whether `check` decrypts under `passcode` without failure to something
/// other than `ENCODED`.
pub open spec fn passcode_rejected(check: Seq<char>, passcode: u16) -> bool {
    spec_decrypt(check, passcode) matches Ok(text) && text != "ENCODED"@
}

/// What the search from `from` finds: a success is the first passcode whose
/// check decrypts to `ENCODED` with all before it rejected; running out of
/// passcodes means all of them were rejected.
proof fn lemma_passcode_search(parts: Seq<Seq<char>>, from: nat)
    requires
        parts.len() >= 4,
    ensures
        passcode_search(parts, from) matches Ok(h) ==> {
            &&& from <= h.passcode
            &&& spec_decrypt(parts[3], h.passcode) == Ok::<Seq<char>, DecryptFailure>("ENCODED"@)
            &&& forall|q: u16| from <= q < h.passcode ==> passcode_rejected(parts[3], q)
            &&& header_fields(parts, h.passcode) == Ok::<HeaderModel, HeaderFailure>(h)
        },
        passcode_search(parts, from) is Err && passcode_search(parts, from)->Err_0
            is DeterminePasscodeFail <==> forall|q: u16| from <= q ==> passcode_rejected(
            parts[3],
            q,
        ),
    decreases passcode_count() - from,
{
    if from < passcode_count() {
        lemma_passcode_search(parts, from + 1);
        let q0 = from as u16;
        if passcode_rejected(parts[3], q0) {
            assert forall|q: u16|
                from <= q && (forall|r: u16| from + 1 <= r ==> passcode_rejected(parts[3], r))
                implies passcode_rejected(parts[3], q) by {
                if q != q0 {
                }
            }
        } else {
            assert(!(forall|q: u16| from <= q ==> passcode_rejected(parts[3], q))) by {
                assert(from <= q0);
            }
            if let Ok(h) = passcode_search(parts, from) {
                if let Ok(check) = spec_decrypt(parts[3], q0) {
                    if check == "ENCODED"@ {
                        assert(header_fields(parts, q0) == Ok::<HeaderModel, HeaderFailure>(h));
                        match header_fields(parts, q0) {
                            Ok(hm) => assert(hm.passcode == q0),
                            Err(_) => {},
                        }
                    }
                }
            }
        }
    }
}

/// Decrypts the header fields under the default passcode, reporting
/// `passcode` as the file's passcode.
fn decrypt_header_fields(parts: &Vec<Vec<char>>, passcode: u16) -> (res: Result<
    HeaderValues,
    HeaderDecryptError,
>)
    requires
        parts.len() >= 4,
    ensures
        match res {
            Ok(h) => header_fields(char_vecs(parts@), passcode) == Ok::<
                HeaderModel,
                HeaderFailure,
            >(h@),
            Err(e) => header_fields(char_vecs(parts@), passcode) == Err::<
                HeaderModel,
                HeaderFailure,
            >(e@),
        },
{
    let ghost all = char_vecs(parts@);
    assert(all[1] == parts@[1]@ && all[2] == parts@[2]@);
    let header_msg = match decrypt_chars(&parts[1], DEFAULT_PASSCODE) {
        Ok(v) => chars_to_string(&v),
        Err(e) => {
            return Err(HeaderDecryptError::from(e));
        },
    };
    let src_ip = match decrypt_chars(&parts[2], DEFAULT_PASSCODE) {
        Ok(v) => chars_to_string(&v),
        Err(e) => {
            return Err(HeaderDecryptError::from(e));
        },
    };
    let file_extension = if parts.len() > 4 {
        assert(all[4] == parts@[4]@);
        match decrypt_chars(&parts[4], DEFAULT_PASSCODE) {
            Ok(v) => Some(chars_to_string(&v)),
            Err(e) => {
                return Err(HeaderDecryptError::from(e));
            },
        }
    } else {
        None
    };
    Ok(HeaderValues { passcode, header_msg, src_ip, file_extension })
}

/// Decrypts the header line whose characters are `chars`.
pub fn decrypt_header_chars(chars: &Vec<char>) -> (res: Result<HeaderValues, HeaderDecryptError>)
    ensures
        match res {
            Ok(h) => spec_decrypt_headers(chars@) == Ok::<HeaderModel, HeaderFailure>(h@),
            Err(e) => spec_decrypt_headers(chars@) == Err::<HeaderModel, HeaderFailure>(e@),
        },
        res matches Ok(h) ==> {
            let check = header_parts(chars@)[3];
            &&& spec_decrypt(check, h.passcode) == Ok::<Seq<char>, DecryptFailure>("ENCODED"@)
            &&& forall|q: u16| q < h.passcode ==> passcode_rejected(check, q)
        },
        res matches Err(HeaderDecryptError::DeterminePasscodeFail) ==> forall|q: u16|
            #[trigger] passcode_rejected(header_parts(chars@)[3], q),
{
    let sep = str_chars("::");
    proof {
        reveal_strlit("::");
    }
    let parts = split_on_chars(chars, &sep);
    let ghost all = char_vecs(parts@);
    if parts.len() < 4 {
        return Err(HeaderDecryptError::InvalidHeaderLength(parts.len()));
    }
    let prefix = str_chars("#DEC_ENC");
    assert(all[0] == parts@[0]@);
    if !chars_eq(&parts[0], &prefix) {
        return Err(HeaderDecryptError::MissingPrefix);
    }
    let encoded = str_chars("ENCODED");
    assert(all[3] == parts@[3]@);
    let mut passcode: u32 = 0;
    while passcode <= 0xFFFF
        invariant
            parts.len() >= 4,
            all == char_vecs(parts@),
            all == header_parts(chars@),
            all[3] == parts@[3]@,
            encoded@ == "ENCODED"@,
            passcode <= 0x1_0000,
            spec_decrypt_headers(chars@) == passcode_search(all, passcode as nat),
        decreases 0x1_0000 - passcode,
    {
        let check = match decrypt_chars(&parts[3], passcode as u16) {
            Ok(v) => v,
            Err(e) => {
                return Err(HeaderDecryptError::from(e));
            },
        };
        if chars_eq(&check, &encoded) {
            proof {
                lemma_passcode_search(all, 0);
            }
            return decrypt_header_fields(&parts, passcode as u16);
        }
        passcode = passcode + 1;
    }
    proof {
        lemma_passcode_search(all, 0);
    }
    Err(HeaderDecryptError::DeterminePasscodeFail)
}

/// Decrypts the header line `header_data`: finds the smallest passcode under
/// which the check field decrypts to `ENCODED`, then decrypts the message, the
/// source IP and, when present, the file extension under the default passcode.
pub fn decrypt_headers(header_data: &str) -> (res: Result<HeaderValues, HeaderDecryptError>)
    ensures
        match res {
            Ok(h) => spec_decrypt_headers(header_data@) == Ok::<HeaderModel, HeaderFailure>(h@),
            Err(e) => spec_decrypt_headers(header_data@) == Err::<HeaderModel, HeaderFailure>(e@),
        },
        res matches Ok(h) ==> {
            let check = header_parts(header_data@)[3];
            &&& spec_decrypt(check, h.passcode) == Ok::<Seq<char>, DecryptFailure>("ENCODED"@)
            &&& forall|q: u16| q < h.passcode ==> passcode_rejected(check, q)
        },
        res matches Err(HeaderDecryptError::DeterminePasscodeFail) ==> forall|q: u16|
            #[trigger] passcode_rejected(header_parts(header_data@)[3], q),
{
    let chars = str_chars(header_data);
    decrypt_header_chars(&chars)
}

// ---------------------------------------------------------------------------
// Reading back a header the game wrote
// ---------------------------------------------------------------------------
/// The header line the game writes: `#DEC_ENC`, then the message and the
/// source IP encrypted under [`DEFAULT_PASSCODE`](crate::DEFAULT_PASSCODE),
/// the check `ENCODED` encrypted under `passcode` and, when given, the file
/// extension encrypted under [`DEFAULT_PASSCODE`](crate::DEFAULT_PASSCODE),
/// separated by `::`.
pub open spec fn spec_encrypt_header(
    msg: Seq<char>,
    ip: Seq<char>,
    ext: Option<Seq<char>>,
    passcode: u16,
) -> Seq<char> {
    let fields = "#DEC_ENC"@ + "::"@ + spec_encrypt(msg, DEFAULT_PASSCODE) + "::"@ + spec_encrypt(
        ip,
        DEFAULT_PASSCODE,
    ) + "::"@ + spec_encrypt("ENCODED"@, passcode);
    match ext {
        Some(e) => fields + "::"@ + spec_encrypt(e, DEFAULT_PASSCODE),
        None => fields,
    }
}

/// The passcode the search finds for a header encrypted under `passcode`: the
/// smallest one that decrypts it the same way.
pub open spec fn lowest_key(passcode: u16) -> u16 {
    if passcode >= SCALE - 1 {
        (passcode - (SCALE - 1)) as u16
    } else {
        0
    }
}

/// Passcodes that are all rejected are passed over.
proof fn lemma_search_skip(parts: Seq<Seq<char>>, from: nat, to: nat)
    requires
        from <= to <= passcode_count(),
        forall|q: u16| from <= q < to ==> passcode_rejected(parts[3], q),
    ensures
        passcode_search(parts, from) == passcode_search(parts, to),
    decreases to - from,
{
    if from < to {
        assert(passcode_rejected(parts[3], from as u16));
        lemma_search_skip(parts, from + 1, to);
    }
}

/// A text whose first and last characters are not whitespace is its own trim.
proof fn lemma_trim_unchanged(s: Seq<char>)
    requires
        s.len() >= 1,
        !spec_is_whitespace(s[0]),
        !spec_is_whitespace(s.last()),
    ensures
        trim(s) == s,
{
}

/// Under a passcode more than 1821 below the one the header was encrypted
/// with, the check decrypts to something other than `ENCODED`.
proof fn lemma_check_rejected_below(passcode: u16, key: u16)
    requires
        key + SCALE <= passcode,
    ensures
        passcode_rejected(spec_encrypt("ENCODED"@, passcode), key),
{
    reveal_strlit("ENCODED");
    let enc = "ENCODED"@;
    let k = key_shift(passcode, key);
    assert(1 <= k <= 35);
    assert forall|i: int| 0 <= i < enc.len() implies #[trigger] is_char_code(
        (enc[i] as nat + k) as u32,
    ) && enc[i] as nat + k <= 0x10FFFF by {
        assert(67 <= enc[i] as nat <= 79);
    }
    assert(shift_stays_chars(enc, k));
    lemma_decrypt_encrypt_shifted(enc, passcode, key);
    let shifted = shift_text(enc, k);
    assert(shifted[0] == shifted_char(enc[0], k));
    assert(shifted.last() == shifted_char(enc[6], k));
    assert(shifted_char(enc[0], k) as nat == 69 + k);
    assert(shifted_char(enc[6], k) as nat == 68 + k);
    lemma_trim_unchanged(shifted);
    assert(shifted != enc) by {
        assert(shifted[0] != enc[0]);
    }
}

/// A header the game wrote reads back without its passcode: the passcode
/// found is the smallest that decrypts the check the same way as the one it
/// was written with, and the fields come back without leading and trailing
/// whitespace.
pub proof fn lemma_decrypt_encrypted_header(
    msg: Seq<char>,
    ip: Seq<char>,
    ext: Option<Seq<char>>,
    passcode: u16,
)
    ensures
        spec_decrypt_headers(spec_encrypt_header(msg, ip, ext, passcode)) == Ok::<
            HeaderModel,
            HeaderFailure,
        >(
            HeaderModel {
                passcode: lowest_key(passcode),
                header_msg: trim(msg),
                src_ip: trim(ip),
                file_extension: match ext {
                    Some(e) => Some(trim(e)),
                    None => None,
                },
            },
        ),
{
    reveal_strlit("::");
    reveal_strlit("#DEC_ENC");
    reveal_strlit("ENCODED");
    let sep = "::"@;
    let prefix = "#DEC_ENC"@;
    let enc = "ENCODED"@;
    let e1 = spec_encrypt(msg, DEFAULT_PASSCODE);
    let e2 = spec_encrypt(ip, DEFAULT_PASSCODE);
    let e3 = spec_encrypt(enc, passcode);
    lemma_encrypt_chars(msg, DEFAULT_PASSCODE);
    lemma_encrypt_chars(ip, DEFAULT_PASSCODE);
    lemma_encrypt_chars(enc, passcode);
    assert(sep[0] == ':');
    assert forall|i: int| 0 <= i < prefix.len() implies prefix[i] != sep[0] by {}
    assert forall|i: int| 0 <= i < e1.len() implies e1[i] != sep[0] by {}
    assert forall|i: int| 0 <= i < e2.len() implies e2[i] != sep[0] by {}
    assert forall|i: int| 0 <= i < e3.len() implies e3[i] != sep[0] by {}
    let r3 = match ext {
        Some(e) => e3 + sep + spec_encrypt(e, DEFAULT_PASSCODE),
        None => e3,
    };
    let tail = match ext {
        Some(e) => seq![e3, spec_encrypt(e, DEFAULT_PASSCODE)],
        None => seq![e3],
    };
    match ext {
        Some(e) => {
            let e4 = spec_encrypt(e, DEFAULT_PASSCODE);
            lemma_encrypt_chars(e, DEFAULT_PASSCODE);
            assert forall|i: int| 0 <= i < e4.len() implies e4[i] != sep[0] by {}
            lemma_find_sep_absent(e4, sep);
            lemma_split_after_plain(e3, sep, e4);
        },
        None => {
            lemma_find_sep_absent(e3, sep);
        },
    }
    assert(split_on(r3, sep) == tail);
    let r2 = e2 + sep + r3;
    let r1 = e1 + sep + r2;
    lemma_split_after_plain(e2, sep, r3);
    lemma_split_after_plain(e1, sep, r2);
    lemma_split_after_plain(prefix, sep, r1);
    let header = spec_encrypt_header(msg, ip, ext, passcode);
    assert(header =~= prefix + sep + r1);
    let parts = header_parts(header);
    assert(parts =~= seq![prefix, e1, e2] + tail);
    assert(parts[3] == e3);
    let key = lowest_key(passcode);
    assert forall|q: u16| 0 <= q < key implies passcode_rejected(parts[3], q) by {
        lemma_check_rejected_below(passcode, q);
    }
    lemma_search_skip(parts, 0, key as nat);
    lemma_decrypt_encrypt(enc, passcode, key);
    lemma_trim_unchanged(enc);
    lemma_decrypt_encrypt(msg, DEFAULT_PASSCODE, DEFAULT_PASSCODE);
    lemma_decrypt_encrypt(ip, DEFAULT_PASSCODE, DEFAULT_PASSCODE);
    if let Some(e) = ext {
        lemma_decrypt_encrypt(e, DEFAULT_PASSCODE, DEFAULT_PASSCODE);
    }
}

} // verus!
