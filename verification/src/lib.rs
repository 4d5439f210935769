//! Decryption of the "dec" file format of the game Hacknet, without the
//! password, and lookup of in-game files in the game's XML save files.
use vstd::prelude::*;
use vstd::std_specs::convert::FromSpecImpl;

pub mod decrypt;
pub mod headers;
pub mod int_parse;
pub mod output;
pub mod save_read;
pub mod text;

use crate::decrypt::{decrypt_chars, spec_decrypt, DecryptError, DecryptFailure};
use crate::headers::{
    decrypt_header_chars, spec_decrypt_headers, HeaderDecryptError, HeaderFailure, HeaderModel,
    HeaderValues,
};
use crate::decrypt::{lemma_decrypt_encrypt, lemma_encrypt_chars, spec_encrypt};
use crate::headers::{lemma_decrypt_encrypted_header, lowest_key, spec_encrypt_header};
use crate::text::{
    char_vecs, lemma_find_sep_absent, lemma_split_char_concat, split_on, split_on_chars, str_chars,
    trim,
};

verus! {

///The default passcode used by files without a password. Always used for encoding of header fields besides "ENCODED"
pub const DEFAULT_PASSCODE: u16 = 4065;

/// Reasons the process of decrypting a file can fail
#[derive(Debug)]
pub enum DecypherError {
    /// The content has no line break, so there is no body line.
    MissingHeadersOrBody,
    /// The header line could not be decrypted.
    DecryptHeaders(HeaderDecryptError),
    /// The body line could not be decrypted.
    DecryptBody(DecryptError),
}

/// What a failure to decipher a file says, as plain values.
pub enum DecypherFailure {
    MissingHeadersOrBody,
    DecryptHeaders(HeaderFailure),
    DecryptBody(DecryptFailure),
}

impl View for DecypherError {
    type V = DecypherFailure;

    open spec fn view(&self) -> DecypherFailure {
        match self {
            DecypherError::MissingHeadersOrBody => DecypherFailure::MissingHeadersOrBody,
            DecypherError::DecryptHeaders(e) => DecypherFailure::DecryptHeaders(e@),
            DecypherError::DecryptBody(e) => DecypherFailure::DecryptBody(e@),
        }
    }
}

impl From<HeaderDecryptError> for DecypherError {
    fn from(value: HeaderDecryptError) -> (res: Self) {
        DecypherError::DecryptHeaders(value)
    }
}

impl FromSpecImpl<HeaderDecryptError> for DecypherError {
    open spec fn obeys_from_spec() -> bool {
        true
    }

    open spec fn from_spec(value: HeaderDecryptError) -> DecypherError {
        DecypherError::DecryptHeaders(value)
    }
}

impl From<DecryptError> for DecypherError {
    fn from(value: DecryptError) -> (res: Self) {
        DecypherError::DecryptBody(value)
    }
}

impl FromSpecImpl<DecryptError> for DecypherError {
    open spec fn obeys_from_spec() -> bool {
        true
    }

    open spec fn from_spec(value: DecryptError) -> DecypherError {
        DecypherError::DecryptBody(value)
    }
}

/// A decrypted file along with its header values
#[derive(Debug)]
pub struct Decyphered {
    pub header_values: HeaderValues,
    pub body: String,
}

/// A decrypted file as plain values.
pub struct DecypheredModel {
    pub header_values: HeaderModel,
    pub body: Seq<char>,
}

impl View for Decyphered {
    type V = DecypheredModel;

    open spec fn view(&self) -> DecypheredModel {
        DecypheredModel { header_values: self.header_values@, body: self.body@ }
    }
}

/// The lines of `content` (the pieces between line feeds).
pub open spec fn content_lines(content: Seq<char>) -> Seq<Seq<char>> {
    split_on(content, seq!['\n'])
}

/// The decryption of a whole file: its first line is the header line, its
/// second line the body, decrypted under the passcode the header gives.
pub open spec fn spec_decypher(content: Seq<char>) -> Result<DecypheredModel, DecypherFailure> {
    let lines = content_lines(content);
    if lines.len() < 2 {
        Err(DecypherFailure::MissingHeadersOrBody)
    } else {
        match spec_decrypt_headers(lines[0]) {
            Err(e) => Err(DecypherFailure::DecryptHeaders(e)),
            Ok(header_values) => match spec_decrypt(lines[1], header_values.passcode) {
                Err(e) => Err(DecypherFailure::DecryptBody(e)),
                Ok(body) => Ok(DecypheredModel { header_values, body }),
            },
        }
    }
}

/// Decrypts a whole file: the first line is the header line, the second line
/// the body, decrypted under the passcode found in the header.
pub fn decypher_str(file_content: &str) -> (res: Result<Decyphered, DecypherError>)
    ensures
        match res {
            Ok(d) => spec_decypher(file_content@) == Ok::<DecypheredModel, DecypherFailure>(d@),
            Err(e) => spec_decypher(file_content@) == Err::<DecypheredModel, DecypherFailure>(e@),
        },
        res matches Err(DecypherError::MissingHeadersOrBody) <==> !file_content@.contains('\n'),
{
    let chars = str_chars(file_content);
    let mut newline: Vec<char> = Vec::new();
    newline.push('\n');
    let lines = split_on_chars(&chars, &newline);
    let ghost all = char_vecs(lines@);
    proof {
        crate::text::lemma_find_char(chars@, '\n');
        crate::text::lemma_split_on_len(chars@, seq!['\n']);
        assert(newline@ =~= seq!['\n']);
    }
    if lines.len() < 2 {
        return Err(DecypherError::MissingHeadersOrBody);
    }
    assert(all[0] == lines@[0]@ && all[1] == lines@[1]@);
    let header_values = match decrypt_header_chars(&lines[0]) {
        Ok(h) => h,
        Err(e) => {
            return Err(DecypherError::from(e));
        },
    };
    let body = match decrypt_chars(&lines[1], header_values.passcode) {
        Ok(b) => crate::text::chars_to_string(&b),
        Err(e) => {
            return Err(DecypherError::from(e));
        },
    };
    Ok(Decyphered { header_values, body })
}

/// Whether `c` does not occur in `s`.
pub open spec fn lacks(s: Seq<char>, c: char) -> bool {
    forall|i: int| 0 <= i < s.len() ==> s[i] != c
}

proof fn lemma_lacks_concat(a: Seq<char>, b: Seq<char>, c: char)
    requires
        lacks(a, c),
        lacks(b, c),
    ensures
        lacks(a + b, c),
{
    assert forall|i: int| 0 <= i < (a + b).len() implies (a + b)[i] != c by {
        if i < a.len() {
            assert((a + b)[i] == a[i]);
        } else {
            assert((a + b)[i] == b[i - a.len()]);
        }
    }
}

/// A file the game wrote reads back without its passcode: the header line
/// whose check is written under `passcode` (its other fields under
/// [`DEFAULT_PASSCODE`]), a line feed, and the body encrypted under `passcode`
/// decipher to the header values and the body, without leading and trailing
/// whitespace, with the smallest passcode that reads them the same way.
pub proof fn lemma_decypher_encrypted_file(
    msg: Seq<char>,
    ip: Seq<char>,
    ext: Option<Seq<char>>,
    body: Seq<char>,
    passcode: u16,
)
    ensures
        spec_decypher(
            spec_encrypt_header(msg, ip, ext, passcode) + seq!['\n'] + spec_encrypt(body, passcode),
        ) == Ok::<DecypheredModel, DecypherFailure>(
            DecypheredModel {
                header_values: HeaderModel {
                    passcode: lowest_key(passcode),
                    header_msg: trim(msg),
                    src_ip: trim(ip),
                    file_extension: match ext {
                        Some(e) => Some(trim(e)),
                        None => None,
                    },
                },
                body: trim(body),
            },
        ),
{
    reveal_strlit("::");
    reveal_strlit("#DEC_ENC");
    reveal_strlit("ENCODED");
    let header = spec_encrypt_header(msg, ip, ext, passcode);
    let encrypted_body = spec_encrypt(body, passcode);
    lemma_encrypt_chars(msg, DEFAULT_PASSCODE);
    lemma_encrypt_chars(ip, DEFAULT_PASSCODE);
    lemma_encrypt_chars("ENCODED"@, passcode);
    lemma_encrypt_chars(body, passcode);
    let e1 = spec_encrypt(msg, DEFAULT_PASSCODE);
    let e2 = spec_encrypt(ip, DEFAULT_PASSCODE);
    let e3 = spec_encrypt("ENCODED"@, passcode);
    assert(lacks("#DEC_ENC"@, '\n'));
    assert(lacks("::"@, '\n'));
    assert(lacks(e1, '\n'));
    assert(lacks(e2, '\n'));
    assert(lacks(e3, '\n'));
    assert(lacks(encrypted_body, '\n'));
    lemma_lacks_concat("#DEC_ENC"@, "::"@, '\n');
    lemma_lacks_concat("#DEC_ENC"@ + "::"@, e1, '\n');
    lemma_lacks_concat("#DEC_ENC"@ + "::"@ + e1, "::"@, '\n');
    lemma_lacks_concat("#DEC_ENC"@ + "::"@ + e1 + "::"@, e2, '\n');
    lemma_lacks_concat("#DEC_ENC"@ + "::"@ + e1 + "::"@ + e2, "::"@, '\n');
    lemma_lacks_concat("#DEC_ENC"@ + "::"@ + e1 + "::"@ + e2 + "::"@, e3, '\n');
    let fields = "#DEC_ENC"@ + "::"@ + e1 + "::"@ + e2 + "::"@ + e3;
    if let Some(e) = ext {
        lemma_encrypt_chars(e, DEFAULT_PASSCODE);
        assert(lacks(spec_encrypt(e, DEFAULT_PASSCODE), '\n'));
        lemma_lacks_concat(fields, "::"@, '\n');
        lemma_lacks_concat(fields + "::"@, spec_encrypt(e, DEFAULT_PASSCODE), '\n');
    }
    assert(lacks(header, '\n'));
    lemma_find_sep_absent(header, seq!['\n']);
    lemma_find_sep_absent(encrypted_body, seq!['\n']);
    lemma_split_char_concat(header, '\n', encrypted_body);
    let lines = content_lines(header + seq!['\n'] + encrypted_body);
    assert(lines =~= seq![header, encrypted_body]);
    lemma_decrypt_encrypted_header(msg, ip, ext, passcode);
    lemma_decrypt_encrypt(body, passcode, lowest_key(passcode));
}

} // verus!
