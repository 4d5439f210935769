//! Decryption of the numbers that make up a field of a "dec" file.
//!
//! Each character of a field is stored as a decimal number; the numbers are
//! separated by whitespace. A number `n` stands for the character with code
//! `(n - 32767 - passcode) / 1822`, computed with the `i32` arithmetic of the
//! game (two's-complement wrap on overflow, division truncating toward zero).
use std::num::TryFromIntError;
use vstd::prelude::*;
use vstd::std_specs::convert::FromSpecImpl;

use crate::int_parse::{
    decimal, is_digit, lemma_decimal_digits, lemma_parse_decimal, parse_decimal_i32, parse_i32,
    IntParseFailure,
};
use crate::text::{
    char_vecs, chars_to_string, lemma_leading_run_exact, lemma_trim_removes_outer_whitespace,
    spec_is_whitespace, split_whitespace, str_chars, trim, trim_chars, whitespace_tokens,
};

verus! {

/// Half of `u16::MAX`, the offset every encoded number carries.
pub const HALFMAX: i32 = 32767;

/// The divisor every encoded number is scaled by.
pub const SCALE: i32 = 1822;

/// Reasons decryption can fail
#[derive(Debug)]
pub enum DecryptError {
    /// A whitespace-separated item is not a decimal `i32`.
    ParseIntError(String, IntParseFailure),
    /// The number decodes to a negative value.
    UnsignedConversionError { encoded: i32, decoded: i32, err: TryFromIntError },
    /// The number decodes to a value that is no character.
    CharConversionError(u32),
}

/// What a decryption failure says, as plain values.
pub enum DecryptFailure {
    ParseInt(Seq<char>, IntParseFailure),
    UnsignedConversion { encoded: i32, decoded: i32 },
    CharConversion(u32),
}

impl View for DecryptError {
    type V = DecryptFailure;

    open spec fn view(&self) -> DecryptFailure {
        match self {
            DecryptError::ParseIntError(item, kind) => DecryptFailure::ParseInt(item@, *kind),
            DecryptError::UnsignedConversionError { encoded, decoded, .. } => {
                DecryptFailure::UnsignedConversion { encoded: *encoded, decoded: *decoded }
            },
            DecryptError::CharConversionError(v) => DecryptFailure::CharConversion(*v),
        }
    }
}

impl<'a> From<(&'a str, IntParseFailure)> for DecryptError {
    /// The failure to read the item `value.0` as a decimal `i32`, for the
    /// reason `value.1`.
    fn from(value: (&'a str, IntParseFailure)) -> (res: Self)
        ensures
            res@ == DecryptFailure::ParseInt(value.0@, value.1),
    {
        DecryptError::ParseIntError(value.0.to_owned(), value.1)
    }
}

impl<'a> FromSpecImpl<(&'a str, IntParseFailure)> for DecryptError {
    /// The error holds a new `String` with the item's characters; that a
    /// `String` is determined by its characters is not known here, so the
    /// conversion is described by the `ensures` of `from` (over the view)
    /// rather than by an equation on the value.
    open spec fn obeys_from_spec() -> bool {
        false
    }

    open spec fn from_spec(value: (&'a str, IntParseFailure)) -> DecryptError {
        DecryptError::ParseIntError(choose|s: String| #![trigger s@] s@ == value.0@, value.1)
    }
}

impl From<(i32, i32, TryFromIntError)> for DecryptError {
    fn from(value: (i32, i32, TryFromIntError)) -> (res: Self) {
        DecryptError::UnsignedConversionError { encoded: value.0, decoded: value.1, err: value.2 }
    }
}

impl FromSpecImpl<(i32, i32, TryFromIntError)> for DecryptError {
    open spec fn obeys_from_spec() -> bool {
        true
    }

    open spec fn from_spec(value: (i32, i32, TryFromIntError)) -> DecryptError {
        DecryptError::UnsignedConversionError { encoded: value.0, decoded: value.1, err: value.2 }
    }
}

/// `x` brought into the `i32` range by two's-complement wrapping.
pub open spec fn wrap_i32(x: int) -> int {
    if x < i32::MIN {
        x + 0x1_0000_0000
    } else if x > i32::MAX {
        x - 0x1_0000_0000
    } else {
        x
    }
}

/// `a / b` rounded toward zero.
pub open spec fn truncating_div(a: int, b: int) -> int {
    if a >= 0 {
        a / b
    } else {
        -((-a) / b)
    }
}

/// The value an encoded number stands for under `passcode`.
pub open spec fn decoded_value(encoded: i32, passcode: u16) -> int {
    truncating_div(wrap_i32(encoded - HALFMAX - passcode), SCALE as int)
}

/// Whether `v` is the code of a character (not a surrogate, at most 0x10FFFF).
pub open spec fn is_char_code(v: u32) -> bool {
    v <= 0x10FFFF && !(0xD800 <= v <= 0xDFFF)
}

/// The character one whitespace-separated item stands for, or why none.
pub open spec fn decode_item(item: Seq<char>, passcode: u16) -> Result<char, DecryptFailure> {
    match parse_i32(item) {
        Err(kind) => Err(DecryptFailure::ParseInt(item, kind)),
        Ok(encoded) => {
            let decoded = decoded_value(encoded, passcode);
            if decoded < 0 {
                Err(DecryptFailure::UnsignedConversion { encoded, decoded: decoded as i32 })
            } else if !is_char_code(decoded as u32) {
                Err(DecryptFailure::CharConversion(decoded as u32))
            } else {
                Ok(decoded as char)
            }
        },
    }
}

/// `prefix` put in front of a successful result; a failure passes through.
pub open spec fn prepend(prefix: Seq<char>, r: Result<Seq<char>, DecryptFailure>) -> Result<
    Seq<char>,
    DecryptFailure,
> {
    match r {
        Ok(rest) => Ok(prefix + rest),
        Err(e) => Err(e),
    }
}

/// The characters the items stand for, in order; the first failing item decides
/// the failure.
pub open spec fn decode_items(items: Seq<Seq<char>>, passcode: u16) -> Result<
    Seq<char>,
    DecryptFailure,
>
    decreases items.len(),
{
    if items.len() == 0 {
        Ok(Seq::empty())
    } else {
        match decode_item(items[0], passcode) {
            Err(e) => Err(e),
            Ok(c) => prepend(seq![c], decode_items(items.drop_first(), passcode)),
        }
    }
}

/// The decryption of `data` under `passcode`: the characters its
/// whitespace-separated items stand for, without leading and trailing
/// whitespace.
pub open spec fn spec_decrypt(data: Seq<char>, passcode: u16) -> Result<Seq<char>, DecryptFailure> {
    match decode_items(whitespace_tokens(data), passcode) {
        Ok(chars) => Ok(trim(chars)),
        Err(e) => Err(e),
    }
}

/// `char::from_u32`: the character with code `v`, or `None` when `v` is a
/// surrogate code (0xD800 to 0xDFFF) or above 0x10FFFF.
#[verifier::external_body]
fn char_from_u32(v: u32) -> (res: Option<char>)
    ensures
        res == if is_char_code(v) {
            Some(v as char)
        } else {
            None::<char>
        },
{
    char::from_u32(v)
}

/// The value an encoded number stands for under `passcode`.
fn decode_value(encoded: i32, passcode: u16) -> (res: i32)
    ensures
        res as int == decoded_value(encoded, passcode),
{
    let raw: i64 = encoded as i64 - HALFMAX as i64 - passcode as i64;
    let wrapped: i64 = if raw < i32::MIN as i64 {
        raw + 0x1_0000_0000
    } else {
        raw
    };
    let q: i64 = if wrapped >= 0 {
        wrapped / SCALE as i64
    } else {
        -((-wrapped) / SCALE as i64)
    };
    q as i32
}

/// Decodes one whitespace-separated item.
fn decode_item_chars(item: &Vec<char>, passcode: u16) -> (res: Result<char, DecryptError>)
    ensures
        match res {
            Ok(c) => decode_item(item@, passcode) == Ok::<char, DecryptFailure>(c),
            Err(e) => decode_item(item@, passcode) == Err::<char, DecryptFailure>(e@),
        },
{
    let as_int = match parse_decimal_i32(item) {
        Ok(v) => v,
        Err(kind) => {
            let text = chars_to_string(item);
            return Err(DecryptError::from((text.as_str(), kind)));
        },
    };
    let new_val = decode_value(as_int, passcode);
    let as_u32 = match u32::try_from(new_val) {
        Ok(v) => v,
        Err(e) => {
            return Err(DecryptError::from((as_int, new_val, e)));
        },
    };
    match char_from_u32(as_u32) {
        Some(c) => Ok(c),
        None => Err(DecryptError::CharConversionError(as_u32)),
    }
}

/// Decrypts the characters `data` under `passcode`.
pub fn decrypt_chars(data: &Vec<char>, passcode: u16) -> (res: Result<Vec<char>, DecryptError>)
    ensures
        match res {
            Ok(v) => spec_decrypt(data@, passcode) == Ok::<Seq<char>, DecryptFailure>(v@),
            Err(e) => spec_decrypt(data@, passcode) == Err::<Seq<char>, DecryptFailure>(e@),
        },
{
    let items = split_whitespace(data);
    let ghost all = char_vecs(items@);
    let mut out: Vec<char> = Vec::new();
    let n = items.len();
    assert(all.skip(0) =~= all);
    assert(out@ + Seq::<char>::empty() =~= out@);
    for i in 0..n
        invariant
            n == items.len(),
            all == char_vecs(items@),
            all == whitespace_tokens(data@),
            decode_items(all, passcode) == prepend(out@, decode_items(all.skip(i as int), passcode)),
    {
        let ghost rest = all.skip(i as int);
        assert(rest[0] == items@[i as int]@);
        assert(rest.drop_first() =~= all.skip(i + 1));
        let c = match decode_item_chars(&items[i], passcode) {
            Ok(c) => c,
            Err(e) => {
                return Err(e);
            },
        };
        proof {
            let tail = decode_items(all.skip(i + 1), passcode);
            match tail {
                Ok(t) => {
                    assert(out@ + (seq![c] + t) =~= out@.push(c) + t);
                },
                Err(_) => {},
            }
        }
        out.push(c);
    }
    assert(all.skip(n as int) =~= Seq::<Seq<char>>::empty());
    assert(out@ + Seq::<char>::empty() =~= out@);
    Ok(trim_chars(&out))
}

/// Decrypt given `data` with the provided `passcode`
///
/// Every whitespace-separated item of `data` is read as a decimal `i32` and
/// stands for one character; the result is those characters without leading
/// and trailing whitespace. The first item that does not decode decides the
/// error.
pub fn decrypt(data: &str, passcode: u16) -> (res: Result<String, DecryptError>)
    ensures
        match res {
            Ok(s) => spec_decrypt(data@, passcode) == Ok::<Seq<char>, DecryptFailure>(s@),
            Err(e) => spec_decrypt(data@, passcode) == Err::<Seq<char>, DecryptFailure>(e@),
        },
{
    let chars = str_chars(data);
    match decrypt_chars(&chars, passcode) {
        Ok(out) => Ok(chars_to_string(&out)),
        Err(e) => Err(e),
    }
}

} // verus!

verus! {

// ---------------------------------------------------------------------------
// The game's encryption, and why decryption undoes it
// ---------------------------------------------------------------------------
/// The number the game writes for character `c` under `passcode`.
pub open spec fn encoded_number(c: char, passcode: u16) -> nat {
    (c as nat) * (SCALE as nat) + HALFMAX as nat + passcode as nat
}

/// The game's encryption of `text` under `passcode`: the decimal numbers of
/// its characters, joined by single spaces.
pub open spec fn spec_encrypt(text: Seq<char>, passcode: u16) -> Seq<char>
    decreases text.len(),
{
    if text.len() == 0 {
        Seq::empty()
    } else if text.len() == 1 {
        decimal(encoded_number(text[0], passcode))
    } else {
        decimal(encoded_number(text[0], passcode)) + seq![' '] + spec_encrypt(
            text.drop_first(),
            passcode,
        )
    }
}

/// The items the encryption of `text` is made of.
pub open spec fn encrypted_items(text: Seq<char>, passcode: u16) -> Seq<Seq<char>> {
    text.map_values(|c: char| decimal(encoded_number(c, passcode)))
}

/// An item followed by a space is split off as a whole.
proof fn lemma_tokens_item_space(item: Seq<char>, rest: Seq<char>)
    requires
        item.len() >= 1,
        forall|m: int| 0 <= m < item.len() ==> !spec_is_whitespace(#[trigger] item[m]),
    ensures
        whitespace_tokens(item + seq![' '] + rest) == seq![item] + whitespace_tokens(rest),
{
    let s = item + seq![' '] + rest;
    assert forall|m: int| 0 <= m < item.len() implies !spec_is_whitespace(#[trigger] s[m]) by {
        assert(s[m] == item[m]);
    }
    assert(s[item.len() as int] == ' ');
    lemma_leading_run_exact(s, item.len());
    assert(s[0] == item[0]);
    assert(s.take(item.len() as int) =~= item);
    let after = s.skip(item.len() as int);
    assert(after =~= seq![' '] + rest);
    assert(after[0] == ' ');
    assert(spec_is_whitespace(after[0]));
    assert(after.drop_first() =~= rest);
    assert(whitespace_tokens(after) == whitespace_tokens(rest));
    assert(!spec_is_whitespace(s[0]));
    assert(whitespace_tokens(s) == seq![s.take(item.len() as int)] + whitespace_tokens(after));
}

/// The encryption of `text` splits into one item per character.
proof fn lemma_encrypt_tokens(text: Seq<char>, passcode: u16)
    ensures
        whitespace_tokens(spec_encrypt(text, passcode)) == encrypted_items(text, passcode),
    decreases text.len(),
{
    if text.len() == 0 {
        assert(encrypted_items(text, passcode) =~= Seq::<Seq<char>>::empty());
    } else {
        let item = decimal(encoded_number(text[0], passcode));
        lemma_decimal_digits(encoded_number(text[0], passcode));
        assert forall|m: int| 0 <= m < item.len() implies !spec_is_whitespace(#[trigger] item[m]) by {
            assert(is_digit(item[m]));
        }
        if text.len() == 1 {
            lemma_leading_run_exact(item, item.len());
            assert(item.take(item.len() as int) =~= item);
            assert(item.skip(item.len() as int) =~= Seq::<char>::empty());
            assert(!spec_is_whitespace(item[0]));
            assert(whitespace_tokens(item) == seq![item] + whitespace_tokens(Seq::<char>::empty()));
            assert(encrypted_items(text, passcode) =~= seq![item]);
            assert(seq![item] + Seq::<Seq<char>>::empty() =~= seq![item]);
        } else {
            lemma_tokens_item_space(item, spec_encrypt(text.drop_first(), passcode));
            lemma_encrypt_tokens(text.drop_first(), passcode);
            assert(encrypted_items(text, passcode) =~= seq![item] + encrypted_items(
                text.drop_first(),
                passcode,
            ));
        }
    }
}

/// How far the characters of a text encrypted under `passcode` move up when
/// it is decrypted under the smaller passcode `key`.
pub open spec fn key_shift(passcode: u16, key: u16) -> nat {
    ((passcode - key) / (SCALE as int)) as nat
}

/// The character `shift` codes above `c`.
pub open spec fn shifted_char(c: char, shift: nat) -> char {
    (c as nat + shift) as char
}

/// Whether every character of `text`, moved up by `shift`, is still a character.
pub open spec fn shift_stays_chars(text: Seq<char>, shift: nat) -> bool {
    forall|i: int| 0 <= i < text.len() ==> #[trigger] is_char_code((text[i] as nat + shift) as u32)
        && text[i] as nat + shift <= 0x10FFFF
}

/// Every character of `text` moved up by `shift`.
pub open spec fn shift_text(text: Seq<char>, shift: nat) -> Seq<char> {
    text.map_values(|c: char| shifted_char(c, shift))
}

/// The code of a character is a character code.
proof fn lemma_char_code(c: char)
    ensures
        c as nat <= 0x10FFFF,
        is_char_code(c as u32),
        is_char_code((c as nat + 0) as u32),
        shifted_char(c, 0) == c,
{
}

/// A character's number decrypts under a passcode `key` at most `passcode`
/// to the character `(passcode - key) / 1822` codes above it, when there is one.
proof fn lemma_decode_encoded_item(c: char, passcode: u16, key: u16)
    requires
        key <= passcode,
        is_char_code((c as nat + key_shift(passcode, key)) as u32),
        c as nat + key_shift(passcode, key) <= 0x10FFFF,
    ensures
        decode_item(decimal(encoded_number(c, passcode)), key) == Ok::<char, DecryptFailure>(
            shifted_char(c, key_shift(passcode, key)),
        ),
{
    let n = encoded_number(c, passcode);
    let d = passcode - key;
    let k = key_shift(passcode, key);
    assert(c as nat <= 0x10FFFF);
    assert(n <= i32::MAX) by (nonlinear_arith)
        requires
            n == (c as nat) * 1822 + 32767 + passcode as nat,
            c as nat <= 0x10FFFF,
            passcode <= 0xFFFF,
    ;
    lemma_parse_decimal(n);
    let raw = n - HALFMAX - key;
    assert(raw == (c as nat) * 1822 + d);
    assert(wrap_i32(raw) == raw);
    assert(raw / 1822 == c as nat + k) by (nonlinear_arith)
        requires
            raw == (c as nat) * 1822 + d,
            0 <= d,
            k == d / 1822,
    ;
    assert(decoded_value(n as i32, key) == c as int + k);
}

/// The items of an encryption decrypt under `key` to the text moved up by
/// `(passcode - key) / 1822`.
proof fn lemma_decode_encrypted_items(text: Seq<char>, passcode: u16, key: u16)
    requires
        key <= passcode,
        shift_stays_chars(text, key_shift(passcode, key)),
    ensures
        decode_items(encrypted_items(text, passcode), key) == Ok::<Seq<char>, DecryptFailure>(
            shift_text(text, key_shift(passcode, key)),
        ),
    decreases text.len(),
{
    let items = encrypted_items(text, passcode);
    let k = key_shift(passcode, key);
    if text.len() == 0 {
        assert(shift_text(text, k) =~= Seq::<char>::empty());
    } else {
        assert(is_char_code((text[0] as nat + k) as u32));
        lemma_decode_encoded_item(text[0], passcode, key);
        assert(items.drop_first() =~= encrypted_items(text.drop_first(), passcode));
        assert forall|i: int| 0 <= i < text.drop_first().len() implies #[trigger] is_char_code(
            (text.drop_first()[i] as nat + k) as u32,
        ) && text.drop_first()[i] as nat + k <= 0x10FFFF by {
            assert(text.drop_first()[i] == text[i + 1]);
        }
        lemma_decode_encrypted_items(text.drop_first(), passcode, key);
        assert(seq![shifted_char(text[0], k)] + shift_text(text.drop_first(), k) =~= shift_text(
            text,
            k,
        ));
    }
}

/// Decrypting under a smaller passcode moves characters up: a text encrypted
/// under `passcode` decrypts under `key <= passcode` to the text with every
/// character moved up by `(passcode - key) / 1822` codes (without leading and
/// trailing whitespace), when all of those are characters.
pub proof fn lemma_decrypt_encrypt_shifted(text: Seq<char>, passcode: u16, key: u16)
    requires
        key <= passcode,
        shift_stays_chars(text, key_shift(passcode, key)),
    ensures
        spec_decrypt(spec_encrypt(text, passcode), key) == Ok::<Seq<char>, DecryptFailure>(
            trim(shift_text(text, key_shift(passcode, key))),
        ),
{
    lemma_encrypt_tokens(text, passcode);
    lemma_decode_encrypted_items(text, passcode, key);
}

/// Decryption undoes the game's encryption: a text encrypted under `passcode`
/// decrypts, under `passcode` or any of the 1821 passcodes below it, to the
/// text without leading and trailing whitespace.
pub proof fn lemma_decrypt_encrypt(text: Seq<char>, passcode: u16, key: u16)
    requires
        key <= passcode < key + SCALE,
    ensures
        spec_decrypt(spec_encrypt(text, passcode), key) == Ok::<Seq<char>, DecryptFailure>(
            trim(text),
        ),
{
    assert(key_shift(passcode, key) == 0);
    assert forall|i: int| 0 <= i < text.len() implies #[trigger] is_char_code(
        (text[i] as nat + 0) as u32,
    ) && text[i] as nat + 0 <= 0x10FFFF by {
        lemma_char_code(text[i]);
    }
    lemma_decrypt_encrypt_shifted(text, passcode, key);
    assert forall|i: int| 0 <= i < text.len() implies shift_text(text, 0)[i] == text[i] by {
        lemma_char_code(text[i]);
    }
    assert(shift_text(text, 0) =~= text);
}

/// The game's encryption writes only digits and spaces.
pub proof fn lemma_encrypt_chars(text: Seq<char>, passcode: u16)
    ensures
        forall|i: int|
            0 <= i < spec_encrypt(text, passcode).len() ==> is_digit(
                #[trigger] spec_encrypt(text, passcode)[i],
            ) || spec_encrypt(text, passcode)[i] == ' ',
    decreases text.len(),
{
    if text.len() > 0 {
        let item = decimal(encoded_number(text[0], passcode));
        let rest = spec_encrypt(text.drop_first(), passcode);
        lemma_decimal_digits(encoded_number(text[0], passcode));
        lemma_encrypt_chars(text.drop_first(), passcode);
        let e = spec_encrypt(text, passcode);
        assert forall|i: int| 0 <= i < e.len() implies is_digit(#[trigger] e[i]) || e[i] == ' ' by {
            if text.len() == 1 {
                assert(e[i] == item[i]);
            } else if i < item.len() {
                assert(e[i] == item[i]);
            } else if i == item.len() {
                assert(e[i] == ' ');
            } else {
                assert(e[i] == rest[i - item.len() - 1]);
            }
        }
    }
}

/// A decryption is the decoded characters with the whitespace at both ends
/// removed, and nothing else: the characters the items stand for, cut to a
/// contiguous piece outside of which everything is whitespace; the result
/// neither starts nor ends with whitespace.
pub proof fn lemma_decrypt_trims_decoded(data: Seq<char>, passcode: u16)
    ensures
        spec_decrypt(data, passcode) matches Ok(t) ==> {
            &&& t.len() == 0 || (!spec_is_whitespace(t[0]) && !spec_is_whitespace(t.last()))
            &&& decode_items(whitespace_tokens(data), passcode) matches Ok(d) && exists|i: int, j: int|
                #![trigger d.subrange(i, j)]
                0 <= i <= j <= d.len() && t == d.subrange(i, j) && (forall|m: int|
                    0 <= m < i ==> spec_is_whitespace(#[trigger] d[m])) && (forall|m: int|
                    j <= m < d.len() ==> spec_is_whitespace(#[trigger] d[m]))
        },
{
    if let Ok(d) = decode_items(whitespace_tokens(data), passcode) {
        lemma_trim_removes_outer_whitespace(d);
    }
}

} // verus!
