use hn_decypher::decrypt::DecryptError;
use hn_decypher::headers::{decrypt_headers, HeaderDecryptError};
use hn_decypher::output::{output_behavior, produce_output, OutputBehavior};
use hn_decypher::{decypher_str, DecypherError, DEFAULT_PASSCODE};

/// The game's encryption: each character becomes `code * 1822 + 32767 + passcode`,
/// the numbers joined by single spaces.
fn encrypt(text: &str, passcode: u16) -> String {
    text.chars()
        .map(|c| format!("{}", c as i64 * 1822 + 32767 + passcode as i64))
        .collect::<Vec<_>>()
        .join(" ")
}

/// A header line as the game writes it: the check under `passcode`, the other
/// fields under the default passcode.
fn header(msg: &str, ip: &str, ext: Option<&str>, passcode: u16) -> String {
    let mut h = format!(
        "#DEC_ENC::{}::{}::{}",
        encrypt(msg, DEFAULT_PASSCODE),
        encrypt(ip, DEFAULT_PASSCODE),
        encrypt("ENCODED", passcode)
    );
    if let Some(e) = ext {
        h.push_str("::");
        h.push_str(&encrypt(e, DEFAULT_PASSCODE));
    }
    h
}

#[test]
fn headers_find_smallest_passcode() {
    let h = header("Hi there", "10.0.0.1", Some("txt"), DEFAULT_PASSCODE);
    let values = decrypt_headers(&h).unwrap();
    assert_eq!(values.passcode, DEFAULT_PASSCODE - 1821);
    assert_eq!(values.header_msg, "Hi there");
    assert_eq!(values.src_ip, "10.0.0.1");
    assert_eq!(values.file_extension.as_deref(), Some("txt"));
}

#[test]
fn headers_small_passcode_found_as_zero() {
    let h = header("m", "i", None, 1000);
    let values = decrypt_headers(&h).unwrap();
    assert_eq!(values.passcode, 0);
    assert_eq!(values.header_msg, "m");
    assert_eq!(values.src_ip, "i");
    assert_eq!(values.file_extension, None);
}

#[test]
fn headers_too_few_fields() {
    match decrypt_headers("#DEC_ENC::a::b") {
        Err(HeaderDecryptError::InvalidHeaderLength(n)) => assert_eq!(n, 3),
        other => panic!("unexpected {:?}", other),
    }
    // "::" pieces are found left to right without overlap
    match decrypt_headers("#DEC_ENC:::a") {
        Err(HeaderDecryptError::InvalidHeaderLength(n)) => assert_eq!(n, 2),
        other => panic!("unexpected {:?}", other),
    }
}

#[test]
fn headers_missing_prefix() {
    match decrypt_headers("#DEC EN::a::b::c") {
        Err(HeaderDecryptError::MissingPrefix) => {}
        other => panic!("unexpected {:?}", other),
    }
    // the prefix is written with an underscore
    let spaced = header("m", "i", None, 10).replacen("#DEC_ENC", "#DEC ENC", 1);
    match decrypt_headers(&spaced) {
        Err(HeaderDecryptError::MissingPrefix) => {}
        other => panic!("unexpected {:?}", other),
    }
}

#[test]
fn headers_fields_use_default_passcode() {
    // "A" and "1" under 4065, "ENCODED" under 4065: 2244 is the smallest
    // passcode that reads the check as "ENCODED"
    let h = "#DEC_ENC::155262::126110::162550 178948 158906 180770 160728 162550 160728";
    let values = decrypt_headers(h).unwrap();
    assert_eq!(values.passcode, 2244);
    assert_eq!(values.header_msg, "A");
    assert_eq!(values.src_ip, "1");
    assert_eq!(values.file_extension, None);
    // the same fields with the check written under passcode 0
    let h = "#DEC_ENC::155262::126110::158485 174883 154841 176705 156663 158485 156663";
    let values = decrypt_headers(h).unwrap();
    assert_eq!(values.passcode, 0);
    assert_eq!(values.header_msg, "A");
    assert_eq!(values.src_ip, "1");
}

#[test]
fn headers_check_never_matches() {
    // 151197 decodes to one character under every passcode, never "ENCODED";
    // the fields that cannot be decrypted are never reached
    match decrypt_headers("#DEC_ENC::1::1::151197") {
        Err(HeaderDecryptError::DeterminePasscodeFail) => {}
        other => panic!("unexpected {:?}", other),
    }
}

#[test]
fn headers_no_passcode_fits() {
    match decrypt_headers("#DEC_ENC::::::") {
        Err(HeaderDecryptError::DeterminePasscodeFail) => {}
        other => panic!("unexpected {:?}", other),
    }
}

#[test]
fn headers_check_field_error() {
    match decrypt_headers("#DEC_ENC::1::2::zz") {
        Err(HeaderDecryptError::DecryptError(DecryptError::ParseIntError(item, _))) => {
            assert_eq!(item, "zz")
        }
        other => panic!("unexpected {:?}", other),
    }
}

#[test]
fn headers_field_error_after_passcode() {
    let h = format!(
        "#DEC_ENC::oops::{}::{}",
        encrypt("ip", DEFAULT_PASSCODE),
        encrypt("ENCODED", 10)
    );
    match decrypt_headers(&h) {
        Err(HeaderDecryptError::DecryptError(DecryptError::ParseIntError(item, _))) => {
            assert_eq!(item, "oops")
        }
        other => panic!("unexpected {:?}", other),
    }
}

#[test]
fn decypher_whole_file() {
    let content = format!(
        "{}\n{}",
        header("note", "1.2.3.4", None, DEFAULT_PASSCODE),
        encrypt("The body of the file.", DEFAULT_PASSCODE)
    );
    let d = decypher_str(&content).unwrap();
    assert_eq!(d.body, "The body of the file.");
    assert_eq!(d.header_values.header_msg, "note");
    assert_eq!(d.header_values.src_ip, "1.2.3.4");
}

#[test]
fn decypher_file_without_password() {
    let content = "#DEC_ENC::155262::126110::162550 178948 158906 180770 160728 162550 160728\n155262";
    let d = decypher_str(content).unwrap();
    assert_eq!(d.header_values.passcode, 2244);
    assert_eq!(d.header_values.header_msg, "A");
    assert_eq!(d.header_values.src_ip, "1");
    assert_eq!(d.header_values.file_extension, None);
    assert_eq!(d.body, "A");
}

#[test]
fn decypher_body_uses_file_passcode() {
    let content = format!(
        "{}\n{}",
        header("msg", "ip", Some("txt"), 9000),
        encrypt("  secret body ", 9000)
    );
    let d = decypher_str(&content).unwrap();
    assert_eq!(d.header_values.passcode, 9000 - 1821);
    assert_eq!(d.header_values.header_msg, "msg");
    assert_eq!(d.header_values.file_extension.as_deref(), Some("txt"));
    assert_eq!(d.body, "secret body");
}

#[test]
fn decypher_ignores_lines_after_body() {
    let content = format!(
        "{}\n{}\nignored",
        header("n", "i", None, 77),
        encrypt("body", 77)
    );
    assert_eq!(decypher_str(&content).unwrap().body, "body");
}

#[test]
fn decypher_missing_body() {
    match decypher_str("#DEC_ENC::a::b::c") {
        Err(DecypherError::MissingHeadersOrBody) => {}
        other => panic!("unexpected {:?}", other),
    }
}

#[test]
fn decypher_errors_are_attributed() {
    match decypher_str("nonsense\nbody") {
        Err(DecypherError::DecryptHeaders(HeaderDecryptError::InvalidHeaderLength(1))) => {}
        other => panic!("unexpected {:?}", other),
    }
    let content = format!("{}\nnot numbers", header("n", "i", None, 3000));
    match decypher_str(&content) {
        Err(DecypherError::DecryptBody(DecryptError::ParseIntError(item, _))) => {
            assert_eq!(item, "not")
        }
        other => panic!("unexpected {:?}", other),
    }
}

#[test]
fn behavior_from_flags() {
    assert_eq!(output_behavior(true, false), OutputBehavior::Verbatim);
    assert_eq!(output_behavior(true, true), OutputBehavior::Verbatim);
    assert_eq!(output_behavior(false, true), OutputBehavior::DecryptQuiet);
    assert_eq!(output_behavior(false, false), OutputBehavior::DecryptWithHeaders);
}

#[test]
fn output_for_each_behavior() {
    let content = format!("{}\n{}", header("m", "ip", None, 5), encrypt("text", 5));
    let verbatim = produce_output(OutputBehavior::Verbatim, content.clone()).unwrap();
    assert_eq!(verbatim.text, content);
    assert!(verbatim.headers.is_none());
    let quiet = produce_output(OutputBehavior::DecryptQuiet, content.clone()).unwrap();
    assert_eq!(quiet.text, "text");
    assert!(quiet.headers.is_none());
    let loud = produce_output(OutputBehavior::DecryptWithHeaders, content).unwrap();
    assert_eq!(loud.text, "text");
    assert_eq!(loud.headers.unwrap().src_ip, "ip");
    assert!(produce_output(OutputBehavior::DecryptQuiet, "no newline".to_string()).is_err());
}
