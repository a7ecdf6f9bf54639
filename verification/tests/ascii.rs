use snakecase::ascii::to_snakecase;
use snakecase::Converted;

/// Run the byte engine on a string, returning the text the caller ends up
/// with and whether the input was kept as it is.
fn convert(input: &str) -> (String, bool) {
    let bytes: Vec<u8> = input.as_bytes().to_vec();
    match to_snakecase(&bytes) {
        Converted::Borrowed => (input.to_string(), true),
        Converted::Owned(v) => (v.iter().map(|&b| b as char).collect(), false),
    }
}

fn check(input: &str, expected: &str, borrowed: bool) {
    let (out, b) = convert(input);
    assert_eq!(out, expected, "input: {:?}", input);
    assert_eq!(b, borrowed, "input: {:?}", input);
}

/// The canonical shape: empty, or lowercase/digit words joined by single
/// underscores with no leading or trailing separator.
fn canonical(s: &str) -> bool {
    let b = s.as_bytes();
    for (i, &c) in b.iter().enumerate() {
        let word = c.is_ascii_lowercase() || c.is_ascii_digit();
        let sep = c == b'_'
            && i > 0
            && i + 1 < b.len()
            && (b[i + 1].is_ascii_lowercase() || b[i + 1].is_ascii_digit());
        if !word && !sep {
            return false;
        }
    }
    true
}

#[test]
fn empty() {
    check("", "", true);
}

#[test]
fn equal() {
    check("sample_text", "sample_text", true);
}

#[test]
fn space() {
    check("sample text", "sample_text", false);
}

#[test]
fn dash() {
    check("sample-text", "sample_text", false);
}

#[test]
fn multi_underscore() {
    check("sample___text", "sample_text", false);
}

#[test]
fn ending_underscore() {
    check("sample_text_", "sample_text", false);
}

#[test]
fn ending_multi_underscore() {
    check("sample_text__", "sample_text", false);
}

#[test]
fn uppercase_sep() {
    check("sampleText", "sample_text", false);
}

#[test]
fn multi_uppercase() {
    check(
        "inviteYourCustomersAddInvites",
        "invite_your_customers_add_invites",
        false,
    );
}

#[test]
fn space_with_uppercase() {
    check("sample 2 Text", "sample_2_text", false);
}

#[test]
fn special_chars() {
    check("FOO:BAR$BAZ", "foo_bar_baz", false);
}

#[test]
fn caps() {
    check("samPLE text", "sam_ple_text", false);
}

#[test]
fn multi_spaces() {
    check("   sample   2    Text   ", "sample_2_text", false);
}

#[test]
fn special_with_spaces() {
    check("   $#$sample   2    Text   ", "sample_2_text", false);
}

#[test]
fn caps_with_space_sep() {
    check("SAMPLE 2 TEXT", "sample_2_text", false);
}

#[test]
fn leading_underscore_special() {
    check("___$$Base64Encode", "base64_encode", false);
}

#[test]
fn caps_hash_sep() {
    check("FOO#BAR#BAZ", "foo_bar_baz", false);
}

#[test]
fn domain() {
    check("something.com", "something_com", false);
}

#[test]
fn special_leading_and_trailing() {
    check("$something%", "something", false);
}

#[test]
fn camel_case() {
    check("CStringRef", "cstring_ref", false);
}

#[test]
fn unicode_mixed() {
    // every byte of a multi-byte character is discarded
    check("ẞ•¶§ƒ˚foo˙∆˚¬", "foo", false);
}

#[test]
fn unicode_uppercase() {
    check("ẞ", "", false);
}

#[test]
fn special_chars_long() {
    check("FOO:BAR$BAZ__Sample    Text___", "foo_bar_baz_sample_text", false);
}

#[test]
fn digit_underscore() {
    check("5test", "5test", true);
}

#[test]
fn character_digit() {
    check("test5", "test5", true);
}

#[test]
fn uppercase_digit() {
    check("THE5r", "the5r", false);
}

#[test]
fn digit_uppercase() {
    check("5TEst", "5test", false);
}

#[test]
fn starts_with_garbage() {
    check("@%#&5TEst", "5test", false);
}

#[test]
fn complex_random() {
    check("lk0B@bFmjrLQ_Z6YL", "lk0_b_b_fmjr_lq_z6yl", false);
}

#[test]
fn complex_random2() {
    check("@49L0S145_¬fwHƒ0TSLNVp", "49l0s145_fw_h_0tslnvp", false);
}

#[test]
fn underscore_digit_uppercase() {
    check("_5TEst", "5test", false);
}

#[test]
fn end_caps() {
    check("edf_6N", "edf_6n", false);
}

#[test]
fn underscore_letter_upper() {
    check("f_pX9", "f_p_x9", false);
}

#[test]
fn underscore_letter_digit_upper() {
    check("p_z9Rg", "p_z9_rg", false);
}

#[test]
fn only_discardable() {
    check("$%&   @", "", false);
}

#[test]
fn underscore_then_digit_is_canonical() {
    check("a_1", "a_1", true);
}

#[test]
fn leading_underscore() {
    check("_a", "a", false);
}

#[test]
fn idempotent_on_samples() {
    for input in [
        "",
        "sample_text",
        "FOO:BAR$BAZ__Sample    Text___",
        "lk0B@bFmjrLQ_Z6YL",
        "   $#$sample   2    Text   ",
        "_5TEst",
    ] {
        let (once, _) = convert(input);
        let (twice, borrowed) = convert(&once);
        assert_eq!(once, twice, "input: {:?}", input);
        // the first pass left nothing to do for the second
        assert!(borrowed, "input: {:?}", input);
    }
}

#[test]
fn output_is_canonical_on_samples() {
    for input in [
        "",
        "sample text",
        "FOO:BAR$BAZ__Sample    Text___",
        "@%#&5TEst",
        "___$$Base64Encode",
        "ẞ•¶§ƒ˚foo˙∆˚¬",
    ] {
        let (out, _) = convert(input);
        assert!(canonical(&out), "input: {:?}, output: {:?}", input, out);
    }
}

#[test]
fn no_uppercase_in_output() {
    for input in ["SAMPLE 2 TEXT", "CStringRef", "lk0B@bFmjrLQ_Z6YL", "THE5r"] {
        let (out, _) = convert(input);
        assert!(
            !out.bytes().any(|b| b.is_ascii_uppercase()),
            "input: {:?}, output: {:?}",
            input,
            out
        );
    }
}
