use snakecase::unicode::to_snakecase;
use snakecase::Converted;

/// Run the codepoint engine on a string, returning the text the caller ends
/// up with and whether the input was kept as it is.
fn convert(input: &str) -> (String, bool) {
    let chars: Vec<char> = input.chars().collect();
    match to_snakecase(&chars) {
        Converted::Borrowed => (input.to_string(), true),
        Converted::Owned(v) => (v.into_iter().collect(), false),
    }
}

fn check(input: &str, expected: &str, borrowed: bool) {
    let (out, b) = convert(input);
    assert_eq!(out, expected, "input: {:?}", input);
    assert_eq!(b, borrowed, "input: {:?}", input);
}

/// The canonical shape: empty, or words of lowercase or numeric
/// non-uppercase codepoints joined by single underscores with no leading
/// or trailing separator.
fn canonical(s: &str) -> bool {
    let c: Vec<char> = s.chars().collect();
    let kept = |d: char| d != '_' && !d.is_uppercase() && (d.is_lowercase() || d.is_numeric());
    for i in 0..c.len() {
        let word = kept(c[i]);
        let sep = c[i] == '_' && i > 0 && i + 1 < c.len() && kept(c[i + 1]);
        if !word && !sep {
            return false;
        }
    }
    true
}

#[test]
fn uni_empty() {
    check("", "", true);
}

#[test]
fn uni_equal() {
    check("sample_text", "sample_text", true);
}

#[test]
fn uni_space() {
    check("sample text", "sample_text", false);
}

#[test]
fn uni_dash() {
    check("sample-text", "sample_text", false);
}

#[test]
fn uni_multi_underscore() {
    check("sample___text", "sample_text", false);
}

#[test]
fn uni_ending_underscore() {
    check("sample_text_", "sample_text", false);
}

#[test]
fn uni_ending_multi_underscore() {
    check("sample_text__", "sample_text", false);
}

#[test]
fn uni_uppercase_sep() {
    check("sampleText", "sample_text", false);
}

#[test]
fn uni_multi_uppercase() {
    check(
        "inviteYourCustomersAddInvites",
        "invite_your_customers_add_invites",
        false,
    );
}

#[test]
fn uni_space_with_uppercase() {
    check("sample 2 Text", "sample_2_text", false);
}

#[test]
fn uni_special_chars() {
    check("FOO:BAR$BAZ", "foo_bar_baz", false);
}

#[test]
fn uni_caps() {
    check("samPLE text", "sam_ple_text", false);
}

#[test]
fn uni_multi_spaces() {
    check("   sample   2    Text   ", "sample_2_text", false);
}

#[test]
fn uni_special_with_spaces() {
    check("   $#$sample   2    Text   ", "sample_2_text", false);
}

#[test]
fn uni_caps_with_space_sep() {
    check("SAMPLE 2 TEXT", "sample_2_text", false);
}

#[test]
fn uni_leading_underscore_special() {
    check("___$$Base64Encode", "base64_encode", false);
}

#[test]
fn uni_caps_hash_sep() {
    check("FOO#BAR#BAZ", "foo_bar_baz", false);
}

#[test]
fn uni_domain() {
    check("something.com", "something_com", false);
}

#[test]
fn uni_special_leading_and_trailing() {
    check("$something%", "something", false);
}

#[test]
fn uni_camel_case() {
    check("CStringRef", "cstring_ref", false);
}

#[test]
fn uni_mixed() {
    // non-ASCII letters are kept, symbols are discarded
    check("ẞ•¶§ƒ˚foo˙∆˚¬", "ß_ƒ_foo", false);
}

#[test]
fn uni_uppercase_sharp_s() {
    // the capital sharp s lowercases to its small form
    check("ẞ", "ß", false);
}

#[test]
fn uni_special_chars_long() {
    check("FOO:BAR$BAZ__Sample    Text___", "foo_bar_baz_sample_text", false);
}

#[test]
fn uni_digit_underscore() {
    check("5test", "5test", true);
}

#[test]
fn uni_character_digit() {
    check("test5", "test5", true);
}

#[test]
fn uni_uppercase_digit() {
    check("THE5r", "the5r", false);
}

#[test]
fn uni_digit_uppercase() {
    check("5TEst", "5test", false);
}

#[test]
fn uni_starts_with_garbage() {
    check("@%#&5TEst", "5test", false);
}

#[test]
fn uni_complex_random() {
    check("lk0B@bFmjrLQ_Z6YL", "lk0_b_b_fmjr_lq_z6yl", false);
}

#[test]
fn uni_complex_random2() {
    // the lowercase non-ASCII letter inside a word is kept in place
    check("@49L0S145_¬fwHƒ0TSLNVp", "49l0s145_fw_hƒ0_tslnvp", false);
}

#[test]
fn uni_underscore_digit_uppercase() {
    check("_5TEst", "5test", false);
}

#[test]
fn uni_end_caps() {
    check("edf_6N", "edf_6n", false);
}

#[test]
fn uni_underscore_letter_upper() {
    check("f_pX9", "f_p_x9", false);
}

#[test]
fn uni_underscore_letter_digit_upper() {
    check("p_z9Rg", "p_z9_rg", false);
}

#[test]
fn uni_lowercase_nonascii_is_canonical() {
    check("ƒun_42", "ƒun_42", true);
}

#[test]
fn uni_trailing_digit_word() {
    // a word that is a single digit at the very end of the input
    check("a 5", "a_5", false);
}

#[test]
fn uni_only_discardable() {
    check("•¶§˚˙∆˚¬", "", false);
}

#[test]
fn uni_uncased_letter_breaks_word() {
    // a letter that is neither cased nor numeric is a word break
    check("aあb", "a_b", false);
}

#[test]
fn uni_uncased_letter_at_end() {
    check("aあ", "a", false);
}

#[test]
fn uni_roman_numeral_lowercased() {
    // uppercase and numeric at once: lowercased like any uppercase letter
    check("aⅠ", "a_ⅰ", false);
}

#[test]
fn uni_roman_numeral_acronym() {
    check("Ⅷk", "ⅷk", false);
}

#[test]
fn uni_idempotent_on_samples() {
    for input in [
        "",
        "sample_text",
        "FOO:BAR$BAZ__Sample    Text___",
        "ẞ•¶§ƒ˚foo˙∆˚¬",
        "@49L0S145_¬fwHƒ0TSLNVp",
        "_5TEst",
        "aあb",
        "aⅠ",
    ] {
        let (once, _) = convert(input);
        let (twice, borrowed) = convert(&once);
        assert_eq!(once, twice, "input: {:?}", input);
        // the first pass left nothing to do for the second
        assert!(borrowed, "input: {:?}", input);
    }
}

#[test]
fn uni_output_is_canonical_on_samples() {
    for input in [
        "",
        "sample text",
        "ẞ•¶§ƒ˚foo˙∆˚¬",
        "@49L0S145_¬fwHƒ0TSLNVp",
        "___$$Base64Encode",
        "aあb",
        "aⅠ",
    ] {
        let (out, _) = convert(input);
        assert!(canonical(&out), "input: {:?}, output: {:?}", input, out);
    }
}

#[test]
fn uni_no_uppercase_in_output() {
    for input in ["SAMPLE 2 TEXT", "CStringRef", "ẞ•¶§ƒ˚foo˙∆˚¬", "ẞ", "aⅠ", "Ⅷk"] {
        let (out, _) = convert(input);
        assert!(
            !out.chars().any(|c| c.is_uppercase()),
            "input: {:?}, output: {:?}",
            input,
            out
        );
    }
}
