use clove_core::base64::decode;

/// 0..=255 as another implementation encodes it.
const ALL_BYTES_B64: &str = "\
AAECAwQFBgcICQoLDA0ODxAREhMUFRYXGBkaGxwdHh8gISIjJCUmJygpKissLS4vMDEyMzQ1Njc4\
OTo7PD0+P0BBQkNERUZHSElKS0xNTk9QUVJTVFVWV1hZWltcXV5fYGFiY2RlZmdoaWprbG1ub3Bx\
cnN0dXZ3eHl6e3x9fn+AgYKDhIWGh4iJiouMjY6PkJGSk5SVlpeYmZqbnJ2en6ChoqOkpaanqKmq\
q6ytrq+wsbKztLW2t7i5uru8vb6/wMHCw8TFxsfIycrLzM3Oz9DR0tPU1dbX2Nna29zd3t/g4eLj\
5OXm5+jp6uvs7e7v8PHy8/T19vf4+fr7/P3+/w==";

/// RFC 4648's test vectors, which exercise all three padding cases.
#[test]
fn rfc4648_vectors() {
    for (encoded, plain) in [
        ("", ""),
        ("Zg==", "f"),
        ("Zm8=", "fo"),
        ("Zm9v", "foo"),
        ("Zm9vYg==", "foob"),
        ("Zm9vYmE=", "fooba"),
        ("Zm9vYmFy", "foobar"),
    ] {
        assert_eq!(decode(encoded).as_deref(), Some(plain.as_bytes()), "decoding {encoded:?}");
    }
}

#[test]
fn padding_is_optional() {
    // Every vector above, with the padding stripped, decodes the same.
    assert_eq!(decode("Zg").as_deref(), Some(&b"f"[..]));
    assert_eq!(decode("Zm8").as_deref(), Some(&b"fo"[..]));
    assert_eq!(decode("Zm9vYg").as_deref(), Some(&b"foob"[..]));
}

#[test]
fn whitespace_anywhere_is_ignored() {
    // What a MIME-wrapping encoder produces, and what a shell here-doc does to
    // it on the way in.
    assert_eq!(decode("Zm9v\r\nYmFy").as_deref(), Some(&b"foobar"[..]));
    assert_eq!(decode("  Zm9v Ym Fy\t\n").as_deref(), Some(&b"foobar"[..]));
}

#[test]
fn the_two_bytes_that_differ_from_the_i2p_alphabet_are_refused() {
    // A destination pasted into a metainfo field must not half-decode.
    assert_eq!(decode("Zm9-"), None);
    assert_eq!(decode("Zm9~"), None);
}

#[test]
fn malformed_inputs_are_refused() {
    for bad in [
        "Z",         // 4n+1 symbols encode no whole byte
        "Zm9vYg=",   // padding disagrees with the symbol count
        "Zm9vY===",  // more than two pad bytes
        "Zg==Zg==",  // two encodings concatenated
        "Zm9v!",     // outside the alphabet
        "Zm9v\u{0}", // NUL is not whitespace
        "AB",        // non-zero trailing bits; "AA" is the canonical form
    ] {
        assert_eq!(decode(bad), None, "{bad:?} should not decode");
    }
}

#[test]
fn both_alphabet_specific_symbols_decode() {
    // `+` and `/` are the two the I2P alphabet spells differently, so a
    // decoder that quietly reused that table would fail exactly here.
    assert_eq!(decode("+/+/").as_deref(), Some(&[0xfb, 0xff, 0xbf][..]));
}

#[test]
fn every_byte_value_round_trips_through_a_known_encoding() {
    let decoded = decode(ALL_BYTES_B64).expect("the vector is well formed");
    let expected: Vec<u8> = (0..=255u8).collect();
    assert_eq!(decoded, expected);
}

#[test]
fn a_long_input_does_not_over_allocate() {
    let spaces = " ".repeat(100_000);
    assert_eq!(decode(&spaces).as_deref(), Some(&[][..]));
}

#[test]
fn one_spelling_per_byte_string() {
    // The canonical form decodes, its neighbours with trailing bits do not.
    assert_eq!(decode("AA").as_deref(), Some(&[0u8][..]));
    for other in ["AB", "AC", "AP", "AAB", "AAC"] {
        assert_eq!(decode(other), None);
    }
    assert_eq!(decode("AAA").as_deref(), Some(&[0u8, 0][..]));
}
