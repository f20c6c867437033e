use stegotext::bacon::bits_to_char;
use stegotext::bacon::bits_to_u16;
use stegotext::bacon::char_to_bits;
use stegotext::bacon::decode;
use stegotext::bacon::encode;
use stegotext::bacon::u16_to_bits;
use stegotext::bacon::CapacityError;
use stegotext::bacon::DecodeError;

#[test]
fn encode_hi_in_exact_cover() {
    // "HI" needs 16 + 2 x 5 = 26 bits; the cover has exactly 26 letters.
    let stego = encode("HI", "abcdefghijklmnopqrstuvwxyz").unwrap();
    assert_eq!(stego, "abcdefghijklmnOpqrSTUvWxyz");
    assert_eq!(decode(&stego).unwrap(), "HI");
}

#[test]
fn encode_keeps_non_letters_of_cover() {
    let stego = encode("HI", "ab cdefghijklmnopqrstuvwxyz!").unwrap();
    assert_eq!(stego, "ab cdefghijklmnOpqrSTUvWxyz!");
    assert_eq!(decode(&stego).unwrap(), "HI");
}

#[test]
fn encode_empty_message() {
    let stego = encode("", "abcdefghijklmnopqrstuvwxyz").unwrap();
    assert_eq!(stego, "abcdefghijklmnopqrstuvwxyz");
    assert_eq!(decode(&stego).unwrap(), "");
}

#[test]
fn lowercase_message_decodes_uppercase() {
    // Case is lost by design: ranks are case-insensitive and decoding
    // always produces uppercase letters.
    let stego = encode("hi", "abcdefghijklmnopqrstuvwxyz").unwrap();
    assert_eq!(decode(&stego).unwrap(), "HI");
}

#[test]
fn encode_skips_non_letters_of_message() {
    // "A B" declares three characters in the header but embeds only two
    // letters of payload; the third decoded letter comes from the cover's
    // own (lowercase) casing.
    let stego = encode("A B", "abcdefghijklmnopqrstuvwxyzabcde").unwrap();
    assert_eq!(stego, "abcdefghijklmnOPqrstuvwxyZabcde");
    assert_eq!(decode(&stego).unwrap(), "ABA");
}

#[test]
fn capacity_error_reports_counts() {
    let e = encode("HELLO", "abc").unwrap_err();
    assert_eq!(e, CapacityError { available: 3, required: 41 });
}

#[test]
fn capacity_counts_only_letters() {
    let e = encode("A", "1234 5678 90!?").unwrap_err();
    assert_eq!(e, CapacityError { available: 0, required: 21 });
}

#[test]
fn decode_short_header() {
    assert_eq!(decode("abc").unwrap_err(), DecodeError::Header { available: 3 });
}

#[test]
fn decode_empty_text() {
    assert_eq!(decode("").unwrap_err(), DecodeError::Header { available: 0 });
}

#[test]
fn decode_payload_too_short() {
    // Sixteen letters whose cases declare a one-letter message: the header
    // can be read, but 21 bits would be needed in all.
    let e = decode("aaaaaaaaaaaaaaaA").unwrap_err();
    assert_eq!(e, DecodeError::Payload { available: 16, required: 21 });
}

#[test]
fn u16_bits_round_trip() {
    assert_eq!(bits_to_u16(&u16_to_bits(0xABCD)), 0xABCD);
    assert_eq!(bits_to_u16(&u16_to_bits(0)), 0);
    assert_eq!(bits_to_u16(&u16_to_bits(65535)), 65535);
}

#[test]
fn u16_bits_values() {
    assert_eq!(u16_to_bits(0), [0u8; 16]);
    assert_eq!(u16_to_bits(2), [0, 0, 0, 0, 0, 0, 0, 0, 0, 0, 0, 0, 0, 0, 1, 0]);
    assert_eq!(u16_to_bits(0x8001), [1, 0, 0, 0, 0, 0, 0, 0, 0, 0, 0, 0, 0, 0, 0, 1]);
}

#[test]
fn bits_to_u16_reads_first_sixteen() {
    let twenty = [1u8, 0, 0, 0, 0, 0, 0, 0, 0, 0, 0, 0, 0, 0, 0, 0, 1, 1, 1, 1];
    assert_eq!(bits_to_u16(&twenty), 0x8000);
    let three = [1u8, 1, 1];
    assert_eq!(bits_to_u16(&three), 7);
}

#[test]
fn char_bits_values() {
    assert_eq!(char_to_bits('A'), Some([0, 0, 0, 0, 0]));
    assert_eq!(char_to_bits('a'), Some([0, 0, 0, 0, 0]));
    assert_eq!(char_to_bits('b'), Some([0, 0, 0, 0, 1]));
    assert_eq!(char_to_bits('H'), Some([0, 0, 1, 1, 1]));
    assert_eq!(char_to_bits('Z'), Some([1, 1, 0, 0, 1]));
    assert_eq!(char_to_bits('!'), None);
    assert_eq!(char_to_bits(' '), None);
    assert_eq!(char_to_bits('é'), None);
}

#[test]
fn bits_char_values() {
    assert_eq!(bits_to_char(&[0, 0, 0, 0, 0]), Some('A'));
    assert_eq!(bits_to_char(&[0, 0, 1, 1, 1]), Some('H'));
    assert_eq!(bits_to_char(&[1, 1, 0, 0, 1]), Some('Z'));
    // A five-bit value above 25 gives the character just past 'Z'.
    assert_eq!(bits_to_char(&[1, 1, 0, 1, 0]), Some('['));
    assert_eq!(bits_to_char(&[0, 0, 0, 0]), None);
    assert_eq!(bits_to_char(&[0, 0, 0, 0, 0, 0]), None);
}
