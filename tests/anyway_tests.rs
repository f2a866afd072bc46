use aes_rust::anyway::{check_separator, decode, decode_to_string, encode, encode_escape, encode_escaped};
use aes_rust::indexed_str::IndexedStr;
use aes_rust::to_bytes::ToBytes;

#[test]
fn encode_single_byte() {
    assert_eq!(encode([65u8], ", "), "*ANYWaY*");
}

#[test]
fn decode_single_unit() {
    assert_eq!(decode("*ANYWaY*"), vec![65u8]);
}

#[test]
fn encode_escaped_single_byte() {
    assert_eq!(encode_escaped([65u8], ", "), "\\**ANYWaY*\\*");
}

#[test]
fn decode_escaped_single_unit() {
    assert_eq!(decode("\\**ANYWaY*\\*"), vec![65u8]);
}

#[test]
fn separator_checks() {
    assert!(!check_separator(""));
    assert!(check_separator(", "));
    assert!(!check_separator("a"));
    assert!(!check_separator("*"));
    assert!(!check_separator("x\\"));
    assert!(!check_separator("W"));
    assert!(check_separator("\n"));
    assert!(check_separator("é"));
}

#[test]
fn empty_input() {
    assert_eq!(encode(Vec::<u8>::new(), ", "), "");
    assert_eq!(decode(""), Vec::<u8>::new());
}

#[test]
fn hello_world_plain() {
    let text = encode("Hello, world!", "\n");
    let expected = [
        "AnYWaY",
        "*aNYwaY*",
        "anYwaY",
        "anYwaY",
        "***anYwaY***",
        "anYwAY",
        "ANYwAY",
        "***aNywaY***",
        "***anYwaY***",
        "**ANywaY**",
        "anYwaY",
        "aNYwaY",
        "*ANYwAY*",
    ]
    .join("\n");
    assert_eq!(text, expected);
    assert_eq!(decode(&text), b"Hello, world!".to_vec());
}

#[test]
fn hello_world_escaped() {
    let text = encode_escaped("Hello, world!", "\n");
    let expected = [
        "AnYWaY",
        "\\**aNYwaY*\\*",
        "anYwaY",
        "anYwaY",
        "\\*\\*\\****anYwaY***\\*\\*\\*",
        "anYwAY",
        "ANYwAY",
        "\\*\\*\\****aNywaY***\\*\\*\\*",
        "\\*\\*\\****anYwaY***\\*\\*\\*",
        "\\*\\***ANywaY**\\*\\*",
        "anYwaY",
        "aNYwaY",
        "\\**ANYwAY*\\*",
    ]
    .join("\n");
    assert_eq!(text, expected);
    assert_eq!(decode(&text), b"Hello, world!".to_vec());
}

#[test]
fn round_trip_all_bytes() {
    let all: Vec<u8> = (0..=255u8).collect();
    for sep in [", ", " ", "\n", "-é-", "a", ""] {
        assert_eq!(decode(&encode(all.clone(), sep)), all);
        assert_eq!(decode(&encode_escaped(all.clone(), sep)), all);
    }
}

#[test]
fn invalid_separator_falls_back() {
    let data = [1u8, 2, 3];
    for sep in ["", "a", "*", "\\", "xY"] {
        assert_eq!(encode(data, sep), encode(data, ", "));
        assert_eq!(encode_escaped(data, sep), encode_escaped(data, ", "));
    }
    assert_eq!(encode(data, "a"), "*ANYWAY*, **ANYWAY**, ***ANYWAY***");
}

#[test]
fn valid_separator_is_used() {
    assert_eq!(encode([0u8, 255], " | "), "ANYWAY | ***anyway***");
    assert_eq!(encode([0u8, 1], "é"), "ANYWAYé*ANYWAY*");
}

#[test]
fn single_byte_tail_and_body() {
    for v in 0..=255u8 {
        let text = encode([v], ", ");
        let stars = (v & 3) as usize;
        assert_eq!(text.len(), 6 + 2 * stars);
        assert!(text[..stars].chars().all(|c| c == '*'));
        assert!(text[stars + 6..].chars().all(|c| c == '*'));
        let word: Vec<char> = text[stars..stars + 6].chars().collect();
        for (i, c) in word.iter().enumerate() {
            assert_eq!(c.to_ascii_uppercase(), "ANYWAY".as_bytes()[i] as char);
            assert_eq!(c.is_ascii_lowercase(), (v >> (i + 2)) & 1 == 1);
        }
        assert_eq!(decode(&text), vec![v]);
    }
}

#[test]
fn noise_between_units_is_ignored() {
    let text = encode("Hi!", ", ");
    assert_eq!(text, "AnYWaY, *AnYwaY*, *ANYwAY*");
    let noisy = "12 AnYWaY ,,; *AnYwaY* 9\t*ANYwAY* .";
    assert_eq!(decode(noisy), decode(&text));
    assert_eq!(decode("A.n.Y.W.a.Y"), vec![72u8]);
}

#[test]
fn escape_tolerance() {
    let data: Vec<u8> = (0..=255u8).rev().collect();
    assert_eq!(decode(&encode_escaped(data.clone(), " ")), decode(&encode(data, " ")));
}

#[test]
fn unified_encoder_matches_both_styles() {
    assert_eq!(encode_escape([65u8], ", ", false), "*ANYWaY*");
    assert_eq!(encode_escape([65u8], ", ", true), "\\**ANYWaY*\\*");
}

#[test]
fn decoder_tolerance_rules() {
    // Letters are read by case alone.
    assert_eq!(decode("wwwwww"), vec![252u8]);
    // Four or more stars count modulo 4.
    assert_eq!(decode("*****ANYWAY"), vec![1u8]);
    // A backslash hides the next character, whatever it is.
    assert_eq!(decode("\\aANYWAy"), vec![128u8]);
    // The run of alphabet characters after a word is skipped.
    assert_eq!(decode("ANYWAYanyway"), vec![0u8]);
    // An unfinished word gives nothing.
    assert_eq!(decode("*ANYW"), Vec::<u8>::new());
}

#[test]
fn decode_to_string_valid_text() {
    let text = encode("héllo", ", ");
    assert_eq!(decode_to_string(&text).unwrap(), "héllo");
    assert_eq!(decode_to_string("").unwrap(), "");
}

#[test]
fn decode_to_string_invalid_text() {
    let text = encode([0xffu8, 0x41], ", ");
    match decode_to_string(&text) {
        Ok(_) => panic!("0xff is not valid UTF-8"),
        Err((_, bytes)) => assert_eq!(bytes, vec![0xffu8, 0x41]),
    }
}

#[test]
fn byte_sources_agree() {
    let owned = String::from("AB");
    let vec = vec![65u8, 66];
    let arr = [65u8, 66];
    let slice: &[u8] = &arr;
    assert_eq!("AB".to_bytes(), &[65u8, 66]);
    assert_eq!(owned.to_bytes(), &[65u8, 66]);
    assert_eq!(vec.to_bytes(), &[65u8, 66]);
    assert_eq!(arr.to_bytes(), &[65u8, 66]);
    assert_eq!((&arr).to_bytes(), &[65u8, 66]);
    assert_eq!(slice.to_bytes(), &[65u8, 66]);
    let expected = encode("AB", ", ");
    assert_eq!(encode(owned, ", "), expected);
    assert_eq!(encode(vec, ", "), expected);
    assert_eq!(encode(&arr, ", "), expected);
    assert_eq!(encode(slice, ", "), expected);
}

#[test]
fn indexed_str_array() {
    let items = IndexedStr::make_array(&["Encode", "Decode"]);
    assert_eq!(items.len(), 2);
    assert_eq!(items[0].str, "Encode");
    assert_eq!(items[0].idx, 0);
    assert_eq!(items[1].str, "Decode");
    assert_eq!(items[1].idx, 1);
}
