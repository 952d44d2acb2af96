use reversi_engine::text::{parse_u32, parse_u64};

#[test]
fn parse_u64_matches_str_parse() {
    for text in [
        "0", "42", "+7", "18446744073709551615", "18446744073709551616", "", "+", "-1", " 1",
        "1 ", "12a", "007", "99999999999999999999999",
    ] {
        assert_eq!(parse_u64(text), text.parse::<u64>().ok(), "input {text:?}");
    }
}

#[test]
fn parse_u32_matches_str_parse() {
    for text in ["0", "4294967295", "4294967296", "+12", "x", ""] {
        assert_eq!(parse_u32(text), text.parse::<u32>().ok(), "input {text:?}");
    }
}
