use uuid32::resolver::{convert, join_tokens, resolve, split_tokens, ResolvedToken};

const COMPACT: &str = "1jqfmkr26e00swayb1r4rytfp";
const HEX: &str = "0195df49-e046-7001-9e2b-cb0e098f69f6";
const VALUE: u128 = 2107409058113878995600607032774715894;

#[test]
fn resolve_hex_gives_compact() {
    assert_eq!(
        resolve(HEX),
        ResolvedToken::Converted {
            original: HEX.to_owned(),
            other_form: COMPACT.to_owned(),
            numeric_value: VALUE,
        }
    );
}

#[test]
fn resolve_compact_gives_hex() {
    let r = resolve(COMPACT);
    assert_eq!(
        r,
        ResolvedToken::Converted {
            original: COMPACT.to_owned(),
            other_form: HEX.to_owned(),
            numeric_value: VALUE,
        }
    );
    assert_eq!(r.displayed(), HEX);
    assert_eq!(r.reported_value(), VALUE);
}

#[test]
fn resolve_passes_other_text_through() {
    assert_eq!(resolve(""), ResolvedToken::PassThrough { original: String::new() });
    assert_eq!(resolve("?!"), ResolvedToken::PassThrough { original: "?!".to_owned() });
    let r = resolve("hello world");
    assert_eq!(r.displayed(), "hello world");
    assert_eq!(r.reported_value(), 0);
}

#[test]
fn split_keeps_empty_tokens() {
    assert_eq!(split_tokens("a//b"), vec!["a", "", "b"]);
    assert_eq!(split_tokens(""), vec![""]);
    assert_eq!(split_tokens("/"), vec!["", ""]);
    assert_eq!(split_tokens("/x/"), vec!["", "x", ""]);
    assert_eq!(split_tokens("no delimiter"), vec!["no delimiter"]);
    assert_eq!(split_tokens("é/ü"), vec!["é", "ü"]);
}

#[test]
fn join_gives_the_text_back() {
    for s in ["a//b", "", "/", "//", "/x/", "x", "?!/é//"] {
        assert_eq!(join_tokens(&split_tokens(s)), s);
    }
    assert_eq!(join_tokens(&Vec::new()), "");
    assert_eq!(join_tokens(&vec!["a".to_owned(), String::new(), "b".to_owned()]), "a//b");
}

#[test]
fn convert_keeps_empty_segments() {
    let c = convert("?!//~");
    assert_eq!(c.output, "?!//~");
    assert_eq!(c.single_value, None);
    let c = convert("a//b");
    assert_eq!(c.output, "a//b");
    assert_eq!(c.single_value, None);
    assert_eq!(resolve("a"), ResolvedToken::PassThrough { original: "a".to_owned() });
    assert_eq!(resolve("b"), ResolvedToken::PassThrough { original: "b".to_owned() });
    let c = convert("0000000000000000000000000//7zzzzzzzzzzzzzzzzzzzzzzzzz");
    assert_eq!(
        c.output,
        "00000000-0000-0000-0000-000000000000//ffffffff-ffff-ffff-ffff-ffffffffffff"
    );
}

#[test]
fn convert_each_token() {
    let input = format!("{HEX}/?!/{COMPACT}/");
    let c = convert(&input);
    assert_eq!(c.output, format!("{COMPACT}/?!/{HEX}/"));
    assert_eq!(c.single_value, None);
}

#[test]
fn convert_single_token_reports_value() {
    let c = convert(HEX);
    assert_eq!(c.output, COMPACT);
    assert_eq!(c.single_value, Some(VALUE));
    let c = convert(COMPACT);
    assert_eq!(c.output, HEX);
    assert_eq!(c.single_value, Some(VALUE));
    let c = convert("?!");
    assert_eq!(c.output, "?!");
    assert_eq!(c.single_value, Some(0));
    let c = convert("");
    assert_eq!(c.output, "");
    assert_eq!(c.single_value, Some(0));
}
