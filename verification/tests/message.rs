use eml::message::metadata_block;
use eml::transfer::{decode_base64, decode_qp};
use eml::words::decode_words;
use eml::{parse, Block, ConvertError, Document, Headers, Inline};

fn body_text(doc: &Document) -> String {
    doc.blocks
        .iter()
        .filter_map(|b| match b {
            Block::Paragraph(inlines) => Some(
                inlines
                    .iter()
                    .map(|i| match i {
                        Inline::Text { text, .. } => text.as_str(),
                        Inline::LineBreak => "\n",
                    })
                    .collect::<String>(),
            ),
            _ => None,
        })
        .collect::<Vec<_>>()
        .join("\n\n")
}

#[test]
fn qp_decodes_escapes_and_soft_breaks() {
    assert_eq!(decode_qp(b"a=3Db"), b"a=b");
    assert_eq!(decode_qp(b"long=\nline"), b"longline");
    assert_eq!(decode_qp(b"trailing="), b"trailing=");
}

#[test]
fn base64_rejects_invalid_and_decodes_valid() {
    assert_eq!(decode_base64(b"aGVsbG8=").unwrap(), b"hello");
    assert!(decode_base64(b"not!valid").is_none());
}

#[test]
fn encoded_words_decode_both_schemes() {
    assert_eq!(decode_words("=?UTF-8?B?aGVsbG8=?="), "hello");
    assert_eq!(decode_words("=?UTF-8?Q?caf=C3=A9?="), "café");
    assert_eq!(decode_words("=?UTF-8?Q?a_b?="), "a b");
    assert_eq!(decode_words("plain text"), "plain text");
}

#[test]
fn encoded_word_payload_containing_question_equals() {
    // `=24` etc. put a literal `?=` inside the payload; the terminator
    // search must start past both separators.
    assert_eq!(decode_words("=?UTF-8?Q?=24=33=32?="), "$32");
    assert_eq!(decode_words("a =?UTF-8?Q?=24=33?= b"), "a $3 b");
}

#[test]
fn multipart_alternative_prefers_plain() {
    let eml = b"Subject: Test\r\nFrom: a@example.com\r\n\
Content-Type: multipart/alternative; boundary=\"BB\"\r\n\r\n\
--BB\r\nContent-Type: text/plain\r\n\r\nplain body\r\n\
--BB\r\nContent-Type: text/html\r\n\r\n<p>html body</p>\r\n--BB--\r\n";
    let doc = parse(eml).unwrap();
    let text = body_text(&doc);
    assert!(text.contains("plain body"), "got: {text}");
    assert!(!text.contains("html body"), "html leaked: {text}");
}

#[test]
fn subject_becomes_heading() {
    let doc = parse(b"Subject: Hello\r\n\r\nbody").unwrap();
    assert!(matches!(&doc.blocks[0], Block::Heading { level: 1, .. }));
}

#[test]
fn html_only_errors_rather_than_emitting_markup() {
    let eml = b"Subject: T\r\nContent-Type: multipart/alternative; boundary=\"B\"\r\n\r\n\
--B\r\nContent-Type: text/html\r\n\r\n<p>only html</p>\r\n--B--\r\n";
    let err = parse(eml).unwrap_err();
    assert!(matches!(err, ConvertError::Unsupported(_)), "got {err:?}");
}

#[test]
fn folded_headers_unfold() {
    let h = Headers::parse(b"Subject: one\r\n  two\r\nFrom: x@y.z");
    assert_eq!(h.get("subject").unwrap(), "one two");
}

#[test]
fn metadata_comes_behind_bold_labels() {
    let h = Headers::parse(b"To: b@y.z\r\nDate: today\r\nFrom: a@y.z\r\nCc: \r\n");
    let out = metadata_block(&h);
    let shown: Vec<(String, bool)> = out
        .iter()
        .map(|i| match i {
            Inline::Text { text, style } => (text.clone(), style.bold),
            Inline::LineBreak => ("\n".to_string(), false),
        })
        .collect();
    let expected: Vec<(String, bool)> = vec![
        ("From: ".to_string(), true),
        ("a@y.z".to_string(), false),
        ("\n".to_string(), false),
        ("To: ".to_string(), true),
        ("b@y.z".to_string(), false),
        ("\n".to_string(), false),
        ("Date: ".to_string(), true),
        ("today".to_string(), false),
    ];
    assert_eq!(shown, expected);
}
