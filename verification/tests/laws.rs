use eml::text::{blank, chars_of, line_slices, lowered, pieces, position, string_of, stripped, Class};
use eml::transfer::{decode_base64, decode_qp, hex};
use eml::words::{decode_one_word, decode_words};
use eml::{parse, parse_with, Block, ConvertError, Document, Inline};

fn shown(doc: &Document) -> Vec<Vec<String>> {
    doc.blocks
        .iter()
        .map(|b| match b {
            Block::Heading { content, .. } => content,
            Block::Paragraph(content) => content,
        })
        .map(|content| {
            content
                .iter()
                .map(|i| match i {
                    Inline::Text { text, style } => {
                        if style.bold {
                            format!("*{text}*")
                        } else {
                            text.clone()
                        }
                    }
                    Inline::LineBreak => "/".to_string(),
                })
                .collect()
        })
        .collect()
}

#[test]
fn white_space_is_what_unicode_says() {
    for n in 0..0x11_0000u32 {
        if let Some(c) = char::from_u32(n) {
            assert_eq!(Class::White.contains(c), c.is_whitespace(), "{n:x}");
        }
    }
}

#[test]
fn text_helpers_agree_with_the_standard_library() {
    for s in [
        "", "\n", "a", "a\n", "a\r\n", "a\r", "\r\n", "a\n\nb", "a\n\n\nb", " x ", "\u{3000}é\t",
        "A;b;;C", "a\r\r\nb\n", "\n\n\n\n",
    ] {
        let c = chars_of(s);
        assert_eq!(string_of(&c), s);
        let ours: Vec<String> = line_slices(&c).iter().map(|l| string_of(l)).collect();
        let std: Vec<String> = s.lines().map(|l| l.to_string()).collect();
        assert_eq!(ours, std);
        for p in [";", "\n\n", "a"] {
            let pat = chars_of(p);
            let ours: Vec<String> = pieces(&c, &pat).iter().map(|l| string_of(l)).collect();
            let std: Vec<String> = s.split(p).map(|l| l.to_string()).collect();
            assert_eq!(ours, std);
            assert_eq!(position(&c, &pat).is_some(), s.contains(p));
        }
        assert_eq!(string_of(stripped(&c, Class::White)), s.trim());
        assert_eq!(string_of(stripped(&c, Class::Only('\n'))), s.trim_matches('\n'));
        assert_eq!(blank(&c), s.trim().is_empty());
        assert_eq!(string_of(&lowered(&c)), s.to_ascii_lowercase());
    }
}

#[test]
fn hexadecimal_digits_have_values() {
    assert_eq!(hex(48), Some(0));
    assert_eq!(hex(57), Some(9));
    assert_eq!(hex(65), Some(10));
    assert_eq!(hex(102), Some(15));
    assert_eq!(hex(71), None);
    assert_eq!(hex(47), None);
}

#[test]
fn quoted_printable_keeps_what_is_no_escape() {
    assert_eq!(decode_qp(b""), b"");
    assert_eq!(decode_qp(b"literal"), b"literal");
    assert_eq!(decode_qp(b"a=\r\nb"), b"ab");
    assert_eq!(decode_qp(b"a=\rb"), b"a=\rb");
    assert_eq!(decode_qp(b"=G1=1"), b"=G1=1");
    assert_eq!(decode_qp(b"==41"), b"=A");
    assert_eq!(decode_qp(b"=c3=A9"), "é".as_bytes());
}

#[test]
fn any_bytes_come_back_from_escapes() {
    let bytes: Vec<u8> = (0..=255u8).collect();
    let text: String = bytes.iter().map(|b| format!("={b:02X}")).collect();
    assert_eq!(decode_qp(text.as_bytes()), bytes);
}

#[test]
fn literals_escapes_and_soft_breaks_mix() {
    assert_eq!(decode_qp(b"a=3d=\nb=3D=\r\n=c3=\n=a9=0A\r\nc"), "a=b=é\n\r\nc".as_bytes());
    assert_eq!(decode_qp(b"=\n=\r\n"), b"");
}

#[test]
fn quoted_printable_concatenates_at_a_clean_seam() {
    let joined = |a: &[u8], b: &[u8]| {
        let mut s = a.to_vec();
        s.extend_from_slice(b);
        decode_qp(&s)
    };
    let apart = |a: &[u8], b: &[u8]| {
        let mut s = decode_qp(a);
        s.extend_from_slice(&decode_qp(b));
        s
    };
    let clean: [(&[u8], &[u8]); 6] = [
        (b"a=41", b"=42b"),
        (b"a=\n", b"b"),
        (b"a=", b"x"),
        (b"a=4", b"x"),
        (b"a=\r", b"b"),
        (b"", b"=41"),
    ];
    for (a, b) in clean {
        assert_eq!(joined(a, b), apart(a, b));
    }
    let across: [(&[u8], &[u8]); 5] = [
        (b"a=", b"41"),
        (b"a=4", b"1"),
        (b"a=", b"\nb"),
        (b"a=", b"\r\nb"),
        (b"a=\r", b"\nb"),
    ];
    for (a, b) in across {
        assert_ne!(joined(a, b), apart(a, b));
    }
}

#[test]
fn base64_vectors() {
    assert_eq!(decode_base64(b"").unwrap(), b"");
    assert_eq!(decode_base64(b"Zg==").unwrap(), b"f");
    assert_eq!(decode_base64(b"Zm8=").unwrap(), b"fo");
    assert_eq!(decode_base64(b"Zm9v").unwrap(), b"foo");
    assert_eq!(decode_base64(b"Zm9vYg==").unwrap(), b"foob");
    assert_eq!(decode_base64(b"+/8A").unwrap(), b"\xfb\xff\x00");
    // White space counts for nothing wherever it stands, padding at the end.
    assert_eq!(decode_base64(b" Z\tm\r\n9\x0cvYg").unwrap(), b"foob");
    assert_eq!(decode_base64(b"Zm9vYg").unwrap(), b"foob");
    assert_eq!(decode_base64(b"Zm9v=").unwrap(), b"foo");
    assert_eq!(decode_base64(b"Zg= \r\n=\n").unwrap(), b"f");
    assert_eq!(decode_base64(b"\n").unwrap(), b"");
    // A digit behind the padding, or one that no other completes.
    assert!(decode_base64(b"Zm9v=Yg").is_none());
    assert!(decode_base64(b"=A").is_none());
    assert!(decode_base64(b"A").is_none());
    assert!(decode_base64(b"Z\n").is_none());
    assert!(decode_base64(b"Zm9vY===").is_none());
    assert!(decode_base64(b"Zm9v\x0b").is_none());
    assert!(decode_base64(b"Zm-_").is_none());
}

#[test]
fn encoded_words_stand_among_text() {
    assert_eq!(decode_words("=?iso-8859-1?q?caf=E9?= =?x?b?YQ?=!"), "café a!");
    assert_eq!(decode_words("a =? b"), "a =? b");
    assert_eq!(decode_words("=?utf-8?X?abc?="), "=?utf-8?X?abc?=");
    assert_eq!(decode_words("=?utf-8?B?a!c?= d"), "=?utf-8?B?a!c?= d");
    assert_eq!(decode_words("=?=?utf-8?Q?x?="), "=?x");
    assert_eq!(decode_words("é=?utf-8?Q??=é"), "éé");
    // A word that cannot be decoded keeps its opening, and is read on behind it.
    assert_eq!(decode_words("=?utf-8?B?A?= =?utf-8?Q?b?="), "=?utf-8?B?A?= b");
    // The text of a word is not read again.
    assert_eq!(decode_words("=?utf-8?Q?=3D?=?utf-8?Q?x?="), "=?utf-8?Q?x?=");
}

#[test]
fn a_word_ends_at_its_closing_mark() {
    let (text, consumed) = decode_one_word("utf-8?Q?=41b?=rest").unwrap();
    assert_eq!((text.as_str(), consumed), ("Ab", 14));
    let (text, consumed) = decode_one_word("utf-8?Q?=41b?=").unwrap();
    assert_eq!((text.as_str(), consumed), ("Ab", 14));
    // What a word takes is counted in bytes.
    let after = "utf-8?q?é_?=é";
    let (text, consumed) = decode_one_word(after).unwrap();
    assert_eq!((text.as_str(), consumed), ("é ", 13));
    assert_eq!(&after[consumed..], "é");
    assert!(decode_one_word("utf-8?Q?open").is_none());
    assert!(decode_one_word("utf-8?QQ?a?=").is_none());
    assert!(decode_one_word("utf-8?B?A?=").is_none());
    assert!(decode_one_word("utf-8").is_none());
}

#[test]
fn headers_never_make_a_message_fail() {
    let doc = parse(b"Subject: =?x?B?!?=\xff\n: \nFrom\n\nbody").unwrap();
    assert_eq!(shown(&doc), vec![vec!["=?x?B?!?=\u{fffd}"], vec!["body"]]);
    let doc = parse(b"\nbody").unwrap();
    assert_eq!(shown(&doc), vec![vec!["body"]]);
    let err = parse(b"Subject: Hello\nFrom: me\n\n \n").unwrap_err();
    assert!(
        matches!(&err, ConvertError::Unsupported(m) if m == "email has no text body"),
        "got {err:?}"
    );
}

#[test]
fn a_whole_message() {
    let doc = parse(
        b"From: =?UTF-8?Q?J=C3=B6?= <j@y.z>\r\nTo: k@y.z\r\nSubject: =?UTF-8?B?SMOp?=\r\n\
X-Other: 1\r\n\r\nfirst\nline\n\n\n \n\nsecond\n",
    )
    .unwrap();
    assert!(matches!(&doc.blocks[0], Block::Heading { level: 1, anchor: None, .. }));
    assert_eq!(
        shown(&doc),
        vec![
            vec!["Hé"],
            vec!["*From: *", "Jö <j@y.z>", "/", "*To: *", "k@y.z"],
            vec!["first", "/", "line"],
            vec!["second"],
        ]
    );
}

#[test]
fn blank_fields_leave_no_trace() {
    let doc = parse(b"Subject: =?utf-8?Q?_?=\nFrom:\n\nbody").unwrap();
    assert_eq!(shown(&doc), vec![vec!["body"]]);
    let doc = parse(b"X: y\r\n\r\na\r\n\r\nb").unwrap();
    assert_eq!(shown(&doc), vec![vec!["a", "/", "", "/", "b"]]);
}

#[test]
fn cleaning_spares_the_labels() {
    let doc = parse_with(b"Subject: one\nFrom: me\n\nline a\nline b", |s| s.to_uppercase()).unwrap();
    assert_eq!(
        shown(&doc),
        vec![
            vec!["ONE"],
            vec!["*From: *", "ME"],
            vec!["LINE A", "/", "LINE B"],
        ]
    );
    assert!(parse_with(b"A: b\n\n ", |s| s.to_string()).is_err());
}

#[test]
fn deep_nesting_has_nothing_to_show() {
    let nest = |levels: usize| -> Vec<u8> {
        let mut msg = String::new();
        for i in 0..levels {
            msg.push_str(&format!("Content-Type: multipart/mixed; boundary=B{i:03}\n\n--B{i:03}\n"));
        }
        msg.push_str("Content-Type: text/plain\n\ndeep\n");
        msg.into_bytes()
    };
    assert_eq!(shown(&parse(&nest(33)).unwrap()), vec![vec!["deep"]]);
    let err = parse(&nest(34)).unwrap_err();
    assert!(
        matches!(&err, ConvertError::Unsupported(m) if m == "email has no text body part"),
        "got {err:?}"
    );
}
