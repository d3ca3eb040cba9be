use eml::charset::decode_in;
use eml::headers::Headers;
use eml::mime::{decode_body, extract_text, has_html, plain_text, split_headers, split_parts};
use eml::ConvertError;

fn fields(h: &Headers) -> Vec<(&str, &str)> {
    h.0.iter().map(|(k, v)| (k.as_str(), v.as_str())).collect()
}

#[test]
fn headers_end_at_the_first_empty_line() {
    let (h, b) = split_headers(b"A: 1\n\nx\n\ny");
    assert_eq!((h.as_slice(), b), (&b"A: 1"[..], &b"x\n\ny"[..]));
    let (h, b) = split_headers(b"A: 1\r\n\r\nx\r\n\r\ny");
    assert_eq!((h.as_slice(), b), (&b"A: 1\r"[..], &b"x\r\n\r\ny"[..]));
    let (h, b) = split_headers(b"A: 1\nB: 2\n");
    assert_eq!((h.as_slice(), b), (&b"A: 1\nB: 2\n"[..], &b""[..]));
    let (h, b) = split_headers(b"");
    assert_eq!((h.as_slice(), b), (&b""[..], &b""[..]));
    let (h, b) = split_headers(b"\n\nbody");
    assert_eq!((h.as_slice(), b), (&b""[..], &b"\nbody"[..]));
    let (h, b) = split_headers(b"\nbody");
    assert_eq!((h.as_slice(), b), (&b""[..], &b"body"[..]));
    let (h, b) = split_headers(b"\r\nbody");
    assert_eq!((h.as_slice(), b), (&b""[..], &b"body"[..]));
    let (h, b) = split_headers(b"\rbody\n");
    assert_eq!((h.as_slice(), b), (&b"\rbody\n"[..], &b""[..]));
    let (h, b) = split_headers(b"A: 1\n\r");
    assert_eq!((h.as_slice(), b), (&b"A: 1\n\r"[..], &b""[..]));
}

#[test]
fn fields_are_lowered_trimmed_and_unfolded() {
    let h = Headers::parse(b" lost\nSubJECT : One \r\n\t Two\xc2\xa0\r\nnonsense\n three\nX:a:b\r");
    assert_eq!(
        fields(&h),
        vec![("subject", "One Two three"), ("x", "a:b")]
    );
}

#[test]
fn damaged_header_bytes_are_repaired() {
    let h = Headers::parse(b"Subject: a\xffb\xc3\xa9");
    assert_eq!(h.get("subject").unwrap(), "a\u{fffd}bé");
    assert!(h.get("Subject").is_none());
    assert!(h.get("missing").is_none());
}

#[test]
fn the_first_of_several_fields_counts() {
    let h = Headers::parse(b"A: 1\nB: 2\na: 3");
    assert_eq!(h.get("a").unwrap(), "1");
}

#[test]
fn content_type_is_read_with_its_parameters() {
    let h = Headers::parse(b"Content-Type: Text/HTML ; Charset = \"UTF-8\" ; boundary=a=b");
    assert_eq!(h.content_type(), "text/html");
    assert_eq!(h.ct_param("charset").unwrap(), "UTF-8");
    assert_eq!(h.ct_param("BOUNDARY").unwrap(), "a=b");
    assert!(h.ct_param("name").is_none());
    let h = Headers::parse(b"Content-Type: text/plain; broken; charset=utf-8");
    assert!(h.ct_param("charset").is_none());
    let h = Headers::parse(b"X: y");
    assert_eq!(h.content_type(), "text/plain");
    assert!(h.ct_param("charset").is_none());
}

#[test]
fn parts_stand_between_delimiter_lines() {
    let body = b"preamble\r\n--B\r\none\r\n--B \r\ntwo\r\n--B--\r\nepilogue\r\n--B\r\n";
    assert_eq!(split_parts(body, "B"), vec![&b"one\r\n"[..], &b"two\r\n"[..]]);
    // Without a closing line the last part reaches to the end.
    assert_eq!(split_parts(b"--B\nopen", "B"), vec![&b"open"[..]]);
    assert_eq!(split_parts(b"--B\n", "B"), Vec::<&[u8]>::new());
    // A delimiter counts at the start of a line only.
    assert_eq!(split_parts(b"--B\na --B\n--B--", "B"), vec![&b"a --B\n"[..]]);
    assert_eq!(split_parts(b"no delimiter", "B"), Vec::<&[u8]>::new());
    assert_eq!(split_parts(b"--B--\n--B\nx", "B"), Vec::<&[u8]>::new());
    // Two hyphens that belong to the boundary itself close nothing.
    assert_eq!(split_parts(b"--B--\nx", "B--"), vec![&b"x"[..]]);
    assert_eq!(split_parts("--é\nx\n--é--".as_bytes(), "é"), vec![&b"x\n"[..]]);
    // Only the delimiter and two hyphens close.
    assert_eq!(
        split_parts(b"--B\na\n--Bx--\nb\n--B--\n", "B"),
        vec![&b"a\n"[..], &b"b\n"[..]]
    );
    assert_eq!(
        split_parts(b"--B\na\n--B---\nb\n--B-\nc\n--B--\r\nd", "B"),
        vec![&b"a\n"[..], &b"b\n"[..], &b"c\n"[..]]
    );
}

#[test]
fn a_part_may_have_no_header_fields() {
    let h = Headers::parse(b"Content-Type: multipart/mixed; boundary=B");
    assert_eq!(extract_text(&h, b"--B\n\nbare\n--B--\n", 0).unwrap(), "bare\n");
    assert_eq!(extract_text(&h, b"--B\r\n\r\nbare\r\n--B--\r\n", 0).unwrap(), "bare\r\n");
}

#[test]
fn a_part_that_cannot_be_decoded_is_passed_over() {
    let h = Headers::parse(b"Content-Type: multipart/mixed; boundary=B");
    let body = b"--B\nContent-Type: text/plain\nContent-Transfer-Encoding: base64\n\n\
not!valid\n--B\nContent-Type: text/plain\n\ngood\n--B--\n";
    assert_eq!(extract_text(&h, body, 0).unwrap(), "good\n");
    // Alone, it leaves nothing to show.
    let body = b"--B\nContent-Type: text/plain\nContent-Transfer-Encoding: base64\n\n\
not!valid\n--B--\n";
    assert_eq!(unsupported(extract_text(&h, body, 0)), "email has no text body part");
    // A nested multipart that has nothing else fails, and is passed over in turn.
    let body = b"--B\nContent-Type: multipart/mixed; boundary=I\n\n\
--I\nContent-Transfer-Encoding: base64\n\nA\n--I--\n\
--B\nContent-Type: multipart/mixed\n\n \n\
--B\nContent-Type: multipart/mixed; boundary=J\n\n--J\n\nsecond\n--J--\n\
--B\nContent-Type: multipart/mixed; boundary=K\n\n--K\n\nthird\n--K--\n--B--\n";
    assert_eq!(extract_text(&h, body, 0).unwrap(), "second\n");
    // A message that is no multipart is read as it is.
    let h = Headers::parse(b"Content-Transfer-Encoding: base64");
    assert_eq!(extract_text(&h, b"not!valid", 0).unwrap(), "not!valid");
}

#[test]
fn written_parts_come_back() {
    let parts: Vec<&[u8]> = vec![b"one\n", b"", b"-- B\n--A\n"];
    let mut body: Vec<u8> = b"preamble\n".to_vec();
    for p in &parts {
        body.extend_from_slice(b"--B\r\n");
        body.extend_from_slice(p);
    }
    body.extend_from_slice(b"--B--\r\nepilogue");
    assert_eq!(split_parts(&body, "B"), parts);
}

#[test]
fn charsets_are_applied() {
    assert_eq!(decode_in("iso-8859-1", b"caf\xe9"), "café");
    assert_eq!(decode_in("KOI8-R", b"\xf0\xf2"), "ПР");
    assert_eq!(decode_in("utf-8", "é".as_bytes()), "é");
    assert_eq!(decode_in("UTF-8", b"a\xffb"), "a\u{fffd}b");
    // An unknown charset counts as UTF-8.
    assert_eq!(decode_in("klingon", "é".as_bytes()), "é");
    assert_eq!(decode_in("", "é".as_bytes()), "é");
    // A byte order mark overrides the label.
    assert_eq!(decode_in("iso-8859-1", b"\xef\xbb\xbf\xc3\xa9"), "é");
    assert_eq!(decode_in("utf-8", b"\xff\xfea\0"), "a");
}

#[test]
fn bodies_are_decoded() {
    let h = Headers::parse(
        b"Content-Transfer-Encoding: Quoted-Printable \nContent-Type: text/plain; charset=latin1",
    );
    assert_eq!(decode_body(&h, b"caf=E9=\n!"), "café!");
    let h = Headers::parse(b"Content-Transfer-Encoding: BASE64");
    assert_eq!(decode_body(&h, b"Y2Fm\r\nw6k="), "café");
    // What is no base64 stays as it is.
    assert_eq!(decode_body(&h, b"not!valid"), "not!valid");
    let h = Headers::parse(b"Content-Transfer-Encoding: 8bit");
    assert_eq!(decode_body(&h, b"a=3Db"), "a=3Db");
}

#[test]
fn plain_parts_win_over_nested_ones() {
    let h = Headers::parse(b"Content-Type: multipart/mixed; boundary=O");
    let body = b"--O\nContent-Type: multipart/alternative; boundary=I\n\n\
--I\nA: b\n\ninner\n--I--\n\
--O\nContent-Type: text/plain\n\n \n\
--O\nContent-Type: text/plain\n\nouter\n--O--\n";
    assert_eq!(extract_text(&h, body, 0).unwrap(), "outer\n");
    let body = b"--O\nContent-Type: text/html\n\n<p>\n\
--O\nContent-Type: multipart/alternative; boundary=X\n\n--X--\n\
--O\nContent-Type: multipart/alternative; boundary=I\n\n\
--I\nA: b\n\ninner\n--I--\n--O--\n";
    assert_eq!(extract_text(&h, body, 0).unwrap(), "inner\n");
    let parts = split_parts(body, "O");
    assert!(plain_text(&parts).is_none());
    assert!(has_html(&parts));
}

#[test]
fn a_multipart_without_boundary_is_flat_text() {
    let h = Headers::parse(b"Content-Type: multipart/mixed");
    assert_eq!(extract_text(&h, b"<p>flat</p>", 0).unwrap(), "<p>flat</p>");
    assert_eq!(extract_text(&h, b"", 0).unwrap(), "");
}

fn unsupported(r: Result<String, ConvertError>) -> String {
    match r {
        Err(ConvertError::Unsupported(m)) => m,
        other => panic!("got {other:?}"),
    }
}

#[test]
fn every_refusal_says_why() {
    let html = "email body is text/html only; no text/plain alternative";
    let h = Headers::parse(b"Content-Type: text/html");
    assert_eq!(unsupported(extract_text(&h, b"<p>", 0)), html);
    let h = Headers::parse(b"Content-Type: multipart/mixed; boundary=B");
    let body = b"--B\nContent-Type: text/html\n\n<p>\n--B--";
    assert_eq!(unsupported(extract_text(&h, body, 0)), html);
    let body = b"--B\nContent-Type: image/png\n\nxyz\n--B--";
    assert_eq!(unsupported(extract_text(&h, body, 0)), "email has no text body part");
    let h = Headers::parse(b"");
    assert_eq!(unsupported(extract_text(&h, b" \n", 0)), "email has no text body");
    match extract_text(&h, b"text", 33) {
        Err(ConvertError::Malformed(m)) => {
            assert_eq!(m, "MIME nesting exceeds the depth limit")
        }
        other => panic!("got {other:?}"),
    }
    assert_eq!(extract_text(&h, b"text", 32).unwrap(), "text");
}
