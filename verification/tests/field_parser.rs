use mail_headers::parse::header::{
    parse_email_headers, unfold, EmailParseError, Header, HeaderParseError,
};

#[test]
fn main_test_parse_header() {
    let header = Header::parse(b"Mime-Version: 1.0").expect("Error parsing header");
    assert_eq!(header.name, "Mime-Version");
    assert_eq!(header.body, " 1.0");
}

#[test]
fn main_test_parse_multiline_header() {
    let header = Header::parse(b"Subject: What's The Deal With\r\n Airplane Food?")
        .expect("Error parsing header");
    assert_eq!(header.name, "Subject");
    assert_eq!(header.body, " What's The Deal With Airplane Food?");
}

#[test]
fn mod_test_parse_header() {
    let header = Header::parse(b"Mime-Version: 1.0").expect("Error parsing header");
    assert_eq!(header.name, "Mime-Version");
    assert_eq!(header.body, " 1.0");
}

#[test]
fn mod_test_parse_multiline_header() {
    let header = Header::parse(b"Subject: What's The Deal With\r\n Airplane Food?")
        .expect("Error parsing header");
    assert_eq!(header.name, "Subject");
    assert_eq!(header.body, " What's The Deal With Airplane Food?");
}

#[test]
fn test_parse_invalid_header() {
    let res = Header::parse(b"Mime-Version = 1.0");
    assert!(match res {
        Err(e) => match e {
            HeaderParseError::Malformed => true,
            _ => false,
        },
        _ => false,
    })
}

#[test]
fn test_parse_miscoded_header() {
    let res = Header::parse(&[240, 30, 22, 168]);
    assert!(match res {
        Err(e) => match e {
            HeaderParseError::EncodingError(_) => true,
            _ => false,
        },
        _ => false,
    })
}

#[test]
fn test_parse_email_headers() {
    let text = b"Subject: Foo Bar\r\n Baz\r\nMime-Version: 1.0\r\n\r\nHello world,\r\nThis is a foo message\r\n";

    let res = parse_email_headers(text).expect("Email parsing error");

    assert_eq!(
        res.0.get(0),
        Some(&Header {
            name: "Subject".into(),
            body: " Foo Bar Baz".into()
        })
    );
    assert_eq!(
        res.0.get(1),
        Some(&Header {
            name: "Mime-Version".into(),
            body: " 1.0".into()
        })
    );
    assert_eq!(res.0.get(2), None);
    assert_eq!(res.1, 45);
}

#[test]
fn parse_keeps_colons_of_the_body() {
    let header = Header::parse(b"Date: Tue, 1 Jan 2019 12:30:00 +0000").unwrap();
    assert_eq!(header.name, "Date");
    assert_eq!(header.body, " Tue, 1 Jan 2019 12:30:00 +0000");
}

#[test]
fn parse_trims_nothing() {
    let header = Header::parse(b" Name \t:  body  ").unwrap();
    assert_eq!(header.name, " Name \t");
    assert_eq!(header.body, "  body  ");
}

#[test]
fn parse_empty_name_and_empty_body() {
    let header = Header::parse(b":").unwrap();
    assert_eq!(header.name, "");
    assert_eq!(header.body, "");
    let header = Header::parse(b"X:").unwrap();
    assert_eq!(header.name, "X");
    assert_eq!(header.body, "");
    let header = Header::parse(b":y").unwrap();
    assert_eq!(header.name, "");
    assert_eq!(header.body, "y");
}

#[test]
fn parse_empty_buffer_is_malformed() {
    assert!(matches!(Header::parse(b""), Err(HeaderParseError::Malformed)));
}

#[test]
fn parse_keeps_crlf_of_the_name() {
    let header = Header::parse(b"Na\r\nme: body").unwrap();
    assert_eq!(header.name, "Na\r\nme");
    assert_eq!(header.body, " body");
}

#[test]
fn parse_strips_every_crlf_of_the_body() {
    let header = Header::parse(b"A:\r\n 1\r\n\t2\r\n\r\n 3\r\n").unwrap();
    assert_eq!(header.name, "A");
    assert_eq!(header.body, " 1\t2 3");
}

#[test]
fn parse_keeps_lone_cr_and_lf_of_the_body() {
    let header = Header::parse(b"A: 1\r2\n3\n\r4").unwrap();
    assert_eq!(header.body, " 1\r2\n3\n\r4");
}

#[test]
fn parse_strips_in_one_pass() {
    let header = Header::parse(b"A:\r\r\n\nx").unwrap();
    assert_eq!(header.body, "\r\nx");
}

#[test]
fn parse_text_beyond_ascii() {
    let header = Header::parse("Sübject: Grüße\r\n aus Köln: ☃ 𝄞".as_bytes()).unwrap();
    assert_eq!(header.name, "Sübject");
    assert_eq!(header.body, " Grüße aus Köln: ☃ 𝄞");
}

#[test]
fn parse_invalid_bytes_behind_the_colon() {
    let res = Header::parse(b"Subject: \xff\xfe");
    assert!(matches!(res, Err(HeaderParseError::EncodingError(_))));
}

#[test]
fn parse_invalid_bytes_win_over_missing_colon() {
    let res = Header::parse(b"no colon \xc3");
    assert!(matches!(res, Err(HeaderParseError::EncodingError(_))));
}

#[test]
fn parse_error_is_the_decoders() {
    let bytes = b"Subject: ok \xe2\x82 not";
    let expected = std::str::from_utf8(bytes).unwrap_err();
    match Header::parse(bytes) {
        Err(HeaderParseError::EncodingError(e)) => {
            assert_eq!(e, expected);
            assert_eq!(e.valid_up_to(), 12);
        }
        _ => panic!("expected an encoding error"),
    }
}

#[test]
fn unfold_strips_crlf_pairs() {
    assert_eq!(unfold(""), "");
    assert_eq!(unfold("abc"), "abc");
    assert_eq!(unfold("\r\n"), "");
    assert_eq!(unfold(" Foo Bar\r\n Baz"), " Foo Bar Baz");
    assert_eq!(unfold("\r\na\r\n\r\nb\r\n"), "ab");
    assert_eq!(unfold("a\rb\nc\n\rd"), "a\rb\nc\n\rd");
    assert_eq!(unfold("\r\r\n\n"), "\r\n");
    assert_eq!(unfold("é\r\n☃"), "é☃");
}

#[test]
fn unfold_is_replace_of_crlf() {
    let texts = [
        "",
        "\r",
        "\n",
        "\r\n",
        "\n\r",
        "\r\r\n",
        "\r\n\n",
        "\r\r\n\n",
        "a\r\nb",
        "\r\n\r\n",
        "x\r\n y\r\n\tz",
        "ü\r\nü\r",
    ];
    for text in texts.iter() {
        assert_eq!(unfold(text), text.replace("\r\n", ""));
    }
}

#[test]
fn render_joins_with_colon_and_space() {
    let header = Header {
        name: "Subject".into(),
        body: "Hello".into(),
    };
    assert_eq!(header.render(), "Subject: Hello");
    let header = Header {
        name: "".into(),
        body: "".into(),
    };
    assert_eq!(header.render(), ": ");
}

#[test]
fn render_after_parse_adds_one_space() {
    let text = "Mime-Version: 1.0";
    let header = Header::parse(text.as_bytes()).unwrap();
    assert_eq!(format!("{}:{}", header.name, header.body), text);
    assert_eq!(header.render(), "Mime-Version:  1.0");
    let text = "X-Time:12:30";
    let header = Header::parse(text.as_bytes()).unwrap();
    assert_eq!(format!("{}:{}", header.name, header.body), text);
    assert_eq!(header.render(), "X-Time: 12:30");
}

#[test]
fn parse_after_render_gives_the_header_back() {
    let header = Header {
        name: "To".into(),
        body: "someone@example.org".into(),
    };
    let again = Header::parse(header.render().as_bytes()).unwrap();
    assert_eq!(again.name, "To");
    assert_eq!(again.body, " someone@example.org");
}

#[test]
fn parse_email_headers_one_malformed_header() {
    let text = b"Subject: Foo\r\nMime-Version = 1.0\r\nTo: me\r\n\r\nbody";
    let res = parse_email_headers(text);
    assert!(matches!(res, Err(EmailParseError::InvalidHeaders)));
}

#[test]
fn parse_email_headers_one_miscoded_header() {
    let text = b"Subject: Foo\r\nTo: \xf0\x1e\x16\xa8\r\n\r\nbody";
    let res = parse_email_headers(text);
    assert!(matches!(res, Err(EmailParseError::InvalidHeaders)));
}

#[test]
fn parse_email_headers_ignores_the_body() {
    let text = b"Subject: Foo\r\n\r\nno colon here \xff\r\n";
    let (headers, offset) = parse_email_headers(text).unwrap();
    assert_eq!(headers.len(), 1);
    assert_eq!(headers[0].name, "Subject");
    assert_eq!(headers[0].body, " Foo");
    assert_eq!(offset, 16);
    assert_eq!(&text[offset..], &b"no colon here \xff\r\n"[..]);
}

#[test]
fn parse_email_headers_of_empty_buffer() {
    let (headers, offset) = parse_email_headers(b"").unwrap();
    assert!(headers.is_empty());
    assert_eq!(offset, 0);
}

#[test]
fn parse_email_headers_without_blank_line() {
    let text = b"A: 1\r\nB: 2";
    let (headers, offset) = parse_email_headers(text).unwrap();
    assert_eq!(
        headers,
        vec![
            Header {
                name: "A".into(),
                body: " 1".into()
            },
            Header {
                name: "B".into(),
                body: " 2".into()
            },
        ]
    );
    assert_eq!(offset, text.len());
}

#[test]
fn parse_email_headers_keeps_order() {
    let text = b"B: 2\r\nA: 1\r\nB: 3\r\n\r\n";
    let (headers, offset) = parse_email_headers(text).unwrap();
    let names: Vec<&str> = headers.iter().map(|h| h.name.as_str()).collect();
    let bodies: Vec<&str> = headers.iter().map(|h| h.body.as_str()).collect();
    assert_eq!(names, vec!["B", "A", "B"]);
    assert_eq!(bodies, vec![" 2", " 1", " 3"]);
    assert_eq!(offset, text.len());
}
