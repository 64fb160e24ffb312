use io_drivers::http::client::{
    decode_response, u64_to_dec, ConvertError, EncodeError, Request, Response,
};
use io_drivers::noun::Noun;

fn atom(s: &str) -> Noun {
    Noun::atom(s.as_bytes().to_vec())
}

fn nil() -> Noun {
    Noun::atom(Vec::new())
}

fn pair(k: &str, v: &str) -> Noun {
    Noun::cell(atom(k), atom(v))
}

/// The five-element request list `[req_num, method, uri, headers, body]`.
fn request_list(req_num: u64, method: &str, uri: &str, headers: Noun, body: Noun) -> Noun {
    Noun::cell(
        Noun::atom_u64(req_num),
        Noun::cell(atom(method), Noun::cell(atom(uri), Noun::cell(headers, body))),
    )
}

#[test]
fn response_into_noun() {
    // [
    //   107
    //   [
    //     200
    //     [%x-cached 'HIT']
    //     [%vary 'Origin']
    //     [[%vary 'Origin'] 'Accept-Encoding']
    //     [%connection %keep-alive]
    //     [%content-length 14645]
    //     [%content-type 'application/json']
    //     [%date 'Fri, 08 Jul 2022 16:43:50 GMT']
    //     [%server 'nginx/1.14.0 (Ubuntu)']
    //     0
    //   ]
    //   [0 59 '[{"jsonrpc":"2.0","id":"block number","result":"0xe67461"}]']
    // ]
    let req_num = 107u64;
    let headers = vec![
        (b"x-cached".to_vec(), b"HIT".to_vec()),
        (b"vary".to_vec(), b"Origin".to_vec()),
        (b"vary".to_vec(), b"Accept-Encoding".to_vec()),
        (b"connection".to_vec(), b"keep-alive".to_vec()),
        (b"content-length".to_vec(), b"14645".to_vec()),
        (b"content-type".to_vec(), b"application/json".to_vec()),
        (b"date".to_vec(), b"Fri, 08 Jul 2022 16:43:50 GMT".to_vec()),
        (b"server".to_vec(), b"nginx/1.14.0 (Ubuntu)".to_vec()),
    ];
    let body = br#"[{"jsonrpc":"2.0","id":"block number","result":"0xe67461"}]"#.to_vec();

    let resp = Response { req_num, status: 200, headers, body: body.clone() };

    let noun = resp.try_into_noun().expect("build response");
    let headers_expected = Noun::cell(
        pair("server", "nginx/1.14.0 (Ubuntu)"),
        Noun::cell(
            pair("date", "Fri, 08 Jul 2022 16:43:50 GMT"),
            Noun::cell(
                pair("content-type", "application/json"),
                Noun::cell(
                    pair("content-length", "14645"),
                    Noun::cell(
                        pair("connection", "keep-alive"),
                        Noun::cell(
                            pair("vary", "Accept-Encoding"),
                            Noun::cell(
                                pair("vary", "Origin"),
                                Noun::cell(pair("x-cached", "HIT"), nil()),
                            ),
                        ),
                    ),
                ),
            ),
        ),
    );
    let expected = Noun::cell(
        Noun::atom_u64(req_num),
        Noun::cell(
            Noun::atom_u64(200),
            Noun::cell(
                headers_expected,
                Noun::cell(
                    Noun::atom_u64(0),
                    Noun::cell(Noun::atom_u64(59), Noun::atom(body)),
                ),
            ),
        ),
    );

    // If this test starts failing, it may be because the headers are in a
    // different (though still correct) order.
    assert!(noun.deep_eq(&expected), "to noun");
}

#[test]
fn response_round_trip() {
    let resp = Response {
        req_num: 7,
        status: 200,
        headers: vec![
            (b"a".to_vec(), b"1".to_vec()),
            (b"b".to_vec(), b"2".to_vec()),
            (b"a".to_vec(), b"3".to_vec()),
        ],
        body: b"hi".to_vec(),
    };
    let noun = resp.try_into_noun().expect("encode");
    let back = decode_response(&noun).expect("decode");
    assert_eq!(back.req_num, 7);
    assert_eq!(back.status, 200);
    assert_eq!(back.body, b"hi".to_vec());
    // Grouped by name in first-appearance order, then reversed.
    assert_eq!(
        back.headers,
        vec![
            (b"b".to_vec(), b"2".to_vec()),
            (b"a".to_vec(), b"3".to_vec()),
            (b"a".to_vec(), b"1".to_vec()),
        ]
    );
}

#[test]
fn response_header_value_not_text() {
    let resp = Response {
        req_num: 1,
        status: 200,
        headers: vec![(b"x".to_vec(), vec![0x01, 0x02])],
        body: Vec::new(),
    };
    let r = resp.try_into_noun();
    assert!(matches!(r, Err(EncodeError::HeaderValueNotText)));
}

#[test]
fn decode_request_get() {
    let req = request_list(1, "GET", "http://example.com/", nil(), nil());
    let req = Request::try_from_noun(&req).expect("decode");
    assert_eq!(req.req_num, 1);
    assert_eq!(req.method, b"GET".to_vec());
    assert_eq!(req.uri, b"http://example.com/".to_vec());
    assert_eq!(req.body, Vec::<u8>::new());
    assert_eq!(req.body_len, 0);
    assert_eq!(
        req.headers,
        vec![
            (b"Content-Length".to_vec(), b"0".to_vec()),
            (b"Host".to_vec(), b"example.com".to_vec()),
        ]
    );
}

#[test]
fn decode_request_with_port_and_body() {
    let body = Noun::cell(nil(), Noun::cell(Noun::atom_u64(5), atom("hello")));
    let headers = Noun::cell(pair("accept", "*/*"), nil());
    let req = request_list(9, "POST", "http://example.com:8080/x", headers, body);
    let req = Request::try_from_noun(&req).expect("decode");
    assert_eq!(req.req_num, 9);
    assert_eq!(req.body, b"hello".to_vec());
    assert_eq!(req.body_len, 5);
    assert_eq!(
        req.headers,
        vec![
            (b"accept".to_vec(), b"*/*".to_vec()),
            (b"Content-Length".to_vec(), b"5".to_vec()),
            (b"Host".to_vec(), b"example.com:8080".to_vec()),
        ]
    );
}

#[test]
fn decode_request_missing_body_field() {
    // Only four elements: the body field is missing.
    let req = Noun::cell(
        Noun::atom_u64(1),
        Noun::cell(atom("GET"), Noun::cell(atom("http://example.com/"), nil())),
    );
    let r = Request::try_from_noun(&req);
    assert!(matches!(r, Err(ConvertError::MissingValue)));
}

#[test]
fn decode_request_non_utf8_method() {
    let req = request_list(1, "GET", "http://example.com/", nil(), nil());
    // Rebuild with a method atom that is not valid UTF-8.
    let req = match req {
        Noun::Cell(rn, rest) => match *rest {
            Noun::Cell(_method, tail) => {
                Noun::Cell(rn, Box::new(Noun::Cell(Box::new(Noun::atom(vec![0xff, 0xfe])), tail)))
            }
            Noun::Atom(_) => unreachable!(),
        },
        Noun::Atom(_) => unreachable!(),
    };
    let r = Request::try_from_noun(&req);
    assert!(matches!(r, Err(ConvertError::AtomToStr)));
}

#[test]
fn decode_request_req_num_too_wide() {
    let wide = Noun::atom(vec![1, 0, 0, 0, 0, 0, 0, 0, 0]);
    let req = Noun::cell(
        wide,
        Noun::cell(
            atom("GET"),
            Noun::cell(atom("http://example.com/"), Noun::cell(nil(), nil())),
        ),
    );
    let r = Request::try_from_noun(&req);
    assert!(matches!(r, Err(ConvertError::AtomToUint)));
}

#[test]
fn decode_request_uri_without_host() {
    let req = request_list(1, "GET", "/hello/world", nil(), nil());
    let r = Request::try_from_noun(&req);
    assert!(matches!(r, Err(ConvertError::MissingValue)));
}

#[test]
fn decode_request_header_shapes() {
    // A headers list whose element is a bare atom.
    let headers = Noun::cell(atom("oops"), nil());
    let req = request_list(1, "GET", "http://example.com/", headers, nil());
    assert!(matches!(
        Request::try_from_noun(&req),
        Err(ConvertError::UnexpectedAtom)
    ));

    // A header pair whose key is itself a pair.
    let bad_pair = Noun::cell(Noun::cell(atom("k"), atom("k2")), atom("v"));
    let headers = Noun::cell(bad_pair, nil());
    let req = request_list(1, "GET", "http://example.com/", headers, nil());
    assert!(matches!(
        Request::try_from_noun(&req),
        Err(ConvertError::UnexpectedCell)
    ));

    // A bare atom where the whole request should be.
    assert!(matches!(
        Request::try_from_noun(&atom("nope")),
        Err(ConvertError::UnexpectedCell)
    ));
}

#[test]
fn decimal_formatting() {
    assert_eq!(u64_to_dec(0), b"0".to_vec());
    assert_eq!(u64_to_dec(14645), b"14645".to_vec());
    assert_eq!(u64_to_dec(u64::MAX), b"18446744073709551615".to_vec());
}
