use io_drivers::http::client::{
    decode_response, Action, HttpClient, Ignored, Response, Status,
};
use io_drivers::noun::{noun_from_bytes, noun_to_bytes, Noun};
use io_drivers::{read_response_frames, send_io_responses};

fn atom(s: &str) -> Noun {
    Noun::atom(s.as_bytes().to_vec())
}

fn nil() -> Noun {
    Noun::atom(Vec::new())
}

fn request_command(req_num: u64, method: &str, uri: &str, headers: Noun, body: Noun) -> Noun {
    Noun::cell(
        atom("request"),
        Noun::cell(
            Noun::atom_u64(req_num),
            Noun::cell(atom(method), Noun::cell(atom(uri), Noun::cell(headers, body))),
        ),
    )
}

fn cancel_command(req_num: u64) -> Noun {
    Noun::cell(atom("cancel-request"), Noun::atom_u64(req_num))
}

#[test]
fn request_then_stubbed_response_frame() {
    // Input command: ["request", 1, "GET", "http://example.com/", [], empty].
    let mut client = HttpClient::new();
    let cmd = request_command(1, "GET", "http://example.com/", nil(), nil());
    let req = match client.on_command(&cmd, 0) {
        Action::Dispatch(req) => req,
        other => panic!("expected a dispatch, got {:?}", other),
    };
    assert_eq!(req.req_num, 1);
    assert!(client.contains_req(1));

    // The transport, stubbed to answer (200, [("content-type","text/plain")], "ok").
    let resp = Response {
        req_num: req.req_num,
        status: 200,
        headers: vec![(b"content-type".to_vec(), b"text/plain".to_vec())],
        body: b"ok".to_vec(),
    };
    let noun = resp.try_into_noun().expect("encode");
    let payload = noun_to_bytes(&noun);
    let stream = send_io_responses(&vec![payload]);

    // Exactly one output frame, decoding to [1, 200, [["content-type","text/plain"]], [0, 2, "ok"]].
    let frames = read_response_frames(&stream).expect("well-formed stream");
    assert_eq!(frames.len(), 1);
    let got = noun_from_bytes(&frames[0]).expect("payload is a value");
    let expected = Noun::cell(
        Noun::atom_u64(1),
        Noun::cell(
            Noun::atom_u64(200),
            Noun::cell(
                Noun::cell(Noun::cell(atom("content-type"), atom("text/plain")), nil()),
                Noun::cell(Noun::atom_u64(0), Noun::cell(Noun::atom_u64(2), atom("ok"))),
            ),
        ),
    );
    assert!(got.deep_eq(&expected));
    let back = decode_response(&got).expect("decode");
    assert_eq!(back.req_num, 1);
    assert_eq!(back.status, 200);
    assert_eq!(back.body, b"ok".to_vec());
}

#[test]
fn cancel_before_completion() {
    // A cancellation right after the request, before the transport
    // resolves: the task is aborted and no response for req_num 1 can
    // ever be emitted.
    let mut client = HttpClient::new();
    let cmd = request_command(1, "GET", "http://example.com/", nil(), nil());
    assert!(matches!(client.on_command(&cmd, 0), Action::Dispatch(_)));
    assert!(client.contains_req(1));
    match client.on_command(&cancel_command(1), 1) {
        Action::Abort(token) => assert_eq!(token, 0),
        other => panic!("expected an abort, got {:?}", other),
    }
    assert!(!client.contains_req(1));
    assert_eq!(client.inflight_len(), 0);
}

#[test]
fn cancel_unknown_is_noop() {
    let mut client = HttpClient::new();
    match client.on_command(&cancel_command(42), 0) {
        Action::Ignore(Ignored::CancelUnknown(n)) => assert_eq!(n, 42),
        other => panic!("expected an informational no-op, got {:?}", other),
    }
    assert_eq!(client.inflight_len(), 0);

    let cmd = request_command(1, "GET", "http://example.com/", nil(), nil());
    assert!(matches!(client.on_command(&cmd, 0), Action::Dispatch(_)));
    assert!(matches!(
        client.on_command(&cancel_command(2), 1),
        Action::Ignore(Ignored::CancelUnknown(2))
    ));
    assert!(client.contains_req(1));
    assert_eq!(client.inflight_len(), 1);
}

#[test]
fn malformed_commands_keep_the_driver_running() {
    // A request missing its body field and a stray cancellation both
    // produce no action, and the driver handles what follows.
    let missing_body = Noun::cell(
        atom("request"),
        Noun::cell(
            Noun::atom_u64(1),
            Noun::cell(atom("GET"), Noun::cell(atom("http://example.com/"), nil())),
        ),
    );
    let bad_method = request_command(2, "GET", "http://example.com/", nil(), nil());
    let bad_method = match bad_method {
        Noun::Cell(tag, rest) => {
            let rest = match *rest {
                Noun::Cell(rn, tail) => {
                    let tail = match *tail {
                        Noun::Cell(_method, t) => {
                            Noun::Cell(Box::new(Noun::atom(vec![0xff, 0xfe])), t)
                        }
                        Noun::Atom(_) => unreachable!(),
                    };
                    Noun::Cell(rn, Box::new(tail))
                }
                Noun::Atom(_) => unreachable!(),
            };
            Noun::Cell(tag, Box::new(rest))
        }
        Noun::Atom(_) => unreachable!(),
    };
    let good = request_command(3, "GET", "http://example.com/", nil(), nil());
    let cmds = vec![missing_body, bad_method, cancel_command(9), good];

    let client = HttpClient::new();
    let (actions, status) = client.run(&cmds);
    assert_eq!(status, Status::Success);
    assert_eq!(actions.len(), 4);
    assert!(matches!(actions[0], Action::Ignore(Ignored::BadRequest(_))));
    assert!(matches!(actions[1], Action::Ignore(Ignored::BadRequest(_))));
    assert!(matches!(actions[2], Action::Ignore(Ignored::CancelUnknown(9))));
    match &actions[3] {
        Action::Dispatch(req) => assert_eq!(req.req_num, 3),
        other => panic!("expected a dispatch, got {:?}", other),
    }
}

#[test]
fn command_shape_drops() {
    let mut client = HttpClient::new();
    assert!(matches!(
        client.on_command(&atom("request"), 0),
        Action::Ignore(Ignored::NotACell)
    ));
    let cell_tag = Noun::cell(Noun::cell(atom("a"), atom("b")), nil());
    assert!(matches!(
        client.on_command(&cell_tag, 1),
        Action::Ignore(Ignored::TagNotAtom)
    ));
    let unknown = Noun::cell(atom("telnet"), nil());
    assert!(matches!(
        client.on_command(&unknown, 2),
        Action::Ignore(Ignored::UnknownTag)
    ));
    let cancel_cell = Noun::cell(atom("cancel-request"), Noun::cell(nil(), nil()));
    assert!(matches!(
        client.on_command(&cancel_cell, 3),
        Action::Ignore(Ignored::CancelTargetNotAtom)
    ));
    let cancel_wide = Noun::cell(
        atom("cancel-request"),
        Noun::atom(vec![1, 0, 0, 0, 0, 0, 0, 0, 0]),
    );
    assert!(matches!(
        client.on_command(&cancel_wide, 4),
        Action::Ignore(Ignored::CancelTooWide)
    ));
    assert_eq!(client.inflight_len(), 0);
}

#[test]
fn reused_req_num_overwrites() {
    let mut client = HttpClient::new();
    let first = request_command(1, "GET", "http://example.com/a", nil(), nil());
    let second = request_command(1, "GET", "http://example.com/b", nil(), nil());
    assert!(matches!(client.on_command(&first, 0), Action::Dispatch(_)));
    assert!(matches!(client.on_command(&second, 1), Action::Dispatch(_)));
    // One entry only: the second dispatch owns the number now.
    assert_eq!(client.inflight_len(), 1);
    match client.on_command(&cancel_command(1), 2) {
        Action::Abort(token) => assert_eq!(token, 1),
        other => panic!("expected an abort of the latest task, got {:?}", other),
    }
}
