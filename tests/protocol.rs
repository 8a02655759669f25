use kite::error::ProtocolError;
use kite::payload::{
    decode_request, decode_response, encode_request, encode_response, Activity,
    ActivityListRequest, AgentInfo, AgentInfoRequest, CourseScore, CourseScoreRequest,
    ElectricityBill, ElectricityBillRequest, RequestPayload, ResponsePayload,
};
use kite::protocol::{Request, Response};
use kite::reader::ResponseReader;
use kite::sequence::SequenceGenerator;

fn header(ack: u64, size: u32, code: u16) -> Vec<u8> {
    let mut v = ack.to_be_bytes().to_vec();
    v.extend_from_slice(&size.to_be_bytes());
    v.extend_from_slice(&code.to_be_bytes());
    v
}

fn all_requests() -> Vec<RequestPayload> {
    vec![
        RequestPayload::AgentInfo(AgentInfoRequest {}),
        RequestPayload::ElectricityBill(ElectricityBillRequest { room: b"10101".to_vec() }),
        RequestPayload::ActivityList(ActivityListRequest { count: 20, index: 3 }),
        RequestPayload::ScoreList(CourseScoreRequest {
            account: b"2111421206".to_vec(),
            password: b"pw".to_vec(),
            term: 2,
        }),
    ]
}

fn all_responses() -> Vec<ResponsePayload> {
    vec![
        ResponsePayload::AgentInfo(AgentInfo { name: "agent-1".as_bytes().to_vec() }),
        ResponsePayload::ElectricityBill(ElectricityBill { room: b"10101".to_vec(), balance: 12345 }),
        ResponsePayload::ActivityList(vec![
            Activity { id: 1, title: "讲座".as_bytes().to_vec() },
            Activity { id: 2, title: Vec::new() },
        ]),
        ResponsePayload::ActivityList(Vec::new()),
        ResponsePayload::ScoreList(vec![CourseScore { course: b"Math".to_vec(), score: 95 }]),
    ]
}

#[test]
fn request_payloads_round_trip() {
    for p in all_requests() {
        let bytes = encode_request(&p);
        assert_eq!(decode_request(&bytes), Ok(p));
    }
}

#[test]
fn response_payloads_round_trip() {
    for p in all_responses() {
        let bytes = encode_response(&p);
        assert_eq!(decode_response(&bytes), Ok(p));
    }
}

#[test]
fn request_layout_is_tag_then_fields() {
    let p = RequestPayload::ActivityList(ActivityListRequest { count: 10, index: 1 });
    assert_eq!(encode_request(&p), vec![0, 0, 0, 2, 0, 10, 0, 1]);
    let p = RequestPayload::ElectricityBill(ElectricityBillRequest { room: b"ab".to_vec() });
    assert_eq!(encode_request(&p), vec![0, 0, 0, 1, 0, 0, 0, 0, 0, 0, 0, 2, b'a', b'b']);
    assert_eq!(encode_request(&RequestPayload::AgentInfo(AgentInfoRequest {})), vec![0, 0, 0, 0]);
}

#[test]
fn response_layout_is_tag_then_fields() {
    let p = ResponsePayload::ScoreList(vec![CourseScore { course: b"M".to_vec(), score: 258 }]);
    assert_eq!(
        encode_response(&p),
        vec![0, 0, 0, 3, 0, 0, 0, 0, 0, 0, 0, 1, 0, 0, 0, 0, 0, 0, 0, 1, b'M', 1, 2]
    );
}

#[test]
fn decode_rejects_bad_bytes() {
    assert_eq!(decode_response(&[0, 0, 0, 9]), Err(ProtocolError::Decode));
    assert_eq!(decode_response(&[0, 0]), Err(ProtocolError::Decode));
    assert_eq!(decode_response(&[]), Err(ProtocolError::Decode));
    // a name that announces 5 bytes but carries 2
    assert_eq!(
        decode_response(&[0, 0, 0, 0, 0, 0, 0, 0, 0, 0, 0, 5, b'a', b'b']),
        Err(ProtocolError::Decode)
    );
    // a list that announces more items than it carries
    assert_eq!(
        decode_response(&[0, 0, 0, 2, 0xff, 0xff, 0xff, 0xff, 0xff, 0xff, 0xff, 0xff]),
        Err(ProtocolError::Decode)
    );
}

#[test]
fn sequence_numbers_are_distinct_and_consecutive() {
    let mut g = SequenceGenerator::new();
    let got: Vec<u64> = (0..100).map(|_| g.next()).collect();
    let want: Vec<u64> = (1..=100).collect();
    assert_eq!(got, want);
    let mut g = SequenceGenerator::starting_at(u64::MAX);
    assert_eq!(g.next(), u64::MAX);
    assert_eq!(g.next(), 0);
}

#[test]
fn request_size_is_payload_length() {
    let mut g = SequenceGenerator::new();
    for p in all_requests() {
        let expected = encode_request(&p);
        let r = Request::new(&mut g, p).unwrap();
        assert_eq!(r.size as usize, r.payload.len());
        assert_eq!(r.payload, expected);
    }
    assert_eq!(g.next(), 5);
}

#[test]
fn request_frame_bytes() {
    let mut g = SequenceGenerator::starting_at(0x0102);
    let r = Request::new(&mut g, RequestPayload::AgentInfo(AgentInfoRequest {})).unwrap();
    assert_eq!(r.to_bytes(), vec![0, 0, 0, 0, 0, 0, 1, 2, 0, 0, 0, 4, 0, 0, 0, 0]);
}

#[test]
fn empty_body_after_header() {
    let h = header(9, 0, 0);
    assert_eq!(h.len(), 14);
    let r = Response::from_chunks(&vec![h.clone()]).unwrap();
    assert_eq!(r, Response { ack: 9, size: 0, code: 0, payload: Vec::new() });
    let mut reader = ResponseReader::new();
    assert_eq!(reader.wanted(), 8);
    let mut at = 0;
    while !reader.is_done() {
        let n = reader.feed(&h, at).unwrap();
        at += n;
    }
    assert_eq!(at, 14);
    assert_eq!(reader.wanted(), 0);
}

#[test]
fn body_over_partial_deliveries() {
    let body: Vec<u8> = (0..5000u32).map(|i| (i % 251) as u8).collect();
    let mut deliveries = vec![header(3, 5000, 0)];
    for piece in body.chunks(1000) {
        deliveries.push(piece.to_vec());
    }
    let r = Response::from_chunks(&deliveries).unwrap();
    assert_eq!(r.ack, 3);
    assert_eq!(r.size, 5000);
    assert_eq!(r.payload.len(), 5000);
    assert_eq!(r.payload, body);
    // byte by byte, and all at once, give the same response
    let mut all = header(3, 5000, 0);
    all.extend_from_slice(&body);
    let single: Vec<Vec<u8>> = all.iter().map(|b| vec![*b]).collect();
    assert_eq!(Response::from_chunks(&single).unwrap(), r);
    assert_eq!(Response::from_chunks(&vec![all]).unwrap(), r);
}

#[test]
fn reads_are_bounded() {
    let mut reader = ResponseReader::new();
    let h = header(1, 5000, 0);
    let mut at = 0;
    let mut asked = Vec::new();
    while at < h.len() {
        asked.push(reader.wanted());
        at += reader.feed(&h, at).unwrap();
    }
    assert_eq!(asked, vec![8, 4, 2]);
    assert_eq!(reader.wanted(), 2048);
    let body = vec![7u8; 5000];
    let mut at = 0;
    while !reader.is_done() {
        assert!(reader.wanted() <= 2048);
        at += reader.feed(&body, at).unwrap();
    }
    assert_eq!(reader.into_response().payload, body);
}

#[test]
fn is_ok_only_for_code_zero() {
    let ok = Response { ack: 1, size: 0, code: 0, payload: Vec::new() };
    let failed = Response { ack: 1, size: 0, code: 3, payload: Vec::new() };
    assert!(ok.is_ok());
    assert!(!failed.is_ok());
    assert_eq!(failed.payload(), Err(ProtocolError::Decode));
}

#[test]
fn stream_closing_mid_body_is_io() {
    let mut d = header(1, 10, 0);
    d.extend_from_slice(&[1, 2, 3]);
    assert_eq!(Response::from_chunks(&vec![d]), Err(ProtocolError::Io));
    assert_eq!(Response::from_chunks(&vec![vec![0, 0, 0]]), Err(ProtocolError::Io));
    assert_eq!(Response::from_chunks(&Vec::new()), Err(ProtocolError::Io));
    let mut reader = ResponseReader::new();
    assert_eq!(reader.feed(&[], 0), Err(ProtocolError::Io));
}

#[test]
fn activity_list_exchange() {
    let mut g = SequenceGenerator::new();
    let req = Request::new(
        &mut g,
        RequestPayload::ActivityList(ActivityListRequest { count: 10, index: 0 }),
    )
    .unwrap();
    assert_eq!(req.seq, 1);
    let resp = Response::from_chunks(&vec![header(1, 0, 0)]).unwrap();
    assert_eq!(resp, Response { ack: 1, size: 0, code: 0, payload: Vec::new() });
    assert!(resp.is_ok());
}

#[test]
fn decoded_response_payload() {
    let p = ResponsePayload::ElectricityBill(ElectricityBill { room: b"1".to_vec(), balance: 7 });
    let body = encode_response(&p);
    let mut d = header(4, body.len() as u32, 0);
    d.extend_from_slice(&body);
    d.extend_from_slice(&[9, 9]);
    let resp = Response::from_chunks(&vec![d]).unwrap();
    assert_eq!(resp.payload(), Ok(p));
}

#[test]
fn bytes_after_a_payload_are_ignored() {
    let mut b = encode_request(&RequestPayload::AgentInfo(AgentInfoRequest {}));
    b.push(0);
    assert_eq!(decode_request(&b), Ok(RequestPayload::AgentInfo(AgentInfoRequest {})));
    assert_eq!(
        decode_response(&[0u8; 13]),
        Ok(ResponsePayload::AgentInfo(AgentInfo { name: Vec::new() }))
    );
    let p = ResponsePayload::ScoreList(vec![CourseScore { course: b"M".to_vec(), score: 1 }]);
    let mut b = encode_response(&p);
    b.extend_from_slice(&[1, 2, 3]);
    assert_eq!(decode_response(&b), Ok(p));
}

#[test]
fn reads_stop_at_the_end_of_the_frame() {
    let mut reader = ResponseReader::new();
    let h = header(1, 3000, 0);
    let mut at = 0;
    while at < h.len() {
        at += reader.feed(&h, at).unwrap();
    }
    let body = vec![1u8; 4000];
    assert_eq!(reader.feed(&body, 0), Ok(2048));
    assert_eq!(reader.wanted(), 952);
    assert_eq!(reader.feed(&body, 2048), Ok(952));
    assert_eq!(reader.wanted(), 0);
    assert!(reader.is_done());
}
