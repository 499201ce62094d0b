use lume::b64::{deserialize, serialize, Base64Error};
use lume::error::LumeError;
use lume::float32::Float32;
use lume::path::MediaPath;
use lume::protocol::{
    read_frame, show_message, write_frame, BatchItem, ClientMessage, EmbedOneResponse,
    EmbedResponse, EmbedTextRequest, FrameStep, ServerMessage, UnitResult, MAX_FRAME_BYTES,
};
use lume::sidecar::{
    embedding_from_fp16_bytes, retries_connect, ConnectFault, SocketSidecar, CONNECT_ATTEMPTS,
    CONNECT_PAUSE_MS,
};
use lume::traits::EmbedOutcome;
use lume::types::{EmbedUnit, Embedding};

fn half_bits(x: f32) -> u16 {
    half::f16::from_f32(x).to_bits()
}

fn sidecar() -> SocketSidecar {
    SocketSidecar::new(MediaPath::from_text("/tmp/lume.sock"), 400)
}

fn unit(file: i64, path: &str) -> EmbedUnit {
    EmbedUnit { file, path: MediaPath::from_text(path), frame_ts: None }
}

fn embedded(unit_idx: u32, emb_fp16: &[u8], thumb_jpeg: &[u8]) -> BatchItem {
    BatchItem {
        unit_idx,
        result: UnitResult::Embedded {
            emb_fp16: emb_fp16.to_vec(),
            thumb_jpeg: thumb_jpeg.to_vec(),
        },
    }
}

fn why(error: LumeError) -> String {
    match error {
        LumeError::Sidecar(why) => why,
        other => panic!("expected a sidecar error, got {:?}", other),
    }
}

#[test]
fn length_prefixed_json_frame_round_trips() {
    let json = br#"{"type":"embed_one_response","payload":{"emb_fp16":"ADwAQA=="}}"#;
    let framed = write_frame(json).unwrap();
    assert_eq!(framed[..4], [0, 0, 0, json.len() as u8]);
    assert_eq!(read_frame(&framed).unwrap(), FrameStep::Complete(json.to_vec()));

    // As a stream hands it over: nothing yet, the length, the rest.
    assert_eq!(read_frame(&[]).unwrap(), FrameStep::Need(4));
    assert_eq!(read_frame(&framed[..4]).unwrap(), FrameStep::Need(json.len()));
    assert_eq!(read_frame(&framed[..10]).unwrap(), FrameStep::Need(json.len() - 6));
}

#[test]
fn lengths_have_the_most_significant_byte_first() {
    let json = vec![7_u8; 66_051];
    let framed = write_frame(&json).unwrap();
    assert_eq!(framed[..4], [0, 1, 2, 3]);
    assert_eq!(read_frame(&framed).unwrap(), FrameStep::Complete(json));
    assert_eq!(read_frame(&[0, 0, 0, 0]).unwrap(), FrameStep::Complete(Vec::new()));
}

#[test]
fn frames_that_are_too_large_are_refused() {
    let json = vec![0_u8; MAX_FRAME_BYTES];
    assert_eq!(write_frame(&json).unwrap().len(), MAX_FRAME_BYTES + 4);
    let json = vec![0_u8; MAX_FRAME_BYTES + 1];
    assert_eq!(why(write_frame(&json).unwrap_err()), "frame too large: 33554433 bytes");
    assert_eq!(
        why(read_frame(&[2, 0, 0, 1]).unwrap_err()),
        "frame too large: 33554433 bytes"
    );
    assert_eq!(
        why(read_frame(&[255, 255, 255, 255]).unwrap_err()),
        "frame too large: 4294967295 bytes"
    );
    assert_eq!(read_frame(&[2, 0, 0, 0]).unwrap(), FrameStep::Need(MAX_FRAME_BYTES));
}

#[test]
fn bytes_are_sent_as_base64_text() {
    assert_eq!(serialize(&[1, 2, 3, 4]), "AQIDBA==");
    assert_eq!(serialize(&[0xFF, 0xD8, 0xFF]), "/9j/");
    assert_eq!(serialize(&[9, 9]), "CQk=");
}

#[test]
fn image_bytes_read_back_from_their_base64_text() {
    let image_bytes = vec![0xFF, 0xD8, 0xFF];
    let emb_fp16 = vec![9, 9];
    assert_eq!(deserialize(&serialize(&image_bytes)).unwrap(), image_bytes);
    assert_eq!(deserialize(&serialize(&emb_fp16)).unwrap(), emb_fp16);
}

#[test]
fn a_text_request_holds_the_query() {
    match sidecar().embed_text_request("girl riding a bicycle") {
        ClientMessage::EmbedText(EmbedTextRequest { text }) => {
            assert_eq!(text, "girl riding a bicycle");
        }
        other => panic!("expected a text request, got {:?}", other),
    }
    let answer = ServerMessage::EmbedOneResponse(EmbedOneResponse { emb_fp16: vec![8, 8] });
    assert_eq!(sidecar().embed_text_reply(&answer).unwrap(), Embedding(vec![0x0808]));
}

#[test]
fn base64_reads_back() {
    let all: Vec<u8> = (0..=255).collect();
    for n in 0..all.len() {
        let text = serialize(&all[..n]);
        assert_eq!(text.len(), 4 * ((n + 2) / 3));
        assert_eq!(deserialize(&text).unwrap(), all[..n].to_vec());
    }
    assert_eq!(serialize(&[]), "");
    assert_eq!(serialize(&[0xfb, 0xff]), "+/8=");
}

#[test]
fn what_is_not_base64_is_refused() {
    assert_eq!(deserialize("AQ"), Err(Base64Error::InvalidPadding));
    assert_eq!(deserialize("AQ="), Err(Base64Error::InvalidPadding));
    assert_eq!(deserialize("A"), Err(Base64Error::InvalidLength(1)));
    assert_eq!(deserialize("AR=="), Err(Base64Error::InvalidLastSymbol(1, b'R')));
    assert_eq!(deserialize("A-=="), Err(Base64Error::InvalidByte(1, b'-')));
    assert_eq!(deserialize("AQ==AQ=="), Err(Base64Error::InvalidByte(2, b'=')));
    assert!(deserialize("AQ==\n").is_err());
    assert!(deserialize("é").is_err());
}

#[test]
fn socket_sidecar_embeds_text_over_unix_socket() {
    let sidecar = sidecar();
    match sidecar.embed_text_request("girl riding a bicycle") {
        ClientMessage::EmbedText(r) => assert_eq!(r.text, "girl riding a bicycle"),
        other => panic!("expected a text request, got {:?}", other),
    }
    let answer =
        ServerMessage::EmbedOneResponse(EmbedOneResponse { emb_fp16: vec![0, 60, 0, 64] });
    assert_eq!(
        sidecar.embed_text_reply(&answer).unwrap(),
        Embedding(vec![half_bits(1.0), half_bits(2.0)])
    );
    assert_eq!(
        sidecar.embed_one_reply(&answer).unwrap(),
        Embedding(vec![half_bits(1.0), half_bits(2.0)])
    );
    match sidecar.embed_one_request(&[0xFF, 0xD8]) {
        ClientMessage::EmbedOne(r) => assert_eq!(r.image_bytes, vec![0xFF, 0xD8]),
        other => panic!("expected an image request, got {:?}", other),
    }
}

#[test]
fn socket_sidecar_waits_for_the_server_to_bind() {
    // A server that binds after 75 milliseconds is met by the third attempt.
    let mut waited = 0;
    let mut attempts = 1;
    while waited < 75 {
        assert!(retries_connect(ConnectFault::NotFound, attempts));
        waited += CONNECT_PAUSE_MS;
        attempts += 1;
    }
    assert_eq!(attempts, 3);
    assert!(retries_connect(ConnectFault::Refused, 1));
    assert!(retries_connect(ConnectFault::Refused, CONNECT_ATTEMPTS - 1));
    assert!(!retries_connect(ConnectFault::NotFound, CONNECT_ATTEMPTS));
    assert!(!retries_connect(ConnectFault::Other, 1));
}

#[test]
fn socket_sidecar_realigns_batch_results_by_unit_index() {
    let sidecar = sidecar();
    let units = [unit(10, "/tmp/a.jpg"), unit(11, "/tmp/b.jpg")];
    match sidecar.embed_request(&units) {
        ClientMessage::Embed(r) => {
            assert_eq!(r.batch_id, 0);
            assert_eq!(r.thumb_px, 400);
            assert_eq!(r.units.len(), 2);
            assert_eq!((r.units[0].unit_idx, r.units[1].unit_idx), (0, 1));
            assert_eq!(r.units[0].path, "/tmp/a.jpg");
            assert_eq!(r.units[1].path, "/tmp/b.jpg");
            assert_eq!(r.units[0].frame_ts, None);
        }
        other => panic!("expected a batch request, got {:?}", other),
    }
    let answer = ServerMessage::EmbedResponse(EmbedResponse {
        batch_id: 0,
        items: vec![
            embedded(1, &[0, 64], &[0xFF, 0xD8]),
            embedded(0, &[0, 60], &[0xFF, 0xD8, 0xFF]),
        ],
    });
    let outcomes = sidecar.embed_reply(units.len(), &answer).unwrap();
    match &outcomes[0] {
        EmbedOutcome::Embedded { emb, thumbnail_jpeg } => {
            assert_eq!(emb, &Embedding(vec![half_bits(1.0)]));
            assert_eq!(thumbnail_jpeg, &[0xFF, 0xD8, 0xFF]);
        }
        _ => panic!("expected ok outcome"),
    }
    match &outcomes[1] {
        EmbedOutcome::Embedded { emb, .. } => {
            assert_eq!(emb, &Embedding(vec![half_bits(2.0)]));
        }
        _ => panic!("expected ok outcome"),
    }
}

#[test]
fn socket_sidecar_realigns_out_of_order_ok_and_failed_batch_results() {
    let answer = ServerMessage::EmbedResponse(EmbedResponse {
        batch_id: 0,
        items: vec![
            embedded(2, &[0, 66], &[0xFF, 0xD8, 0x02]),
            embedded(0, &[0, 60], &[0xFF, 0xD8, 0x00]),
            BatchItem {
                unit_idx: 1,
                result: UnitResult::Failed {
                    reason: "decode failed after out-of-order completion".into(),
                },
            },
        ],
    });
    let outcomes = sidecar().embed_reply(3, &answer).unwrap();
    assert!(matches!(
        &outcomes[0],
        EmbedOutcome::Embedded { emb, thumbnail_jpeg }
            if emb == &Embedding(vec![half_bits(1.0)]) && thumbnail_jpeg == &[0xFF, 0xD8, 0x00]
    ));
    assert!(matches!(
        &outcomes[1],
        EmbedOutcome::Failed { reason } if reason.contains("decode failed")
    ));
    assert!(matches!(
        &outcomes[2],
        EmbedOutcome::Embedded { emb, .. } if emb == &Embedding(vec![half_bits(3.0)])
    ));
}

#[test]
fn embedded_and_failed_results_become_outcomes() {
    let answer = ServerMessage::EmbedResponse(EmbedResponse {
        batch_id: 7,
        items: vec![
            embedded(0, &[1, 2, 3, 4], &[255, 216, 255]),
            BatchItem {
                unit_idx: 1,
                result: UnitResult::Failed { reason: "unsupported codec".into() },
            },
        ],
    });
    let outcomes = sidecar().embed_reply(2, &answer).unwrap();
    assert!(matches!(
        &outcomes[0],
        EmbedOutcome::Embedded { emb, thumbnail_jpeg }
            if emb == &Embedding(vec![0x0201, 0x0403]) && thumbnail_jpeg == &[255, 216, 255]
    ));
    assert!(matches!(
        &outcomes[1],
        EmbedOutcome::Failed { reason } if reason == "unsupported codec"
    ));
}

#[test]
fn a_unit_without_a_result_has_failed() {
    let answer = ServerMessage::EmbedResponse(EmbedResponse {
        batch_id: 0,
        items: vec![embedded(1, &[0, 60], &[]), embedded(1, &[0, 64], &[])],
    });
    let outcomes = sidecar().embed_reply(2, &answer).unwrap();
    assert!(matches!(
        &outcomes[0],
        EmbedOutcome::Failed { reason } if reason == "missing sidecar result"
    ));
    assert!(
        matches!(&outcomes[1], EmbedOutcome::Embedded { emb, .. } if emb.0 == vec![0x4000]),
        "of two results the last one counts"
    );
}

#[test]
fn answers_that_make_no_sense_are_refused() {
    let batch = |items| ServerMessage::EmbedResponse(EmbedResponse { batch_id: 3, items });
    assert_eq!(
        why(sidecar().embed_reply(1, &batch(vec![embedded(1, &[0, 60], &[])])).unwrap_err()),
        "sidecar returned out-of-range unit_idx 1"
    );
    assert_eq!(
        why(sidecar().embed_reply(1, &batch(vec![embedded(0, &[0, 60, 1], &[])])).unwrap_err()),
        "fp16 embedding has odd byte length 3"
    );
    assert_eq!(
        why(sidecar()
            .embed_reply(
                2,
                &batch(vec![embedded(0, &[1], &[]), embedded(9, &[0, 60], &[])])
            )
            .unwrap_err()),
        "fp16 embedding has odd byte length 1",
        "the first fault is reported"
    );
    let error = ServerMessage::Error { message: "out of memory".into() };
    assert_eq!(why(sidecar().embed_reply(1, &error).unwrap_err()), "out of memory");
    assert_eq!(why(sidecar().embed_text_reply(&error).unwrap_err()), "out of memory");
    let one = ServerMessage::EmbedOneResponse(EmbedOneResponse { emb_fp16: vec![9, 10] });
    assert_eq!(
        why(sidecar().embed_reply(1, &one).unwrap_err()),
        "unexpected sidecar response: EmbedOneResponse(EmbedOneResponse { emb_fp16: [9, 10] })"
    );
    assert_eq!(
        why(sidecar().embed_one_reply(&batch(vec![embedded(0, &[1, 2], &[])])).unwrap_err()),
        "unexpected sidecar response: EmbedResponse(EmbedResponse { batch_id: 3, items: \
         [BatchItem { unit_idx: 0, result: Ok { emb_fp16: [1, 2], thumb_jpeg: [] } }] })"
    );
    assert_eq!(
        why(sidecar()
            .embed_text_reply(&ServerMessage::EmbedOneResponse(EmbedOneResponse {
                emb_fp16: vec![1]
            }))
            .unwrap_err()),
        "fp16 embedding has odd byte length 1"
    );
}

#[test]
fn responses_as_text() {
    let failed = |unit_idx, reason: &str| BatchItem {
        unit_idx,
        result: UnitResult::Failed { reason: reason.into() },
    };
    assert_eq!(
        show_message(&ServerMessage::EmbedResponse(EmbedResponse {
            batch_id: 1,
            items: vec![failed(0, "a \"b\"\n"), failed(1, "c")],
        })),
        "EmbedResponse(EmbedResponse { batch_id: 1, items: [BatchItem { unit_idx: 0, result: \
         Failed { reason: \"a \\\"b\\\"\\n\" } }, BatchItem { unit_idx: 1, result: Failed { \
         reason: \"c\" } }] })"
    );
    assert_eq!(
        show_message(&ServerMessage::Error { message: "x".into() }),
        "Error { message: \"x\" }"
    );
}

#[test]
fn request_units_carry_the_frame_time() {
    let ts = Float32 { bits: 12.5_f32.to_bits() };
    let units = [EmbedUnit {
        file: 1,
        path: MediaPath { bytes: vec![47, 97, 0xff] },
        frame_ts: Some(ts),
    }];
    match sidecar().embed_request(&units) {
        ClientMessage::Embed(r) => {
            assert_eq!(r.units[0].frame_ts, Some(ts));
            assert_eq!(r.units[0].path, "/a\u{fffd}");
        }
        other => panic!("expected a batch request, got {:?}", other),
    }
}

#[test]
fn vectors_have_the_least_significant_byte_first() {
    assert_eq!(embedding_from_fp16_bytes(&[1, 2, 255, 0]).unwrap(), Embedding(vec![513, 255]));
    assert_eq!(embedding_from_fp16_bytes(&[]).unwrap(), Embedding(Vec::new()));
}
