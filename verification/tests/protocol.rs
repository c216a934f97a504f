use nag::command::Command;
use nag::error_code::ErrorCode;
use nag::frame::{decode_frame, encode_frame, RecvError};
use nag::json::{decode_command, decode_response, encode_command, encode_response};
use nag::nag::Nag;
use nag::response::Response;
use nag::time::{CivilTime, Timestamp};

fn ts(year: u64, month: u64, day: u64, hour: u64, minute: u64, second: u64) -> Timestamp {
    CivilTime { year, month, day, hour, minute, second }.to_timestamp().unwrap()
}

fn sample_nag() -> Nag {
    Nag {
        end_time: ts(2024, 5, 1, 12, 30, 0),
        name: "Tea".to_string(),
        sound_file: Some("ding.wav".to_string()),
    }
}

#[test]
fn test_recv_message() {
    let msg = "Hello, World!".to_string();
    let mut bytes: Vec<u8> = Vec::new();
    bytes.extend_from_slice(&(msg.len() as u32).to_le_bytes());
    bytes.extend_from_slice(msg.as_bytes());

    let (received_msg, consumed) = decode_frame(&bytes).unwrap();
    assert_eq!(received_msg, msg);
    assert_eq!(consumed, bytes.len());
}

#[test]
fn test_recv_command() {
    let command = Command::ListNags;

    let serialized_command = encode_command(&command);
    let mut bytes: Vec<u8> = Vec::new();
    bytes.extend_from_slice(&(serialized_command.len() as u32).to_le_bytes());
    bytes.extend_from_slice(serialized_command.as_bytes());

    let (payload, _) = decode_frame(&bytes).unwrap();
    let received_command = decode_command(&payload).unwrap();
    assert_eq!(received_command, command);
}

#[test]
fn test_recv_response() {
    let response = Response::Okay;

    let serialized_response = encode_response(&response);
    let mut bytes: Vec<u8> = Vec::new();
    bytes.extend_from_slice(&(serialized_response.len() as u32).to_le_bytes());
    bytes.extend_from_slice(serialized_response.as_bytes());

    let (payload, _) = decode_frame(&bytes).unwrap();
    let received_response = decode_response(&payload).unwrap();
    assert_eq!(received_response, response);
}

#[test]
fn test_send_message() {
    let msg = "Hello, World!".to_string();
    let frame = encode_frame(&msg).unwrap();

    let mut len_buf = [0u8; 4];
    len_buf.copy_from_slice(&frame[0..4]);
    let msg_len = u32::from_le_bytes(len_buf) as usize;

    assert_eq!(msg_len, msg.len());
    assert_eq!(String::from_utf8(frame[4..4 + msg_len].to_vec()).unwrap(), msg);
}

#[test]
fn test_send_command() {
    let command = Command::ListNags;
    let frame = encode_frame(&encode_command(&command)).unwrap();

    let mut len_buf = [0u8; 4];
    len_buf.copy_from_slice(&frame[0..4]);
    let msg_len = u32::from_le_bytes(len_buf) as usize;

    let payload = String::from_utf8(frame[4..4 + msg_len].to_vec()).unwrap();
    let received_command = decode_command(&payload).unwrap();
    assert_eq!(received_command, command);
}

#[test]
fn test_send_response() {
    let response = Response::Okay;
    let frame = encode_frame(&encode_response(&response)).unwrap();

    let mut len_buf = [0u8; 4];
    len_buf.copy_from_slice(&frame[0..4]);
    let msg_len = u32::from_le_bytes(len_buf) as usize;

    let payload = String::from_utf8(frame[4..4 + msg_len].to_vec()).unwrap();
    let received_response = decode_response(&payload).unwrap();
    assert_eq!(received_response, response);
}

#[test]
fn command_json_shapes() {
    assert_eq!(encode_command(&Command::ListNags), "{\"ListNags\":null}");
    let cmd = Command::AddNag { nag: sample_nag() };
    assert_eq!(
        encode_command(&cmd),
        "{\"AddNag\":{\"nag\":{\"end_time\":\"2024-05-01T12:30:00+00:00\",\
         \"name\":\"Tea\",\"sound_file\":\"ding.wav\"}}}"
    );
    let cmd = Command::SetNags { nags: vec![] };
    assert_eq!(encode_command(&cmd), "{\"SetNags\":{\"nags\":[]}}");
}

#[test]
fn response_json_shapes() {
    assert_eq!(encode_response(&Response::Okay), "\"Ok\"");
    let resp = Response::Error { code: ErrorCode::InvalidFormat, msg: None };
    assert_eq!(
        encode_response(&resp),
        "{\"Error\":{\"code\":\"InvalidFormat\",\"msg\":null}}"
    );
    let resp = Response::NagList { nags: vec![] };
    assert_eq!(encode_response(&resp), "{\"NagList\":{\"nags\":[]}}");
}

#[test]
fn command_round_trips() {
    let plain = Nag { end_time: ts(2030, 1, 2, 3, 4, 5), name: "plain".to_string(), sound_file: None };
    let tricky = Nag {
        end_time: ts(2024, 2, 29, 23, 59, 59),
        name: "say \"hi\"\\there\n\ttwice\r".to_string(),
        sound_file: Some("a,b.wav".to_string()),
    };
    let cases = vec![
        Command::ListNags,
        Command::AddNag { nag: plain.clone() },
        Command::AddNag { nag: tricky.clone() },
        Command::SetNags { nags: vec![] },
        Command::SetNags { nags: vec![plain, tricky] },
    ];
    for cmd in cases {
        let encoded = encode_command(&cmd);
        assert_eq!(decode_command(&encoded).unwrap(), cmd);
    }
}

#[test]
fn response_round_trips() {
    let n = sample_nag();
    let cases = vec![
        Response::Okay,
        Response::Error { code: ErrorCode::OK, msg: None },
        Response::Error { code: ErrorCode::InvalidFormat, msg: Some("bad".to_string()) },
        Response::Error { code: ErrorCode::UnknownCommand, msg: Some("no \"such\"".to_string()) },
        Response::Error { code: ErrorCode::NotImplemented, msg: None },
        Response::NagList { nags: vec![] },
        Response::NagList { nags: vec![n.clone(), n] },
    ];
    for resp in cases {
        let encoded = encode_response(&resp);
        assert_eq!(decode_response(&encoded).unwrap(), resp);
    }
}

#[test]
fn malformed_payloads_are_refused() {
    for bad in ["", "{", "not json at all", "{\"AddNag\":{}}", "{\"ListNags\":null} ", "\"Okk\""] {
        assert!(decode_command(bad).is_err());
        assert!(decode_response(bad).is_err());
    }
}

#[test]
fn framing_round_trips_unicode() {
    let msg = "héllo ☀ wörld".to_string();
    let frame = encode_frame(&msg).unwrap();
    let (back, consumed) = decode_frame(&frame).unwrap();
    assert_eq!(back, msg);
    assert_eq!(consumed, frame.len());

    let empty = encode_frame("").unwrap();
    assert_eq!(empty, vec![0u8, 0, 0, 0]);
    assert_eq!(decode_frame(&empty).unwrap().0, "");
}

#[test]
fn framing_failures() {
    assert_eq!(decode_frame(&vec![1u8, 0, 0]), Err(RecvError::Framing));
    assert_eq!(decode_frame(&vec![5u8, 0, 0, 0, b'a']), Err(RecvError::Framing));
    assert_eq!(decode_frame(&vec![2u8, 0, 0, 0, 0xff, 0xfe]), Err(RecvError::Decode));
}
