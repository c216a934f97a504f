use nag::error_code::ErrorCode;
use nag::nag::{nag_to_line, nags_equal, nags_from_text, nags_to_text, time_remaining, Nag};
use nag::response::{nags_of_response, Response};
use nag::store::NagStore;
use nag::time::{timestamp_to_rfc3339, CivilTime, Timestamp};
use nag::Command;

fn ts(year: u64, month: u64, day: u64, hour: u64, minute: u64, second: u64) -> Timestamp {
    CivilTime { year, month, day, hour, minute, second }.to_timestamp().unwrap()
}

fn named(name: &str, end_time: Timestamp) -> Nag {
    Nag { end_time, name: name.to_string(), sound_file: None }
}

#[test]
fn test_time_remaining() {
    let now = ts(2024, 5, 1, 12, 0, 0);
    let future_time = now.add_secs(86400 + 60 * 60 + 60 + 2).unwrap();
    // one second elapses between creating the reminder and reading it
    let read_at = now.add_secs(1).unwrap();
    let remaining = time_remaining(&future_time, &read_at);
    assert_eq!(remaining, "1d1h1m1s");

    let past_time = now;
    let read_at = now.add_secs(10).unwrap();
    let remaining = time_remaining(&past_time, &read_at);
    assert_eq!(remaining, "0");
}

#[test]
fn time_remaining_elides_zero_parts() {
    let now = ts(2024, 5, 1, 12, 0, 0);
    assert_eq!(time_remaining(&now.add_secs(7200).unwrap(), &now), "2h");
    assert_eq!(time_remaining(&now.add_secs(86400 + 59).unwrap(), &now), "1d59s");
    assert_eq!(time_remaining(&now, &now), "");
}

#[test]
fn test_nag_to_line() {
    let end_time = ts(2024, 5, 1, 12, 30, 0);
    let nag = Nag {
        end_time,
        name: "Test Nag".to_string(),
        sound_file: Some("test.wav".to_string()),
    };

    let line = nag_to_line(&nag);
    let expected = format!("\"{}\",\"Test Nag\",\"test.wav\"", timestamp_to_rfc3339(&end_time));
    assert_eq!(line, expected);

    let nag_no_sound = Nag {
        end_time,
        name: "Silent Nag".to_string(),
        sound_file: None,
    };

    let line_no_sound = nag_to_line(&nag_no_sound);
    let expected_no_sound = format!("\"{}\",\"Silent Nag\"", timestamp_to_rfc3339(&end_time));
    assert_eq!(line_no_sound, expected_no_sound);
}

#[test]
fn test_write_nags_to_file() {
    let now = ts(2024, 5, 1, 12, 0, 0);
    let nag1 = Nag {
        end_time: now,
        name: "Nag 1".to_string(),
        sound_file: Some("sound1.wav".to_string()),
    };
    let nag2 = Nag {
        end_time: now.add_secs(10 * 60).unwrap(),
        name: "Nag 2".to_string(),
        sound_file: None,
    };
    let nags = vec![nag1.clone(), nag2.clone()];

    let written_data = nags_to_text(&nags);

    let expected = format!("{}\n{}\n", nag_to_line(&nag1), nag_to_line(&nag2));
    assert_eq!(written_data, expected);
}

#[test]
fn test_read_nags_from_file() {
    let now = ts(2024, 5, 1, 12, 0, 0);
    let nag1 = Nag {
        end_time: now,
        name: "Nag 1".to_string(),
        sound_file: Some("sound1.wav".to_string()),
    };
    let nag2 = Nag {
        end_time: now.add_secs(10 * 60).unwrap(),
        name: "Nag 2".to_string(),
        sound_file: None,
    };

    let data = format!("{}\n{}\n", nag_to_line(&nag1), nag_to_line(&nag2));

    let read_nags = nags_from_text(&data, &now);

    assert_eq!(read_nags.len(), 2);
    assert_eq!(read_nags[0], nag1);
    assert_eq!(read_nags[1], nag2);
}

#[test]
fn reading_skips_malformed_lines() {
    let now = ts(2024, 5, 1, 12, 0, 0);
    let good = named("kept", now.add_secs(60).unwrap());
    let text = format!(
        "just one field\n{}\n\"2023-02-29T00:00:00+00:00\",\"no such day\"\n\n",
        nag_to_line(&good)
    );
    let read = nags_from_text(&text, &now);
    assert_eq!(read.len(), 1);
    assert_eq!(read[0], good);

    // the same read reports each skipped non-empty line, for the caller's log
    let (read, skipped) = nag::nag::nags_from_text_report(&text, &now);
    assert_eq!(read.len(), 1);
    assert_eq!(
        skipped,
        vec![
            "just one field".to_string(),
            "\"2023-02-29T00:00:00+00:00\",\"no such day\"".to_string(),
        ]
    );
}

#[test]
fn reading_takes_durations_from_now() {
    let now = ts(2024, 5, 1, 12, 0, 0);
    let read = nags_from_text("\"1h30m\",\"stretch\"\n", &now);
    assert_eq!(read.len(), 1);
    assert_eq!(read[0].end_time, now.add_secs(90 * 60).unwrap());
    assert_eq!(read[0].name, "stretch");
    assert_eq!(read[0].sound_file, None);
}

#[test]
fn reading_accepts_offsets_and_z() {
    let now = ts(2024, 5, 1, 12, 0, 0);
    let read = nags_from_text(
        "\"2024-05-01T17:30:00+05:30\",\"a\"\n\"2024-05-01T12:00:00Z\",\"b\"\n",
        &now,
    );
    assert_eq!(read.len(), 2);
    assert_eq!(read[0].end_time, ts(2024, 5, 1, 12, 0, 0));
    assert_eq!(read[1].end_time, ts(2024, 5, 1, 12, 0, 0));
}

#[test]
fn reading_drops_fractional_seconds() {
    let now = ts(2024, 5, 1, 12, 0, 0);
    let read = nags_from_text("\"2024-05-01T12:00:07.123456+00:00\",\"a\"\n", &now);
    assert_eq!(read.len(), 1);
    assert_eq!(read[0].end_time, ts(2024, 5, 1, 12, 0, 7));

    // a bare dot without digits is malformed, so the line is skipped
    let read = nags_from_text("\"2024-05-01T12:00:07.+00:00\",\"a\"\n", &now);
    assert_eq!(read.len(), 0);
}

#[test]
fn store_add_then_list_keeps_order() {
    let now = ts(2024, 5, 1, 12, 0, 0);
    let n1 = named("first", now.add_secs(10).unwrap());
    let n2 = named("second", now.add_secs(20).unwrap());
    let mut store = NagStore::new();
    store.add(n1.clone());
    store.add(n2.clone());
    let listed = store.list();
    assert_eq!(listed, vec![n1, n2]);
}

#[test]
fn store_replace_leaves_no_residue() {
    let now = ts(2024, 5, 1, 12, 0, 0);
    let n1 = named("one", now);
    let n2 = named("two", now);
    let n3 = named("three", now);
    let mut store = NagStore::new();
    store.replace(vec![n1, n2]);
    store.replace(vec![n3.clone()]);
    assert_eq!(store.list(), vec![n3]);
}

#[test]
fn store_expiry_partitions() {
    let now = ts(2024, 5, 1, 12, 0, 0);
    let expired = named("late", ts(2024, 5, 1, 11, 0, 0));
    let pending = named("early", ts(2024, 6, 1, 0, 0, 0));
    let mut store = NagStore::new();
    store.add(expired.clone());
    store.add(pending.clone());
    let removed = store.remove_expired(&now);
    assert_eq!(removed, vec![expired]);
    assert_eq!(store.list(), vec![pending]);
}

#[test]
fn store_listing_twice_is_identical() {
    let now = ts(2024, 5, 1, 12, 0, 0);
    let mut store = NagStore::new();
    store.add(named("a", now));
    store.add(named("b", now));
    let first = store.list();
    let second = store.list();
    assert_eq!(first, second);
    assert!(nags_equal(&first, &second));
}

#[test]
fn scenario_add_expire_list() {
    // a daemon's life for one reminder: add it, let it expire, list nothing
    let now = ts(2024, 5, 1, 12, 0, 0);
    let mut store = NagStore::new();
    let mut notified: Vec<String> = Vec::new();

    let add = nag::json::encode_command(&Command::AddNag {
        nag: named("Tea", now.add_secs(2).unwrap()),
    });
    let response = store.handle_payload(&add);
    assert_eq!(response, Response::Okay);

    // three one-second ticks
    for tick in 1..=3u64 {
        let at = now.add_secs(tick).unwrap();
        for done in store.remove_expired(&at) {
            notified.push(done.name);
        }
    }
    assert_eq!(notified, vec!["Tea".to_string()]);

    let listed = store.handle_payload(&nag::json::encode_command(&Command::ListNags));
    assert_eq!(listed, Response::NagList { nags: vec![] });
}

#[test]
fn scenario_malformed_request() {
    let mut store = NagStore::new();
    let response = store.handle_payload("{\"AddNag\": not json");
    match response {
        Response::Error { code, msg } => {
            assert_eq!(code, ErrorCode::UnknownCommand);
            assert!(!msg.unwrap().is_empty());
        },
        other => panic!("expected an error reply, got {:?}", other),
    }
    assert_eq!(store.list(), vec![]);
}

#[test]
fn scenario_two_adders_no_lost_update() {
    let now = ts(2024, 5, 1, 12, 0, 0);
    let a = named("from client a", now.add_secs(30).unwrap());
    let b = named("from client b", now.add_secs(40).unwrap());
    // the store serializes concurrent adds; both interleavings keep both
    for pair in [[a.clone(), b.clone()], [b.clone(), a.clone()]] {
        let mut store = NagStore::new();
        store.handle_command(Command::AddNag { nag: pair[0].clone() });
        store.handle_command(Command::AddNag { nag: pair[1].clone() });
        let listed = store.list();
        assert_eq!(listed.len(), 2);
        assert!(listed.contains(&a));
        assert!(listed.contains(&b));
    }
}

#[test]
fn add_request_takes_duration_from_now() {
    let now = ts(2024, 5, 1, 12, 0, 0);
    let made = nag::nag::nag_from_duration("2d5h6m3s", "Tea", Some("ding.wav".to_string()), &now);
    let nag = made.unwrap();
    assert_eq!(
        nag.end_time,
        now.add_secs(2 * 86400 + 5 * 3600 + 6 * 60 + 3).unwrap()
    );
    assert_eq!(nag.name, "Tea");
    assert_eq!(nag.sound_file, Some("ding.wav".to_string()));

    assert_eq!(nag::nag::nag_from_duration("soon-ish", "Tea", None, &now), None);
}

#[test]
fn response_interpretation() {
    let now = ts(2024, 5, 1, 12, 0, 0);
    let n = named("x", now);
    assert_eq!(nags_of_response(Response::Okay).unwrap(), vec![]);
    assert_eq!(nags_of_response(Response::NagList { nags: vec![n.clone()] }).unwrap(), vec![n]);
    let err = nags_of_response(Response::Error {
        code: ErrorCode::UnknownCommand,
        msg: Some("boom".to_string()),
    });
    assert_eq!(err.unwrap_err(), "Error! boom (UnknownCommand)");
    let err = nags_of_response(Response::Error { code: ErrorCode::NotImplemented, msg: None });
    assert_eq!(err.unwrap_err(), "Error! No Message (NotImplemented)");
}

#[test]
fn rfc3339_text_form() {
    assert_eq!(timestamp_to_rfc3339(&ts(2024, 2, 29, 0, 0, 1)), "2024-02-29T00:00:01+00:00");
    assert_eq!(timestamp_to_rfc3339(&ts(1900, 3, 1, 23, 59, 59)), "1900-03-01T23:59:59+00:00");
    assert_eq!(timestamp_to_rfc3339(&ts(0, 1, 1, 0, 0, 0)), "0000-01-01T00:00:00+00:00");
}

#[test]
fn clock_reads_a_recent_instant() {
    let now = Timestamp::now().unwrap();
    assert!(now.secs > ts(2020, 1, 1, 0, 0, 0).secs);
}

#[test]
fn default_config_names_stock_tools() {
    let config = nag::Config::default();
    assert_eq!(config.edit_tool, vec!["nvim".to_string()]);
    assert_eq!(config.nag_tool, vec!["i3-nagbar".to_string(), "-m".to_string()]);
    assert_eq!(config.audio_tool, vec!["paplay".to_string()]);
}
