use plen::framer::MessageReader;
use plen::messages::{encode_client, ClientMessage};

fn wire(msgs: &[ClientMessage]) -> Vec<u8> {
    let mut out = Vec::new();
    for m in msgs {
        out.extend_from_slice(&encode_client(m));
        out.push(0);
    }
    out
}

#[test]
fn drains_a_whole_stream_in_order() {
    let msgs = [
        ClientMessage::Ping,
        ClientMessage::Input { x_input: -3, y_input: 1000 },
        ClientMessage::Shoot,
    ];
    let mut reader = MessageReader::new();
    reader.feed(&wire(&msgs));
    assert_eq!(reader.next(), Some(msgs[0]));
    assert_eq!(reader.next(), Some(msgs[1]));
    assert_eq!(reader.next(), Some(msgs[2]));
    assert_eq!(reader.next(), None);
}

#[test]
fn byte_at_a_time_feeding_yields_the_same_messages() {
    let msgs = [
        ClientMessage::Input { x_input: 1000, y_input: -1000 },
        ClientMessage::Shoot,
        ClientMessage::Ping,
        ClientMessage::Input { x_input: 0, y_input: 7 },
    ];
    let stream = wire(&msgs);
    let mut reader = MessageReader::new();
    let mut seen = Vec::new();
    for b in stream.iter() {
        reader.feed(&[*b]);
        while let Some(m) = reader.next() {
            seen.push(m);
        }
    }
    assert_eq!(seen, msgs.to_vec());
}

#[test]
fn partial_frame_yields_nothing_until_its_delimiter() {
    let m = ClientMessage::Input { x_input: 42, y_input: -42 };
    let enc = encode_client(&m);
    let mut reader = MessageReader::new();
    reader.feed(&enc);
    assert_eq!(reader.next(), None);
    assert_eq!(reader.next(), None);
    reader.feed(&[0]);
    assert_eq!(reader.next(), Some(m));
    assert_eq!(reader.next(), None);
}

#[test]
fn partial_frame_survives_interleaved_polls() {
    let m = ClientMessage::Input { x_input: 5, y_input: 6 };
    let enc = encode_client(&m);
    let mut reader = MessageReader::new();
    for b in enc.iter() {
        reader.feed(&[*b]);
        assert_eq!(reader.next(), None);
    }
    reader.feed(&[0]);
    assert_eq!(reader.next(), Some(m));
}

#[test]
fn malformed_frames_are_dropped_and_the_scan_continues() {
    let mut reader = MessageReader::new();
    reader.feed(b"garbage\0");
    reader.feed(&wire(&[ClientMessage::Shoot]));
    reader.feed(b"I 9999 0\0");
    reader.feed(&wire(&[ClientMessage::Ping]));
    assert_eq!(reader.next(), Some(ClientMessage::Shoot));
    assert_eq!(reader.next(), Some(ClientMessage::Ping));
    assert_eq!(reader.next(), None);
}

#[test]
fn frames_split_across_feeds_reassemble() {
    let msgs = [
        ClientMessage::Input { x_input: -100, y_input: 100 },
        ClientMessage::Shoot,
    ];
    let stream = wire(&msgs);
    let (a, b) = stream.split_at(stream.len() / 2);
    let mut reader = MessageReader::new();
    reader.feed(a);
    let mut seen = Vec::new();
    while let Some(m) = reader.next() {
        seen.push(m);
    }
    reader.feed(b);
    while let Some(m) = reader.next() {
        seen.push(m);
    }
    assert_eq!(seen, msgs.to_vec());
}
