use znet_core::events::{Event, EventHub, SseRead, SseReader};

/// Read one non-empty chunk (a single frame; frames are sent whole).
fn read_one_frame(reader: &mut SseReader, hub: &mut EventHub) -> String {
    match reader.read(hub, 512, false) {
        SseRead::Bytes(b) => String::from_utf8_lossy(&b).into_owned(),
        SseRead::Wait => panic!("nothing to read"),
        SseRead::Eof => panic!("end of stream"),
    }
}

/// Pull the preamble and the presence frame of the subscription out of the way.
fn drain_available(reader: &mut SseReader, hub: &mut EventHub) -> String {
    let a = read_one_frame(reader, hub);
    let b = read_one_frame(reader, hub);
    format!("{a}{b}")
}

#[test]
fn encodes_named_event_with_terminator() {
    let ev = Event::named("clip", "hello");
    assert_eq!(ev.encode(), "event: clip\ndata: hello\n\n");
}

#[test]
fn encodes_unnamed_event() {
    assert_eq!(Event::new("hi").encode(), "data: hi\n\n");
}

#[test]
fn multiline_data_becomes_multiple_data_lines() {
    // Each line of the payload gets its own `data:` line; a `\r\n` payload's
    // stray `\r` is trimmed so it can't inject a blank-line record break.
    let ev = Event::new("line1\r\nline2");
    assert_eq!(ev.encode(), "data: line1\ndata: line2\n\n");
}

#[test]
fn id_is_emitted_before_data() {
    let ev = Event::new("x").with_id("7");
    assert_eq!(ev.encode(), "id: 7\ndata: x\n\n");
}

#[test]
fn broadcast_reaches_a_subscriber() {
    let mut hub = EventHub::new();
    let mut reader = hub.subscribe();

    // Drain the preamble + the presence frame the subscribe itself emitted.
    let _ = drain_available(&mut reader, &mut hub);

    hub.broadcast(&Event::named("clip", "copied text"));
    let got = read_one_frame(&mut reader, &mut hub);
    assert!(got.contains("event: clip"), "frame was: {got:?}");
    assert!(got.contains("data: copied text"), "frame was: {got:?}");
}

#[test]
fn presence_tracks_connect_and_disconnect() {
    let mut hub = EventHub::new();
    assert_eq!(hub.client_count(), 0);

    let a = hub.subscribe();
    assert_eq!(hub.client_count(), 1);
    let b = hub.subscribe();
    assert_eq!(hub.client_count(), 2);

    hub.unregister(a.client_id());
    assert_eq!(hub.client_count(), 1, "disconnecting a reader unregisters it");
    hub.unregister(b.client_id());
    assert_eq!(hub.client_count(), 0);
}

#[test]
fn subscribe_emits_a_presence_frame_with_the_count() {
    let mut hub = EventHub::new();
    let mut reader = hub.subscribe();
    let _preamble = read_one_frame(&mut reader, &mut hub); // "retry:"/": connected"
    let frame = read_one_frame(&mut reader, &mut hub);
    assert!(frame.contains("event: presence"), "frame was: {frame:?}");
    assert!(frame.contains("\"count\":1"), "frame was: {frame:?}");
}

#[test]
fn reader_reports_eof_when_hub_is_dropped() {
    let mut hub = EventHub::new();
    let mut reader = hub.subscribe();
    let _ = drain_available(&mut reader, &mut hub);
    hub.close();
    assert!(matches!(reader.read(&mut hub, 32, false), SseRead::Eof), "closed hub => EOF");
}

#[test]
fn names_and_ids_stay_on_one_line() {
    let ev = Event::named("a\nb", "x").with_id("1\r2");
    assert_eq!(ev.encode(), "event: a b\nid: 1 2\ndata: x\n\n");
}

#[test]
fn empty_payload_is_one_empty_data_line() {
    assert_eq!(Event::new("").encode(), "data: \n\n");
}

#[test]
fn backfill_comes_before_live_frames() {
    let mut hub = EventHub::new();
    let old = vec![Event::new("one"), Event::new("two")];
    let mut reader = hub.subscribe_with_backfill(&old);
    hub.broadcast(&Event::new("live"));
    assert_eq!(read_one_frame(&mut reader, &mut hub), "retry: 3000\n: connected\n\n");
    assert_eq!(read_one_frame(&mut reader, &mut hub), "data: one\n\n");
    assert_eq!(read_one_frame(&mut reader, &mut hub), "data: two\n\n");
    assert_eq!(read_one_frame(&mut reader, &mut hub), "event: presence\ndata: {\"count\":1}\n\n");
    assert_eq!(read_one_frame(&mut reader, &mut hub), "data: live\n\n");
}

#[test]
fn idle_stream_waits_then_pings() {
    let mut hub = EventHub::new();
    let mut reader = hub.subscribe();
    let _ = drain_available(&mut reader, &mut hub);
    assert!(matches!(reader.read(&mut hub, 32, false), SseRead::Wait));
    match reader.read(&mut hub, 4, true) {
        SseRead::Bytes(b) => assert_eq!(b, b": pi"),
        _ => panic!("expected a heartbeat"),
    }
    match reader.read(&mut hub, 32, false) {
        SseRead::Bytes(b) => assert_eq!(b, b"ng\n\n"),
        _ => panic!("expected the rest of the heartbeat"),
    }
}

#[test]
fn queued_frames_are_read_after_the_hub_closed() {
    let mut hub = EventHub::new();
    let mut reader = hub.subscribe();
    let _ = drain_available(&mut reader, &mut hub);
    hub.broadcast(&Event::new("last"));
    hub.close();
    assert_eq!(read_one_frame(&mut reader, &mut hub), "data: last\n\n");
    assert!(matches!(reader.read(&mut hub, 32, false), SseRead::Eof));
}

#[test]
fn broadcast_drops_clients_that_hung_up() {
    let mut hub = EventHub::new();
    let a = hub.subscribe();
    let mut b = hub.subscribe();
    hub.hang_up(a.client_id());
    assert_eq!(hub.client_count(), 2);
    hub.broadcast(&Event::new("x"));
    assert_eq!(hub.client_count(), 1);
    assert_eq!(read_one_frame(&mut b, &mut hub), "retry: 3000\n: connected\n\n");
}

#[test]
fn survivors_learn_of_a_departure() {
    let mut hub = EventHub::new();
    let a = hub.subscribe();
    let mut b = hub.subscribe();
    let _ = drain_available(&mut b, &mut hub);
    hub.unregister(a.client_id());
    assert_eq!(read_one_frame(&mut b, &mut hub), "event: presence\ndata: {\"count\":1}\n\n");
}

#[test]
fn reads_of_any_size_give_the_same_stream() {
    for size in [1, 2, 5, 1000] {
        let mut hub = EventHub::new();
        let mut r = hub.subscribe_with_backfill(&[Event::named("clip", "old")]);
        let mut out = Vec::new();
        let mut read = |hub: &mut EventHub, idle: bool| match r.read(hub, size, idle) {
            SseRead::Bytes(b) => {
                assert!(!b.is_empty() && b.len() <= size);
                out.extend_from_slice(&b);
                true
            }
            SseRead::Wait | SseRead::Eof => false,
        };
        // A heartbeat falls due, but the frames that wait come first.
        assert!(read(&mut hub, true));
        hub.broadcast(&Event::new("live"));
        while read(&mut hub, false) {}
        assert!(read(&mut hub, true));
        hub.broadcast(&Event::new("last"));
        hub.close();
        while read(&mut hub, true) {}
        assert_eq!(
            String::from_utf8(out).unwrap(),
            "retry: 3000\n: connected\n\nevent: clip\ndata: old\n\nevent: presence\ndata: {\"count\":1}\n\ndata: live\n\n: ping\n\ndata: last\n\n"
        );
    }
}

#[test]
fn a_departed_client_takes_nobody_along() {
    let mut hub = EventHub::new();
    let a = hub.subscribe();
    let mut b = hub.subscribe();
    drain_available(&mut b, &mut hub);
    hub.broadcast(&Event::new("x"));
    hub.unregister(a.client_id());
    assert_eq!(hub.client_count(), 1);
    assert_eq!(
        drain_available(&mut b, &mut hub),
        "data: x\n\nevent: presence\ndata: {\"count\":1}\n\n"
    );
}

#[test]
fn defaults_are_empty() {
    assert_eq!(Event::default(), Event { event: None, data: String::new(), id: None });
    assert_eq!(EventHub::default().client_count(), 0);
}
