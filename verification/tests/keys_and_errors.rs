//! Keys, formats and errors on exact values.

use slog::digits::{be_bytes, cell, push_dec16, push_dec16_signed, read_numeral, to_digits};
use slog::envelope::{Envelope, Stamp, Stored};
use slog::kv::{
    get_be, i_prefix, m_key, pin_key, r_key, r_prefix, rollback_key, snap_prefix, ts_key,
    version_suffix, Records, TailRecord, Value,
};
use slog::numbered::number_span;
use slog::sqlite::codec::{delta_events, pack, pack_ltx, unpack, unpack_ltx, Carried};
use slog::sqlite::{DbImage, Delta, Frame, Ltx};
use slog::stamp::{ms_of, now_ms};
use slog::table::Table;
use slog::wire::{
    from_wire, headers_from_wire, headers_to_wire, opt_from_wire, opt_to_wire, to_wire, Wire,
};
use slog::{Error, Event, EventStore, ExpectedVersion, NewEvent, VersionRange};

fn ev(data: &str) -> NewEvent {
    NewEvent::new("e", data.as_bytes().to_vec())
}

#[test]
fn keys_are_laid_out_by_prefix() {
    assert_eq!(r_prefix("s"), b"r/s/");
    assert_eq!(r_key("s", 7), b"r/s/0000000000000007");
    assert_eq!(m_key("s", "tail"), b"m/s/tail");
    assert_eq!(pin_key("s", "child"), b"m/s/forks/child");
    assert_eq!(i_prefix("s"), b"i/s/");
    assert_eq!(ts_key("s", 12, 3), b"i/s/0000000000000012/0000000000000003");
    assert_eq!(ts_key("s", -12, 3), b"i/s/-000000000000012/0000000000000003");
    assert_eq!(snap_prefix("s"), b"snap/s/");
    assert_eq!(rollback_key("s", 9), b"m/s/rollback/0000000000000009");
    assert_eq!(version_suffix(b"r/s/0000000000000042").unwrap(), 42);
    assert_eq!(version_suffix(&r_key("s", u64::MAX)).unwrap(), u64::MAX);
}

#[test]
fn keys_without_a_version_are_refused() {
    for key in [&b"r/s/42"[..], b"r/s/00000000000000x2", b""] {
        let e = version_suffix(key).unwrap_err();
        assert_eq!(e.message(), "bad versioned key");
    }
}

#[test]
fn numbers_as_digits() {
    assert_eq!(to_digits(0), b"0");
    assert_eq!(to_digits(1234567890), b"1234567890");
    let mut text = Vec::new();
    push_dec16(&mut text, u64::MAX);
    assert_eq!(text, b"18446744073709551615");
    let mut text = Vec::new();
    push_dec16_signed(&mut text, i64::MIN);
    assert_eq!(text, b"-9223372036854775808");
    assert_eq!(read_numeral(b"0000000000000042"), Some(42));
    assert_eq!(read_numeral(b"10000000000000000"), Some(10_000_000_000_000_000));
    assert_eq!(read_numeral(b"18446744073709551615"), Some(u64::MAX));
    // Too short, padded too far, not digits, past 64 bits.
    for text in [
        &b"0042"[..],
        b"00000000000000042",
        b"000000000000004x",
        b"+000000000000042",
        b"18446744073709551616",
        b"",
    ] {
        assert_eq!(read_numeral(text), None);
    }
    assert_eq!(be_bytes(0x0102), [0, 0, 0, 0, 0, 0, 1, 2]);
    assert_eq!(cell(&[0, 0, 0, 0, 0, 0, 1, 2]), 0x0102);
    assert_eq!(cell(&[1, 2]), 0);
}

#[test]
fn counters_are_big_endian_cells() {
    let mut db: Records = Table::new();
    db.insert(b"g/seq".to_vec(), Value::Bytes(vec![0, 0, 0, 0, 0, 0, 2, 1]));
    assert_eq!(get_be(&db, b"g/seq"), Some(513));
    assert_eq!(get_be(&db, b"g/other"), None);
    assert_eq!(EventStore::over(db).durable_sequence(), 513);
}

#[test]
fn ids_are_sortable_symbols() {
    let id = Stamp::fresh().id;
    assert_eq!(id.len(), 26);
    assert!(id.chars().all(|c| "0123456789ABCDEFGHJKMNPQRSTVWXYZ".contains(c)));
    assert_ne!(id, Stamp::fresh().id);
}

#[test]
fn the_clock_counts_milliseconds() {
    assert!(now_ms() > 1_500_000_000_000);
    assert_eq!(ms_of(Some(1234)), 1234);
    assert_eq!(ms_of(None), 0);
}

#[test]
fn byte_fields_are_base64_where_people_read_them() {
    let bytes = b"hello".to_vec();
    match to_wire(&bytes, true) {
        Wire::Text(text) => {
            assert_eq!(text, "aGVsbG8=");
            assert_eq!(from_wire(Wire::Text(text)).unwrap(), bytes);
        }
        other => panic!("{other:?}"),
    }
    match to_wire(&bytes, false) {
        Wire::Raw(raw) => assert_eq!(from_wire(Wire::Raw(raw)).unwrap(), bytes),
        other => panic!("{other:?}"),
    }
    let e = from_wire(Wire::Text("a?".to_string())).unwrap_err();
    assert!(matches!(e, Error::Encoding(_)));
    assert_eq!(e.message(), "encoding: Invalid symbol 63, offset 1.");

    let headers = vec![("k".to_string(), vec![0xff]), ("l".to_string(), vec![])];
    let fields = headers_to_wire(&headers, true);
    assert!(matches!(&fields[0].1, Wire::Text(t) if t == "/w=="));
    assert_eq!(headers_from_wire(fields).unwrap(), headers);
    let bad = vec![("k".to_string(), Wire::Text("/w==".into())), ("l".into(), Wire::Text("=".into()))];
    assert!(matches!(headers_from_wire(bad), Err(Error::Encoding(_))));

    assert_eq!(opt_from_wire(opt_to_wire(&Some(bytes.clone()))).unwrap(), Some(bytes));
    assert_eq!(opt_from_wire(opt_to_wire(&None)).unwrap(), None);
}

#[test]
fn envelopes_come_back_from_their_binary_form() {
    let mut e = ev("payload");
    e.metadata.push(("trace".to_string(), vec![1, 2]));
    let stamp = Stamp { id: "0".repeat(26), now_ms: 77 };
    let envelope = Envelope::stamped(e, 5, 9, stamp);
    let bytes = envelope.encode().unwrap();
    // The length of the id leads.
    assert_eq!(&bytes[..8], [26, 0, 0, 0, 0, 0, 0, 0]);
    let Stored::Binary(back) = Envelope::decode(&bytes).unwrap() else { panic!() };
    assert_eq!(back.id, "0".repeat(26));
    assert_eq!((back.event_type.as_str(), back.version, back.seq), ("e", 5, 9));
    assert_eq!((back.data, back.ts_ms), (b"payload".to_vec(), 77));
    assert_eq!(back.metadata, [("trace".to_string(), vec![1, 2])]);
    let e = Envelope::decode(b"").unwrap_err();
    assert!(matches!(e, Error::Bincode(_)));
    assert!(e.message().starts_with("encoding: "));
}

fn delta(txid: u64) -> Delta {
    Delta {
        txid,
        page_size: 512,
        db_size: 1,
        pages: vec![Frame { pgno: 1, data: vec![txid as u8; 512] }],
    }
}

#[test]
fn packed_deltas_come_back() {
    let deltas = vec![delta(1), delta(2), delta(3)];
    let packed = pack(&deltas, 1, 3).unwrap();
    assert!(packed.len() < 512);
    let back = unpack(&packed).unwrap();
    assert_eq!(back.len(), 2);
    assert_eq!((back[0].txid, back[1].txid), (2, 3));
    assert_eq!(back[1].pages[0].data, vec![3u8; 512]);

    let ltx = Ltx {
        txid_start: 1,
        txid_end: 3,
        page_size: 512,
        db_size: 1,
        pages: vec![Frame { pgno: 1, data: vec![9; 512] }],
    };
    let back = unpack_ltx(&pack_ltx(&ltx).unwrap()).unwrap();
    assert_eq!((back.txid_start, back.txid_end, back.page_size, back.db_size), (1, 3, 512, 1));
    assert_eq!(back.pages[0].data, vec![9u8; 512]);

    for bad in [unpack(b"not a frame").unwrap_err(), unpack_ltx(b"not a frame").unwrap_err()] {
        assert!(bad.message().starts_with("codec: "), "{bad:?}");
    }
}

#[test]
fn an_image_makes_a_file_of_whole_pages() {
    let mut image = DbImage::new();
    assert!(image.is_file());
    assert!(image.to_bytes().is_empty());
    let mut d = delta(1);
    d.db_size = 2;
    image.apply(&d);
    assert!(image.is_file());
    let mut expected = vec![1u8; 512];
    expected.extend([0; 512]);
    assert_eq!(image.to_bytes(), expected);
    d.pages[0].data.push(7);
    image.apply(&d);
    assert!(!image.is_file());
}

fn event(event_type: &str, data: Vec<u8>) -> Event {
    Event {
        id: "id".to_string(),
        event_type: event_type.to_string(),
        version: 0,
        global_seq: 1,
        data,
        metadata: Vec::new(),
        ts_ms: 0,
    }
}

#[test]
fn stream_events_carry_deltas() {
    let packed = pack(&vec![delta(4)], 0, 1).unwrap();
    let Carried::Deltas(ds) = delta_events(&event("txb", packed)).unwrap() else { panic!() };
    assert_eq!(ds[0].txid, 4);
    assert!(matches!(delta_events(&event("tx", b"{}".to_vec())).unwrap(), Carried::Json));
    let Carried::Deltas(none) = delta_events(&event("note", Vec::new())).unwrap() else { panic!() };
    assert!(none.is_empty());
    assert!(matches!(delta_events(&event("txb", b"?".to_vec())), Err(Error::InvalidInput(_))));
}

#[test]
fn a_token_that_is_no_text_is_shown_with_replacements() {
    let mut db: Records = Table::new();
    db.insert(m_key("s", "fence"), Value::Bytes(vec![b'w', 0xff]));
    let mut store = EventStore::over(db);
    let e = store.append_with_token("s", "w", ExpectedVersion::Any, vec![ev("a")]).unwrap_err();
    assert_eq!(e.message(), "fence mismatch on 's': current token is 'w\u{fffd}'");
}

#[test]
fn stream_names_must_be_text() {
    let mut db: Records = Table::new();
    db.insert(b"m/\xff/tail".to_vec(), Value::Tail(TailRecord { version: 0, ts_ms: 0 }));
    let e = EventStore::over(db).list_streams().unwrap_err();
    assert_eq!(e.message(), "non-utf8 stream key");
}

#[test]
fn records_of_another_kind_are_encoding_errors() {
    let mut db: Records = Table::new();
    db.insert(m_key("s", "tail"), Value::Bytes(vec![1]));
    let mut store = EventStore::over(db);
    assert!(matches!(store.stream_version("s"), Err(Error::Encoding(_))));
    let e = store.append("s", ExpectedVersion::Any, vec![ev("a")]).unwrap_err();
    assert!(matches!(e, Error::Encoding(_)));
}

#[test]
fn batches_that_cannot_land_say_why() {
    let mut store = EventStore::open_in_memory();
    let e = store.append("s", ExpectedVersion::Any, Vec::new()).unwrap_err();
    assert_eq!(e.message(), "empty batch");
    let many = (0..1001).map(|_| ev("x")).collect();
    let e = store.append("s", ExpectedVersion::Any, many).unwrap_err();
    assert_eq!(e.message(), "batch of 1001 records exceeds max 1000");
    let big = vec![ev("x"), NewEvent::new("e", vec![0; 1_048_577])];
    let e = store.append("s", ExpectedVersion::Any, big).unwrap_err();
    assert_eq!(e.message(), "record data of 1048577 bytes exceeds max 1048576");
    let whole = vec![NewEvent::new("e", vec![0; 1_048_576])];
    store.append("s", ExpectedVersion::NoStream, whole).unwrap();

    let mut db: Records = Table::new();
    db.insert(m_key("s", "tail"), Value::Tail(TailRecord { version: u64::MAX, ts_ms: 0 }));
    let mut store = EventStore::over(db);
    let e = store.append("s", ExpectedVersion::Any, vec![ev("a")]).unwrap_err();
    assert_eq!(e.message(), "versions exhausted");
}

#[test]
fn fork_cycles_are_refused() {
    let mut db: Records = Table::new();
    for (from, to) in [("a", "b"), ("b", "a")] {
        db.insert(
            m_key(from, "fork"),
            Value::Fork(slog::fork::ForkRef { stream: to.to_string(), at_version: 3 }),
        );
    }
    let e = EventStore::over(db).read_history("a", VersionRange::all());
    match e {
        Err(e) => assert_eq!(e.message(), "fork cycle at 'a'"),
        Ok(events) => panic!("{events:?}"),
    }
}

#[test]
fn errors_as_text() {
    let conflict = |expected, actual| Error::VersionConflict {
        stream: "s".to_string(),
        expected,
        actual,
    };
    assert_eq!(
        conflict(ExpectedVersion::NoStream, Some(18446744073709551615)).message(),
        "version conflict on 's': expected NoStream, actual Some(18446744073709551615)"
    );
    assert_eq!(
        conflict(ExpectedVersion::Any, None).message(),
        "version conflict on 's': expected Any, actual None"
    );
    assert_eq!(Error::Encoding("x".to_string()).message(), "encoding: x");
    assert_eq!(Error::Bincode("x".to_string()).message(), "encoding: x");
}

/// Numbers are little-endian and of fixed width; texts, bytes and lists stand
/// after their length.
#[test]
fn binary_forms_are_exact() {
    let event = NewEvent {
        event_type: "t".to_string(),
        data: vec![9],
        metadata: vec![("k".to_string(), vec![7, 8])],
    };
    let stamp = Stamp { id: "ab".to_string(), now_ms: -2 };
    let bytes = Envelope::stamped(event, 1, 258, stamp).encode().unwrap();
    let mut want: Vec<u8> = Vec::new();
    want.extend([2, 0, 0, 0, 0, 0, 0, 0, b'a', b'b']);
    want.extend([1, 0, 0, 0, 0, 0, 0, 0, b't']);
    want.extend([1, 0, 0, 0, 0, 0, 0, 0]);
    want.extend([2, 1, 0, 0, 0, 0, 0, 0]);
    want.extend([1, 0, 0, 0, 0, 0, 0, 0, 9]);
    want.extend([1, 0, 0, 0, 0, 0, 0, 0]);
    want.extend([1, 0, 0, 0, 0, 0, 0, 0, b'k', 2, 0, 0, 0, 0, 0, 0, 0, 7, 8]);
    want.extend([254, 255, 255, 255, 255, 255, 255, 255]);
    assert_eq!(bytes, want);

    let page = |pgno: u32, byte: u8| Frame { pgno, data: vec![byte] };
    let deltas =
        vec![Delta { txid: 3, page_size: 512, db_size: 2, pages: vec![page(1, 5), page(2, 6)] }];
    let raw = zstd::stream::decode_all(pack(&deltas, 0, 1).unwrap().as_slice()).unwrap();
    let mut pages: Vec<u8> = vec![2, 0, 0, 0, 0, 0, 0, 0];
    pages.extend([1, 0, 0, 0, 1, 0, 0, 0, 0, 0, 0, 0, 5]);
    pages.extend([2, 0, 0, 0, 1, 0, 0, 0, 0, 0, 0, 0, 6]);
    let mut want: Vec<u8> = vec![1, 0, 0, 0, 0, 0, 0, 0, 3, 0, 0, 0, 0, 0, 0, 0];
    want.extend([0, 2, 0, 0, 2, 0, 0, 0]);
    want.extend(&pages);
    assert_eq!(raw, want);

    let segment = Ltx {
        txid_start: 3,
        txid_end: 4,
        page_size: 512,
        db_size: 2,
        pages: vec![page(1, 5), page(2, 6)],
    };
    let raw = zstd::stream::decode_all(pack_ltx(&segment).unwrap().as_slice()).unwrap();
    let mut want: Vec<u8> = vec![3, 0, 0, 0, 0, 0, 0, 0, 4, 0, 0, 0, 0, 0, 0, 0];
    want.extend([0, 2, 0, 0, 2, 0, 0, 0]);
    want.extend(&pages);
    assert_eq!(raw, want);
}

/// A scan of a span meets every number of its range, and up to fifteen digits
/// none below it.
#[test]
fn spans_hold_the_numbers_of_a_range() {
    let wide = 10_000_000_000_000_000;
    let key = |v: u64| format!("{v:016}").into_bytes();
    for (lo, hi) in [
        (0, None),
        (7, Some(9)),
        (7, Some(wide)),
        (wide / 10, None),
        (wide - 1, Some(wide + 2)),
        (wide, None),
        (u64::MAX, None),
    ] {
        let (from, to) = number_span(lo, hi);
        for v in [0, 6, 7, 8, 9, wide / 10, wide - 1, wide, wide + 1, u64::MAX] {
            let met = key(v) >= from && to.as_ref().is_none_or(|t| key(v) < *t);
            let wanted = v >= lo && hi.is_none_or(|h| v < h);
            assert!(met || !wanted, "{v} in [{lo}, {hi:?})");
        }
    }
    assert_eq!(number_span(7, Some(9)), (key(7), Some(key(9))));
    assert_eq!(number_span(7, None), (key(7), None));
}
