use alloc_tracker::event::Event;

#[test]
fn decodes_alloc_with_label() {
    match Event::try_from_line("m:1000,40,heap") {
        Some(Event::Alloc { ptr, size, identifier }) => {
            assert_eq!(ptr, 0x1000);
            assert_eq!(size, 0x40);
            assert_eq!(identifier, "heap");
        },
        other => panic!("expected an alloc event, got {:?}", other),
    }
}

#[test]
fn decodes_alloc_without_label() {
    match Event::try_from_line("m:ff,10") {
        Some(Event::Alloc { ptr, size, identifier }) => {
            assert_eq!(ptr, 0xff);
            assert_eq!(size, 0x10);
            assert_eq!(identifier, "");
        },
        other => panic!("expected an alloc event, got {:?}", other),
    }
}

#[test]
fn label_keeps_its_commas() {
    match Event::try_from_line("m:0,10,a,b,c") {
        Some(Event::Alloc { identifier, .. }) => assert_eq!(identifier, "a,b,c"),
        other => panic!("expected an alloc event, got {:?}", other),
    }
}

#[test]
fn decodes_free_with_and_without_label() {
    match Event::try_from_line("f:1f") {
        Some(Event::Free { ptr, identifier }) => {
            assert_eq!(ptr, 0x1f);
            assert_eq!(identifier, "");
        },
        other => panic!("expected a free event, got {:?}", other),
    }
    match Event::try_from_line("f:2,tag,x") {
        Some(Event::Free { ptr, identifier }) => {
            assert_eq!(ptr, 0x2);
            assert_eq!(identifier, "tag,x");
        },
        other => panic!("expected a free event, got {:?}", other),
    }
}

#[test]
fn decodes_corrupted() {
    match Event::try_from_line("c:dead") {
        Some(Event::Corrupted { ptr }) => assert_eq!(ptr, 0xdead),
        other => panic!("expected a corrupted event, got {:?}", other),
    }
}

#[test]
fn accepts_uppercase_hex() {
    match Event::try_from_line("c:DEAD") {
        Some(Event::Corrupted { ptr }) => assert_eq!(ptr, 0xDEAD),
        other => panic!("expected a corrupted event, got {:?}", other),
    }
}

#[test]
fn tolerates_extra_fields_after_corrupted_address() {
    match Event::try_from_line("c:1,extra") {
        Some(Event::Corrupted { ptr }) => assert_eq!(ptr, 0x1),
        other => panic!("expected a corrupted event, got {:?}", other),
    }
}

#[test]
fn rejects_unknown_tag() {
    assert!(Event::try_from_line("x:zz").is_none());
    assert!(Event::try_from_line("q:1,2").is_none());
}

#[test]
fn rejects_missing_or_bad_fields() {
    assert!(Event::try_from_line("").is_none());
    assert!(Event::try_from_line("m").is_none());
    assert!(Event::try_from_line("m:").is_none());
    assert!(Event::try_from_line(":1").is_none());
    assert!(Event::try_from_line("m:1").is_none());
    assert!(Event::try_from_line("m:zz,1").is_none());
    assert!(Event::try_from_line("m:1,zz").is_none());
    assert!(Event::try_from_line("f:,x").is_none());
}

#[test]
fn rejects_values_beyond_64_bits() {
    assert!(Event::try_from_line("c:ffffffffffffffff").is_some());
    assert!(Event::try_from_line("c:10000000000000000").is_none());
    assert!(Event::try_from_line("m:1,10000000000000000").is_none());
}

#[test]
fn rejects_sign_prefix_and_trailing_newline() {
    assert!(Event::try_from_line("c:+10").is_none());
    assert!(Event::try_from_line("c:1\n").is_none());
    assert!(Event::try_from_line("m:1,2\n").is_none());
}
