use udp_ring::outcome::{classify, classify_all, describe, Outcome};
use udp_ring::ring::CompletionEvent;

#[test]
fn classify_tells_bytes_from_errors() {
    assert_eq!(
        classify(CompletionEvent { tag: 3, result: 10 }),
        Outcome::Transferred { tag: 3, bytes: 10 }
    );
    assert_eq!(
        classify(CompletionEvent { tag: 0, result: 0 }),
        Outcome::Transferred { tag: 0, bytes: 0 }
    );
    assert_eq!(
        classify(CompletionEvent { tag: 1, result: -11 }),
        Outcome::Failed { tag: 1, code: 11 }
    );
    assert_eq!(
        classify(CompletionEvent { tag: 2, result: i32::MAX }),
        Outcome::Transferred { tag: 2, bytes: 2147483647 }
    );
    assert_eq!(
        classify(CompletionEvent { tag: 2, result: i32::MIN }),
        Outcome::Failed { tag: 2, code: 2147483648 }
    );
}

#[test]
fn classify_all_keeps_order() {
    let events = vec![
        CompletionEvent { tag: 2, result: 5 },
        CompletionEvent { tag: 0, result: -1 },
        CompletionEvent { tag: 1, result: 0 },
    ];
    assert_eq!(
        classify_all(&events),
        vec![
            Outcome::Transferred { tag: 2, bytes: 5 },
            Outcome::Failed { tag: 0, code: 1 },
            Outcome::Transferred { tag: 1, bytes: 0 },
        ]
    );
    assert!(classify_all(&Vec::new()).is_empty());
}

#[test]
fn outcome_names_its_tag() {
    assert_eq!(Outcome::Transferred { tag: 7, bytes: 1 }.tag(), 7);
    assert_eq!(Outcome::Failed { tag: 9, code: 1 }.tag(), 9);
}

#[test]
fn describe_only_failures() {
    assert_eq!(describe(Outcome::Transferred { tag: 0, bytes: 512 }), None);
    assert!(describe(Outcome::Failed { tag: 0, code: 1 }).is_some());
}

#[test]
fn describe_uses_the_error_table() {
    assert_eq!(
        describe(Outcome::Failed { tag: 0, code: 1 }),
        Some("EPERM: Operation not permitted".to_string())
    );
    assert_eq!(
        describe(Outcome::Failed { tag: 4, code: 9 }),
        Some("EBADF: Bad file number".to_string())
    );
    let permission = describe(Outcome::Failed { tag: 0, code: 1 });
    let bad_handle = describe(Outcome::Failed { tag: 0, code: 9 });
    assert_ne!(permission, bad_handle);
}

#[test]
fn describe_codes_beyond_the_table() {
    let unknown = describe(Outcome::Failed { tag: 0, code: 0 });
    assert_eq!(unknown, Some("UnknownErrno: Unknown errno".to_string()));
    assert_eq!(describe(Outcome::Failed { tag: 0, code: 2147483648 }), unknown);
    assert_eq!(describe(Outcome::Failed { tag: 0, code: u32::MAX }), unknown);
}

#[test]
fn describe_is_never_empty_and_repeats_itself() {
    let codes: [u32; 6] = [0, 1, 11, 110, 4095, u32::MAX];
    for code in codes {
        let once = describe(Outcome::Failed { tag: 0, code }).expect("a failure has a text");
        let again = describe(Outcome::Failed { tag: 9, code }).expect("a failure has a text");
        assert!(!once.is_empty());
        assert!(once.contains(": "));
        assert_eq!(once, again);
    }
}
