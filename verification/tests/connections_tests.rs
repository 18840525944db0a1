use sugar_wifi_conf::connections::{ConnectionBook, FIRST_PROXY_PORT};

#[test]
fn ports_start_at_2222_and_are_never_reused() {
    let mut b = ConnectionBook::new();
    assert_eq!(FIRST_PROXY_PORT, 2222);
    assert!(b.can_open());
    let p1 = b.open("dev-a");
    let p2 = b.open("dev-b");
    assert_eq!((p1, p2), (2222, 2223));
    assert_eq!(b.close("dev-a"), Some(2222));
    assert_eq!(b.close("dev-a"), None);
    let p3 = b.open("dev-a");
    assert_eq!(p3, 2224);
    let p4 = b.open("dev-b");
    assert_eq!(p4, 2225);
    let mut all = b.close_all();
    all.sort();
    assert_eq!(all, vec![("dev-a".to_string(), 2224), ("dev-b".to_string(), 2225)]);
    assert!(b.close_all().is_empty());
}

#[test]
fn known_devices() {
    let mut b = ConnectionBook::new();
    assert!(!b.knows("x"));
    b.remember("x");
    b.remember("x");
    b.remember("y");
    assert!(b.knows("x") && b.knows("y"));
    assert!(!b.knows("z"));
}
