use sugar_wifi_conf::aliases::DeviceAliases;

#[test]
fn set_get_remove() {
    let mut a = DeviceAliases::new();
    assert_eq!(a.get("dev1"), None);
    a.set("dev1", "kitchen pi");
    a.set("dev2", "office");
    assert_eq!(a.get("dev1"), Some("kitchen pi"));
    assert_eq!(a.get("dev2"), Some("office"));
    a.set("dev1", "garage");
    assert_eq!(a.get("dev1"), Some("garage"));
    assert_eq!(a.get("dev2"), Some("office"));
    a.remove("dev1");
    assert_eq!(a.get("dev1"), None);
    assert_eq!(a.get("dev2"), Some("office"));
    a.remove("missing");
    assert_eq!(a.get("dev2"), Some("office"));
}

#[test]
fn last_call_on_a_device_decides_its_alias() {
    let mut a = DeviceAliases::new();
    a.set("dev1", "first");
    a.set("dev2", "other");
    a.set("dev1", "second");
    a.remove("dev2");
    a.set("dev3", "third");
    assert_eq!(a.get("dev1"), Some("second"));
    assert_eq!(a.get("dev2"), None);
    a.remove("dev1");
    a.set("dev2", "back");
    assert_eq!(a.get("dev1"), None);
    assert_eq!(a.get("dev2"), Some("back"));
    assert_eq!(a.get("dev3"), Some("third"));
    assert_eq!(a.get("dev4"), None);
}
