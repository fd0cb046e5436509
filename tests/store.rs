use minikv::Store;

fn s(x: &str) -> String {
    x.to_string()
}

#[test]
fn value_without_deadline_never_expires() {
    let mut st = Store::new();
    st.set(s("k"), s("v"), None);
    for now in [0u64, 1, 1_000_000, u64::MAX] {
        assert_eq!(st.get(&s("k"), now), Some(s("v")));
    }
    assert_eq!(st.len(), 1);
}

#[test]
fn value_with_deadline_expires_and_is_removed() {
    let mut st = Store::new();
    st.set(s("k"), s("v"), Some(1100));
    st.set(s("other"), s("w"), None);
    assert_eq!(st.get(&s("k"), 1000), Some(s("v")));
    assert_eq!(st.get(&s("k"), 1100), Some(s("v")));
    assert_eq!(st.len(), 2);
    assert_eq!(st.get(&s("k"), 1101), None);
    assert!(!st.contains(&s("k")));
    assert_eq!(st.len(), 1);
    assert_eq!(st.get(&s("k"), 0), None);
    assert_eq!(st.get(&s("other"), 5000), Some(s("w")));
}

#[test]
fn expired_entry_stays_until_read() {
    let mut st = Store::new();
    st.set(s("k"), s("v"), Some(10));
    assert!(st.contains(&s("k")));
    assert_eq!(st.len(), 1);
}

#[test]
fn set_then_get_and_overwrite() {
    let mut st = Store::new();
    st.set(s("a"), s("b"), None);
    assert_eq!(st.get(&s("a"), 0), Some(s("b")));
    st.set(s("a"), s("c"), None);
    assert_eq!(st.get(&s("a"), 0), Some(s("c")));
    assert_eq!(st.len(), 1);
}

#[test]
fn missing_key_reads_nothing() {
    let mut st = Store::new();
    assert_eq!(st.get(&s("nope"), 0), None);
    assert_eq!(st.len(), 0);
}

#[test]
fn racing_sets_leave_one_whole_value() {
    for first in [true, false] {
        let mut st = Store::new();
        if first {
            st.set(s("k"), s("v1"), None);
            st.set(s("k"), s("v2"), None);
        } else {
            st.set(s("k"), s("v2"), None);
            st.set(s("k"), s("v1"), None);
        }
        let got = st.get(&s("k"), 0).unwrap();
        assert!(got == "v1" || got == "v2");
        assert_eq!(got, if first { "v2" } else { "v1" });
        assert_eq!(st.len(), 1);
    }
}
