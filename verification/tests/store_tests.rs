use word_lsp::store::bytes_eq;
use word_lsp::store::DocStore;

fn bytes(s: &str) -> Vec<u8> {
    s.as_bytes().to_vec()
}

#[test]
fn put_then_get() {
    let mut st = DocStore::new();
    st.put(bytes("file:///a"), bytes("hello"));
    assert_eq!(st.get(&bytes("file:///a")), Some(&bytes("hello")));
}

#[test]
fn put_replaces_unconditionally() {
    let mut st = DocStore::new();
    st.put(bytes("file:///a"), bytes("first"));
    st.put(bytes("file:///a"), bytes("second"));
    assert_eq!(st.get(&bytes("file:///a")), Some(&bytes("second")));
}

#[test]
fn unknown_key_gives_nothing() {
    let mut st = DocStore::new();
    st.put(bytes("file:///a"), bytes("text"));
    assert_eq!(st.get(&bytes("file:///b")), None);
}

#[test]
fn keys_do_not_collide() {
    let mut st = DocStore::new();
    st.put(bytes("file:///a"), bytes("one"));
    st.put(bytes("file:///b"), bytes("two"));
    assert_eq!(st.get(&bytes("file:///a")), Some(&bytes("one")));
    assert_eq!(st.get(&bytes("file:///b")), Some(&bytes("two")));
}

#[test]
fn byte_equality_is_by_contents() {
    assert!(bytes_eq(&bytes("same"), &bytes("same")));
    assert!(!bytes_eq(&bytes("same"), &bytes("other")));
    assert!(!bytes_eq(&bytes("ab"), &bytes("abc")));
}
