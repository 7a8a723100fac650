use miniconf::tree::{Field, Leaf, Node, ValueKind};
use miniconf::Error;

fn choice_leaf(variants: &[&str], start: &str) -> Node {
    Node::Leaf(Leaf {
        kind: ValueKind::Choice(variants.iter().map(|v| v.as_bytes().to_vec()).collect()),
        value: start.as_bytes().to_vec(),
    })
}

fn number_leaf(start: &str) -> Node {
    Node::Leaf(Leaf { kind: ValueKind::Number, value: start.as_bytes().to_vec() })
}

fn record(fields: Vec<(&str, Node)>) -> Node {
    Node::Record(
        fields
            .into_iter()
            .map(|(n, node)| Field { name: n.as_bytes().to_vec(), node })
            .collect(),
    )
}

fn get_bytes(tree: &Node, path: &str) -> Result<Vec<u8>, Error> {
    let mut buf = vec![0u8; 256];
    let n = tree.get(path.as_bytes(), &mut buf)?;
    Ok(buf[..n].to_vec())
}

#[test]
fn simple_enum() {
    let mut s = record(vec![("v", choice_leaf(&["\"A\"", "\"B\""], "\"A\""))]);
    s.set(b"v", b"\"B\"").unwrap();
    assert_eq!(get_bytes(&s, "v").unwrap(), b"\"B\"");
    let m = s.get_metadata();
    assert_eq!(m.max_depth, 2);
    assert_eq!(m.max_topic_size, 1);
}

#[test]
fn invalid_enum() {
    let mut s = record(vec![("v", choice_leaf(&["\"A\"", "\"B\""], "\"A\""))]);
    assert_eq!(s.set(b"v", b"\"C\""), Err(Error::DecodeError));
    // The tree is unchanged.
    assert_eq!(get_bytes(&s, "v").unwrap(), b"\"A\"");
}

#[test]
fn generic_type() {
    let mut s = record(vec![("data", number_leaf("0.0"))]);
    s.set(b"data", b"3.0").unwrap();
    let raw = get_bytes(&s, "data").unwrap();
    let (v, _): (f32, usize) = serde_json_core::from_slice(&raw).unwrap();
    assert_eq!(v, 3.0);
    let m = s.get_metadata();
    assert_eq!(m.max_depth, 2);
    assert_eq!(m.max_topic_size, 4);
}

#[test]
fn generic_array() {
    let data = Node::Array(vec![number_leaf("0.0"), number_leaf("0.0")]);
    let mut s = record(vec![("data", data)]);
    s.set(b"data/0", b"3.0").unwrap();
    let raw = get_bytes(&s, "data/0").unwrap();
    let (v, _): (f32, usize) = serde_json_core::from_slice(&raw).unwrap();
    assert_eq!(v, 3.0);
    let m = s.get_metadata();
    assert_eq!(m.max_depth, 3);
    assert_eq!(m.max_topic_size, 6);
}

#[test]
fn generic_struct() {
    let inner = Node::Atomic(Leaf {
        kind: ValueKind::Opaque,
        value: b"{\"data\": 0.0}".to_vec(),
    });
    let mut s = record(vec![("inner", inner)]);
    s.set(b"inner", b"{\"data\": 3.0}").unwrap();
    assert_eq!(get_bytes(&s, "inner").unwrap(), b"{\"data\": 3.0}");
    // The interior of an atomic subtree is not addressable.
    assert_eq!(s.set(b"inner/data", b"3.0"), Err(Error::PathTooLong));
    let m = s.get_metadata();
    assert_eq!(m.max_depth, 2);
    assert_eq!(m.max_topic_size, 5);
}

#[test]
fn generic_atomic() {
    let atomic = Node::Atomic(Leaf {
        kind: ValueKind::Opaque,
        value: b"{\"inner\": [0.0, 0, 0, 0, 0]}".to_vec(),
    });
    let mut s = record(vec![("atomic", atomic)]);
    s.set(b"atomic", b"{\"inner\": [3.0, 0, 0, 0, 0]}").unwrap();
    assert_eq!(
        get_bytes(&s, "atomic").unwrap(),
        b"{\"inner\": [3.0, 0, 0, 0, 0]}"
    );
    assert_eq!(s.set(b"atomic/inner", b"3.0"), Err(Error::PathTooLong));
    let m = s.get_metadata();
    assert_eq!(m.max_depth, 2);
    assert_eq!(m.max_topic_size, 6);
}

#[test]
fn missing_field_and_short_paths() {
    let mut s = record(vec![("v", number_leaf("1"))]);
    assert_eq!(s.set(b"w", b"2"), Err(Error::MissingField));
    assert_eq!(s.set(b"", b"2"), Err(Error::PathTooShort));
    assert_eq!(s.set(b"v/x", b"2"), Err(Error::PathTooLong));
    assert_eq!(get_bytes(&s, "v").unwrap(), b"1");
}

#[test]
fn array_index_errors() {
    let data = Node::Array(vec![number_leaf("0"), number_leaf("0")]);
    let mut s = record(vec![("a", data)]);
    // In bounds.
    s.set(b"a/1", b"7").unwrap();
    assert_eq!(get_bytes(&s, "a/1").unwrap(), b"7");
    // Out of bounds.
    assert_eq!(s.set(b"a/2", b"7"), Err(Error::BadIndex));
    // Not a base-ten index.
    assert_eq!(s.set(b"a/x", b"7"), Err(Error::BadIndex));
    assert_eq!(s.set(b"a/-1", b"7"), Err(Error::BadIndex));
    assert_eq!(s.set(b"a/ 1", b"7"), Err(Error::BadIndex));
    // Wildly overflowing indices are out of bounds too.
    assert_eq!(s.set(b"a/99999999999999999999999", b"7"), Err(Error::BadIndex));
    // An empty path at the array is too short.
    assert_eq!(s.set(b"a", b"7"), Err(Error::PathTooShort));
}

#[test]
fn number_grammar() {
    let mut s = record(vec![("n", number_leaf("0"))]);
    for good in ["0", "42", "-3", "3.0", "-0.5", "10.25"] {
        assert!(s.set(b"n", good.as_bytes()).is_ok(), "{good}");
        assert_eq!(get_bytes(&s, "n").unwrap(), good.as_bytes());
    }
    for bad in ["", "-", ".", "3.", ".5", "1.2.3", "a", "1a", " 1", "\"x\""] {
        assert_eq!(s.set(b"n", bad.as_bytes()), Err(Error::DecodeError), "{bad}");
    }
}

#[test]
fn buffer_too_small() {
    let s = record(vec![("v", number_leaf("12345"))]);
    let mut buf = vec![0u8; 3];
    assert_eq!(s.get(b"v", &mut buf), Err(Error::BufferTooSmall));
    assert_eq!(buf, vec![0u8; 3]);
}

#[test]
fn enumeration_order_and_count() {
    let inner = Node::Array(vec![number_leaf("1"), number_leaf("2")]);
    let s = record(vec![
        ("gain", number_leaf("0")),
        ("adc", inner),
        ("mode", choice_leaf(&["\"Fast\"", "\"Slow\""], "\"Fast\"")),
    ]);
    let paths = s.list_paths();
    let got: Vec<&[u8]> = paths.iter().map(|p| p.as_slice()).collect();
    let want: Vec<&[u8]> = vec![b"gain", b"adc/0", b"adc/1", b"mode"];
    assert_eq!(got, want);
    // Every enumerated path reads back, fits the metadata, and is accepted
    // by set with its own serialized value.
    let m = s.get_metadata();
    let mut s2 = s.clone();
    for p in &paths {
        assert!(p.len() <= m.max_topic_size);
        assert!(p.iter().filter(|&&c| c == b'/').count() + 2 <= m.max_depth);
        let mut buf = vec![0u8; 64];
        let n = s2.get(p, &mut buf).unwrap();
        let value = buf[..n].to_vec();
        s2.set(p, &value).unwrap();
        let mut buf2 = vec![0u8; 64];
        let n2 = s2.get(p, &mut buf2).unwrap();
        assert_eq!(&buf[..n], &buf2[..n2]);
    }
}

#[test]
fn deep_tree_metadata() {
    // An array of ten elements needs one digit; of eleven, two.
    let leaf = || number_leaf("0");
    let eleven = Node::Array((0..11).map(|_| leaf()).collect());
    let s = record(vec![("xs", eleven)]);
    let m = s.get_metadata();
    // "xs" + "/" + two digits.
    assert_eq!(m.max_topic_size, 5);
    assert_eq!(m.max_depth, 3);
    let paths = s.list_paths();
    assert_eq!(paths.len(), 11);
    assert_eq!(paths[10], b"xs/10".to_vec());
}
