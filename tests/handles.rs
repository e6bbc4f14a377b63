use multiverse::handle::Handle;
use multiverse::node::MultiverseNode;

#[test]
fn handle_text_is_hyphenated_lowercase() {
    let h = Handle { id: 0xa1a2a3a4b1b2c1c2d1d2d3d4d5d6d7d8 };
    assert_eq!(h.to_text(), "a1a2a3a4-b1b2-c1c2-d1d2-d3d4d5d6d7d8");
}

#[test]
fn handle_text_round_trip() {
    let h = Handle::new();
    let back = Handle::new_from(&h.to_text());
    assert_eq!(back, Some(h));
}

#[test]
fn handle_parses_text() {
    let s = String::from("a1a2a3a4-b1b2-c1c2-d1d2-d3d4d5d6d7d8");
    assert_eq!(Handle::new_from(&s), Some(Handle { id: 0xa1a2a3a4b1b2c1c2d1d2d3d4d5d6d7d8 }));
    assert_eq!(Handle::new_from(&String::from("not a handle")), None);
}

#[test]
fn new_handles_are_version_four() {
    let a = Handle::new();
    let b = Handle::new();
    assert_ne!(a, b);
    assert_eq!((a.id >> 76) & 0xf, 4);
}

#[test]
fn node_with_empty_patches_has_no_delta() {
    let n: MultiverseNode<u8> = MultiverseNode::new(None, 3, vec![]);
    assert!(n.delta.is_none());
    assert_eq!(n.relative_age, 3);
    let m: MultiverseNode<u8> = MultiverseNode::with_cache(Some(Handle { id: 1 }), 0, vec![4], Handle { id: 2 });
    assert_eq!(m.delta, Some(vec![4]));
    assert_eq!(m.universe, Handle { id: 2 });
    assert_eq!(m.parent, Some(Handle { id: 1 }));
}
