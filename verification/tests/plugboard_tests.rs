use enigmatic::plugboard::PlugBoard;

#[test]
fn plugboard_it_encodes() {
    let mut p = PlugBoard::new();
    assert_eq!(p.encode(5), 5);

    assert!(p.connect(5, 9).is_ok());
    assert_eq!(p.encode(5), 9);
    assert_eq!(p.encode(9), 5);

    assert!(p.connect(2, 9).is_err());
    assert!(p.connect(5, 2).is_err());

    p.disconnect(5);
    assert_eq!(p.encode(5), 5);
    assert_eq!(p.encode(9), 9);
}
