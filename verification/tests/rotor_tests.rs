use enigmatic::rotor::Rotor;

#[test]
fn rotor_test_roundtrips() {
    let r = Rotor::random(10);

    // round trip test all values
    for i in 0..r.len() {
        assert!(can_roundtrip(&r, i));
    }

    // see how it goes with incrementing the position
    for p in 0..r.len() {
        for i in 0..r.len() {
            let _ = r.set_position(p);
            assert!(can_roundtrip(&r, i));
        }
    }
}

fn can_roundtrip(r: &Rotor, v: usize) -> bool {
    if let Ok(encoded) = r.encode(v) {
        if let Ok(decoded) = r.decode(encoded) {
            return v == decoded;
        }
    }
    false
}
