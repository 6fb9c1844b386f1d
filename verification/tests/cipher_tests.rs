use enigmatic::cipher::DirectedEncoder;

#[test]
fn cipher_test_roundtrips() {
    let sub_size = 100;
    let ascending = DirectedEncoder::ascending(sub_size);
    let descending = DirectedEncoder::descending(sub_size);
    let random = DirectedEncoder::random(sub_size);

    assert!(good_directed(&ascending));
    assert!(good_directed(&descending));
    assert!(good_directed(&random));
}

fn directed_roundtrip(s: &DirectedEncoder<usize>, v: usize) -> bool {
    if let Ok(e) = s.encode(v) {
        // encoded value
        if let Ok(d) = s.decode(e) {
            // decoded value
            return d == v;
        }
    }

    false
}

fn good_directed(s: &DirectedEncoder<usize>) -> bool {
    for o in &s.encoding {
        if !directed_roundtrip(s, *o) {
            return false;
        }
    }
    true
}
