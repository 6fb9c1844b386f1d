use enigmatic::character_set::CharacterSet;
use enigmatic::cipher::{CipherError, DirectedEncoder, Pair, SymmetricEncoder};
use enigmatic::enigmatic::Enigmatic;
use enigmatic::machine::Machine;
use enigmatic::plugboard::{Connection, PlugBoard};
use enigmatic::reflector::Reflector;
use enigmatic::rotor::Rotor;
use enigmatic::rotor_set::RotorSet;

#[test]
fn directed_encoder_exact_values() {
    let asc = DirectedEncoder::ascending(5);
    assert_eq!(asc.len(), 5);
    assert_eq!(asc.encode(3), Ok(3));
    assert_eq!(asc.decode(3), Ok(3));

    let desc = DirectedEncoder::descending(5);
    assert_eq!(desc.encode(0), Ok(4));
    assert_eq!(desc.encode(1), Ok(3));
    assert_eq!(desc.decode(4), Ok(0));
}

#[test]
fn directed_encoder_out_of_bounds() {
    let asc = DirectedEncoder::ascending(100);
    assert_eq!(asc.encode(100), Err(CipherError::IndexOutOfRange));
    assert_eq!(asc.decode(100), Err(CipherError::IndexOutOfRange));
    let empty = DirectedEncoder::ascending(0);
    assert_eq!(empty.encode(0), Err(CipherError::IndexOutOfRange));
}

#[test]
fn random_encoder_is_a_permutation() {
    // A shuffle that dropped or repeated values would fail this sort check.
    let random = DirectedEncoder::random(50);
    let mut seen = random.encoding.clone();
    seen.sort();
    let expected: Vec<usize> = (0..50).collect();
    assert_eq!(seen, expected);
}

#[test]
fn pair_contains_both_sides() {
    let p = Pair { a: 3, b: 7 };
    assert_eq!(p.contains(3), Ok(7));
    assert_eq!(p.contains(7), Ok(3));
    assert_eq!(p.contains(5), Err(CipherError::NotFound));
}

#[test]
fn pairing_symmetry_holds_for_random_matchings() {
    let enc = SymmetricEncoder::random(26);
    assert_eq!(enc.len(), 13);
    for v in 0..26 {
        let u = enc.encode(v).unwrap();
        assert_ne!(u, v);
        assert_eq!(enc.encode(u), Ok(v));
    }
}

#[test]
fn symmetric_encoder_flipped_and_mirror() {
    let flipped = SymmetricEncoder::flipped(26);
    assert_eq!(flipped.len(), 13);
    for v in 0..26 {
        assert_eq!(flipped.encode(v), Ok(25 - v));
    }

    // Odd size: the middle value pairs with itself, once.
    let odd = SymmetricEncoder::flipped(5);
    assert_eq!(odd.len(), 3);
    assert_eq!(odd.encode(2), Ok(2));
    assert_eq!(odd.encode(0), Ok(4));

    let mirror = SymmetricEncoder::mirror(4);
    assert_eq!(mirror.len(), 4);
    for v in 0..4 {
        assert_eq!(mirror.encode(v), Ok(v));
    }
}

#[test]
fn symmetric_encoder_pair_and_unpair() {
    let empty = SymmetricEncoder::empty();
    assert_eq!(empty.len(), 0);
    assert_eq!(empty.encode(0), Err(CipherError::NotFound));
    assert_eq!(empty.index_of(0), Err(CipherError::NotFound));
    assert!(!empty.is_paired(0));

    let one = empty.pair(1, 4).unwrap();
    assert!(one.is_paired(1) && one.is_paired(4));
    assert_eq!(one.index_of(4), Ok(0));
    assert_eq!(one.pair(4, 2).unwrap_err(), CipherError::Conflict);

    let two = one.pair(2, 3).unwrap();
    assert_eq!(two.index_of(3), Ok(1));

    // Unpairing one side removes the whole pair and keeps the rest.
    let back = two.unpair(4).unwrap();
    assert!(!back.is_paired(1) && !back.is_paired(4));
    assert_eq!(back.encode(2), Ok(3));

    // Unpairing an unpaired value changes nothing.
    let same = back.unpair(9).unwrap();
    assert_eq!(same.len(), back.len());

    let replaced = back.with_pairs(vec![Pair { a: 0, b: 1 }]).unwrap();
    assert_eq!(replaced.encode(0), Ok(1));
}

#[test]
fn reflector_totality_and_no_fixed_point() {
    // Flipped and random reflectors over an even size pair every index
    // and move every index.
    let flipped = Reflector::flipped(26);
    for v in 0..26 {
        let u = flipped.encode(v).unwrap();
        assert_eq!(u, 25 - v);
        assert_ne!(u, v);
        assert_eq!(flipped.encode(u), Ok(v));
    }

    let random = Reflector::random(26);
    for v in 0..26 {
        let u = random.encode(v).unwrap();
        assert_ne!(u, v);
        assert_eq!(random.encode(u), Ok(v));
    }

    let mirror = Reflector::mirror(4);
    assert_eq!(mirror.encode(2), Ok(2));
}

#[test]
fn rotor_position_arithmetic() {
    // An identity wiring turned to offset 2: encode adds the offset
    // modulo n, decode subtracts it without underflow.
    let r = Rotor::ascending(5).set_position(2).unwrap();
    assert_eq!(r.encode(1), Ok(3));
    assert_eq!(r.encode(4), Ok(1));
    assert_eq!(r.decode(3), Ok(1));
    assert_eq!(r.decode(1), Ok(4));
    assert_eq!(r.decode(5), Err(CipherError::IndexOutOfRange));

    // set_position wraps.
    let w = Rotor::ascending(5).set_position(7).unwrap();
    assert_eq!(w.encode(0), Ok(2));

    let from = Rotor::from(DirectedEncoder::descending(4));
    assert_eq!(from.len(), 4);
    assert_eq!(from.encode(0), Ok(3));
}

#[test]
fn rotor_set_composes_and_inverts() {
    let rs = RotorSet::new()
        .with_rotor(Rotor::random(8))
        .with_rotor(Rotor::descending(8))
        .with_rotor(Rotor::random(8));
    for v in 0..8 {
        let e = rs.encode(v).unwrap();
        assert!(e < 8);
        assert_eq!(rs.decode(e), Ok(v));
    }
}

#[test]
fn rotor_set_positions_management() {
    let rs = RotorSet::with_rotors(vec![
        Rotor::ascending(6),
        Rotor::ascending(6),
        Rotor::ascending(6),
    ]);
    assert_eq!(rs.positions(), vec![0, 0, 0]);

    let moved = rs.set_positions(&[1, 7, 5]).unwrap();
    assert_eq!(moved.positions(), vec![1, 1, 5]);

    let back = moved.reset_positions().unwrap();
    assert_eq!(back.positions(), vec![0, 0, 0]);

    assert_eq!(
        rs.set_positions(&[1, 2]).unwrap_err(),
        CipherError::SizeMismatch
    );
}

#[test]
fn stack_stepping_odometer() {
    // Three rotors of size 3: after n steps the first is back at zero
    // and the carry has reached the second exactly once; after n * n
    // steps it has reached the third exactly once.
    let mut rs = RotorSet::with_rotors(vec![
        Rotor::ascending(3),
        Rotor::ascending(3),
        Rotor::ascending(3),
    ]);
    for _ in 0..3 {
        rs.next();
    }
    assert_eq!(rs.positions(), vec![0, 1, 0]);
    for _ in 3..9 {
        rs.next();
    }
    assert_eq!(rs.positions(), vec![0, 0, 1]);
}

#[test]
fn machine_reciprocity_full_pipeline() {
    let chars = CharacterSet::new("ABCDEFGHIJKLMNOPQRSTUVWXYZ");
    let mut m = Machine::new(chars)
        .with_rotor(Rotor::random(26))
        .with_rotor(Rotor::random(26))
        .with_rotor(Rotor::descending(26))
        .with_reflector(Reflector::random(26));
    m.plugboard.connect(0, 7).unwrap();
    m.plugboard.connect(4, 11).unwrap();

    let sample = "HELLOWORLD";
    let encoded = Enigmatic::encode_str(&mut m, sample).unwrap();
    assert_eq!(encoded.len(), sample.len());
    m.reset();
    let decoded = Enigmatic::encode_str(&mut m, &encoded).unwrap();
    assert_eq!(decoded, sample);
}

#[test]
fn machine_encode_is_self_inverse_per_symbol() {
    let chars = CharacterSet::new("ABCDEF");
    let m = Machine::new(chars).with_rotor(Rotor::descending(6));
    // Same rotor state both ways: encoding twice returns the symbol.
    for c in "ABCDEF".chars() {
        let e = m.encode(c).unwrap();
        assert_eq!(m.decode(e), Ok(c));
    }
}

#[test]
fn machine_rejects_unknown_symbols() {
    let chars = CharacterSet::new("AB");
    let mut m = Machine::new(chars);
    assert_eq!(m.encode('x'), Err(CipherError::UnknownSymbol));
    assert_eq!(
        Enigmatic::encode_str(&mut m, "Ax"),
        Err(CipherError::UnknownSymbol)
    );
}

#[test]
fn machine_process_stays_in_range() {
    let chars = CharacterSet::new("ABCD");
    let m = Machine::new(chars).with_rotor(Rotor::random(4));
    for v in 0..4 {
        let e = m.process(v).unwrap();
        assert!(e < 4);
        assert_eq!(m.process(e), Ok(v));
    }
}

#[test]
fn plugboard_connection_endpoints() {
    let c = Connection { a: 2, b: 9 };
    assert_eq!(c.connected_to(2), Some(9));
    assert_eq!(c.connected_to(9), Some(2));
    assert_eq!(c.connected_to(4), None);

    let mut p = PlugBoard::new();
    let made = p.connect(2, 9).unwrap();
    assert_eq!(made.a, 2);
    assert_eq!(made.b, 9);
    assert!(p.is_connected(2));
    assert!(!p.is_connected(4));
}

#[test]
fn character_set_encode_finds_first_index() {
    let d = CharacterSet::new("xyz");
    assert_eq!(d.len(), 3);
    assert_eq!(d.encode('z'), Ok(2));
    assert_eq!(d.encode('q'), Err(CipherError::UnknownSymbol));
    assert_eq!(d.decode(3), Err(CipherError::IndexOutOfRange));
}
