use enigmatic::character_set::CharacterSet;
use enigmatic::enigmatic::Enigmatic;
use enigmatic::machine::Machine;
use enigmatic::reflector::Reflector;
use enigmatic::rotor::Rotor;

#[test]
fn enigmatic_test_roundtrips() {
    let char_set = CharacterSet::new("ABCDEFGHIJKLMNOPQRSTUVWXYZ");

    let mut m = Machine::new(char_set)
        .with_rotor(Rotor::random(26))
        .with_rotor(Rotor::ascending(26))
        .with_rotor(Rotor::descending(26))
        .with_reflector(Reflector::flipped(26));

    assert!(can_roundtrip(&mut m, "YOLO"));
}

fn can_roundtrip(m: &mut Machine, input: &str) -> bool {
    let encrypted = Enigmatic::encode_str(m, input).unwrap();
    m.reset();
    let decrypted = Enigmatic::encode_str(m, &encrypted).unwrap();
    input == decrypted
}
