use enigmatic::character_set::CharacterSet;

#[test]
fn character_set_it_encodes() {
    let sample = "abcd";
    let d = CharacterSet::new(sample);

    let chars: Vec<char> = sample.chars().collect();
    assert_eq!(d.encode(chars[0]), Ok(0));
    assert_eq!(d.encode(chars[2]), Ok(2));
}

#[test]
fn it_decodes() {
    let sample = "abcd";
    let d = CharacterSet::new(sample);

    assert_eq!(d.decode(0), Ok('a'));
    assert_eq!(d.decode(2), Ok('c'));
}
