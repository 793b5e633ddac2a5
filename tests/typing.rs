use dice::ty::{Approximation, TyName};

#[test]
fn approximation_renders_message_with_debug() {
    let a = Approximation::new("Unknown type", "x\"y");
    assert_eq!(a.category, "Unknown type");
    assert_eq!(a.message, "\"x\\\"y\"");
}

#[test]
fn ty_name_as_str() {
    let n = TyName::new("int");
    assert_eq!(n.as_str(), "int");
    assert_eq!(TyName::new("string"), TyName::new("string"));
}

#[test]
fn data_last_write_wins() {
    let mut d = dice::data::DiceData::new();
    assert_eq!(d.get(4), None);
    d.set(4, 1);
    d.set(5, 2);
    d.set(4, 3);
    assert_eq!(d.get(4), Some(3));
    assert_eq!(d.get(5), Some(2));
}
