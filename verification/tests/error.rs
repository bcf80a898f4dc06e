use batch_loader::error::Error;

#[test]
fn error_is_a_plain_value() {
    let e = Error::LoadLevels;
    let copy = e;
    assert_eq!(e, copy);
    assert_eq!(format!("{:?}", e), "LoadLevels");
}
