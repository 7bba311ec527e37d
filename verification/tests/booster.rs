use common::Booster;
use std::str::FromStr;

#[test]
fn reads_each_booster_from_its_letter() {
    assert_eq!(Booster::from_str("B"), Ok(Booster::Extension));
    assert_eq!(Booster::from_str("F"), Ok(Booster::Fast));
    assert_eq!(Booster::from_str("L"), Ok(Booster::Drill));
    assert_eq!(Booster::from_str("X"), Ok(Booster::X));
}

#[test]
fn rejects_every_other_text() {
    assert_eq!(Booster::from_str(""), Err(()));
    assert_eq!(Booster::from_str("Z"), Err(()));
    assert_eq!(Booster::from_str("b"), Err(()));
    assert_eq!(Booster::from_str("BB"), Err(()));
    assert_eq!(Booster::from_str("B "), Err(()));
    assert_eq!(Booster::from_str(" B"), Err(()));
    assert_eq!(Booster::from_str("Drill"), Err(()));
    assert_eq!(Booster::from_str("é"), Err(()));
}

#[test]
fn parses_through_the_standard_trait() {
    assert_eq!("B".parse::<Booster>(), Ok(Booster::Extension));
    assert_eq!("F".parse::<Booster>(), Ok(Booster::Fast));
    assert_eq!("L".parse::<Booster>(), Ok(Booster::Drill));
    assert_eq!("X".parse::<Booster>(), Ok(Booster::X));
    assert_eq!("C".parse::<Booster>(), Err(()));
    assert_eq!(<Booster as FromStr>::from_str("L"), Ok(Booster::Drill));
}
