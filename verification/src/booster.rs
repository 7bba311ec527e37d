//! Boosters: the equipment a robot can pick up and put to use.

use vstd::prelude::*;

verus! {

/// A kind of booster.
#[derive(Copy, Clone, Debug, PartialEq, Eq, Structural)]
pub enum Booster {
    Extension,
    Fast,
    Drill,
    X,
}

impl Booster {
    /// The booster that the one-letter code `s` stands for, if any: `B` for
    /// `Extension`, `F` for `Fast`, `L` for `Drill` and `X` for `X`.
    pub open spec fn of_code(s: Seq<char>) -> Option<Booster> {
        if s.len() != 1 {
            None
        } else if s[0] == 'B' {
            Some(Booster::Extension)
        } else if s[0] == 'F' {
            Some(Booster::Fast)
        } else if s[0] == 'L' {
            Some(Booster::Drill)
        } else if s[0] == 'X' {
            Some(Booster::X)
        } else {
            None
        }
    }

    /// Reads a booster from its one-letter code, and fails on every other
    /// text.
    pub fn from_str(s: &str) -> (r: Result<Booster, ()>)
        ensures
            r == match Booster::of_code(s@) {
                Some(b) => Ok::<Booster, ()>(b),
                None => Err::<Booster, ()>(()),
            },
    {
        if s.unicode_len() != 1 {
            return Err(());
        }
        let c = s.get_char(0);
        if c == 'B' {
            Ok(Booster::Extension)
        } else if c == 'F' {
            Ok(Booster::Fast)
        } else if c == 'L' {
            Ok(Booster::Drill)
        } else if c == 'X' {
            Ok(Booster::X)
        } else {
            Err(())
        }
    }
}

impl std::str::FromStr for Booster {
    type Err = ();

    /// Reads a booster from its one-letter code, as the function of the
    /// same name on `Booster` does.
    fn from_str(s: &str) -> (r: Result<Booster, ()>)
        ensures
            r == match Booster::of_code(s@) {
                Some(b) => Ok::<Booster, ()>(b),
                None => Err::<Booster, ()>(()),
            },
    {
        Booster::from_str(s)
    }
}

} // verus!
