//! The record that a frequency table holds for one line: a count and a
//! classification.

use vstd::prelude::*;

verus! {

/// How a line of one source relates to the other source.
#[derive(Clone, Copy, Debug, PartialEq, Eq, Structural)]
pub enum Kind {
    /// Nothing of the line's count has been matched against the other source:
    /// the line is new, or the other source lacks it.
    Only,
    /// Both sources hold the line, this one more often.
    More,
}

impl Kind {
    /// The tag under which the kind is reported.
    pub open spec fn tag(self) -> Seq<char> {
        match self {
            Kind::Only => seq!['+', '+'],
            Kind::More => seq!['+'],
        }
    }

    /// The tag under which the kind is reported: `"++"` for a line of this
    /// source only, `"+"` for a line that this source holds more often.
    pub fn as_str(self) -> (s: &'static str)
        ensures
            s@ == self.tag(),
    {
        proof {
            reveal_strlit("++");
            reveal_strlit("+");
        }
        let s = match self {
            Kind::Only => "++",
            Kind::More => "+",
        };
        assert(s@ =~= self.tag());
        s
    }
}

/// What a frequency table holds for one line value.
#[derive(Clone, Copy, Debug, PartialEq, Eq, Structural)]
pub struct Comparison {
    /// How often the line occurs or, after differencing, by how much its
    /// count exceeds that of the other source.
    pub count: u32,
    /// The classification of the line.
    pub kind: Kind,
}

impl Comparison {
    /// The record of a line that was counted `value` times and has not been
    /// matched against the other source.
    pub fn with_value(value: u32) -> (record: Comparison)
        ensures
            record == (Comparison { count: value, kind: Kind::Only }),
    {
        Comparison { count: value, kind: Kind::Only }
    }
}

} // verus!
