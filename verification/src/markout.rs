use vstd::prelude::*;
use vstd::string::StringExecFns;

verus! {

/// Where a block's LVR value came from.
#[derive(Clone, Copy, Debug, PartialEq, Eq, Hash, Structural)]
pub enum DataSource {
    Aurora,
    Brontes,
}

/// A markout time: the offset, in seconds, at which an arbitrage is marked
/// against the exchange price, or the realized value reported by Brontes.
#[derive(Clone, Copy, Debug, PartialEq, Eq, Hash, Structural)]
pub enum MarkoutTime {
    Negative2,
    Negative15,
    Negative1,
    Negative05,
    Zero,
    Positive05,
    Positive1,
    Positive15,
    Positive2,
    Brontes,
}

/// The offset of a markout time in half seconds (`-2.0` s is `-4`);
/// Brontes has none.
pub open spec fn spec_half_seconds(m: MarkoutTime) -> Option<int> {
    match m {
        MarkoutTime::Negative2 => Some(-4),
        MarkoutTime::Negative15 => Some(-3),
        MarkoutTime::Negative1 => Some(-2),
        MarkoutTime::Negative05 => Some(-1),
        MarkoutTime::Zero => Some(0),
        MarkoutTime::Positive05 => Some(1),
        MarkoutTime::Positive1 => Some(2),
        MarkoutTime::Positive15 => Some(3),
        MarkoutTime::Positive2 => Some(4),
        MarkoutTime::Brontes => None,
    }
}

/// The text under which a markout time is written in file names and rows.
pub open spec fn spec_label(m: MarkoutTime) -> Seq<char> {
    match m {
        MarkoutTime::Negative2 => "-2.0"@,
        MarkoutTime::Negative15 => "-1.5"@,
        MarkoutTime::Negative1 => "-1.0"@,
        MarkoutTime::Negative05 => "-0.5"@,
        MarkoutTime::Zero => "0.0"@,
        MarkoutTime::Positive05 => "0.5"@,
        MarkoutTime::Positive1 => "1.0"@,
        MarkoutTime::Positive15 => "1.5"@,
        MarkoutTime::Positive2 => "2.0"@,
        MarkoutTime::Brontes => "brontes"@,
    }
}

impl MarkoutTime {
    /// The label of this markout time: `-2.0`, ..., `2.0`, or `brontes`.
    pub fn to_string(&self) -> (r: String)
        ensures
            r@ == spec_label(*self),
    {
        match self {
            MarkoutTime::Negative2 => String::from_str("-2.0"),
            MarkoutTime::Negative15 => String::from_str("-1.5"),
            MarkoutTime::Negative1 => String::from_str("-1.0"),
            MarkoutTime::Negative05 => String::from_str("-0.5"),
            MarkoutTime::Zero => String::from_str("0.0"),
            MarkoutTime::Positive05 => String::from_str("0.5"),
            MarkoutTime::Positive1 => String::from_str("1.0"),
            MarkoutTime::Positive15 => String::from_str("1.5"),
            MarkoutTime::Positive2 => String::from_str("2.0"),
            MarkoutTime::Brontes => String::from_str("brontes"),
        }
    }

    /// The offset in half seconds; the offset in seconds is half of it.
    pub fn half_seconds(&self) -> (r: Option<i8>)
        ensures
            match r {
                Some(h) => spec_half_seconds(*self) == Some(h as int),
                None => spec_half_seconds(*self) is None,
            },
    {
        match self {
            MarkoutTime::Negative2 => Some(-4),
            MarkoutTime::Negative15 => Some(-3),
            MarkoutTime::Negative1 => Some(-2),
            MarkoutTime::Negative05 => Some(-1),
            MarkoutTime::Zero => Some(0),
            MarkoutTime::Positive05 => Some(1),
            MarkoutTime::Positive1 => Some(2),
            MarkoutTime::Positive15 => Some(3),
            MarkoutTime::Positive2 => Some(4),
            MarkoutTime::Brontes => None,
        }
    }
}

} // verus!

verus! {

/// The markout times simulated against exchange prices, in the order of
/// their index in the Aurora table (`-2.0` s has index 0).
pub open spec fn spec_simulated_markouts() -> Seq<MarkoutTime> {
    seq![
        MarkoutTime::Negative2,
        MarkoutTime::Negative15,
        MarkoutTime::Negative1,
        MarkoutTime::Negative05,
        MarkoutTime::Zero,
        MarkoutTime::Positive05,
        MarkoutTime::Positive1,
        MarkoutTime::Positive15,
        MarkoutTime::Positive2,
    ]
}

/// The markout times simulated against exchange prices, from `-2.0` s to
/// `2.0` s.
pub fn markout_times() -> (r: Vec<MarkoutTime>)
    ensures
        r@ == spec_simulated_markouts(),
{
    let mut r: Vec<MarkoutTime> = Vec::new();
    r.push(MarkoutTime::Negative2);
    r.push(MarkoutTime::Negative15);
    r.push(MarkoutTime::Negative1);
    r.push(MarkoutTime::Negative05);
    r.push(MarkoutTime::Zero);
    r.push(MarkoutTime::Positive05);
    r.push(MarkoutTime::Positive1);
    r.push(MarkoutTime::Positive15);
    r.push(MarkoutTime::Positive2);
    assert(r@ =~= spec_simulated_markouts());
    r
}

impl MarkoutTime {
    /// The markout time whose offset is `h` half seconds, if any.
    pub fn from_half_seconds(h: i64) -> (r: Option<MarkoutTime>)
        ensures
            match r {
                Some(m) => spec_half_seconds(m) == Some(h as int),
                None => forall|m: MarkoutTime| spec_half_seconds(m) != Some(h as int),
            },
    {
        if h == -4 {
            Some(MarkoutTime::Negative2)
        } else if h == -3 {
            Some(MarkoutTime::Negative15)
        } else if h == -2 {
            Some(MarkoutTime::Negative1)
        } else if h == -1 {
            Some(MarkoutTime::Negative05)
        } else if h == 0 {
            Some(MarkoutTime::Zero)
        } else if h == 1 {
            Some(MarkoutTime::Positive05)
        } else if h == 2 {
            Some(MarkoutTime::Positive1)
        } else if h == 3 {
            Some(MarkoutTime::Positive15)
        } else if h == 4 {
            Some(MarkoutTime::Positive2)
        } else {
            None
        }
    }

    /// The index of a simulated markout time in the Aurora table; Brontes
    /// has none.
    pub fn markout_index(&self) -> (r: Option<u64>)
        ensures
            match r {
                Some(i) => i < 9 && spec_simulated_markouts()[i as int] == *self,
                None => *self == MarkoutTime::Brontes,
            },
    {
        match self {
            MarkoutTime::Negative2 => Some(0),
            MarkoutTime::Negative15 => Some(1),
            MarkoutTime::Negative1 => Some(2),
            MarkoutTime::Negative05 => Some(3),
            MarkoutTime::Zero => Some(4),
            MarkoutTime::Positive05 => Some(5),
            MarkoutTime::Positive1 => Some(6),
            MarkoutTime::Positive15 => Some(7),
            MarkoutTime::Positive2 => Some(8),
            MarkoutTime::Brontes => None,
        }
    }
}

/// Converting a simulated markout time to its offset and back gives it
/// again; Brontes has no offset.
pub proof fn lemma_half_seconds_round_trip(m: MarkoutTime)
    ensures
        m == MarkoutTime::Brontes <==> spec_half_seconds(m) is None,
        spec_half_seconds(m) matches Some(h) ==> forall|m2: MarkoutTime|
            spec_half_seconds(m2) == Some(h) ==> m2 == m,
{
}

/// Distinct markout times have distinct labels, so the label names the
/// markout time.
pub proof fn lemma_labels_distinct(a: MarkoutTime, b: MarkoutTime)
    requires
        a != b,
    ensures
        spec_label(a) != spec_label(b),
{
    reveal_strlit("-2.0");
    reveal_strlit("-1.5");
    reveal_strlit("-1.0");
    reveal_strlit("-0.5");
    reveal_strlit("0.0");
    reveal_strlit("0.5");
    reveal_strlit("1.0");
    reveal_strlit("1.5");
    reveal_strlit("2.0");
    reveal_strlit("brontes");
    assert(spec_label(a).len() != spec_label(b).len() || spec_label(a)[0] != spec_label(b)[0]
        || spec_label(a)[1] != spec_label(b)[1] || spec_label(a)[2] != spec_label(b)[2]
        || spec_label(a)[3] != spec_label(b)[3]);
}

} // verus!
