use vstd::prelude::*;

verus! {

/// True when `s` spells exactly the text `lit`.
pub(crate) fn text_is(s: &str, lit: &str) -> (r: bool)
    ensures
        r == (s@ == lit@),
{
    s.to_owned() == lit.to_owned()
}

/// What a modal filter lets through.
#[derive(Clone, Copy, Debug, PartialEq, Eq, Structural)]
pub enum FilterKind {
    WalkCycleOnly,
    NoEntry,
    BusGate,
    SchoolStreet,
}

pub open spec fn filter_kind_text(k: FilterKind) -> Seq<char> {
    match k {
        FilterKind::WalkCycleOnly => "walk_cycle_only"@,
        FilterKind::NoEntry => "no_entry"@,
        FilterKind::BusGate => "bus_gate"@,
        FilterKind::SchoolStreet => "school_street"@,
    }
}

/// Why a piece of text names no filter kind or direction.
#[derive(Clone, Debug, PartialEq, Eq)]
pub enum ParseError {
    InvalidFilterKind(String),
    InvalidDirection(String),
}

impl FilterKind {
    pub fn to_string(self) -> (r: &'static str)
        ensures
            r@ == filter_kind_text(self),
    {
        proof {
            reveal_strlit("walk_cycle_only");
            reveal_strlit("no_entry");
            reveal_strlit("bus_gate");
            reveal_strlit("school_street");
        }
        match self {
            FilterKind::WalkCycleOnly => "walk_cycle_only",
            FilterKind::NoEntry => "no_entry",
            FilterKind::BusGate => "bus_gate",
            FilterKind::SchoolStreet => "school_street",
        }
    }

    pub fn from_string(x: &str) -> (r: Result<FilterKind, ParseError>)
        ensures
            x@ == "walk_cycle_only"@ ==> r == Ok::<FilterKind, ParseError>(FilterKind::WalkCycleOnly),
            x@ == "no_entry"@ ==> r == Ok::<FilterKind, ParseError>(FilterKind::NoEntry),
            x@ == "bus_gate"@ ==> r == Ok::<FilterKind, ParseError>(FilterKind::BusGate),
            x@ == "school_street"@ ==> r == Ok::<FilterKind, ParseError>(FilterKind::SchoolStreet),
            match r {
                Ok(k) => filter_kind_text(k) == x@,
                Err(e) => (e matches ParseError::InvalidFilterKind(t) && t@ == x@)
                    && forall|k: FilterKind| filter_kind_text(k) != x@,
            },
    {
        proof {
            reveal_strlit("walk_cycle_only");
            reveal_strlit("no_entry");
            reveal_strlit("bus_gate");
            reveal_strlit("school_street");
            lemma_filter_kind_text_injective();
        }
        if text_is(x, "walk_cycle_only") {
            Ok(FilterKind::WalkCycleOnly)
        } else if text_is(x, "no_entry") {
            Ok(FilterKind::NoEntry)
        } else if text_is(x, "bus_gate") {
            Ok(FilterKind::BusGate)
        } else if text_is(x, "school_street") {
            Ok(FilterKind::SchoolStreet)
        } else {
            Err(ParseError::InvalidFilterKind(x.to_owned()))
        }
    }
}

} // verus!

verus! {

/// Key/value tags of a map feature. The first entry with a key is the one that counts.
#[derive(Clone, Debug)]
pub struct Tags(pub Vec<(String, String)>);

/// The value of the first entry of `entries` with key `k`.
pub open spec fn tag_value(entries: Seq<(String, String)>, k: Seq<char>) -> Option<Seq<char>>
    decreases entries.len(),
{
    if entries.len() == 0 {
        None
    } else if entries[0].0@ == k {
        Some(entries[0].1@)
    } else {
        tag_value(entries.drop_first(), k)
    }
}

impl Tags {
    pub open spec fn carries(&self, k: Seq<char>, v: Seq<char>) -> bool {
        tag_value(self.0@, k) == Some(v)
    }

    pub open spec fn has_key(&self, k: Seq<char>) -> bool {
        tag_value(self.0@, k).is_some()
    }

    /// Is there an entry with key `k`?
    pub fn has(&self, k: &str) -> (r: bool)
        ensures
            r == self.has_key(k@),
    {
        let mut i: usize = 0;
        assert(self.0@.subrange(0, self.0@.len() as int) =~= self.0@);
        while i < self.0.len()
            invariant
                i <= self.0@.len(),
                tag_value(self.0@, k@) == tag_value(self.0@.subrange(i as int, self.0@.len() as int), k@),
            decreases self.0@.len() - i,
        {
            let ghost rest = self.0@.subrange(i as int, self.0@.len() as int);
            assert(rest.drop_first() =~= self.0@.subrange(i + 1, self.0@.len() as int));
            if text_is(self.0[i].0.as_str(), k) {
                return true;
            }
            i = i + 1;
        }
        false
    }

    /// Does key `k` carry value `v`?
    pub fn is(&self, k: &str, v: &str) -> (r: bool)
        ensures
            r == self.carries(k@, v@),
    {
        let mut i: usize = 0;
        assert(self.0@.subrange(0, self.0@.len() as int) =~= self.0@);
        while i < self.0.len()
            invariant
                i <= self.0@.len(),
                tag_value(self.0@, k@) == tag_value(self.0@.subrange(i as int, self.0@.len() as int), k@),
            decreases self.0@.len() - i,
        {
            let ghost rest = self.0@.subrange(i as int, self.0@.len() as int);
            assert(rest.drop_first() =~= self.0@.subrange(i + 1, self.0@.len() as int));
            if text_is(self.0[i].0.as_str(), k) {
                return text_is(self.0[i].1.as_str(), v);
            }
            i = i + 1;
        }
        false
    }
}

/// Which ways traffic may travel along a road, relative to its drawn order.
#[derive(Clone, Copy, Debug, PartialEq, Eq, Structural)]
pub enum Direction {
    Forwards,
    Backwards,
    BothWays,
}

pub open spec fn direction_text(d: Direction) -> Seq<char> {
    match d {
        Direction::Forwards => "forwards"@,
        Direction::Backwards => "backwards"@,
        Direction::BothWays => "both"@,
    }
}

/// The direction that a road's source tags give it: an explicit `oneway`, else the one-way
/// that motorways and roundabouts imply, else both ways.
pub open spec fn direction_of_tags(tags: Tags) -> Direction {
    if tags.carries("oneway"@, "yes"@) {
        Direction::Forwards
    } else if tags.carries("oneway"@, "-1"@) {
        Direction::Backwards
    } else if tags.carries("highway"@, "motorway"@) || tags.carries("junction"@, "roundabout"@) {
        Direction::Forwards
    } else {
        Direction::BothWays
    }
}

/// The next direction in the cycle forwards, backwards, both ways.
pub open spec fn next_direction(d: Direction) -> Direction {
    match d {
        Direction::Forwards => Direction::Backwards,
        Direction::Backwards => Direction::BothWays,
        Direction::BothWays => Direction::Forwards,
    }
}

impl Direction {
    pub fn from_osm(tags: &Tags) -> (r: Direction)
        ensures
            r == direction_of_tags(*tags),
    {
        proof {
            reveal_strlit("oneway");
            reveal_strlit("yes");
            reveal_strlit("-1");
            reveal_strlit("highway");
            reveal_strlit("motorway");
            reveal_strlit("junction");
            reveal_strlit("roundabout");
        }
        if tags.is("oneway", "yes") {
            Direction::Forwards
        } else if tags.is("oneway", "-1") {
            Direction::Backwards
        } else if tags.is("highway", "motorway") || tags.is("junction", "roundabout") {
            Direction::Forwards
        } else {
            Direction::BothWays
        }
    }

    pub fn to_string(self) -> (r: &'static str)
        ensures
            r@ == direction_text(self),
    {
        proof {
            reveal_strlit("forwards");
            reveal_strlit("backwards");
            reveal_strlit("both");
        }
        match self {
            Direction::Forwards => "forwards",
            Direction::Backwards => "backwards",
            Direction::BothWays => "both",
        }
    }

    pub fn from_string(x: &str) -> (r: Result<Direction, ParseError>)
        ensures
            x@ == "forwards"@ ==> r == Ok::<Direction, ParseError>(Direction::Forwards),
            x@ == "backwards"@ ==> r == Ok::<Direction, ParseError>(Direction::Backwards),
            x@ == "both"@ ==> r == Ok::<Direction, ParseError>(Direction::BothWays),
            match r {
                Ok(d) => direction_text(d) == x@,
                Err(e) => (e matches ParseError::InvalidDirection(t) && t@ == x@)
                    && forall|d: Direction| direction_text(d) != x@,
            },
    {
        proof {
            reveal_strlit("forwards");
            reveal_strlit("backwards");
            reveal_strlit("both");
            lemma_direction_text_injective();
        }
        if text_is(x, "forwards") {
            Ok(Direction::Forwards)
        } else if text_is(x, "backwards") {
            Ok(Direction::Backwards)
        } else if text_is(x, "both") {
            Ok(Direction::BothWays)
        } else {
            Err(ParseError::InvalidDirection(x.to_owned()))
        }
    }

    /// The next direction in the cycle forwards, backwards, both ways.
    pub fn toggled(self) -> (r: Direction)
        ensures
            r == next_direction(self),
    {
        match self {
            Direction::Forwards => Direction::Backwards,
            Direction::Backwards => Direction::BothWays,
            Direction::BothWays => Direction::Forwards,
        }
    }
}


/// Each filter kind has its own name.
pub proof fn lemma_filter_kind_text_injective()
    ensures
        "walk_cycle_only"@ != "no_entry"@,
        "walk_cycle_only"@ != "bus_gate"@,
        "walk_cycle_only"@ != "school_street"@,
        "no_entry"@ != "bus_gate"@,
        "no_entry"@ != "school_street"@,
        "bus_gate"@ != "school_street"@,
        forall|a: FilterKind, b: FilterKind|
            #[trigger] filter_kind_text(a) == #[trigger] filter_kind_text(b) ==> a == b,
{
    reveal_strlit("walk_cycle_only");
    reveal_strlit("no_entry");
    reveal_strlit("bus_gate");
    reveal_strlit("school_street");
    assert("walk_cycle_only"@.len() == 15);
    assert("no_entry"@.len() == 8);
    assert("bus_gate"@.len() == 8);
    assert("school_street"@.len() == 13);
    assert("no_entry"@[0] != "bus_gate"@[0]);
}

/// Each direction has its own name.
pub proof fn lemma_direction_text_injective()
    ensures
        "forwards"@ != "backwards"@,
        "forwards"@ != "both"@,
        "backwards"@ != "both"@,
        forall|a: Direction, b: Direction|
            #[trigger] direction_text(a) == #[trigger] direction_text(b) ==> a == b,
{
    reveal_strlit("forwards");
    reveal_strlit("backwards");
    reveal_strlit("both");
    assert("forwards"@.len() == 8);
    assert("backwards"@.len() == 9);
    assert("both"@.len() == 4);
}


/// Ways that vehicles drive on: anything tagged `highway` but areas, paths for walking or
/// cycling, steps, tracks, corridors and proposed roads.
pub open spec fn is_road_tags(tags: Tags) -> bool {
    &&& tags.has_key("highway"@)
    &&& !tags.carries("area"@, "yes"@)
    &&& !tags.carries("highway"@, "cycleway"@)
    &&& !tags.carries("highway"@, "footway"@)
    &&& !tags.carries("highway"@, "steps"@)
    &&& !tags.carries("highway"@, "path"@)
    &&& !tags.carries("highway"@, "track"@)
    &&& !tags.carries("highway"@, "corridor"@)
    &&& !tags.carries("highway"@, "proposed"@)
}

/// Does a way with these tags make a road of the network?
pub fn is_road(tags: &Tags) -> (r: bool)
    ensures
        r == is_road_tags(*tags),
{
    proof {
        reveal_strlit("highway");
        reveal_strlit("area");
        reveal_strlit("yes");
        reveal_strlit("cycleway");
        reveal_strlit("footway");
        reveal_strlit("steps");
        reveal_strlit("path");
        reveal_strlit("track");
        reveal_strlit("corridor");
        reveal_strlit("proposed");
    }
    if !tags.has("highway") || tags.is("area", "yes") {
        return false;
    }
    !(tags.is("highway", "cycleway") || tags.is("highway", "footway") || tags.is("highway", "steps")
        || tags.is("highway", "path") || tags.is("highway", "track") || tags.is("highway", "corridor")
        || tags.is("highway", "proposed"))
}

/// A node that blocks traffic: any `barrier` but a gate, which mostly does not.
pub open spec fn is_barrier_tags(tags: Tags) -> bool {
    tags.has_key("barrier"@) && !tags.carries("barrier"@, "gate"@)
}

/// Does a node with these tags stand for a modal filter already on the ground?
pub fn is_barrier(tags: &Tags) -> (r: bool)
    ensures
        r == is_barrier_tags(*tags),
{
    proof {
        reveal_strlit("barrier");
        reveal_strlit("gate");
    }
    tags.has("barrier") && !tags.is("barrier", "gate")
}

} // verus!
