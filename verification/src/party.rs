//! Parties and the party registry.
//!
//! A party has a display name, an ideological position in preference
//! space, and a mutable attractiveness scalar.  The registry assigns
//! sequential integer ids 0..n-1 and exposes a sorted id list, which is
//! the canonical "party order" used to index vote-tally vectors.

use vstd::prelude::*;
use vstd::string::StringExecFns;

use crate::errors::ElectionError;
use crate::numeric::{clamp_spec, SCALE};
use crate::probability::Preferences;
use crate::rng::rng_below;

verus! {

/// The mathematical value of a party: its name, its position, and its
/// attractiveness (a free fixed-point scalar, not confined to [0, 1]).
pub struct PartyView {
    pub name: Seq<char>,
    pub preferences: Seq<u64>,
    pub attractiveness: int,
}

/// A party that agents can vote for.
#[derive(Debug)]
pub struct Party {
    name: String,
    preferences: Preferences,
    attractiveness: i64,
}

impl View for Party {
    type V = PartyView;

    closed spec fn view(&self) -> PartyView {
        PartyView {
            name: self.name@,
            preferences: self.preferences@,
            attractiveness: self.attractiveness as int,
        }
    }
}

impl Party {
    /// The party's position lies within the unit cube.
    pub open spec fn wf(&self) -> bool {
        forall|i: int| 0 <= i < self@.preferences.len() ==> self@.preferences[i] <= SCALE
    }

    /// Creates a party with the given name and position and the default
    /// attractiveness of 1.
    pub fn new(name: String, preferences: Preferences) -> (r: Party)
        ensures
            r@.name == name@,
            r@.preferences == preferences@,
            r@.attractiveness == SCALE,
            preferences.wf() ==> r.wf(),
    {
        Party { name, preferences, attractiveness: SCALE as i64 }
    }

    pub fn get_preferences(&self) -> (r: &Preferences)
        ensures
            r@ == self@.preferences,
            self.wf() ==> r.wf(),
    {
        proof {
            if self.wf() {
                assert forall|i: int|
                    0 <= i < self.preferences@.len() implies self.preferences@[i]
                    <= SCALE by {
                    assert(self@.preferences[i] == self.preferences@[i]);
                }
            }
        }
        &self.preferences
    }

    pub fn get_name(&self) -> (r: &String)
        ensures
            r@ == self@.name,
    {
        &self.name
    }

    pub fn get_attractiveness(&self) -> (r: i64)
        ensures
            r as int == self@.attractiveness,
    {
        self.attractiveness
    }

    /// Mutates the party's exogenous appeal; unconstrained, effective
    /// from the next round only.
    pub fn set_attractiveness(&mut self, value: i64)
        ensures
            final(self)@.attractiveness == value as int,
            final(self)@.name == old(self)@.name,
            final(self)@.preferences == old(self)@.preferences,
    {
        self.attractiveness = value;
    }
}

/// The name given to a generated party: its id as a decimal digit.
pub open spec fn digit_label(i: int) -> Seq<char> {
    if i == 0 {
        "0"@
    } else if i == 1 {
        "1"@
    } else if i == 2 {
        "2"@
    } else if i == 3 {
        "3"@
    } else if i == 4 {
        "4"@
    } else if i == 5 {
        "5"@
    } else if i == 6 {
        "6"@
    } else if i == 7 {
        "7"@
    } else if i == 8 {
        "8"@
    } else {
        "9"@
    }
}

/// The single-digit name of a small party id.
fn digit_name(i: usize) -> (r: String)
    requires
        i < 10,
    ensures
        r@ == digit_label(i as int),
{
    let s: &str = if i == 0 {
        "0"
    } else if i == 1 {
        "1"
    } else if i == 2 {
        "2"
    } else if i == 3 {
        "3"
    } else if i == 4 {
        "4"
    } else if i == 5 {
        "5"
    } else if i == 6 {
        "6"
    } else if i == 7 {
        "7"
    } else if i == 8 {
        "8"
    } else {
        "9"
    };
    String::from_str(s)
}

/// The registry of all parties in a simulation, keyed by sequential
/// integer ids 0..n-1.  Ids are never reused or removed within a run.
pub struct Parties {
    parties: Vec<Party>,
}

impl View for Parties {
    type V = Seq<PartyView>;

    closed spec fn view(&self) -> Seq<PartyView> {
        self.parties@.map_values(|p: Party| p@)
    }
}

impl Parties {
    /// Every party's position lies within the unit cube.
    pub open spec fn wf(&self) -> bool {
        forall|i: int, j: int|
            0 <= i < self@.len() && 0 <= j < self@[i].preferences.len() ==> self@[i].preferences[j]
                <= SCALE
    }

    /// Every party's position has dimension `dim`.
    pub open spec fn dims_are(&self, dim: int) -> bool {
        forall|i: int| 0 <= i < self@.len() ==> self@[i].preferences.len() == dim
    }

    /// Creates a registry from parallel arrays of names and raw
    /// positions; each position scalar is clamped independently.  The
    /// arrays must both have length `num_parties`, or the call fails
    /// with an `ArityMismatch`.
    pub fn new(num_parties: usize, names: &Vec<String>, preferences: &Vec<Vec<i64>>) -> (r: Result<
        Parties,
        ElectionError,
    >)
        ensures
            (names@.len() != num_parties || preferences@.len() != num_parties) <==> r == Err::<
                Parties,
                ElectionError,
            >(ElectionError::ArityMismatch),
            names@.len() == num_parties && preferences@.len() == num_parties ==> (r matches Ok(ps)
                && {
                &&& ps@.len() == num_parties
                &&& forall|i: int| 0 <= i < num_parties ==> ps@[i].name == names@[i]@
                &&& forall|i: int|
                    0 <= i < num_parties ==> ps@[i].preferences.len() == preferences@[i]@.len()
                &&& forall|i: int, j: int|
                    0 <= i < num_parties && 0 <= j < preferences@[i]@.len()
                        ==> ps@[i].preferences[j] as int == clamp_spec(preferences@[i]@[j] as int)
                &&& forall|i: int| 0 <= i < num_parties ==> ps@[i].attractiveness == SCALE
                &&& ps.wf()
            }),
    {
        if names.len() != num_parties || preferences.len() != num_parties {
            return Err(ElectionError::ArityMismatch);
        }
        let mut parties: Vec<Party> = Vec::new();
        let mut i: usize = 0;
        while i < num_parties
            invariant
                names@.len() == num_parties,
                preferences@.len() == num_parties,
                0 <= i <= num_parties,
                parties@.len() == i,
                forall|k: int| 0 <= k < i ==> parties@[k]@.name == names@[k]@,
                forall|k: int|
                    0 <= k < i ==> parties@[k]@.preferences.len() == preferences@[k]@.len(),
                forall|k: int, j: int|
                    0 <= k < i && 0 <= j < preferences@[k]@.len() ==> parties@[k]@.preferences[j]
                        as int == clamp_spec(preferences@[k]@[j] as int),
                forall|k: int| 0 <= k < i ==> parties@[k]@.attractiveness == SCALE,
            decreases num_parties - i,
        {
            let name: String = names[i].clone();
            let prefs: Preferences = Preferences::new(&preferences[i]);
            parties.push(Party::new(name, prefs));
            i = i + 1;
        }
        let r = Parties { parties };
        proof {
            assert forall|k: int, j: int|
                0 <= k < r@.len() && 0 <= j < r@[k].preferences.len() implies r@[k].preferences[j]
                <= SCALE by {
                assert(r@[k] == r.parties@[k]@);
                assert(r.parties@[k]@.preferences.len() == preferences@[k]@.len());
                assert(r.parties@[k]@.preferences[j] as int == clamp_spec(
                    preferences@[k]@[j] as int,
                ));
            }
        }
        Ok(r)
    }

    /// Creates a registry of `num_parties` parties named by their ids,
    /// each with a uniformly random position of dimension
    /// `num_preferences`.
    pub fn new_random(
        num_parties: usize,
        num_preferences: usize,
        rng: &mut rand::rngs::StdRng,
    ) -> (r: Parties)
        requires
            num_parties <= 10,
        ensures
            r@.len() == num_parties,
            forall|i: int| 0 <= i < num_parties ==> r@[i].name == digit_label(i),
            forall|i: int| 0 <= i < num_parties ==> r@[i].preferences.len() == num_preferences,
            forall|i: int| 0 <= i < num_parties ==> r@[i].attractiveness == SCALE,
            r.wf(),
            r.dims_are(num_preferences as int),
    {
        let mut parties: Vec<Party> = Vec::new();
        let mut i: usize = 0;
        while i < num_parties
            invariant
                num_parties <= 10,
                0 <= i <= num_parties,
                parties@.len() == i,
                forall|k: int| 0 <= k < i ==> parties@[k]@.name == digit_label(k),
                forall|k: int| 0 <= k < i ==> parties@[k]@.preferences.len() == num_preferences,
                forall|k: int, j: int|
                    0 <= k < i && 0 <= j < num_preferences ==> parties@[k]@.preferences[j] <= SCALE,
                forall|k: int| 0 <= k < i ==> parties@[k]@.attractiveness == SCALE,
            decreases num_parties - i,
        {
            let name: String = digit_name(i);
            let prefs: Preferences = random_position(num_preferences, rng);
            parties.push(Party::new(name, prefs));
            i = i + 1;
        }
        Parties { parties }
    }

    /// Creates a registry with the given names and uniformly random
    /// positions.  The name array must have length `num_parties`, or
    /// the call fails with an `ArityMismatch`.
    pub fn new_with_names(
        num_parties: usize,
        num_preferences: usize,
        names: &Vec<String>,
        rng: &mut rand::rngs::StdRng,
    ) -> (r: Result<Parties, ElectionError>)
        ensures
            names@.len() != num_parties <==> r == Err::<Parties, ElectionError>(
                ElectionError::ArityMismatch,
            ),
            names@.len() == num_parties ==> (r matches Ok(ps) && {
                &&& ps@.len() == num_parties
                &&& forall|i: int| 0 <= i < num_parties ==> ps@[i].name == names@[i]@
                &&& forall|i: int|
                    0 <= i < num_parties ==> ps@[i].preferences.len() == num_preferences
                &&& forall|i: int| 0 <= i < num_parties ==> ps@[i].attractiveness == SCALE
                &&& ps.wf()
                &&& ps.dims_are(num_preferences as int)
            }),
    {
        if names.len() != num_parties {
            return Err(ElectionError::ArityMismatch);
        }
        let mut parties: Vec<Party> = Vec::new();
        let mut i: usize = 0;
        while i < num_parties
            invariant
                names@.len() == num_parties,
                0 <= i <= num_parties,
                parties@.len() == i,
                forall|k: int| 0 <= k < i ==> parties@[k]@.name == names@[k]@,
                forall|k: int| 0 <= k < i ==> parties@[k]@.preferences.len() == num_preferences,
                forall|k: int, j: int|
                    0 <= k < i && 0 <= j < num_preferences ==> parties@[k]@.preferences[j] <= SCALE,
                forall|k: int| 0 <= k < i ==> parties@[k]@.attractiveness == SCALE,
            decreases num_parties - i,
        {
            let name: String = names[i].clone();
            let prefs: Preferences = random_position(num_preferences, rng);
            parties.push(Party::new(name, prefs));
            i = i + 1;
        }
        Ok(Parties { parties })
    }

    /// Looks a party up by id; ids at or past the registry size are
    /// unknown.
    pub fn get_party(&self, party: usize) -> (r: Option<&Party>)
        ensures
            party < self@.len() <==> (r matches Some(p) && p@ == self@[party as int]),
            party >= self@.len() <==> r is None,
    {
        if party < self.parties.len() {
            Some(&self.parties[party])
        } else {
            None
        }
    }

    /// The canonical party order: all ids, sorted ascending.
    pub fn get_parties(&self) -> (r: Vec<usize>)
        ensures
            r@.len() == self@.len(),
            forall|i: int| 0 <= i < r@.len() ==> r@[i] == i,
    {
        let n: usize = self.parties.len();
        let mut order: Vec<usize> = Vec::new();
        let mut i: usize = 0;
        while i < n
            invariant
                0 <= i <= n,
                order@.len() == i,
                forall|k: int| 0 <= k < i ==> order@[k] == k,
            decreases n - i,
        {
            order.push(i);
            i = i + 1;
        }
        order
    }

    /// The number of registered parties.
    pub fn len(&self) -> (r: usize)
        ensures
            r == self@.len(),
    {
        self.parties.len()
    }

    /// Mutates the attractiveness of the party with the given id.
    pub fn set_attractiveness(&mut self, party: usize, value: i64)
        requires
            party < old(self)@.len(),
        ensures
            final(self)@.len() == old(self)@.len(),
            final(self)@[party as int].attractiveness == value as int,
            final(self)@[party as int].name == old(self)@[party as int].name,
            final(self)@[party as int].preferences == old(self)@[party as int].preferences,
            forall|i: int|
                0 <= i < old(self)@.len() && i != party ==> final(self)@[i] == old(self)@[i],
    {
        let p: &mut Party = &mut self.parties[party];
        p.set_attractiveness(value);
    }
}

/// Whether a party order contains the given id.
pub fn contains_id(order: &Vec<usize>, x: usize) -> (r: bool)
    ensures
        r == order@.contains(x),
{
    let n: usize = order.len();
    let mut i: usize = 0;
    while i < n
        invariant
            0 <= i <= n,
            order@.len() == n,
            forall|j: int| 0 <= j < i ==> order@[j] != x,
        decreases n - i,
    {
        if order[i] == x {
            return true;
        }
        i = i + 1;
    }
    false
}

/// The position of a party id within a party order, if any.
pub fn index_of_id(order: &Vec<usize>, x: usize) -> (r: Option<usize>)
    ensures
        r matches Some(i) ==> i < order@.len() && order@[i as int] == x,
        r is None ==> !order@.contains(x),
        order@.contains(x) ==> r is Some,
{
    let n: usize = order.len();
    let mut i: usize = 0;
    while i < n
        invariant
            0 <= i <= n,
            order@.len() == n,
            forall|j: int| 0 <= j < i ==> order@[j] != x,
        decreases n - i,
    {
        if order[i] == x {
            return Some(i);
        }
        i = i + 1;
    }
    None
}

/// A uniformly random position in the unit cube of the given dimension.
fn random_position(num_preferences: usize, rng: &mut rand::rngs::StdRng) -> (r: Preferences)
    ensures
        r@.len() == num_preferences,
        r.wf(),
{
    let mut values: Vec<i64> = Vec::new();
    let mut j: usize = 0;
    while j < num_preferences
        invariant
            0 <= j <= num_preferences,
            values@.len() == j,
        decreases num_preferences - j,
    {
        let v: u64 = rng_below(rng, SCALE + 1);
        values.push(v as i64);
        j = j + 1;
    }
    Preferences::new(&values)
}

} // verus!
