//! Trains and the train registry.
//!
//! The registry is a keyed store (unique line number to record), viewed as a
//! map from line to the train's mathematical image. Like the passenger
//! registry it is intentionally dumb: the booking service alone keeps the
//! passenger sets consistent with the booking ledger.

use vstd::prelude::*;

use crate::all_distinct;
use crate::str_eq;
use crate::times::Time;
use crate::RegistryError;

verus! {

/// Mathematical image of a train record; times are seconds since midnight.
pub ghost struct TrainV {
    pub line: u32,
    pub name: Seq<char>,
    pub capacity: u32,
    pub origin: Seq<char>,
    pub destination: Seq<char>,
    pub departure: int,
    pub arrival: int,
    pub passengers: Seq<Seq<char>>,
}

/// A train: a unique line number, descriptive attributes, a departure and an
/// arrival time of day, and the set of passenger IDs currently booked on it
/// (back-references kept consistent by the booking service). The capacity is
/// informational only: no operation checks it against the passenger count.
pub struct Train {
    pub line: u32,
    pub name: String,
    pub capacity: u32,
    pub origin: String,
    pub destination: String,
    pub departure: Time,
    pub arrival: Time,
    pub passengers: Vec<String>,
}

impl View for Train {
    type V = TrainV;

    open spec fn view(&self) -> TrainV {
        TrainV {
            line: self.line,
            name: self.name@,
            capacity: self.capacity,
            origin: self.origin@,
            destination: self.destination@,
            departure: self.departure@,
            arrival: self.arrival@,
            passengers: self.passengers.deep_view(),
        }
    }
}

impl Train {
    /// A well-formed train lists each passenger ID at most once.
    pub open spec fn wf(&self) -> bool {
        all_distinct(self@.passengers)
    }

    /// Creates a train with no booked passengers.
    pub fn new(
        line: u32,
        name: String,
        capacity: u32,
        origin: String,
        destination: String,
        departure: Time,
        arrival: Time,
    ) -> (r: Self)
        ensures
            r@.line == line,
            r@.name == name@,
            r@.capacity == capacity,
            r@.origin == origin@,
            r@.destination == destination@,
            r@.departure == departure@,
            r@.arrival == arrival@,
            r@.passengers == Seq::<Seq<char>>::empty(),
            r.wf(),
    {
        let r = Self { line, name, capacity, origin, destination, departure, arrival, passengers: Vec::new() };
        proof {
            assert(r@.passengers =~= Seq::<Seq<char>>::empty());
        }
        r
    }

    /// Whether this passenger ID is booked on the train.
    pub fn has_passenger(&self, passenger_id: &str) -> (r: bool)
        ensures
            r == self@.passengers.contains(passenger_id@),
    {
        let n = self.passengers.len();
        let mut i: usize = 0;
        while i < n
            invariant
                n == self.passengers.len(),
                i <= n,
                forall|j: int| 0 <= j < i ==> self@.passengers[j] != passenger_id@,
            decreases n - i,
        {
            if str_eq(self.passengers[i].as_str(), passenger_id) {
                proof {
                    assert(self@.passengers[i as int] == passenger_id@);
                }
                return true;
            }
            i += 1;
        }
        false
    }

    /// Records a passenger ID; a second record of the same ID is a no-op.
    pub fn add_passenger(&mut self, passenger_id: String)
        requires
            old(self).wf(),
        ensures
            final(self).wf(),
            final(self)@ == (TrainV {
                passengers: if old(self)@.passengers.contains(passenger_id@) {
                    old(self)@.passengers
                } else {
                    old(self)@.passengers.push(passenger_id@)
                },
                ..old(self)@
            }),
    {
        if !self.has_passenger(passenger_id.as_str()) {
            let ghost before = self@.passengers;
            self.passengers.push(passenger_id);
            proof {
                assert(self@.passengers =~= before.push(passenger_id@));
            }
        }
    }

    /// Forgets a passenger ID; absent IDs are left alone.
    pub fn remove_passenger(&mut self, passenger_id: &str)
        requires
            old(self).wf(),
        ensures
            final(self).wf(),
            final(self)@ == (TrainV {
                passengers: old(self)@.passengers.remove_value(passenger_id@),
                ..old(self)@
            }),
    {
        let ghost before = self@.passengers;
        let n = self.passengers.len();
        let mut i: usize = 0;
        while i < n
            invariant
                n == self.passengers.len(),
                i <= n,
                old(self).wf(),
                self == old(self),
                before == self@.passengers,
                forall|j: int| 0 <= j < i ==> self@.passengers[j] != passenger_id@,
            decreases n - i,
        {
            if str_eq(self.passengers[i].as_str(), passenger_id) {
                proof {
                    assert(before[i as int] == passenger_id@);
                    before.index_of_first_ensures(passenger_id@);
                    let k = before.index_of_first(passenger_id@).unwrap();
                    assert(k == i as int);
                }
                self.passengers.remove(i);
                proof {
                    assert(self@.passengers =~= before.remove(i as int));
                    assert(self.wf()) by {
                        let br = before.remove(i as int);
                        before.remove_ensures(i as int);
                        assert forall|a: int, b: int| 0 <= a < b < br.len() implies br[a]
                            != br[b] by {
                            if b < i {
                                assert(br[a] == before[a]);
                                assert(br[b] == before[b]);
                            } else if a < i {
                                assert(br[a] == before[a]);
                                assert(br[b] == before[b + 1]);
                            } else {
                                assert(br[a] == before[a + 1]);
                                assert(br[b] == before[b + 1]);
                            }
                        }
                        assert(self@.passengers == br);
                    }
                }
                return ;
            }
            i += 1;
        }
        proof {
            assert(!before.contains(passenger_id@));
            before.index_of_first_ensures(passenger_id@);
        }
    }
}

/// The keys (line numbers) of the listed trains are pairwise distinct.
pub open spec fn train_keys_distinct(s: Seq<Train>) -> bool {
    forall|i: int, j: int| 0 <= i < j < s.len() ==> #[trigger] s[i]@.line != #[trigger] s[j]@.line
}

/// The map that a sequence of train records stands for.
spec fn train_map(s: Seq<Train>) -> Map<u32, TrainV>
    decreases s.len(),
{
    if s.len() == 0 {
        Map::empty()
    } else {
        train_map(s.drop_last()).insert(s.last()@.line, s.last()@)
    }
}

proof fn tm_distinct_prefix(s: Seq<Train>)
    requires
        train_keys_distinct(s),
        s.len() > 0,
    ensures
        train_keys_distinct(s.drop_last()),
{
    assert forall|i: int, j: int|
        0 <= i < j < s.drop_last().len() implies #[trigger] s.drop_last()[i]@.line
        != #[trigger] s.drop_last()[j]@.line by {
        assert(s.drop_last()[i] == s[i]);
        assert(s.drop_last()[j] == s[j]);
    }
}

/// Core facts about the map image of a distinct-keyed sequence.
proof fn tm_facts(s: Seq<Train>)
    requires
        train_keys_distinct(s),
    ensures
        train_map(s).dom().finite(),
        train_map(s).len() == s.len(),
        forall|i: int|
            0 <= i < s.len() ==> #[trigger] train_map(s).contains_key(s[i]@.line)
                && train_map(s)[s[i]@.line] == s[i]@,
        forall|k: u32|
            #[trigger] train_map(s).contains_key(k) ==> exists|i: int|
                0 <= i < s.len() && s[i]@.line == k,
    decreases s.len(),
{
    if s.len() > 0 {
        let s0 = s.drop_last();
        tm_distinct_prefix(s);
        tm_facts(s0);
        let last = s.last();
        assert(!train_map(s0).contains_key(last@.line)) by {
            if train_map(s0).contains_key(last@.line) {
                let i = choose|i: int| 0 <= i < s0.len() && s0[i]@.line == last@.line;
                assert(s[i] == s0[i]);
                assert(s[i]@.line != s[s.len() - 1]@.line);
            }
        }
        assert forall|i: int| 0 <= i < s.len() implies #[trigger] train_map(s).contains_key(
            s[i]@.line,
        ) && train_map(s)[s[i]@.line] == s[i]@ by {
            if i < s.len() - 1 {
                assert(s0[i] == s[i]);
                assert(s[i]@.line != s[s.len() - 1]@.line);
                assert(train_map(s0).contains_key(s0[i]@.line));
            }
        }
        assert forall|k: u32| #[trigger] train_map(s).contains_key(k) implies exists|i: int|
            0 <= i < s.len() && s[i]@.line == k by {
            if k == last@.line {
                assert(s[s.len() - 1]@.line == k);
            } else {
                let i = choose|i: int| 0 <= i < s0.len() && s0[i]@.line == k;
                assert(s[i]@.line == k);
            }
        }
    }
}

/// Appending a record updates the map at its key.
proof fn tm_push(s: Seq<Train>, t: Train)
    ensures
        train_map(s.push(t)) == train_map(s).insert(t@.line, t@),
{
    assert(s.push(t).drop_last() =~= s);
    assert(s.push(t).last() == t);
}

/// Removing the record at `i` removes its key from the map.
proof fn tm_remove(s: Seq<Train>, i: int)
    requires
        train_keys_distinct(s),
        0 <= i < s.len(),
    ensures
        train_keys_distinct(s.remove(i)),
        train_map(s.remove(i)) == train_map(s).remove(s[i]@.line),
    decreases s.len(),
{
    tm_facts(s);
    assert forall|a: int, b: int|
        0 <= a < b < s.remove(i).len() implies #[trigger] s.remove(i)[a]@.line
        != #[trigger] s.remove(i)[b]@.line by {
        s.remove_ensures(i);
    }
    let s0 = s.drop_last();
    tm_distinct_prefix(s);
    tm_facts(s0);
    if i == s.len() - 1 {
        assert(s.remove(i) =~= s0);
        assert(!train_map(s0).contains_key(s[i]@.line)) by {
            if train_map(s0).contains_key(s[i]@.line) {
                let j = choose|j: int| 0 <= j < s0.len() && s0[j]@.line == s[i]@.line;
                assert(s[j] == s0[j]);
            }
        }
        assert(train_map(s.remove(i)) =~= train_map(s).remove(s[i]@.line));
    } else {
        assert(s.remove(i).drop_last() =~= s0.remove(i));
        assert(s.remove(i).last() == s.last());
        tm_remove(s0, i);
        assert(s0[i] == s[i]);
        assert(s.last()@.line != s[i]@.line);
        assert(train_map(s.remove(i)) == train_map(s0.remove(i)).insert(
            s.last()@.line,
            s.last()@,
        ));
        assert(train_map(s.remove(i)) =~= train_map(s).remove(s[i]@.line));
    }
}

/// Replacing the record at `i` by one with the same key updates the map there.
proof fn tm_update(s: Seq<Train>, i: int, t: Train)
    requires
        train_keys_distinct(s),
        0 <= i < s.len(),
        t@.line == s[i]@.line,
    ensures
        train_keys_distinct(s.update(i, t)),
        train_map(s.update(i, t)) == train_map(s).insert(t@.line, t@),
    decreases s.len(),
{
    tm_facts(s);
    assert forall|a: int, b: int|
        0 <= a < b < s.update(i, t).len() implies #[trigger] s.update(i, t)[a]@.line
        != #[trigger] s.update(i, t)[b]@.line by {
        assert(a == i || s.update(i, t)[a] == s[a]);
        assert(b == i || s.update(i, t)[b] == s[b]);
    }
    let s0 = s.drop_last();
    tm_distinct_prefix(s);
    tm_facts(s0);
    if i == s.len() - 1 {
        assert(s.update(i, t).drop_last() =~= s0);
        assert(s.update(i, t).last() == t);
        assert(train_map(s.update(i, t)) =~= train_map(s).insert(t@.line, t@));
    } else {
        assert(s.update(i, t).drop_last() =~= s0.update(i, t));
        assert(s.update(i, t).last() == s.last());
        tm_update(s0, i, t);
        assert(s0[i] == s[i]);
        assert(s.last()@.line != s[i]@.line);
        assert(train_map(s.update(i, t)) == train_map(s0.update(i, t)).insert(
            s.last()@.line,
            s.last()@,
        ));
        assert(train_map(s.update(i, t)) =~= train_map(s).insert(t@.line, t@));
    }
}

/// The train registry: a keyed store of trains, viewed as a map from line
/// number to record.
pub struct TrainList {
    items: Vec<Train>,
}

impl View for TrainList {
    type V = Map<u32, TrainV>;

    closed spec fn view(&self) -> Map<u32, TrainV> {
        train_map(self.items@)
    }
}

impl TrainList {
    /// Well-formed: line numbers are unique and every record is well-formed.
    pub closed spec fn wf(&self) -> bool {
        &&& train_keys_distinct(self.items@)
        &&& forall|i: int| 0 <= i < self.items@.len() ==> (#[trigger] self.items@[i]).wf()
    }

    /// Facts a caller may need about the view of a well-formed registry.
    pub proof fn lemma_view_facts(&self)
        requires
            self.wf(),
        ensures
            self@.dom().finite(),
            forall|k: u32|
                #[trigger] self@.contains_key(k) ==> self@[k].line == k && all_distinct(
                    self@[k].passengers,
                ),
    {
        tm_facts(self.items@);
        assert forall|k: u32| #[trigger] self@.contains_key(k) implies self@[k].line == k
            && all_distinct(self@[k].passengers) by {
            let i = choose|i: int| 0 <= i < self.items@.len() && self.items@[i]@.line == k;
            assert(self.items@[i].wf());
        }
    }

    /// An empty registry.
    pub fn new() -> (r: Self)
        ensures
            r.wf(),
            r@ == Map::<u32, TrainV>::empty(),
    {
        let r = Self { items: Vec::new() };
        proof {
            assert(r.items@.len() == 0);
        }
        r
    }

    /// Number of trains.
    pub fn len(&self) -> (r: usize)
        requires
            self.wf(),
        ensures
            r == self@.len(),
    {
        proof {
            tm_facts(self.items@);
        }
        self.items.len()
    }

    /// Whether the registry is empty.
    pub fn is_empty(&self) -> (r: bool)
        requires
            self.wf(),
        ensures
            r == (self@.len() == 0),
    {
        proof {
            tm_facts(self.items@);
        }
        self.items.is_empty()
    }

    /// Index of the record with the given line, if any.
    fn find_index(&self, line: u32) -> (r: Option<usize>)
        ensures
            match r {
                Some(i) => i < self.items@.len() && self.items@[i as int]@.line == line,
                None => forall|j: int| 0 <= j < self.items@.len() ==> self.items@[j]@.line != line,
            },
    {
        let n = self.items.len();
        let mut i: usize = 0;
        while i < n
            invariant
                n == self.items.len(),
                i <= n,
                forall|j: int| 0 <= j < i ==> self.items@[j]@.line != line,
            decreases n - i,
        {
            if self.items[i].line == line {
                return Some(i);
            }
            i += 1;
        }
        None
    }

    /// Whether a train with this line exists.
    pub fn contains_key(&self, line: u32) -> (r: bool)
        requires
            self.wf(),
        ensures
            r == self@.contains_key(line),
    {
        proof {
            tm_facts(self.items@);
        }
        match self.find_index(line) {
            Some(_) => true,
            None => {
                proof {
                    if self@.contains_key(line) {
                        let i = choose|i: int|
                            0 <= i < self.items@.len() && self.items@[i]@.line == line;
                    }
                }
                false
            },
        }
    }

    /// The train with this line, if any.
    pub fn get(&self, line: u32) -> (r: Option<&Train>)
        requires
            self.wf(),
        ensures
            match r {
                Some(t) => self@.contains_key(line) && t@ == self@[line] && t.wf(),
                None => !self@.contains_key(line),
            },
    {
        proof {
            tm_facts(self.items@);
        }
        match self.find_index(line) {
            Some(i) => {
                proof {
                    assert(train_map(self.items@).contains_key(self.items@[i as int]@.line));
                    assert(self.items@[i as int].wf());
                }
                Some(&self.items[i])
            },
            None => {
                proof {
                    if self@.contains_key(line) {
                        let i = choose|i: int|
                            0 <= i < self.items@.len() && self.items@[i]@.line == line;
                    }
                }
                None
            },
        }
    }

    /// Stores a train under its line, replacing any train already there.
    pub fn insert(&mut self, line: u32, train: Train)
        requires
            old(self).wf(),
            line == train@.line,
            train.wf(),
        ensures
            final(self).wf(),
            final(self)@ == old(self)@.insert(line, train@),
    {
        let ghost s = self.items@;
        match self.find_index(line) {
            Some(i) => {
                let slot = &mut self.items[i];
                *slot = train;
                proof {
                    tm_update(s, i as int, self.items@[i as int]);
                    assert(self.wf()) by {
                        assert(forall|j: int|
                            0 <= j < self.items@.len() ==> (#[trigger] self.items@[j]).wf());
                    }
                }
            },
            None => {
                self.items.push(train);
                proof {
                    tm_push(s, self.items@.last());
                    assert(train_keys_distinct(self.items@)) by {
                        assert(forall|a: int, b: int|
                            0 <= a < b < self.items@.len() && b < s.len()
                                ==> #[trigger] self.items@[a]@.line
                                != #[trigger] self.items@[b]@.line);
                    }
                }
            },
        }
    }

    /// Adds a train; fails with `DuplicateKey` if the line is taken.
    pub fn add(&mut self, train: Train) -> (r: Result<(), RegistryError>)
        requires
            old(self).wf(),
            train.wf(),
        ensures
            final(self).wf(),
            match r {
                Ok(()) => !old(self)@.contains_key(train@.line) && final(self)@ == old(
                    self,
                )@.insert(train@.line, train@),
                Err(e) => e == RegistryError::DuplicateKey && old(self)@.contains_key(train@.line)
                    && final(self)@ == old(self)@,
            },
    {
        let line = train.line;
        if self.contains_key(line) {
            Err(RegistryError::DuplicateKey)
        } else {
            self.insert(line, train);
            Ok(())
        }
    }

    /// Removes and returns the train with this line, if any.
    pub fn remove(&mut self, line: u32) -> (r: Option<Train>)
        requires
            old(self).wf(),
        ensures
            final(self).wf(),
            final(self)@ == old(self)@.remove(line),
            match r {
                Some(t) => old(self)@.contains_key(line) && t@ == old(self)@[line],
                None => !old(self)@.contains_key(line),
            },
    {
        let ghost s = self.items@;
        proof {
            tm_facts(s);
        }
        match self.find_index(line) {
            Some(i) => {
                let t = self.items.remove(i);
                proof {
                    tm_remove(s, i as int);
                    assert(train_map(s).contains_key(s[i as int]@.line));
                    assert(self.wf()) by {
                        s.remove_ensures(i as int);
                        assert(forall|j: int|
                            0 <= j < self.items@.len() ==> (#[trigger] self.items@[j]).wf());
                    }
                }
                Some(t)
            },
            None => {
                proof {
                    if self@.contains_key(line) {
                        let i = choose|i: int| 0 <= i < s.len() && s[i]@.line == line;
                    }
                    assert(self@ =~= old(self)@.remove(line));
                }
                None
            },
        }
    }

    /// Records a passenger ID on the train with this line; returns whether
    /// the train was found.
    pub fn add_passenger_to(&mut self, line: u32, passenger_id: String) -> (found: bool)
        requires
            old(self).wf(),
        ensures
            final(self).wf(),
            found == old(self)@.contains_key(line),
            found ==> final(self)@ == old(self)@.insert(
                line,
                TrainV {
                    passengers: if old(self)@[line].passengers.contains(passenger_id@) {
                        old(self)@[line].passengers
                    } else {
                        old(self)@[line].passengers.push(passenger_id@)
                    },
                    ..old(self)@[line]
                },
            ),
            !found ==> final(self)@ == old(self)@,
    {
        let ghost s = self.items@;
        proof {
            tm_facts(s);
        }
        match self.find_index(line) {
            Some(i) => {
                let slot = &mut self.items[i];
                slot.add_passenger(passenger_id);
                proof {
                    tm_update(s, i as int, self.items@[i as int]);
                    assert(self.wf()) by {
                        assert(forall|j: int|
                            0 <= j < self.items@.len() ==> (#[trigger] self.items@[j]).wf());
                    }
                    assert(train_map(s).contains_key(s[i as int]@.line));
                    assert(old(self)@[line] == s[i as int]@);
                }
                true
            },
            None => {
                proof {
                    if self@.contains_key(line) {
                        let i = choose|i: int| 0 <= i < s.len() && s[i]@.line == line;
                    }
                }
                false
            },
        }
    }

    /// Forgets a passenger ID on the train with this line; returns whether
    /// the train was found.
    pub fn remove_passenger_from(&mut self, line: u32, passenger_id: &str) -> (found: bool)
        requires
            old(self).wf(),
        ensures
            final(self).wf(),
            found == old(self)@.contains_key(line),
            found ==> final(self)@ == old(self)@.insert(
                line,
                TrainV {
                    passengers: old(self)@[line].passengers.remove_value(passenger_id@),
                    ..old(self)@[line]
                },
            ),
            !found ==> final(self)@ == old(self)@,
    {
        let ghost s = self.items@;
        proof {
            tm_facts(s);
        }
        match self.find_index(line) {
            Some(i) => {
                let slot = &mut self.items[i];
                slot.remove_passenger(passenger_id);
                proof {
                    tm_update(s, i as int, self.items@[i as int]);
                    assert(train_map(s).contains_key(s[i as int]@.line));
                    assert(old(self)@[line] == s[i as int]@);
                    assert(self.wf()) by {
                        assert(forall|j: int|
                            0 <= j < self.items@.len() ==> (#[trigger] self.items@[j]).wf());
                    }
                }
                true
            },
            None => {
                proof {
                    if self@.contains_key(line) {
                        let i = choose|i: int| 0 <= i < s.len() && s[i]@.line == line;
                    }
                }
                false
            },
        }
    }

    /// Rewrites every descriptive attribute of the train with this line
    /// (its passenger set and the line itself stay); returns whether the
    /// train was found.
    pub fn update_train(
        &mut self,
        line: u32,
        name: String,
        capacity: u32,
        origin: String,
        destination: String,
        departure: Time,
        arrival: Time,
    ) -> (found: bool)
        requires
            old(self).wf(),
        ensures
            final(self).wf(),
            found == old(self)@.contains_key(line),
            found ==> final(self)@ == old(self)@.insert(
                line,
                TrainV {
                    name: name@,
                    capacity: capacity,
                    origin: origin@,
                    destination: destination@,
                    departure: departure@,
                    arrival: arrival@,
                    ..old(self)@[line]
                },
            ),
            !found ==> final(self)@ == old(self)@,
    {
        let ghost s = self.items@;
        proof {
            tm_facts(s);
        }
        match self.find_index(line) {
            Some(i) => {
                let slot = &mut self.items[i];
                slot.name = name;
                slot.capacity = capacity;
                slot.origin = origin;
                slot.destination = destination;
                slot.departure = departure;
                slot.arrival = arrival;
                proof {
                    tm_update(s, i as int, self.items@[i as int]);
                    assert(train_map(s).contains_key(s[i as int]@.line));
                    assert(old(self)@[line] == s[i as int]@);
                    assert(self.wf()) by {
                        assert(forall|j: int|
                            0 <= j < self.items@.len() ==> (#[trigger] self.items@[j]).wf());
                    }
                }
                true
            },
            None => {
                proof {
                    if self@.contains_key(line) {
                        let i = choose|i: int| 0 <= i < s.len() && s[i]@.line == line;
                    }
                }
                false
            },
        }
    }

    /// Read-only access to the stored records, for display layers.
    pub fn entries(&self) -> (r: &Vec<Train>)
        requires
            self.wf(),
        ensures
            r@.len() == self@.len(),
            forall|i: int|
                0 <= i < r@.len() ==> #[trigger] self@.contains_key(r@[i]@.line)
                    && self@[r@[i]@.line] == r@[i]@,
    {
        proof {
            tm_facts(self.items@);
        }
        &self.items
    }
}

} // verus!
