//! Passengers and the passenger registry.
//!
//! The registry is a keyed store (unique passenger ID, a string, to record).
//! Its mathematical view is a map from the ID's characters to the passenger's
//! mathematical image. The registry itself is intentionally dumb: every
//! cross-entity rule lives in the booking service.

use vstd::prelude::*;

use crate::all_distinct;
use crate::str_eq;
use crate::RegistryError;

verus! {

/// Mathematical image of a passenger record.
pub ghost struct PassengerV {
    pub id: Seq<char>,
    pub name: Seq<char>,
    pub age: u16,
    pub bookings: Seq<Seq<char>>,
}

/// A passenger: a unique string ID, a name, an age, and the set of booking
/// IDs currently held (back-references into the booking ledger, kept
/// consistent by the booking service).
pub struct Passenger {
    pub id: String,
    pub name: String,
    pub age: u16,
    pub bookings: Vec<String>,
}

impl View for Passenger {
    type V = PassengerV;

    open spec fn view(&self) -> PassengerV {
        PassengerV {
            id: self.id@,
            name: self.name@,
            age: self.age,
            bookings: self.bookings.deep_view(),
        }
    }
}

impl Passenger {
    /// A well-formed passenger lists each booking ID at most once.
    pub open spec fn wf(&self) -> bool {
        all_distinct(self@.bookings)
    }

    /// Creates a passenger with no bookings.
    pub fn new(id: String, name: String, age: u16) -> (r: Self)
        ensures
            r@.id == id@,
            r@.name == name@,
            r@.age == age,
            r@.bookings == Seq::<Seq<char>>::empty(),
            r.wf(),
    {
        let r = Self { id, name, age, bookings: Vec::new() };
        proof {
            assert(r@.bookings =~= Seq::<Seq<char>>::empty());
        }
        r
    }

    /// Whether this passenger holds the given booking ID.
    pub fn has_booking(&self, booking_id: &str) -> (r: bool)
        ensures
            r == self@.bookings.contains(booking_id@),
    {
        let n = self.bookings.len();
        let mut i: usize = 0;
        while i < n
            invariant
                n == self.bookings.len(),
                i <= n,
                forall|j: int| 0 <= j < i ==> self@.bookings[j] != booking_id@,
            decreases n - i,
        {
            if str_eq(self.bookings[i].as_str(), booking_id) {
                proof {
                    assert(self@.bookings[i as int] == booking_id@);
                }
                return true;
            }
            i += 1;
        }
        false
    }

    /// Records a booking ID; a second record of the same ID is a no-op.
    pub fn add_booking(&mut self, booking_id: String)
        requires
            old(self).wf(),
        ensures
            final(self).wf(),
            final(self)@.id == old(self)@.id,
            final(self)@.name == old(self)@.name,
            final(self)@.age == old(self)@.age,
            final(self)@.bookings == if old(self)@.bookings.contains(booking_id@) {
                old(self)@.bookings
            } else {
                old(self)@.bookings.push(booking_id@)
            },
    {
        if !self.has_booking(booking_id.as_str()) {
            let ghost before = self@.bookings;
            self.bookings.push(booking_id);
            proof {
                assert(self@.bookings =~= before.push(booking_id@));
            }
        }
    }

    /// Forgets a booking ID; absent IDs are left alone.
    pub fn remove_booking(&mut self, booking_id: &str)
        requires
            old(self).wf(),
        ensures
            final(self).wf(),
            final(self)@.id == old(self)@.id,
            final(self)@.name == old(self)@.name,
            final(self)@.age == old(self)@.age,
            final(self)@.bookings == old(self)@.bookings.remove_value(booking_id@),
    {
        let ghost before = self@.bookings;
        let n = self.bookings.len();
        let mut i: usize = 0;
        while i < n
            invariant
                n == self.bookings.len(),
                i <= n,
                old(self).wf(),
                self == old(self),
                before == self@.bookings,
                forall|j: int| 0 <= j < i ==> self@.bookings[j] != booking_id@,
            decreases n - i,
        {
            if str_eq(self.bookings[i].as_str(), booking_id) {
                proof {
                    assert(before[i as int] == booking_id@);
                    before.index_of_first_ensures(booking_id@);
                    let k = before.index_of_first(booking_id@).unwrap();
                    assert(k == i as int);
                }
                self.bookings.remove(i);
                proof {
                    assert(self@.bookings =~= before.remove(i as int));
                    assert(self.wf()) by {
                        let br = before.remove(i as int);
                        before.remove_ensures(i as int);
                        assert forall|a: int, b: int| 0 <= a < b < br.len() implies br[a]
                            != br[b] by {
                            if b < i {
                                assert(br[a] == before[a]);
                                assert(br[b] == before[b]);
                            } else if a < i {
                                assert(br[a] == before[a]);
                                assert(br[b] == before[b + 1]);
                            } else {
                                assert(br[a] == before[a + 1]);
                                assert(br[b] == before[b + 1]);
                            }
                        }
                        assert(self@.bookings == br);
                    }
                }
                return ;
            }
            i += 1;
        }
        proof {
            assert(!before.contains(booking_id@));
            before.index_of_first_ensures(booking_id@);
        }
    }
}

/// The keys (IDs) of the listed passengers are pairwise distinct.
pub open spec fn passenger_keys_distinct(s: Seq<Passenger>) -> bool {
    forall|i: int, j: int| 0 <= i < j < s.len() ==> #[trigger] s[i]@.id != #[trigger] s[j]@.id
}

/// The map that a sequence of passenger records stands for.
spec fn passenger_map(s: Seq<Passenger>) -> Map<Seq<char>, PassengerV>
    decreases s.len(),
{
    if s.len() == 0 {
        Map::empty()
    } else {
        passenger_map(s.drop_last()).insert(s.last()@.id, s.last()@)
    }
}

proof fn pm_distinct_prefix(s: Seq<Passenger>)
    requires
        passenger_keys_distinct(s),
        s.len() > 0,
    ensures
        passenger_keys_distinct(s.drop_last()),
{
    assert forall|i: int, j: int|
        0 <= i < j < s.drop_last().len() implies #[trigger] s.drop_last()[i]@.id
        != #[trigger] s.drop_last()[j]@.id by {
        assert(s.drop_last()[i] == s[i]);
        assert(s.drop_last()[j] == s[j]);
    }
}

/// Core facts about the map image of a distinct-keyed sequence.
proof fn pm_facts(s: Seq<Passenger>)
    requires
        passenger_keys_distinct(s),
    ensures
        passenger_map(s).dom().finite(),
        passenger_map(s).len() == s.len(),
        forall|i: int|
            0 <= i < s.len() ==> #[trigger] passenger_map(s).contains_key(s[i]@.id)
                && passenger_map(s)[s[i]@.id] == s[i]@,
        forall|k: Seq<char>|
            #[trigger] passenger_map(s).contains_key(k) ==> exists|i: int|
                0 <= i < s.len() && s[i]@.id == k,
    decreases s.len(),
{
    if s.len() > 0 {
        let s0 = s.drop_last();
        pm_distinct_prefix(s);
        pm_facts(s0);
        let last = s.last();
        assert(!passenger_map(s0).contains_key(last@.id)) by {
            if passenger_map(s0).contains_key(last@.id) {
                let i = choose|i: int| 0 <= i < s0.len() && s0[i]@.id == last@.id;
                assert(s[i] == s0[i]);
                assert(s[i]@.id != s[s.len() - 1]@.id);
            }
        }
        assert forall|i: int| 0 <= i < s.len() implies #[trigger] passenger_map(s).contains_key(
            s[i]@.id,
        ) && passenger_map(s)[s[i]@.id] == s[i]@ by {
            if i < s.len() - 1 {
                assert(s0[i] == s[i]);
                assert(s[i]@.id != s[s.len() - 1]@.id);
                assert(passenger_map(s0).contains_key(s0[i]@.id));
            }
        }
        assert forall|k: Seq<char>| #[trigger] passenger_map(s).contains_key(k) implies exists|
            i: int,
        | 0 <= i < s.len() && s[i]@.id == k by {
            if k == last@.id {
                assert(s[s.len() - 1]@.id == k);
            } else {
                let i = choose|i: int| 0 <= i < s0.len() && s0[i]@.id == k;
                assert(s[i]@.id == k);
            }
        }
    }
}

/// Appending a fresh-or-not record updates the map at its key.
proof fn pm_push(s: Seq<Passenger>, p: Passenger)
    ensures
        passenger_map(s.push(p)) == passenger_map(s).insert(p@.id, p@),
{
    assert(s.push(p).drop_last() =~= s);
    assert(s.push(p).last() == p);
}

/// Removing the record at `i` removes its key from the map.
proof fn pm_remove(s: Seq<Passenger>, i: int)
    requires
        passenger_keys_distinct(s),
        0 <= i < s.len(),
    ensures
        passenger_keys_distinct(s.remove(i)),
        passenger_map(s.remove(i)) == passenger_map(s).remove(s[i]@.id),
    decreases s.len(),
{
    pm_facts(s);
    assert forall|a: int, b: int|
        0 <= a < b < s.remove(i).len() implies #[trigger] s.remove(i)[a]@.id
        != #[trigger] s.remove(i)[b]@.id by {
        s.remove_ensures(i);
    }
    let s0 = s.drop_last();
    pm_distinct_prefix(s);
    pm_facts(s0);
    if i == s.len() - 1 {
        assert(s.remove(i) =~= s0);
        assert(!passenger_map(s0).contains_key(s[i]@.id)) by {
            if passenger_map(s0).contains_key(s[i]@.id) {
                let j = choose|j: int| 0 <= j < s0.len() && s0[j]@.id == s[i]@.id;
                assert(s[j] == s0[j]);
            }
        }
        assert(passenger_map(s.remove(i)) =~= passenger_map(s).remove(s[i]@.id));
    } else {
        assert(s.remove(i).drop_last() =~= s0.remove(i));
        assert(s.remove(i).last() == s.last());
        pm_remove(s0, i);
        assert(s0[i] == s[i]);
        assert(s.last()@.id != s[i]@.id);
        assert(passenger_map(s.remove(i)) == passenger_map(s0.remove(i)).insert(
            s.last()@.id,
            s.last()@,
        ));
        assert(passenger_map(s.remove(i)) =~= passenger_map(s).remove(s[i]@.id));
    }
}

/// Replacing the record at `i` by one with the same key updates the map there.
proof fn pm_update(s: Seq<Passenger>, i: int, p: Passenger)
    requires
        passenger_keys_distinct(s),
        0 <= i < s.len(),
        p@.id == s[i]@.id,
    ensures
        passenger_keys_distinct(s.update(i, p)),
        passenger_map(s.update(i, p)) == passenger_map(s).insert(p@.id, p@),
    decreases s.len(),
{
    pm_facts(s);
    assert forall|a: int, b: int|
        0 <= a < b < s.update(i, p).len() implies #[trigger] s.update(i, p)[a]@.id
        != #[trigger] s.update(i, p)[b]@.id by {
        assert(a == i || s.update(i, p)[a] == s[a]);
        assert(b == i || s.update(i, p)[b] == s[b]);
    }
    let s0 = s.drop_last();
    pm_distinct_prefix(s);
    pm_facts(s0);
    if i == s.len() - 1 {
        assert(s.update(i, p).drop_last() =~= s0);
        assert(s.update(i, p).last() == p);
        assert(passenger_map(s.update(i, p)) =~= passenger_map(s).insert(p@.id, p@));
    } else {
        assert(s.update(i, p).drop_last() =~= s0.update(i, p));
        assert(s.update(i, p).last() == s.last());
        pm_update(s0, i, p);
        assert(s0[i] == s[i]);
        assert(s.last()@.id != s[i]@.id);
        assert(passenger_map(s.update(i, p)) == passenger_map(s0.update(i, p)).insert(
            s.last()@.id,
            s.last()@,
        ));
        assert(passenger_map(s.update(i, p)) =~= passenger_map(s).insert(p@.id, p@));
    }
}

/// The passenger registry: a keyed store of passengers, viewed as a map from
/// ID to record.
pub struct PassengerList {
    items: Vec<Passenger>,
}

impl View for PassengerList {
    type V = Map<Seq<char>, PassengerV>;

    closed spec fn view(&self) -> Map<Seq<char>, PassengerV> {
        passenger_map(self.items@)
    }
}

impl PassengerList {
    /// Well-formed: keys are unique and every record is well-formed.
    pub closed spec fn wf(&self) -> bool {
        &&& passenger_keys_distinct(self.items@)
        &&& forall|i: int| 0 <= i < self.items@.len() ==> (#[trigger] self.items@[i]).wf()
    }

    /// Facts a caller may need about the view of a well-formed registry:
    /// its domain is finite, every record sits under its own ID, and every
    /// record's booking list is duplicate-free.
    pub proof fn lemma_view_facts(&self)
        requires
            self.wf(),
        ensures
            self@.dom().finite(),
            forall|k: Seq<char>|
                #[trigger] self@.contains_key(k) ==> self@[k].id == k && all_distinct(
                    self@[k].bookings,
                ),
    {
        pm_facts(self.items@);
        assert forall|k: Seq<char>| #[trigger] self@.contains_key(k) implies self@[k].id == k
            && all_distinct(self@[k].bookings) by {
            let i = choose|i: int| 0 <= i < self.items@.len() && self.items@[i]@.id == k;
            assert(self.items@[i].wf());
        }
    }

    /// An empty registry.
    pub fn new() -> (r: Self)
        ensures
            r.wf(),
            r@ == Map::<Seq<char>, PassengerV>::empty(),
    {
        let r = Self { items: Vec::new() };
        proof {
            assert(r.items@.len() == 0);
        }
        r
    }

    /// Number of passengers.
    pub fn len(&self) -> (r: usize)
        requires
            self.wf(),
        ensures
            r == self@.len(),
    {
        proof {
            pm_facts(self.items@);
        }
        self.items.len()
    }

    /// Whether the registry is empty.
    pub fn is_empty(&self) -> (r: bool)
        requires
            self.wf(),
        ensures
            r == (self@.len() == 0),
    {
        proof {
            pm_facts(self.items@);
        }
        self.items.is_empty()
    }

    /// Index of the record with the given ID, if any.
    fn find_index(&self, id: &str) -> (r: Option<usize>)
        ensures
            match r {
                Some(i) => i < self.items@.len() && self.items@[i as int]@.id == id@,
                None => forall|j: int| 0 <= j < self.items@.len() ==> self.items@[j]@.id != id@,
            },
    {
        let n = self.items.len();
        let mut i: usize = 0;
        while i < n
            invariant
                n == self.items.len(),
                i <= n,
                forall|j: int| 0 <= j < i ==> self.items@[j]@.id != id@,
            decreases n - i,
        {
            if str_eq(self.items[i].id.as_str(), id) {
                return Some(i);
            }
            i += 1;
        }
        None
    }

    /// Whether a passenger with this ID exists.
    pub fn contains_key(&self, id: &str) -> (r: bool)
        requires
            self.wf(),
        ensures
            r == self@.contains_key(id@),
    {
        proof {
            pm_facts(self.items@);
        }
        match self.find_index(id) {
            Some(_) => true,
            None => {
                proof {
                    if self@.contains_key(id@) {
                        let i = choose|i: int|
                            0 <= i < self.items@.len() && self.items@[i]@.id == id@;
                    }
                }
                false
            },
        }
    }

    /// The passenger with this ID, if any.
    pub fn get(&self, id: &str) -> (r: Option<&Passenger>)
        requires
            self.wf(),
        ensures
            match r {
                Some(p) => self@.contains_key(id@) && p@ == self@[id@] && p.wf(),
                None => !self@.contains_key(id@),
            },
    {
        proof {
            pm_facts(self.items@);
        }
        match self.find_index(id) {
            Some(i) => {
                proof {
                    assert(passenger_map(self.items@).contains_key(self.items@[i as int]@.id));
                    assert(self.items@[i as int].wf());
                }
                Some(&self.items[i])
            },
            None => {
                proof {
                    if self@.contains_key(id@) {
                        let i = choose|i: int|
                            0 <= i < self.items@.len() && self.items@[i]@.id == id@;
                    }
                }
                None
            },
        }
    }

    /// Stores a passenger under its ID, replacing any passenger already there.
    pub fn insert(&mut self, id: String, passenger: Passenger)
        requires
            old(self).wf(),
            id@ == passenger@.id,
            passenger.wf(),
        ensures
            final(self).wf(),
            final(self)@ == old(self)@.insert(id@, passenger@),
    {
        let ghost s = self.items@;
        match self.find_index(id.as_str()) {
            Some(i) => {
                let slot = &mut self.items[i];
                *slot = passenger;
                proof {
                    pm_update(s, i as int, self.items@[i as int]);
                    assert(self.wf()) by {
                        assert(forall|j: int|
                            0 <= j < self.items@.len() ==> (#[trigger] self.items@[j]).wf());
                    }
                }
            },
            None => {
                self.items.push(passenger);
                proof {
                    pm_push(s, self.items@.last());
                    assert(passenger_keys_distinct(self.items@)) by {
                        assert(forall|a: int, b: int|
                            0 <= a < b < self.items@.len() && b < s.len()
                                ==> #[trigger] self.items@[a]@.id != #[trigger] self.items@[b]@.id);
                    }
                }
            },
        }
    }

    /// Adds a passenger; fails with `DuplicateKey` if the ID is taken.
    pub fn add(&mut self, passenger: Passenger) -> (r: Result<(), RegistryError>)
        requires
            old(self).wf(),
            passenger.wf(),
        ensures
            final(self).wf(),
            match r {
                Ok(()) => !old(self)@.contains_key(passenger@.id) && final(self)@ == old(
                    self,
                )@.insert(passenger@.id, passenger@),
                Err(e) => e == RegistryError::DuplicateKey && old(self)@.contains_key(passenger@.id)
                    && final(self)@ == old(self)@,
            },
    {
        if self.contains_key(passenger.id.as_str()) {
            Err(RegistryError::DuplicateKey)
        } else {
            let id = passenger.id.clone();
            self.insert(id, passenger);
            Ok(())
        }
    }

    /// Removes and returns the passenger with this ID, if any.
    pub fn remove(&mut self, id: &str) -> (r: Option<Passenger>)
        requires
            old(self).wf(),
        ensures
            final(self).wf(),
            final(self)@ == old(self)@.remove(id@),
            match r {
                Some(p) => old(self)@.contains_key(id@) && p@ == old(self)@[id@],
                None => !old(self)@.contains_key(id@),
            },
    {
        let ghost s = self.items@;
        proof {
            pm_facts(s);
        }
        match self.find_index(id) {
            Some(i) => {
                let p = self.items.remove(i);
                proof {
                    pm_remove(s, i as int);
                    assert(passenger_map(s).contains_key(s[i as int]@.id));
                    assert(self.wf()) by {
                        s.remove_ensures(i as int);
                        assert(forall|j: int|
                            0 <= j < self.items@.len() ==> (#[trigger] self.items@[j]).wf());
                    }
                }
                Some(p)
            },
            None => {
                proof {
                    if self@.contains_key(id@) {
                        let i = choose|i: int| 0 <= i < s.len() && s[i]@.id == id@;
                    }
                    assert(self@ =~= old(self)@.remove(id@));
                }
                None
            },
        }
    }

    /// Records a booking ID on the passenger with this ID; returns whether
    /// the passenger was found.
    pub fn add_booking_for(&mut self, id: &str, booking_id: String) -> (found: bool)
        requires
            old(self).wf(),
        ensures
            final(self).wf(),
            found == old(self)@.contains_key(id@),
            found ==> final(self)@ == old(self)@.insert(
                id@,
                PassengerV {
                    bookings: if old(self)@[id@].bookings.contains(booking_id@) {
                        old(self)@[id@].bookings
                    } else {
                        old(self)@[id@].bookings.push(booking_id@)
                    },
                    ..old(self)@[id@]
                },
            ),
            !found ==> final(self)@ == old(self)@,
    {
        let ghost s = self.items@;
        proof {
            pm_facts(s);
        }
        match self.find_index(id) {
            Some(i) => {
                let slot = &mut self.items[i];
                slot.add_booking(booking_id);
                proof {
                    pm_update(s, i as int, self.items@[i as int]);
                    assert(self.wf()) by {
                        assert(forall|j: int|
                            0 <= j < self.items@.len() ==> (#[trigger] self.items@[j]).wf());
                    }
                    assert(passenger_map(s).contains_key(s[i as int]@.id));
                    assert(old(self)@[id@] == s[i as int]@);
                    assert(self.items@[i as int]@ == PassengerV {
                        bookings: if old(self)@[id@].bookings.contains(booking_id@) {
                            old(self)@[id@].bookings
                        } else {
                            old(self)@[id@].bookings.push(booking_id@)
                        },
                        ..old(self)@[id@]
                    });
                }
                true
            },
            None => {
                proof {
                    if self@.contains_key(id@) {
                        let i = choose|i: int| 0 <= i < s.len() && s[i]@.id == id@;
                    }
                }
                false
            },
        }
    }

    /// Forgets a booking ID on the passenger with this ID; returns whether
    /// the passenger was found.
    pub fn remove_booking_for(&mut self, id: &str, booking_id: &str) -> (found: bool)
        requires
            old(self).wf(),
        ensures
            final(self).wf(),
            found == old(self)@.contains_key(id@),
            found ==> final(self)@ == old(self)@.insert(
                id@,
                PassengerV {
                    bookings: old(self)@[id@].bookings.remove_value(booking_id@),
                    ..old(self)@[id@]
                },
            ),
            !found ==> final(self)@ == old(self)@,
    {
        let ghost s = self.items@;
        proof {
            pm_facts(s);
        }
        match self.find_index(id) {
            Some(i) => {
                let slot = &mut self.items[i];
                slot.remove_booking(booking_id);
                proof {
                    pm_update(s, i as int, self.items@[i as int]);
                    assert(passenger_map(s).contains_key(s[i as int]@.id));
                    assert(old(self)@[id@] == s[i as int]@);
                    assert(self.wf()) by {
                        assert(forall|j: int|
                            0 <= j < self.items@.len() ==> (#[trigger] self.items@[j]).wf());
                    }
                }
                true
            },
            None => {
                proof {
                    if self@.contains_key(id@) {
                        let i = choose|i: int| 0 <= i < s.len() && s[i]@.id == id@;
                    }
                }
                false
            },
        }
    }

    /// Rewrites the name and age of the passenger with this ID; returns
    /// whether the passenger was found.
    pub fn update_passenger(&mut self, id: &str, name: String, age: u16) -> (found: bool)
        requires
            old(self).wf(),
        ensures
            final(self).wf(),
            found == old(self)@.contains_key(id@),
            found ==> final(self)@ == old(self)@.insert(
                id@,
                PassengerV { name: name@, age: age, ..old(self)@[id@] },
            ),
            !found ==> final(self)@ == old(self)@,
    {
        let ghost s = self.items@;
        proof {
            pm_facts(s);
        }
        match self.find_index(id) {
            Some(i) => {
                let slot = &mut self.items[i];
                slot.name = name;
                slot.age = age;
                proof {
                    pm_update(s, i as int, self.items@[i as int]);
                    assert(passenger_map(s).contains_key(s[i as int]@.id));
                    assert(old(self)@[id@] == s[i as int]@);
                    assert(self.wf()) by {
                        assert(forall|j: int|
                            0 <= j < self.items@.len() ==> (#[trigger] self.items@[j]).wf());
                    }
                }
                true
            },
            None => {
                proof {
                    if self@.contains_key(id@) {
                        let i = choose|i: int| 0 <= i < s.len() && s[i]@.id == id@;
                    }
                }
                false
            },
        }
    }

    /// Read-only access to the stored records, for display layers.
    pub fn entries(&self) -> (r: &Vec<Passenger>)
        requires
            self.wf(),
        ensures
            r@.len() == self@.len(),
            forall|i: int|
                0 <= i < r@.len() ==> #[trigger] self@.contains_key(r@[i]@.id)
                    && self@[r@[i]@.id] == r@[i]@,
    {
        proof {
            pm_facts(self.items@);
        }
        &self.items
    }
}

} // verus!
