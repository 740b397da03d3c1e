//! Bookings: the ledger and the booking service.
//!
//! A booking links one passenger to one train line under the composite key
//! `{passenger_id}_{train_line}`. The ledger owns the bookings; the passenger
//! and train registries hold back-references (booking IDs, passenger IDs)
//! that the service keeps in lockstep with the ledger. The service enforces
//! the scheduling rule: a passenger never holds two bookings on the same
//! line, nor on trains whose journeys overlap in time (strict boundaries:
//! arriving exactly when another train departs does not conflict).

use vstd::prelude::*;

use crate::all_distinct;
use crate::keys::booking_key;
use crate::keys::lemma_booking_key_injective;
use crate::keys::make_booking_id;
use crate::passengers::PassengerList;
use crate::passengers::PassengerV;
use crate::str_eq;
use crate::trains::TrainList;
use crate::trains::TrainV;

verus! {

/// Mathematical image of a booking record.
pub ghost struct BookingV {
    pub id: Seq<char>,
    pub passenger_id: Seq<char>,
    pub train_line: u32,
}

/// A booking: its composite key, the passenger who holds it, and the booked
/// train line.
pub struct Booking {
    pub id: String,
    pub passenger_id: String,
    pub train_line: u32,
}

impl View for Booking {
    type V = BookingV;

    open spec fn view(&self) -> BookingV {
        BookingV { id: self.id@, passenger_id: self.passenger_id@, train_line: self.train_line }
    }
}

impl Booking {
    /// An equal copy of the booking.
    pub fn duplicate(&self) -> (r: Booking)
        ensures
            r@ == self@,
    {
        Booking {
            id: self.id.clone(),
            passenger_id: self.passenger_id.clone(),
            train_line: self.train_line,
        }
    }
}

/// Typed failures of the booking service.
#[derive(Debug, Clone, Copy, PartialEq, Eq, Structural)]
pub enum BookingError {
    /// The named passenger is not in the passenger registry.
    PassengerNotFound,
    /// The named train line is not in the train registry.
    TrainNotFound,
    /// The named booking is not in the ledger.
    BookingNotFound,
    /// The passenger already holds a booking on the carried train line, or on
    /// a train whose journey overlaps the requested one in time.
    SchedulingConflict(u32),
}

/// The keys (booking IDs) of the listed bookings are pairwise distinct.
pub open spec fn booking_keys_distinct(s: Seq<Booking>) -> bool {
    forall|i: int, j: int| 0 <= i < j < s.len() ==> #[trigger] s[i]@.id != #[trigger] s[j]@.id
}

/// The map that a sequence of booking records stands for.
spec fn booking_map(s: Seq<Booking>) -> Map<Seq<char>, BookingV>
    decreases s.len(),
{
    if s.len() == 0 {
        Map::empty()
    } else {
        booking_map(s.drop_last()).insert(s.last()@.id, s.last()@)
    }
}

proof fn bm_distinct_prefix(s: Seq<Booking>)
    requires
        booking_keys_distinct(s),
        s.len() > 0,
    ensures
        booking_keys_distinct(s.drop_last()),
{
    assert forall|i: int, j: int|
        0 <= i < j < s.drop_last().len() implies #[trigger] s.drop_last()[i]@.id
        != #[trigger] s.drop_last()[j]@.id by {
        assert(s.drop_last()[i] == s[i]);
        assert(s.drop_last()[j] == s[j]);
    }
}

/// Core facts about the map image of a distinct-keyed sequence.
proof fn bm_facts(s: Seq<Booking>)
    requires
        booking_keys_distinct(s),
    ensures
        booking_map(s).dom().finite(),
        booking_map(s).len() == s.len(),
        forall|i: int|
            0 <= i < s.len() ==> #[trigger] booking_map(s).contains_key(s[i]@.id)
                && booking_map(s)[s[i]@.id] == s[i]@,
        forall|k: Seq<char>|
            #[trigger] booking_map(s).contains_key(k) ==> exists|i: int|
                0 <= i < s.len() && s[i]@.id == k,
    decreases s.len(),
{
    if s.len() > 0 {
        let s0 = s.drop_last();
        bm_distinct_prefix(s);
        bm_facts(s0);
        let last = s.last();
        assert(!booking_map(s0).contains_key(last@.id)) by {
            if booking_map(s0).contains_key(last@.id) {
                let i = choose|i: int| 0 <= i < s0.len() && s0[i]@.id == last@.id;
                assert(s[i] == s0[i]);
                assert(s[i]@.id != s[s.len() - 1]@.id);
            }
        }
        assert forall|i: int| 0 <= i < s.len() implies #[trigger] booking_map(s).contains_key(
            s[i]@.id,
        ) && booking_map(s)[s[i]@.id] == s[i]@ by {
            if i < s.len() - 1 {
                assert(s0[i] == s[i]);
                assert(s[i]@.id != s[s.len() - 1]@.id);
                assert(booking_map(s0).contains_key(s0[i]@.id));
            }
        }
        assert forall|k: Seq<char>| #[trigger] booking_map(s).contains_key(k) implies exists|
            i: int,
        | 0 <= i < s.len() && s[i]@.id == k by {
            if k == last@.id {
                assert(s[s.len() - 1]@.id == k);
            } else {
                let i = choose|i: int| 0 <= i < s0.len() && s0[i]@.id == k;
                assert(s[i]@.id == k);
            }
        }
    }
}

/// Appending a record updates the map at its key.
proof fn bm_push(s: Seq<Booking>, b: Booking)
    ensures
        booking_map(s.push(b)) == booking_map(s).insert(b@.id, b@),
{
    assert(s.push(b).drop_last() =~= s);
    assert(s.push(b).last() == b);
}

/// Removing the record at `i` removes its key from the map.
proof fn bm_remove(s: Seq<Booking>, i: int)
    requires
        booking_keys_distinct(s),
        0 <= i < s.len(),
    ensures
        booking_keys_distinct(s.remove(i)),
        booking_map(s.remove(i)) == booking_map(s).remove(s[i]@.id),
    decreases s.len(),
{
    bm_facts(s);
    assert forall|a: int, b: int|
        0 <= a < b < s.remove(i).len() implies #[trigger] s.remove(i)[a]@.id
        != #[trigger] s.remove(i)[b]@.id by {
        s.remove_ensures(i);
    }
    let s0 = s.drop_last();
    bm_distinct_prefix(s);
    bm_facts(s0);
    if i == s.len() - 1 {
        assert(s.remove(i) =~= s0);
        assert(!booking_map(s0).contains_key(s[i]@.id)) by {
            if booking_map(s0).contains_key(s[i]@.id) {
                let j = choose|j: int| 0 <= j < s0.len() && s0[j]@.id == s[i]@.id;
                assert(s[j] == s0[j]);
            }
        }
        assert(booking_map(s.remove(i)) =~= booking_map(s).remove(s[i]@.id));
    } else {
        assert(s.remove(i).drop_last() =~= s0.remove(i));
        assert(s.remove(i).last() == s.last());
        bm_remove(s0, i);
        assert(s0[i] == s[i]);
        assert(s.last()@.id != s[i]@.id);
        assert(booking_map(s.remove(i)) == booking_map(s0.remove(i)).insert(
            s.last()@.id,
            s.last()@,
        ));
        assert(booking_map(s.remove(i)) =~= booking_map(s).remove(s[i]@.id));
    }
}

/// Replacing the record at `i` by one with the same key updates the map there.
proof fn bm_update(s: Seq<Booking>, i: int, b: Booking)
    requires
        booking_keys_distinct(s),
        0 <= i < s.len(),
        b@.id == s[i]@.id,
    ensures
        booking_keys_distinct(s.update(i, b)),
        booking_map(s.update(i, b)) == booking_map(s).insert(b@.id, b@),
    decreases s.len(),
{
    bm_facts(s);
    assert forall|a: int, c: int|
        0 <= a < c < s.update(i, b).len() implies #[trigger] s.update(i, b)[a]@.id
        != #[trigger] s.update(i, b)[c]@.id by {
        assert(a == i || s.update(i, b)[a] == s[a]);
        assert(c == i || s.update(i, b)[c] == s[c]);
    }
    let s0 = s.drop_last();
    bm_distinct_prefix(s);
    bm_facts(s0);
    if i == s.len() - 1 {
        assert(s.update(i, b).drop_last() =~= s0);
        assert(s.update(i, b).last() == b);
        assert(booking_map(s.update(i, b)) =~= booking_map(s).insert(b@.id, b@));
    } else {
        assert(s.update(i, b).drop_last() =~= s0.update(i, b));
        assert(s.update(i, b).last() == s.last());
        bm_update(s0, i, b);
        assert(s0[i] == s[i]);
        assert(s.last()@.id != s[i]@.id);
        assert(booking_map(s.update(i, b)) == booking_map(s0.update(i, b)).insert(
            s.last()@.id,
            s.last()@,
        ));
        assert(booking_map(s.update(i, b)) =~= booking_map(s).insert(b@.id, b@));
    }
}

/// The booking ledger: the owning store of bookings, keyed by booking ID and
/// viewed as a map from ID to record.
pub struct BookingList {
    items: Vec<Booking>,
}

impl View for BookingList {
    type V = Map<Seq<char>, BookingV>;

    closed spec fn view(&self) -> Map<Seq<char>, BookingV> {
        booking_map(self.items@)
    }
}

impl BookingList {
    /// Well-formed: booking IDs are unique.
    pub closed spec fn wf(&self) -> bool {
        booking_keys_distinct(self.items@)
    }

    /// Facts a caller may need about the view of a well-formed ledger.
    pub proof fn lemma_view_facts(&self)
        requires
            self.wf(),
        ensures
            self@.dom().finite(),
            forall|k: Seq<char>| #[trigger] self@.contains_key(k) ==> self@[k].id == k,
    {
        bm_facts(self.items@);
        assert forall|k: Seq<char>| #[trigger] self@.contains_key(k) implies self@[k].id == k by {
            let i = choose|i: int| 0 <= i < self.items@.len() && self.items@[i]@.id == k;
        }
    }

    /// An empty ledger.
    pub fn new() -> (r: Self)
        ensures
            r.wf(),
            r@ == Map::<Seq<char>, BookingV>::empty(),
    {
        let r = Self { items: Vec::new() };
        proof {
            assert(r.items@.len() == 0);
        }
        r
    }

    /// Number of bookings.
    pub fn len(&self) -> (r: usize)
        requires
            self.wf(),
        ensures
            r == self@.len(),
    {
        proof {
            bm_facts(self.items@);
        }
        self.items.len()
    }

    /// Whether the ledger is empty.
    pub fn is_empty(&self) -> (r: bool)
        requires
            self.wf(),
        ensures
            r == (self@.len() == 0),
    {
        proof {
            bm_facts(self.items@);
        }
        self.items.is_empty()
    }

    /// Index of the record with the given ID, if any.
    fn find_index(&self, id: &str) -> (r: Option<usize>)
        ensures
            match r {
                Some(i) => i < self.items@.len() && self.items@[i as int]@.id == id@,
                None => forall|j: int| 0 <= j < self.items@.len() ==> self.items@[j]@.id != id@,
            },
    {
        let n = self.items.len();
        let mut i: usize = 0;
        while i < n
            invariant
                n == self.items.len(),
                i <= n,
                forall|j: int| 0 <= j < i ==> self.items@[j]@.id != id@,
            decreases n - i,
        {
            if str_eq(self.items[i].id.as_str(), id) {
                return Some(i);
            }
            i += 1;
        }
        None
    }

    /// Whether a booking with this ID exists.
    pub fn contains_key(&self, id: &str) -> (r: bool)
        requires
            self.wf(),
        ensures
            r == self@.contains_key(id@),
    {
        proof {
            bm_facts(self.items@);
        }
        match self.find_index(id) {
            Some(_) => true,
            None => {
                proof {
                    if self@.contains_key(id@) {
                        let i = choose|i: int|
                            0 <= i < self.items@.len() && self.items@[i]@.id == id@;
                    }
                }
                false
            },
        }
    }

    /// The booking with this ID, if any.
    pub fn get(&self, id: &str) -> (r: Option<&Booking>)
        requires
            self.wf(),
        ensures
            match r {
                Some(b) => self@.contains_key(id@) && b@ == self@[id@],
                None => !self@.contains_key(id@),
            },
    {
        proof {
            bm_facts(self.items@);
        }
        match self.find_index(id) {
            Some(i) => {
                proof {
                    assert(booking_map(self.items@).contains_key(self.items@[i as int]@.id));
                }
                Some(&self.items[i])
            },
            None => {
                proof {
                    if self@.contains_key(id@) {
                        let i = choose|i: int|
                            0 <= i < self.items@.len() && self.items@[i]@.id == id@;
                    }
                }
                None
            },
        }
    }

    /// Stores a booking under its ID, replacing any booking already there.
    pub fn insert(&mut self, id: String, booking: Booking)
        requires
            old(self).wf(),
            id@ == booking@.id,
        ensures
            final(self).wf(),
            final(self)@ == old(self)@.insert(id@, booking@),
    {
        let ghost s = self.items@;
        match self.find_index(id.as_str()) {
            Some(i) => {
                let slot = &mut self.items[i];
                *slot = booking;
                proof {
                    bm_update(s, i as int, self.items@[i as int]);
                }
            },
            None => {
                self.items.push(booking);
                proof {
                    bm_push(s, self.items@.last());
                    assert(booking_keys_distinct(self.items@)) by {
                        assert(forall|a: int, b: int|
                            0 <= a < b < self.items@.len() && b < s.len()
                                ==> #[trigger] self.items@[a]@.id != #[trigger] self.items@[b]@.id);
                    }
                }
            },
        }
    }

    /// Removes and returns the booking with this ID, if any.
    pub fn remove(&mut self, id: &str) -> (r: Option<Booking>)
        requires
            old(self).wf(),
        ensures
            final(self).wf(),
            final(self)@ == old(self)@.remove(id@),
            match r {
                Some(b) => old(self)@.contains_key(id@) && b@ == old(self)@[id@],
                None => !old(self)@.contains_key(id@),
            },
    {
        let ghost s = self.items@;
        proof {
            bm_facts(s);
        }
        match self.find_index(id) {
            Some(i) => {
                let b = self.items.remove(i);
                proof {
                    bm_remove(s, i as int);
                    assert(booking_map(s).contains_key(s[i as int]@.id));
                }
                Some(b)
            },
            None => {
                proof {
                    if self@.contains_key(id@) {
                        let i = choose|i: int| 0 <= i < s.len() && s[i]@.id == id@;
                    }
                    assert(self@ =~= old(self)@.remove(id@));
                }
                None
            },
        }
    }

    /// Redirects the booking with this ID to another train line; returns
    /// whether the booking was found.
    pub fn set_train_line(&mut self, id: &str, train_line: u32) -> (found: bool)
        requires
            old(self).wf(),
        ensures
            final(self).wf(),
            found == old(self)@.contains_key(id@),
            found ==> final(self)@ == old(self)@.insert(
                id@,
                BookingV { train_line, ..old(self)@[id@] },
            ),
            !found ==> final(self)@ == old(self)@,
    {
        let ghost s = self.items@;
        proof {
            bm_facts(s);
        }
        match self.find_index(id) {
            Some(i) => {
                let slot = &mut self.items[i];
                slot.train_line = train_line;
                proof {
                    bm_update(s, i as int, self.items@[i as int]);
                    assert(booking_map(s).contains_key(s[i as int]@.id));
                    assert(old(self)@[id@] == s[i as int]@);
                }
                true
            },
            None => {
                proof {
                    if self@.contains_key(id@) {
                        let i = choose|i: int| 0 <= i < s.len() && s[i]@.id == id@;
                    }
                }
                false
            },
        }
    }

    /// Read-only access to the stored records, for display layers.
    pub fn entries(&self) -> (r: &Vec<Booking>)
        requires
            self.wf(),
        ensures
            r@.len() == self@.len(),
            forall|i: int|
                0 <= i < r@.len() ==> #[trigger] self@.contains_key(r@[i]@.id)
                    && self@[r@[i]@.id] == r@[i]@,
            forall|k: Seq<char>|
                #[trigger] self@.contains_key(k) ==> exists|i: int|
                    0 <= i < r@.len() && r@[i]@.id == k,
    {
        proof {
            bm_facts(self.items@);
        }
        &self.items
    }
}

/// The journeys of `a` and `b` overlap in time, with strict boundaries: a
/// train that arrives exactly when the other departs does not overlap it.
pub open spec fn overlap(a: TrainV, b: TrainV) -> bool {
    a.departure < b.arrival && a.arrival > b.departure
}

/// Two trains cannot both be booked by one passenger: they are the same
/// line, or their journeys overlap.
pub open spec fn conflicts(a: TrainV, b: TrainV) -> bool {
    a.line == b.line || overlap(a, b)
}

/// Overlapping is symmetric, and so is the whole conflict rule: if booking
/// train `a` after train `b` is refused, booking `b` after `a` is refused
/// too.
pub proof fn lemma_conflicts_symmetric(a: TrainV, b: TrainV)
    ensures
        conflicts(a, b) == conflicts(b, a),
{
}

/// Conflict symmetry at the service level: take a passenger whose one
/// booking is on train `la`, and the mirrored state whose one booking is on
/// train `lb`. Adding `lb` to the first state is refused exactly when
/// adding `la` to the mirrored state is refused — `add_booking` errs with a
/// scheduling conflict precisely on `has_conflict`, so booking the pair in
/// either order fails identically.
pub proof fn lemma_booking_order_symmetric(
    ba: Map<Seq<char>, BookingV>,
    pa: Map<Seq<char>, PassengerV>,
    bb: Map<Seq<char>, BookingV>,
    pb: Map<Seq<char>, PassengerV>,
    t: Map<u32, TrainV>,
    pid: Seq<char>,
    la: u32,
    lb: u32,
)
    requires
        pa.contains_key(pid),
        pa[pid].bookings == seq![booking_key(pid, la)],
        ba.contains_key(booking_key(pid, la)),
        ba[booking_key(pid, la)].train_line == la,
        pb.contains_key(pid),
        pb[pid].bookings == seq![booking_key(pid, lb)],
        bb.contains_key(booking_key(pid, lb)),
        bb[booking_key(pid, lb)].train_line == lb,
    ensures
        has_conflict(ba, pa, t, pid, lb) == has_conflict(bb, pb, t, pid, la),
{
    let ka = booking_key(pid, la);
    let kb = booking_key(pid, lb);
    assert(pa[pid].bookings[0] == ka);
    assert(pb[pid].bookings[0] == kb);
    lemma_conflicts_symmetric(t[lb], t[la]);
    if has_conflict(ba, pa, t, pid, lb) {
        let bid = choose|bid: Seq<char>|
            #[trigger] pa[pid].bookings.contains(bid) && conflicts(t[lb], t[ba[bid].train_line]);
        assert(bid == ka);
        assert(conflicts(t[la], t[lb]));
        assert(pb[pid].bookings.contains(kb));
        assert(has_conflict(bb, pb, t, pid, la));
    }
    if has_conflict(bb, pb, t, pid, la) {
        let bid = choose|bid: Seq<char>|
            #[trigger] pb[pid].bookings.contains(bid) && conflicts(t[la], t[bb[bid].train_line]);
        assert(bid == kb);
        assert(conflicts(t[lb], t[la]));
        assert(pa[pid].bookings.contains(ka));
        assert(has_conflict(ba, pa, t, pid, lb));
    }
}

/// Back-to-back journeys do not conflict: on distinct lines, a train whose
/// arrival equals the other's departure can be booked alongside it (the
/// overlap boundary is exclusive).
pub proof fn lemma_back_to_back_not_conflicting(a: TrainV, b: TrainV)
    requires
        a.line != b.line,
        a.arrival == b.departure,
    ensures
        !conflicts(a, b),
        !conflicts(b, a),
{
}

/// The sequence of IDs with `x` present: unchanged if already listed,
/// appended otherwise.
pub open spec fn with_id(s: Seq<Seq<char>>, x: Seq<char>) -> Seq<Seq<char>> {
    if s.contains(x) {
        s
    } else {
        s.push(x)
    }
}

/// Membership facts about `with_id`.
proof fn lemma_with_id_membership(s: Seq<Seq<char>>, x: Seq<char>)
    ensures
        with_id(s, x).contains(x),
        forall|y: Seq<char>| #[trigger] with_id(s, x).contains(y) ==> s.contains(y) || y == x,
        forall|y: Seq<char>| s.contains(y) ==> #[trigger] with_id(s, x).contains(y),
        all_distinct(s) ==> all_distinct(with_id(s, x)),
{
    let w = with_id(s, x);
    if !s.contains(x) {
        assert(w[s.len() as int] == x);
        assert forall|y: Seq<char>| #[trigger] w.contains(y) implies s.contains(y) || y == x by {
            let j = choose|j: int| 0 <= j < w.len() && w[j] == y;
            if j < s.len() {
                assert(s[j] == y);
            }
        }
        assert forall|y: Seq<char>| s.contains(y) implies #[trigger] w.contains(y) by {
            let j = choose|j: int| 0 <= j < s.len() && s[j] == y;
            assert(w[j] == y);
        }
        if all_distinct(s) {
            assert forall|a: int, b: int| 0 <= a < b < w.len() implies w[a] != w[b] by {
                if b < s.len() {
                    assert(w[a] == s[a] && w[b] == s[b]);
                } else {
                    assert(w[b] == x);
                    assert(w[a] == s[a]);
                    assert(s.contains(s[a]));
                }
            }
        }
    }
}

/// Membership facts about removing one listed ID from a duplicate-free list.
proof fn lemma_remove_value_membership(s: Seq<Seq<char>>, x: Seq<char>)
    requires
        all_distinct(s),
    ensures
        all_distinct(s.remove_value(x)),
        !s.remove_value(x).contains(x),
        forall|y: Seq<char>| #[trigger] s.remove_value(x).contains(y) ==> s.contains(y),
        forall|y: Seq<char>| s.contains(y) && y != x ==> #[trigger] s.remove_value(x).contains(y),
{
    s.index_of_first_ensures(x);
    if s.contains(x) {
        let i = s.index_of_first(x).unwrap();
        let sr = s.remove(i);
        s.remove_ensures(i);
        assert forall|a: int, b: int| 0 <= a < b < sr.len() implies sr[a] != sr[b] by {
            if b < i {
                assert(sr[a] == s[a] && sr[b] == s[b]);
            } else if a < i {
                assert(sr[a] == s[a] && sr[b] == s[b + 1]);
            } else {
                assert(sr[a] == s[a + 1] && sr[b] == s[b + 1]);
            }
        }
        assert(!sr.contains(x)) by {
            if sr.contains(x) {
                let j = choose|j: int| 0 <= j < sr.len() && sr[j] == x;
                if j < i {
                    assert(sr[j] == s[j]);
                    assert(s[j] == x && s[i] == x);
                } else {
                    assert(sr[j] == s[j + 1]);
                    assert(s[i] == x && s[j + 1] == x);
                }
            }
        }
        assert forall|y: Seq<char>| #[trigger] sr.contains(y) implies s.contains(y) by {
            let j = choose|j: int| 0 <= j < sr.len() && sr[j] == y;
            if j < i {
                assert(s[j] == y);
            } else {
                assert(s[j + 1] == y);
            }
        }
        assert forall|y: Seq<char>| s.contains(y) && y != x implies #[trigger] sr.contains(y) by {
            let j = choose|j: int| 0 <= j < s.len() && s[j] == y;
            if j < i {
                assert(sr[j] == y);
            } else if j == i {
                assert(s[i] == x);
            } else {
                assert(sr[j - 1] == s[j]);
            }
        }
    }
}

/// The three collections are sound enough for the service to work on: every
/// booking names its own key, a key always names its owning passenger, a
/// booking's passenger and train exist, and every booking ID listed by a
/// passenger is a ledger booking owned by that passenger.
pub open spec fn wf_state(
    b: Map<Seq<char>, BookingV>,
    p: Map<Seq<char>, PassengerV>,
    t: Map<u32, TrainV>,
) -> bool {
    &&& forall|k: Seq<char>| #[trigger] b.contains_key(k) ==> b[k].id == k
    &&& forall|k: Seq<char>|
        #[trigger] b.contains_key(k) ==> exists|l: u32| k == booking_key(b[k].passenger_id, l)
    &&& forall|k: Seq<char>| #[trigger] b.contains_key(k) ==> p.contains_key(b[k].passenger_id)
    &&& forall|k: Seq<char>| #[trigger] b.contains_key(k) ==> t.contains_key(b[k].train_line)
    &&& forall|pid: Seq<char>, bid: Seq<char>|
        p.contains_key(pid) && #[trigger] p[pid].bookings.contains(bid) ==> b.contains_key(bid)
            && b[bid].passenger_id == pid
}

/// Full referential integrity of the three collections:
/// every booking's passenger and train exist; every booking is listed by its
/// passenger and its passenger is listed by its train, and conversely every
/// listed back-reference has its booking; booking keys follow the composite
/// convention; and no passenger holds two bookings on conflicting trains.
pub open spec fn consistent(
    b: Map<Seq<char>, BookingV>,
    p: Map<Seq<char>, PassengerV>,
    t: Map<u32, TrainV>,
) -> bool {
    &&& wf_state(b, p, t)
    &&& forall|k: Seq<char>|
        #[trigger] b.contains_key(k) ==> k == booking_key(b[k].passenger_id, b[k].train_line)
    &&& forall|k: Seq<char>|
        #[trigger] b.contains_key(k) ==> p[b[k].passenger_id].bookings.contains(k)
    &&& forall|k: Seq<char>|
        #[trigger] b.contains_key(k) ==> t[b[k].train_line].passengers.contains(b[k].passenger_id)
    &&& forall|line: u32, pid: Seq<char>|
        t.contains_key(line) && #[trigger] t[line].passengers.contains(pid) ==> {
            &&& b.contains_key(booking_key(pid, line))
            &&& b[booking_key(pid, line)].passenger_id == pid
            &&& b[booking_key(pid, line)].train_line == line
        }
    &&& forall|k1: Seq<char>, k2: Seq<char>|
        #[trigger] b.contains_key(k1) && #[trigger] b.contains_key(k2) && k1 != k2
            && b[k1].passenger_id == b[k2].passenger_id ==> !conflicts(
            t[b[k1].train_line],
            t[b[k2].train_line],
        )
}

/// The passenger already holds a booking whose train conflicts with train
/// `line`.
pub open spec fn has_conflict(
    b: Map<Seq<char>, BookingV>,
    p: Map<Seq<char>, PassengerV>,
    t: Map<u32, TrainV>,
    pid: Seq<char>,
    line: u32,
) -> bool {
    exists|bid: Seq<char>|
        #[trigger] p[pid].bookings.contains(bid) && conflicts(t[line], t[b[bid].train_line])
}

/// As `has_conflict`, but the booking named `excluded` (the one being
/// edited) is not counted.
pub open spec fn has_conflict_besides(
    b: Map<Seq<char>, BookingV>,
    p: Map<Seq<char>, PassengerV>,
    t: Map<u32, TrainV>,
    pid: Seq<char>,
    line: u32,
    excluded: Seq<char>,
) -> bool {
    exists|bid: Seq<char>|
        #[trigger] p[pid].bookings.contains(bid) && bid != excluded && conflicts(
            t[line],
            t[b[bid].train_line],
        )
}

/// Adding a booking keeps the three collections workable, whatever state
/// they started in.
proof fn lemma_add_preserves_wf_state(
    b0: Map<Seq<char>, BookingV>,
    p0: Map<Seq<char>, PassengerV>,
    t0: Map<u32, TrainV>,
    pid: Seq<char>,
    line: u32,
)
    requires
        wf_state(b0, p0, t0),
        p0.contains_key(pid),
        t0.contains_key(line),
    ensures
        wf_state(
            b0.insert(
                booking_key(pid, line),
                (BookingV { id: booking_key(pid, line), passenger_id: pid, train_line: line }),
            ),
            p0.insert(
                pid,
                (PassengerV { bookings: with_id(p0[pid].bookings, booking_key(pid, line)), ..p0[pid] }),
            ),
            t0.insert(line, (TrainV { passengers: with_id(t0[line].passengers, pid), ..t0[line] })),
        ),
{
    let key = booking_key(pid, line);
    let nb = BookingV { id: key, passenger_id: pid, train_line: line };
    let b1 = b0.insert(key, nb);
    let p1 = p0.insert(pid, PassengerV { bookings: with_id(p0[pid].bookings, key), ..p0[pid] });
    let t1 = t0.insert(line, TrainV { passengers: with_id(t0[line].passengers, pid), ..t0[line] });
    lemma_with_id_membership(p0[pid].bookings, key);
    assert forall|k: Seq<char>| #[trigger] b1.contains_key(k) implies exists|l: u32|
        k == booking_key(b1[k].passenger_id, l) by {
        if k == key {
            assert(k == booking_key(b1[k].passenger_id, line));
        } else {
            let l = choose|l: u32| k == booking_key(b0[k].passenger_id, l);
            assert(k == booking_key(b1[k].passenger_id, l));
        }
    }
    assert forall|x: Seq<char>, bid: Seq<char>|
        p1.contains_key(x) && #[trigger] p1[x].bookings.contains(bid) implies b1.contains_key(bid)
        && b1[bid].passenger_id == x by {
        if x == pid {
            if bid != key {
                assert(p0[pid].bookings.contains(bid));
                assert(b0.contains_key(bid) && b0[bid].passenger_id == pid);
            }
        } else {
            assert(p0[x].bookings.contains(bid));
            assert(b0.contains_key(bid) && b0[bid].passenger_id == x);
            if bid == key {
                let l = choose|l: u32| key == booking_key(b0[key].passenger_id, l);
                lemma_booking_key_injective(b0[key].passenger_id, l, pid, line);
            }
        }
    }
}

/// Adding a booking that passed the existence and conflict checks keeps the
/// collections fully consistent.
proof fn lemma_add_preserves_consistent(
    b0: Map<Seq<char>, BookingV>,
    p0: Map<Seq<char>, PassengerV>,
    t0: Map<u32, TrainV>,
    pid: Seq<char>,
    line: u32,
)
    requires
        consistent(b0, p0, t0),
        forall|l: u32| #[trigger] t0.contains_key(l) ==> t0[l].line == l,
        p0.contains_key(pid),
        t0.contains_key(line),
        !has_conflict(b0, p0, t0, pid, line),
    ensures
        consistent(
            b0.insert(
                booking_key(pid, line),
                (BookingV { id: booking_key(pid, line), passenger_id: pid, train_line: line }),
            ),
            p0.insert(
                pid,
                (PassengerV { bookings: with_id(p0[pid].bookings, booking_key(pid, line)), ..p0[pid] }),
            ),
            t0.insert(line, (TrainV { passengers: with_id(t0[line].passengers, pid), ..t0[line] })),
        ),
{
    let key = booking_key(pid, line);
    let nb = BookingV { id: key, passenger_id: pid, train_line: line };
    let b1 = b0.insert(key, nb);
    let p1 = p0.insert(pid, PassengerV { bookings: with_id(p0[pid].bookings, key), ..p0[pid] });
    let t1 = t0.insert(line, TrainV { passengers: with_id(t0[line].passengers, pid), ..t0[line] });
    lemma_add_preserves_wf_state(b0, p0, t0, pid, line);

    assert(!b0.contains_key(key)) by {
        if b0.contains_key(key) {
            lemma_booking_key_injective(b0[key].passenger_id, b0[key].train_line, pid, line);
            assert(b0[key].passenger_id == pid && b0[key].train_line == line);
            assert(p0[pid].bookings.contains(key));
            assert(conflicts(t0[line], t0[b0[key].train_line]));
            assert(has_conflict(b0, p0, t0, pid, line));
        }
    }
    assert(!p0[pid].bookings.contains(key));
    assert(!t0[line].passengers.contains(pid)) by {
        if t0[line].passengers.contains(pid) {
            assert(b0.contains_key(booking_key(pid, line)));
        }
    }
    lemma_with_id_membership(p0[pid].bookings, key);
    lemma_with_id_membership(t0[line].passengers, pid);
    assert(p1[pid].bookings == p0[pid].bookings.push(key));
    assert(t1[line].passengers == t0[line].passengers.push(pid));

    assert forall|l1: u32, l2: u32|
        t0.contains_key(l1) && t0.contains_key(l2) implies conflicts(t1[l1], t1[l2]) == conflicts(
        t0[l1],
        t0[l2],
    ) by {
        assert(t1[l1].line == t0[l1].line && t1[l1].departure == t0[l1].departure && t1[l1].arrival
            == t0[l1].arrival);
        assert(t1[l2].line == t0[l2].line && t1[l2].departure == t0[l2].departure && t1[l2].arrival
            == t0[l2].arrival);
    }

    // The composite-key convention.
    assert forall|k: Seq<char>| #[trigger] b1.contains_key(k) implies k == booking_key(
        b1[k].passenger_id,
        b1[k].train_line,
    ) by {
        if k != key {
            assert(b1[k] == b0[k]);
        }
    }
    // Every booking is listed by its passenger.
    assert forall|k: Seq<char>| #[trigger] b1.contains_key(k) implies p1[b1[k].passenger_id].bookings.contains(
        k,
    ) by {
        if k == key {
            assert(p1[pid].bookings.contains(key));
        } else {
            let x = b0[k].passenger_id;
            assert(p0[x].bookings.contains(k));
            if x == pid {
                assert(p1[pid].bookings.contains(k));
            }
        }
    }
    // Every booking's passenger is listed by its train.
    assert forall|k: Seq<char>| #[trigger] b1.contains_key(k) implies t1[b1[k].train_line].passengers.contains(
        b1[k].passenger_id,
    ) by {
        if k == key {
            assert(t1[line].passengers.contains(pid));
        } else {
            let l = b0[k].train_line;
            assert(t0[l].passengers.contains(b0[k].passenger_id));
            if l == line {
                assert(t1[line].passengers.contains(b0[k].passenger_id));
            }
        }
    }
    // Every listed passenger has its booking.
    assert forall|l: u32, q: Seq<char>|
        t1.contains_key(l) && #[trigger] t1[l].passengers.contains(q) implies {
        &&& b1.contains_key(booking_key(q, l))
        &&& b1[booking_key(q, l)].passenger_id == q
        &&& b1[booking_key(q, l)].train_line == l
    } by {
        if l == line && q == pid {
            assert(b1.contains_key(key));
        } else {
            if l == line {
                assert(t0[line].passengers.contains(q));
            } else {
                assert(t0[l].passengers.contains(q));
            }
            assert(b0.contains_key(booking_key(q, l)));
            if booking_key(q, l) == key {
                lemma_booking_key_injective(q, l, pid, line);
            }
            assert(b1[booking_key(q, l)] == b0[booking_key(q, l)]);
        }
    }
    // No two bookings of one passenger conflict.
    assert forall|k1: Seq<char>, k2: Seq<char>|
        #[trigger] b1.contains_key(k1) && #[trigger] b1.contains_key(k2) && k1 != k2
            && b1[k1].passenger_id == b1[k2].passenger_id implies !conflicts(
        t1[b1[k1].train_line],
        t1[b1[k2].train_line],
    ) by {
        if k1 == key {
            assert(b0.contains_key(k2) && b0[k2].passenger_id == pid);
            assert(p0[pid].bookings.contains(k2));
            assert(!conflicts(t0[line], t0[b0[k2].train_line]));
        } else if k2 == key {
            assert(b0.contains_key(k1) && b0[k1].passenger_id == pid);
            assert(p0[pid].bookings.contains(k1));
            assert(!conflicts(t0[line], t0[b0[k1].train_line]));
            lemma_conflicts_symmetric(t0[b0[k1].train_line], t0[line]);
        } else {
            assert(!conflicts(t0[b0[k1].train_line], t0[b0[k2].train_line]));
        }
    }
}

/// Removing a booking keeps the three collections workable.
proof fn lemma_remove_preserves_wf_state(
    b0: Map<Seq<char>, BookingV>,
    p0: Map<Seq<char>, PassengerV>,
    t0: Map<u32, TrainV>,
    bid: Seq<char>,
)
    requires
        wf_state(b0, p0, t0),
        b0.contains_key(bid),
        all_distinct(p0[b0[bid].passenger_id].bookings),
    ensures
        wf_state(
            b0.remove(bid),
            p0.insert(
                b0[bid].passenger_id,
                (PassengerV {
                    bookings: p0[b0[bid].passenger_id].bookings.remove_value(bid),
                    ..p0[b0[bid].passenger_id]
                }),
            ),
            t0.insert(
                b0[bid].train_line,
                (TrainV {
                    passengers: t0[b0[bid].train_line].passengers.remove_value(
                        b0[bid].passenger_id,
                    ),
                    ..t0[b0[bid].train_line]
                }),
            ),
        ),
{
    let owner = b0[bid].passenger_id;
    let oline = b0[bid].train_line;
    let b1 = b0.remove(bid);
    let p1 = p0.insert(owner, PassengerV { bookings: p0[owner].bookings.remove_value(bid), ..p0[owner] });
    let t1 = t0.insert(oline, TrainV { passengers: t0[oline].passengers.remove_value(owner), ..t0[oline] });
    lemma_remove_value_membership(p0[owner].bookings, bid);
    assert forall|k: Seq<char>| #[trigger] b1.contains_key(k) implies exists|l: u32|
        k == booking_key(b1[k].passenger_id, l) by {
        let l = choose|l: u32| k == booking_key(b0[k].passenger_id, l);
        assert(k == booking_key(b1[k].passenger_id, l));
    }
    assert forall|x: Seq<char>, bid2: Seq<char>|
        p1.contains_key(x) && #[trigger] p1[x].bookings.contains(bid2) implies b1.contains_key(bid2)
        && b1[bid2].passenger_id == x by {
        if x == owner {
            assert(p0[owner].bookings.contains(bid2));
            assert(bid2 != bid);
            assert(b0.contains_key(bid2) && b0[bid2].passenger_id == owner);
        } else {
            assert(p0[x].bookings.contains(bid2));
            assert(b0.contains_key(bid2) && b0[bid2].passenger_id == x);
            assert(bid2 != bid);
        }
    }
}

/// Removing a booking keeps fully consistent collections fully consistent.
proof fn lemma_remove_preserves_consistent(
    b0: Map<Seq<char>, BookingV>,
    p0: Map<Seq<char>, PassengerV>,
    t0: Map<u32, TrainV>,
    bid: Seq<char>,
)
    requires
        consistent(b0, p0, t0),
        b0.contains_key(bid),
        all_distinct(p0[b0[bid].passenger_id].bookings),
        all_distinct(t0[b0[bid].train_line].passengers),
    ensures
        consistent(
            b0.remove(bid),
            p0.insert(
                b0[bid].passenger_id,
                (PassengerV {
                    bookings: p0[b0[bid].passenger_id].bookings.remove_value(bid),
                    ..p0[b0[bid].passenger_id]
                }),
            ),
            t0.insert(
                b0[bid].train_line,
                (TrainV {
                    passengers: t0[b0[bid].train_line].passengers.remove_value(
                        b0[bid].passenger_id,
                    ),
                    ..t0[b0[bid].train_line]
                }),
            ),
        ),
{
    let owner = b0[bid].passenger_id;
    let oline = b0[bid].train_line;
    let b1 = b0.remove(bid);
    let p1 = p0.insert(owner, PassengerV { bookings: p0[owner].bookings.remove_value(bid), ..p0[owner] });
    let t1 = t0.insert(oline, TrainV { passengers: t0[oline].passengers.remove_value(owner), ..t0[oline] });
    lemma_remove_preserves_wf_state(b0, p0, t0, bid);
    lemma_remove_value_membership(p0[owner].bookings, bid);
    lemma_remove_value_membership(t0[oline].passengers, owner);

    assert forall|l1: u32, l2: u32|
        t0.contains_key(l1) && t0.contains_key(l2) implies conflicts(t1[l1], t1[l2]) == conflicts(
        t0[l1],
        t0[l2],
    ) by {
        assert(t1[l1].line == t0[l1].line && t1[l1].departure == t0[l1].departure && t1[l1].arrival
            == t0[l1].arrival);
        assert(t1[l2].line == t0[l2].line && t1[l2].departure == t0[l2].departure && t1[l2].arrival
            == t0[l2].arrival);
    }

    assert forall|k: Seq<char>| #[trigger] b1.contains_key(k) implies p1[b1[k].passenger_id].bookings.contains(
        k,
    ) by {
        let x = b0[k].passenger_id;
        assert(p0[x].bookings.contains(k));
        if x == owner {
            assert(k != bid);
            assert(p1[owner].bookings.contains(k));
        }
    }
    assert forall|k: Seq<char>| #[trigger] b1.contains_key(k) implies t1[b1[k].train_line].passengers.contains(
        b1[k].passenger_id,
    ) by {
        let x = b0[k].passenger_id;
        let l = b0[k].train_line;
        assert(t0[l].passengers.contains(x));
        if l == oline {
            if x == owner {
                assert(k == booking_key(b0[k].passenger_id, b0[k].train_line));
                assert(bid == booking_key(owner, oline));
                assert(k == bid);
            }
            assert(x != owner);
            assert(t1[oline].passengers.contains(x));
        }
    }
    assert forall|l: u32, q: Seq<char>|
        t1.contains_key(l) && #[trigger] t1[l].passengers.contains(q) implies {
        &&& b1.contains_key(booking_key(q, l))
        &&& b1[booking_key(q, l)].passenger_id == q
        &&& b1[booking_key(q, l)].train_line == l
    } by {
        if l == oline {
            assert(t0[oline].passengers.contains(q));
            assert(q != owner);
        } else {
            assert(t0[l].passengers.contains(q));
        }
        assert(b0.contains_key(booking_key(q, l)));
        assert(bid == booking_key(owner, oline));
        if booking_key(q, l) == bid {
            lemma_booking_key_injective(q, l, owner, oline);
        }
        assert(booking_key(q, l) != bid);
    }
    assert forall|k1: Seq<char>, k2: Seq<char>|
        #[trigger] b1.contains_key(k1) && #[trigger] b1.contains_key(k2) && k1 != k2
            && b1[k1].passenger_id == b1[k2].passenger_id implies !conflicts(
        t1[b1[k1].train_line],
        t1[b1[k2].train_line],
    ) by {
        assert(!conflicts(t0[b0[k1].train_line], t0[b0[k2].train_line]));
    }
}

/// Redirecting a booking to an existing train keeps the collections
/// workable. (It can break full consistency: the passenger's back-reference
/// on the old train is not migrated, and the composite key keeps naming the
/// old line; see `edit_booking`.)
proof fn lemma_edit_preserves_wf_state(
    b0: Map<Seq<char>, BookingV>,
    p0: Map<Seq<char>, PassengerV>,
    t0: Map<u32, TrainV>,
    bid: Seq<char>,
    line: u32,
)
    requires
        wf_state(b0, p0, t0),
        b0.contains_key(bid),
        t0.contains_key(line),
    ensures
        wf_state(b0.insert(bid, (BookingV { train_line: line, ..b0[bid] })), p0, t0),
{
    let b1 = b0.insert(bid, BookingV { train_line: line, ..b0[bid] });
    assert forall|k: Seq<char>| #[trigger] b1.contains_key(k) implies exists|l: u32|
        k == booking_key(b1[k].passenger_id, l) by {
        let l = choose|l: u32| k == booking_key(b0[k].passenger_id, l);
        assert(k == booking_key(b1[k].passenger_id, l));
    }
    assert forall|x: Seq<char>, bid2: Seq<char>|
        p0.contains_key(x) && #[trigger] p0[x].bookings.contains(bid2) implies b1.contains_key(bid2)
        && b1[bid2].passenger_id == x by {
        assert(b0.contains_key(bid2) && b0[bid2].passenger_id == x);
    }
}

/// Books passenger `passenger_id` on train `train_line`.
///
/// Checked in order, each a distinct failure: the passenger must exist, the
/// train must exist, and no booking already held by the passenger may
/// conflict with the train (same line, or overlapping journey times). On
/// success the booking is stored under the composite key
/// `{passenger_id}_{train_line}` and both back-references are recorded; the
/// three writes happen within this one call, so no caller sees a partial
/// update.
pub fn add_booking(
    bookings: &mut BookingList,
    passengers: &mut PassengerList,
    trains: &mut TrainList,
    passenger_id: String,
    train_line: u32,
) -> (r: Result<(), BookingError>)
    requires
        old(bookings).wf(),
        old(passengers).wf(),
        old(trains).wf(),
        wf_state(old(bookings)@, old(passengers)@, old(trains)@),
    ensures
        final(bookings).wf(),
        final(passengers).wf(),
        final(trains).wf(),
        wf_state(final(bookings)@, final(passengers)@, final(trains)@),
        match r {
            Ok(()) => ({
                let key = booking_key(passenger_id@, train_line);
                &&& old(passengers)@.contains_key(passenger_id@)
                &&& old(trains)@.contains_key(train_line)
                &&& !has_conflict(
                    old(bookings)@,
                    old(passengers)@,
                    old(trains)@,
                    passenger_id@,
                    train_line,
                )
                &&& final(bookings)@ == old(bookings)@.insert(
                    key,
                    (BookingV { id: key, passenger_id: passenger_id@, train_line }),
                )
                &&& final(passengers)@ == old(passengers)@.insert(
                    passenger_id@,
                    (PassengerV {
                        bookings: with_id(old(passengers)@[passenger_id@].bookings, key),
                        ..old(passengers)@[passenger_id@]
                    }),
                )
                &&& final(trains)@ == old(trains)@.insert(
                    train_line,
                    (TrainV {
                        passengers: with_id(old(trains)@[train_line].passengers, passenger_id@),
                        ..old(trains)@[train_line]
                    }),
                )
            }),
            Err(e) => ({
                &&& final(bookings)@ == old(bookings)@
                &&& final(passengers)@ == old(passengers)@
                &&& final(trains)@ == old(trains)@
                &&& match e {
                    BookingError::PassengerNotFound => !old(passengers)@.contains_key(
                        passenger_id@,
                    ),
                    BookingError::TrainNotFound => old(passengers)@.contains_key(passenger_id@)
                        && !old(trains)@.contains_key(train_line),
                    BookingError::SchedulingConflict(cl) => ({
                        &&& old(passengers)@.contains_key(passenger_id@)
                        &&& old(trains)@.contains_key(train_line)
                        &&& has_conflict(
                            old(bookings)@,
                            old(passengers)@,
                            old(trains)@,
                            passenger_id@,
                            train_line,
                        )
                        &&& exists|bid: Seq<char>|
                            #[trigger] old(passengers)@[passenger_id@].bookings.contains(bid)
                                && old(bookings)@[bid].train_line == cl && conflicts(
                                old(trains)@[train_line],
                                old(trains)@[cl],
                            )
                    }),
                    BookingError::BookingNotFound => false,
                }
            }),
        },
        consistent(old(bookings)@, old(passengers)@, old(trains)@) ==> consistent(
            final(bookings)@,
            final(passengers)@,
            final(trains)@,
        ),
{
    let ghost b0 = bookings@;
    let ghost p0 = passengers@;
    let ghost t0 = trains@;
    if !passengers.contains_key(passenger_id.as_str()) {
        return Err(BookingError::PassengerNotFound);
    }
    if !trains.contains_key(train_line) {
        return Err(BookingError::TrainNotFound);
    }
    let train = trains.get(train_line).unwrap();
    let new_dep = train.departure.seconds();
    let new_arr = train.arrival.seconds();
    let passenger = passengers.get(passenger_id.as_str()).unwrap();
    let n = passenger.bookings.len();
    let mut i: usize = 0;
    while i < n
        invariant
            bookings == old(bookings),
            passengers == old(passengers),
            trains == old(trains),
            b0 == old(bookings)@,
            p0 == old(passengers)@,
            t0 == old(trains)@,
            old(bookings).wf(),
            old(passengers).wf(),
            old(trains).wf(),
            wf_state(b0, p0, t0),
            p0.contains_key(passenger_id@),
            t0.contains_key(train_line),
            passenger@ == p0[passenger_id@],
            n == passenger.bookings.len(),
            new_dep as int == t0[train_line].departure,
            new_arr as int == t0[train_line].arrival,
            i <= n,
            forall|j: int|
                0 <= j < i ==> !conflicts(
                    t0[train_line],
                    t0[b0[p0[passenger_id@].bookings[j]].train_line],
                ),
        decreases n - i,
    {
        let bid = &passenger.bookings[i];
        proof {
            assert(passenger@.bookings[i as int] == bid@);
            assert(p0[passenger_id@].bookings.contains(bid@));
        }
        let booking = bookings.get(bid.as_str()).unwrap();
        let booked = trains.get(booking.train_line).unwrap();
        if booking.train_line == train_line {
            proof {
                assert(conflicts(t0[train_line], t0[b0[bid@].train_line]));
                assert(has_conflict(b0, p0, t0, passenger_id@, train_line));
            }
            return Err(BookingError::SchedulingConflict(booking.train_line));
        }
        let booked_dep = booked.departure.seconds();
        let booked_arr = booked.arrival.seconds();
        if new_dep < booked_arr && new_arr > booked_dep {
            proof {
                assert(overlap(t0[train_line], t0[b0[bid@].train_line]));
                assert(has_conflict(b0, p0, t0, passenger_id@, train_line));
            }
            return Err(BookingError::SchedulingConflict(booking.train_line));
        }
        proof {
            trains.lemma_view_facts();
            assert(t0[train_line].line == train_line);
            assert(t0[b0[bid@].train_line].line == b0[bid@].train_line);
            assert(!conflicts(t0[train_line], t0[b0[bid@].train_line]));
        }
        i += 1;
    }
    proof {
        assert(!has_conflict(b0, p0, t0, passenger_id@, train_line)) by {
            if has_conflict(b0, p0, t0, passenger_id@, train_line) {
                let bid = choose|bid: Seq<char>|
                    #[trigger] p0[passenger_id@].bookings.contains(bid) && conflicts(
                        t0[train_line],
                        t0[b0[bid].train_line],
                    );
                let j = choose|j: int|
                    0 <= j < p0[passenger_id@].bookings.len() && p0[passenger_id@].bookings[j]
                        == bid;
            }
        }
    }
    let key = make_booking_id(passenger_id.as_str(), train_line);
    let key_for_passenger = key.clone();
    let booking = Booking {
        id: key.clone(),
        passenger_id: passenger_id.clone(),
        train_line,
    };
    bookings.insert(key, booking);
    passengers.add_booking_for(passenger_id.as_str(), key_for_passenger);
    trains.add_passenger_to(train_line, passenger_id);
    proof {
        let keyv = booking_key(passenger_id@, train_line);
        assert(bookings@ == b0.insert(
            keyv,
            BookingV { id: keyv, passenger_id: passenger_id@, train_line },
        ));
        assert(passengers@ == p0.insert(
            passenger_id@,
            PassengerV { bookings: with_id(p0[passenger_id@].bookings, keyv), ..p0[passenger_id@] },
        ));
        assert(trains@ == t0.insert(
            train_line,
            TrainV { passengers: with_id(t0[train_line].passengers, passenger_id@), ..t0[train_line] },
        ));
        lemma_add_preserves_wf_state(b0, p0, t0, passenger_id@, train_line);
        if consistent(b0, p0, t0) {
            old(trains).lemma_view_facts();
            lemma_add_preserves_consistent(b0, p0, t0, passenger_id@, train_line);
        }
    }
    Ok(())
}

/// Redirects booking `booking_id` to train `new_train_line`.
///
/// The booking must exist and the target train must exist; the conflict rule
/// is re-run against the passenger's other bookings, skipping the booking
/// being edited. On success only the booking's train line changes: the
/// passenger back-reference on the old train is not migrated and the
/// composite key keeps its old form. Whether that should be repaired is an
/// open question of the design; as it stands, editing is the one operation
/// that can leave a train's passenger set out of step with the ledger.
pub fn edit_booking(
    bookings: &mut BookingList,
    passengers: &mut PassengerList,
    trains: &mut TrainList,
    booking_id: String,
    new_train_line: u32,
) -> (r: Result<(), BookingError>)
    requires
        old(bookings).wf(),
        old(passengers).wf(),
        old(trains).wf(),
        wf_state(old(bookings)@, old(passengers)@, old(trains)@),
    ensures
        final(bookings).wf(),
        final(passengers).wf(),
        final(trains).wf(),
        wf_state(final(bookings)@, final(passengers)@, final(trains)@),
        final(passengers)@ == old(passengers)@,
        final(trains)@ == old(trains)@,
        match r {
            Ok(()) => ({
                let owner = old(bookings)@[booking_id@].passenger_id;
                &&& old(bookings)@.contains_key(booking_id@)
                &&& old(trains)@.contains_key(new_train_line)
                &&& !has_conflict_besides(
                    old(bookings)@,
                    old(passengers)@,
                    old(trains)@,
                    owner,
                    new_train_line,
                    booking_id@,
                )
                &&& final(bookings)@ == old(bookings)@.insert(
                    booking_id@,
                    (BookingV { train_line: new_train_line, ..old(bookings)@[booking_id@] }),
                )
            }),
            Err(e) => ({
                &&& final(bookings)@ == old(bookings)@
                &&& match e {
                    BookingError::BookingNotFound => !old(bookings)@.contains_key(booking_id@),
                    BookingError::TrainNotFound => old(bookings)@.contains_key(booking_id@)
                        && !old(trains)@.contains_key(new_train_line),
                    BookingError::SchedulingConflict(cl) => ({
                        let owner = old(bookings)@[booking_id@].passenger_id;
                        &&& old(bookings)@.contains_key(booking_id@)
                        &&& old(trains)@.contains_key(new_train_line)
                        &&& has_conflict_besides(
                            old(bookings)@,
                            old(passengers)@,
                            old(trains)@,
                            owner,
                            new_train_line,
                            booking_id@,
                        )
                        &&& exists|bid: Seq<char>|
                            #[trigger] old(passengers)@[owner].bookings.contains(bid) && bid
                                != booking_id@ && old(bookings)@[bid].train_line == cl && conflicts(
                                old(trains)@[new_train_line],
                                old(trains)@[cl],
                            )
                    }),
                    BookingError::PassengerNotFound => false,
                }
            }),
        },
{
    let ghost b0 = bookings@;
    let ghost p0 = passengers@;
    let ghost t0 = trains@;
    let passenger_id = match bookings.get(booking_id.as_str()) {
        Some(b) => b.passenger_id.clone(),
        None => {
            return Err(BookingError::BookingNotFound);
        },
    };
    let ghost owner = b0[booking_id@].passenger_id;
    if !trains.contains_key(new_train_line) {
        return Err(BookingError::TrainNotFound);
    }
    let train = trains.get(new_train_line).unwrap();
    let new_dep = train.departure.seconds();
    let new_arr = train.arrival.seconds();
    let passenger = passengers.get(passenger_id.as_str()).unwrap();
    let n = passenger.bookings.len();
    let mut i: usize = 0;
    while i < n
        invariant
            bookings == old(bookings),
            passengers == old(passengers),
            trains == old(trains),
            b0 == old(bookings)@,
            p0 == old(passengers)@,
            t0 == old(trains)@,
            old(bookings).wf(),
            old(passengers).wf(),
            old(trains).wf(),
            wf_state(b0, p0, t0),
            b0.contains_key(booking_id@),
            owner == b0[booking_id@].passenger_id,
            passenger_id@ == owner,
            p0.contains_key(owner),
            t0.contains_key(new_train_line),
            passenger@ == p0[owner],
            n == passenger.bookings.len(),
            new_dep as int == t0[new_train_line].departure,
            new_arr as int == t0[new_train_line].arrival,
            i <= n,
            forall|j: int|
                0 <= j < i ==> p0[owner].bookings[j] == booking_id@ || !conflicts(
                    t0[new_train_line],
                    t0[b0[p0[owner].bookings[j]].train_line],
                ),
        decreases n - i,
    {
        let bid = &passenger.bookings[i];
        proof {
            assert(passenger@.bookings[i as int] == bid@);
            assert(p0[owner].bookings.contains(bid@));
        }
        if !str_eq(bid.as_str(), booking_id.as_str()) {
            let other = bookings.get(bid.as_str()).unwrap();
            let booked = trains.get(other.train_line).unwrap();
            if other.train_line == new_train_line {
                proof {
                    assert(conflicts(t0[new_train_line], t0[b0[bid@].train_line]));
                    assert(has_conflict_besides(b0, p0, t0, owner, new_train_line, booking_id@));
                }
                return Err(BookingError::SchedulingConflict(other.train_line));
            }
            let booked_dep = booked.departure.seconds();
            let booked_arr = booked.arrival.seconds();
            if new_dep < booked_arr && new_arr > booked_dep {
                proof {
                    assert(overlap(t0[new_train_line], t0[b0[bid@].train_line]));
                    assert(has_conflict_besides(b0, p0, t0, owner, new_train_line, booking_id@));
                }
                return Err(BookingError::SchedulingConflict(other.train_line));
            }
            proof {
                trains.lemma_view_facts();
                assert(!conflicts(t0[new_train_line], t0[b0[bid@].train_line]));
            }
        }
        i += 1;
    }
    proof {
        assert(!has_conflict_besides(b0, p0, t0, owner, new_train_line, booking_id@)) by {
            if has_conflict_besides(b0, p0, t0, owner, new_train_line, booking_id@) {
                let bid = choose|bid: Seq<char>|
                    #[trigger] p0[owner].bookings.contains(bid) && bid != booking_id@ && conflicts(
                        t0[new_train_line],
                        t0[b0[bid].train_line],
                    );
                let j = choose|j: int|
                    0 <= j < p0[owner].bookings.len() && p0[owner].bookings[j] == bid;
            }
        }
    }
    bookings.set_train_line(booking_id.as_str(), new_train_line);
    proof {
        lemma_edit_preserves_wf_state(b0, p0, t0, booking_id@, new_train_line);
    }
    Ok(())
}

/// Removes booking `booking_id` from the ledger, together with both
/// back-references: the booking ID leaves the owning passenger's set and
/// the passenger ID leaves the booked train's set, all within this one call.
/// An unknown booking ID is a `BookingNotFound` failure.
pub fn remove_booking(
    bookings: &mut BookingList,
    passengers: &mut PassengerList,
    trains: &mut TrainList,
    booking_id: String,
) -> (r: Result<(), BookingError>)
    requires
        old(bookings).wf(),
        old(passengers).wf(),
        old(trains).wf(),
        wf_state(old(bookings)@, old(passengers)@, old(trains)@),
    ensures
        final(bookings).wf(),
        final(passengers).wf(),
        final(trains).wf(),
        wf_state(final(bookings)@, final(passengers)@, final(trains)@),
        match r {
            Ok(()) => ({
                let removed = old(bookings)@[booking_id@];
                &&& old(bookings)@.contains_key(booking_id@)
                &&& final(bookings)@ == old(bookings)@.remove(booking_id@)
                &&& final(passengers)@ == old(passengers)@.insert(
                    removed.passenger_id,
                    (PassengerV {
                        bookings: old(passengers)@[removed.passenger_id].bookings.remove_value(
                            booking_id@,
                        ),
                        ..old(passengers)@[removed.passenger_id]
                    }),
                )
                &&& final(trains)@ == old(trains)@.insert(
                    removed.train_line,
                    (TrainV {
                        passengers: old(trains)@[removed.train_line].passengers.remove_value(
                            removed.passenger_id,
                        ),
                        ..old(trains)@[removed.train_line]
                    }),
                )
            }),
            Err(e) => ({
                &&& e == BookingError::BookingNotFound
                &&& !old(bookings)@.contains_key(booking_id@)
                &&& final(bookings)@ == old(bookings)@
                &&& final(passengers)@ == old(passengers)@
                &&& final(trains)@ == old(trains)@
            }),
        },
        consistent(old(bookings)@, old(passengers)@, old(trains)@) ==> consistent(
            final(bookings)@,
            final(passengers)@,
            final(trains)@,
        ),
{
    let ghost b0 = bookings@;
    let ghost p0 = passengers@;
    let ghost t0 = trains@;
    proof {
        passengers.lemma_view_facts();
        trains.lemma_view_facts();
    }
    let removed = match bookings.remove(booking_id.as_str()) {
        Some(b) => b,
        None => {
            proof {
                assert(bookings@ =~= b0);
            }
            return Err(BookingError::BookingNotFound);
        },
    };
    passengers.remove_booking_for(removed.passenger_id.as_str(), booking_id.as_str());
    trains.remove_passenger_from(removed.train_line, removed.passenger_id.as_str());
    proof {
        lemma_remove_preserves_wf_state(b0, p0, t0, booking_id@);
        if consistent(b0, p0, t0) {
            lemma_remove_preserves_consistent(b0, p0, t0, booking_id@);
        }
    }
    Ok(())
}

/// The booking IDs held by a passenger, exactly as the registry lists them;
/// `None` when the passenger is unknown (as opposed to known and empty).
pub open spec fn bookings_for_passenger(p: Map<Seq<char>, PassengerV>, pid: Seq<char>) -> Option<
    Seq<Seq<char>>,
> {
    if p.contains_key(pid) {
        Some(p[pid].bookings)
    } else {
        None
    }
}

/// The passenger IDs booked on a train, exactly as the registry lists them;
/// `None` when the train is unknown (as opposed to known and empty).
pub open spec fn passengers_on_train(t: Map<u32, TrainV>, line: u32) -> Option<Seq<Seq<char>>> {
    if t.contains_key(line) {
        Some(t[line].passengers)
    } else {
        None
    }
}

/// Lists every booking in the ledger: each returned record is a ledger
/// entry, and every ledger entry appears.
pub fn list_all_bookings(bookings: &BookingList) -> (r: Vec<Booking>)
    requires
        bookings.wf(),
    ensures
        r@.len() == bookings@.len(),
        forall|i: int|
            0 <= i < r@.len() ==> #[trigger] bookings@.contains_key(r@[i]@.id)
                && bookings@[r@[i]@.id] == r@[i]@,
        forall|k: Seq<char>|
            #[trigger] bookings@.contains_key(k) ==> exists|i: int|
                0 <= i < r@.len() && r@[i]@.id == k,
{
    let entries = bookings.entries();
    let n = entries.len();
    let mut r: Vec<Booking> = Vec::new();
    let mut i: usize = 0;
    while i < n
        invariant
            n == entries@.len(),
            i <= n,
            r@.len() == i,
            forall|j: int| 0 <= j < i ==> r@[j]@ == entries@[j]@,
        decreases n - i,
    {
        r.push(entries[i].duplicate());
        i += 1;
    }
    r
}

/// The booking IDs of one passenger, or `None` if the passenger is unknown.
/// A found passenger with no bookings yields `Some` of an empty vector, a
/// different outcome from `None`.
pub fn list_bookings_for_passenger(passengers: &PassengerList, passenger_id: &str) -> (r: Option<
    Vec<String>,
>)
    requires
        passengers.wf(),
    ensures
        r.deep_view() == bookings_for_passenger(passengers@, passenger_id@),
{
    match passengers.get(passenger_id) {
        Some(p) => {
            let v = crate::clone_string_vec(&p.bookings);
            proof {
                assert(v.deep_view() =~= p@.bookings);
            }
            Some(v)
        },
        None => None,
    }
}

/// The passenger IDs on one train, or `None` if the train is unknown. A
/// found train with no passengers yields `Some` of an empty vector, a
/// different outcome from `None`.
pub fn list_passengers_on_train(trains: &TrainList, train_line: u32) -> (r: Option<Vec<String>>)
    requires
        trains.wf(),
    ensures
        r.deep_view() == passengers_on_train(trains@, train_line),
{
    match trains.get(train_line) {
        Some(t) => {
            let v = crate::clone_string_vec(&t.passengers);
            proof {
                assert(v.deep_view() =~= t@.passengers);
            }
            Some(v)
        },
        None => None,
    }
}

/// The empty state is fully consistent: with no bookings, no passengers and
/// no trains, the referential-integrity invariants hold vacuously. Together
/// with the preservation clauses of `add_booking` and `remove_booking`, and
/// the registration lemmas below, consistency holds after every operation of
/// any add/remove sequence.
pub proof fn lemma_initial_state_consistent()
    ensures
        consistent(
            Map::<Seq<char>, BookingV>::empty(),
            Map::<Seq<char>, PassengerV>::empty(),
            Map::<u32, TrainV>::empty(),
        ),
{
}

/// Registering a new passenger with no bookings keeps the collections fully
/// consistent.
pub proof fn lemma_register_passenger_preserves_consistent(
    b: Map<Seq<char>, BookingV>,
    p: Map<Seq<char>, PassengerV>,
    t: Map<u32, TrainV>,
    pv: PassengerV,
)
    requires
        consistent(b, p, t),
        !p.contains_key(pv.id),
        pv.bookings == Seq::<Seq<char>>::empty(),
    ensures
        consistent(b, p.insert(pv.id, pv), t),
{
    let p1 = p.insert(pv.id, pv);
    assert forall|x: Seq<char>, bid: Seq<char>|
        p1.contains_key(x) && #[trigger] p1[x].bookings.contains(bid) implies b.contains_key(bid)
        && b[bid].passenger_id == x by {
        if x != pv.id {
            assert(p[x].bookings.contains(bid));
        }
    }
    assert forall|k: Seq<char>| #[trigger] b.contains_key(k) implies p1[b[k].passenger_id].bookings.contains(
        k,
    ) by {
        assert(p.contains_key(b[k].passenger_id));
        assert(b[k].passenger_id != pv.id);
    }
}

/// Registering a new train with no booked passengers keeps the collections
/// fully consistent.
pub proof fn lemma_register_train_preserves_consistent(
    b: Map<Seq<char>, BookingV>,
    p: Map<Seq<char>, PassengerV>,
    t: Map<u32, TrainV>,
    tv: TrainV,
)
    requires
        consistent(b, p, t),
        !t.contains_key(tv.line),
        tv.passengers == Seq::<Seq<char>>::empty(),
    ensures
        consistent(b, p, t.insert(tv.line, tv)),
{
    let t1 = t.insert(tv.line, tv);
    assert forall|k: Seq<char>| #[trigger] b.contains_key(k) implies t1[b[k].train_line].passengers.contains(
        b[k].passenger_id,
    ) by {
        assert(t.contains_key(b[k].train_line));
        assert(b[k].train_line != tv.line);
    }
    assert forall|l: u32, q: Seq<char>|
        t1.contains_key(l) && #[trigger] t1[l].passengers.contains(q) implies {
        &&& b.contains_key(booking_key(q, l))
        &&& b[booking_key(q, l)].passenger_id == q
        &&& b[booking_key(q, l)].train_line == l
    } by {
        assert(l != tv.line);
        assert(t[l].passengers.contains(q));
    }
    assert forall|k1: Seq<char>, k2: Seq<char>|
        #[trigger] b.contains_key(k1) && #[trigger] b.contains_key(k2) && k1 != k2
            && b[k1].passenger_id == b[k2].passenger_id implies !conflicts(
        t1[b[k1].train_line],
        t1[b[k2].train_line],
    ) by {
        assert(t.contains_key(b[k1].train_line) && t.contains_key(b[k2].train_line));
        assert(b[k1].train_line != tv.line && b[k2].train_line != tv.line);
        assert(!conflicts(t[b[k1].train_line], t[b[k2].train_line]));
    }
}

/// Queries are idempotent: the booking IDs reported for a passenger are a
/// function of the registry state alone, so two calls with no mutation in
/// between report the same result.
pub proof fn lemma_list_for_passenger_idempotent(
    p: Map<Seq<char>, PassengerV>,
    pid: Seq<char>,
    r1: Option<Seq<Seq<char>>>,
    r2: Option<Seq<Seq<char>>>,
)
    requires
        r1 == bookings_for_passenger(p, pid),
        r2 == bookings_for_passenger(p, pid),
    ensures
        r1 == r2,
{
}

/// Queries are idempotent: the passenger IDs reported for a train are a
/// function of the registry state alone, so two calls with no mutation in
/// between report the same result.
pub proof fn lemma_list_on_train_idempotent(
    t: Map<u32, TrainV>,
    line: u32,
    r1: Option<Seq<Seq<char>>>,
    r2: Option<Seq<Seq<char>>>,
)
    requires
        r1 == passengers_on_train(t, line),
        r2 == passengers_on_train(t, line),
    ensures
        r1 == r2,
{
}

} // verus!
