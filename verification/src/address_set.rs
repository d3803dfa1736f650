//! A set of addresses.

use std::collections::HashMap;

use vstd::prelude::*;

use crate::address;
use crate::address::Address;
use crate::listing;
use crate::listing::sorted_addresses;

verus! {

broadcast use vstd::std_specs::hash::group_hash_axioms;

/// The number that the last eight bytes of an address denote.
pub open spec fn tail_number(a: Seq<u8>) -> int {
    a[12] * 0x100_0000_0000_0000 + a[13] * 0x1_0000_0000_0000 + a[14] * 0x100_0000_0000 + a[15]
        * 0x1_0000_0000 + a[16] * 0x100_0000 + a[17] * 0x1_0000 + a[18] * 0x100 + a[19]
}

/// The number that the last eight bytes of an address denote.
fn tail_of(a: &Address) -> (res: u64)
    ensures
        res == tail_number(a@),
{
    a[12] as u64 * 0x100_0000_0000_0000 + a[13] as u64 * 0x1_0000_0000_0000 + a[14] as u64
        * 0x100_0000_0000 + a[15] as u64 * 0x1_0000_0000 + a[16] as u64 * 0x100_0000 + a[17] as u64
        * 0x1_0000 + a[18] as u64 * 0x100 + a[19] as u64
}

/// Whether two addresses are equal.
fn is_equal(a: &Address, b: &Address) -> (res: bool)
    ensures
        res == (a@ == b@),
{
    let mut i: usize = 0;
    while i < 20
        invariant
            i <= 20,
            forall|j: int| 0 <= j < i ==> a@[j] == b@[j],
        decreases 20 - i,
    {
        if a[i] != b[i] {
            return false;
        }
        i = i + 1;
    }
    assert(a@ =~= b@);
    true
}

/// A set of addresses: the addresses in the order in which they came, each of them once, and
/// for the number in their last bytes the positions where they stand.
#[derive(Debug)]
pub struct AddressSet {
    list: Vec<Address>,
    positions: HashMap<u64, Vec<usize>>,
}

impl View for AddressSet {
    type V = Set<Seq<u8>>;

    closed spec fn view(&self) -> Set<Seq<u8>> {
        address::bytes_of(self.list@).to_set()
    }
}

impl AddressSet {
    /// No address stands twice in the list, every address is found through its number, and
    /// every position lies in the list.
    pub closed spec fn wf(&self) -> bool {
        &&& address::bytes_of(self.list@).no_duplicates()
        &&& forall|i: int|
            #![trigger self.list@[i]]
            0 <= i < self.list@.len() ==> self.positions@.contains_key(
                tail_number(self.list@[i]@) as u64,
            ) && self.positions@[tail_number(self.list@[i]@) as u64]@.contains(i as usize)
        &&& forall|key: u64, p: int|
            #![trigger self.positions@[key]@[p]]
            self.positions@.contains_key(key) && 0 <= p < self.positions@[key]@.len()
                ==> self.positions@[key]@[p] < self.list@.len()
    }

    /// The empty set.
    pub fn new() -> (res: AddressSet)
        ensures
            res.wf(),
            res@ == Set::<Seq<u8>>::empty(),
    {
        let set = AddressSet { list: Vec::new(), positions: HashMap::new() };
        assert(set@ =~= Set::<Seq<u8>>::empty());
        set
    }

    /// The number of addresses.
    pub fn len(&self) -> (res: usize)
        requires
            self.wf(),
        ensures
            res == self@.len(),
            self@.finite(),
    {
        proof {
            address::bytes_of(self.list@).unique_seq_to_set();
            vstd::seq_lib::seq_to_set_is_finite(address::bytes_of(self.list@));
        }
        self.list.len()
    }

    /// Whether the address is in the set.
    pub fn contains(&self, a: &Address) -> (res: bool)
        requires
            self.wf(),
        ensures
            res == self@.contains(a@),
    {
        let ghost all = address::bytes_of(self.list@);
        let key: u64 = tail_of(a);
        match self.positions.get(&key) {
            None => {
                proof {
                    if all.contains(a@) {
                        let i = choose|i: int| 0 <= i < all.len() && all[i] == a@;
                        assert(self.list@[i]@ == a@);
                    }
                }
                false
            },
            Some(found) => {
                let mut p: usize = 0;
                while p < found.len()
                    invariant
                        p <= found@.len(),
                        self.wf(),
                        self.positions@.contains_key(key),
                        self.positions@[key] == *found,
                        forall|q: int|
                            0 <= q < p ==> self.list@[(#[trigger] found@[q]) as int]@ != a@,
                    decreases found@.len() - p,
                {
                    let at: usize = found[p];
                    assert(self.positions@[key]@[p as int] < self.list@.len());
                    if is_equal(&self.list[at], a) {
                        assert(address::bytes_of(self.list@)[at as int] == a@);
                        return true;
                    }
                    p = p + 1;
                }
                proof {
                    if all.contains(a@) {
                        let i = choose|i: int| 0 <= i < all.len() && all[i] == a@;
                        assert(self.list@[i]@ == a@ && i < self.list.len());
                        assert(found@.contains(i as usize));
                        let q = choose|q: int| 0 <= q < found@.len() && found@[q] == i as usize;
                        assert(self.list@[found@[q] as int]@ != a@);
                    }
                }
                false
            },
        }
    }

    /// Adds an address.
    pub fn insert(&mut self, a: Address)
        requires
            old(self).wf(),
        ensures
            final(self).wf(),
            final(self)@ == old(self)@.insert(a@),
    {
        let ghost list = self.list@;
        let ghost all = address::bytes_of(list);
        let ghost positions = self.positions@;
        if self.contains(&a) {
            assert(self@ =~= self@.insert(a@));
            return;
        }
        let key: u64 = tail_of(&a);
        let mut found: Vec<usize> = match self.positions.remove(&key) {
            Some(found) => found,
            None => Vec::new(),
        };
        let ghost held = found@;
        let at: usize = self.list.len();
        found.push(at);
        self.list.push(a);
        self.positions.insert(key, found);
        proof {
            let now = address::bytes_of(self.list@);
            assert(now =~= all.push(a@));
            assert(!all.contains(a@));
            assert(now.no_duplicates()) by {
                assert forall|i: int, j: int|
                    0 <= i < now.len() && 0 <= j < now.len() && i != j implies now[i] != now[j] by {
                    if i < all.len() && j < all.len() {
                        assert(all[i] != all[j]);
                    } else if i < all.len() {
                        assert(all.contains(all[i]));
                    } else {
                        assert(all.contains(all[j]));
                    }
                }
            }
            assert forall|i: int|
                #![trigger self.list@[i]]
                0 <= i < self.list@.len() implies self.positions@.contains_key(
                tail_number(self.list@[i]@) as u64,
            ) && self.positions@[tail_number(self.list@[i]@) as u64]@.contains(i as usize) by {
                let tail = tail_number(self.list@[i]@) as u64;
                if i < list.len() {
                    assert(self.list@[i] == list[i]);
                    assert(positions[tail]@.contains(i as usize));
                    if tail == key {
                        let q = choose|q: int| 0 <= q < held.len() && held[q] == i as usize;
                        assert(found@[q] == i as usize);
                    }
                } else {
                    assert(found@[held.len() as int] == at);
                }
            }
            assert forall|k: u64, p: int|
                #![trigger self.positions@[k]@[p]]
                self.positions@.contains_key(k) && 0 <= p
                    < self.positions@[k]@.len() implies self.positions@[k]@[p]
                < self.list@.len() by {
                if k == key {
                    if p < held.len() {
                        assert(positions.contains_key(key));
                        assert(positions[key]@[p] < list.len());
                    }
                } else {
                    assert(positions[k]@[p] < list.len());
                }
            }
            assert(now.to_set() =~= all.to_set().insert(a@)) by {
                assert forall|z: Seq<u8>| #[trigger] now.to_set().contains(z) <==> all.to_set()
                    .insert(a@).contains(z) by {
                    if all.contains(z) {
                        let k = choose|k: int| 0 <= k < all.len() && all[k] == z;
                        assert(now[k] == z);
                    }
                    if z == a@ {
                        assert(now[all.len() as int] == z);
                    }
                    if now.contains(z) {
                        let k = choose|k: int| 0 <= k < now.len() && now[k] == z;
                        if k < all.len() {
                            assert(all[k] == z);
                        }
                    }
                }
            }
        }
    }

    /// Adds all of the addresses.
    pub fn extend(&mut self, addresses: &Vec<Address>)
        requires
            old(self).wf(),
        ensures
            final(self).wf(),
            final(self)@ == old(self)@.union(address::bytes_of(addresses@).to_set()),
    {
        let ghost before = self@;
        let ghost new = address::bytes_of(addresses@);
        let mut i: usize = 0;
        assert(self@ =~= before.union(new.take(0).to_set()));
        while i < addresses.len()
            invariant
                i <= addresses@.len(),
                new == address::bytes_of(addresses@),
                self.wf(),
                self@ == before.union(new.take(i as int).to_set()),
            decreases addresses@.len() - i,
        {
            let ghost held = self@;
            self.insert(addresses[i]);
            proof {
                let seen = new.take(i as int);
                let more = new.take(i + 1);
                assert(more =~= seen.push(new[i as int]));
                assert forall|z: Seq<u8>| #[trigger] more.to_set().contains(z) <==> seen.to_set()
                    .insert(new[i as int]).contains(z) by {
                    if seen.contains(z) {
                        let k = choose|k: int| 0 <= k < seen.len() && seen[k] == z;
                        assert(more[k] == z);
                    }
                    if z == new[i as int] {
                        assert(more[i as int] == z);
                    }
                    if more.contains(z) {
                        let k = choose|k: int| 0 <= k < more.len() && more[k] == z;
                        if k < seen.len() {
                            assert(seen[k] == z);
                        }
                    }
                }
                assert(self@ =~= before.union(more.to_set()));
            }
            i = i + 1;
        }
        assert(new.take(i as int) =~= new);
    }

    /// The addresses in ascending order.
    pub fn sorted(&self) -> (res: Vec<Address>)
        requires
            self.wf(),
        ensures
            address::bytes_of(res@) == listing::listing(self@),
            listing::is_listing(address::bytes_of(res@), self@),
    {
        sorted_addresses(&self.list)
    }
}

} // verus!
