//! The addresses of a peer in the routing table.
//!
//! An address is held as the bytes of its multiaddress encoding.

use vstd::prelude::*;

verus! {

/// A non-empty list of addresses of a peer, in the order they were added.
#[derive(Clone, Debug)]
pub struct Addresses {
    addrs: Vec<Vec<u8>>,
}

/// Whether `p` is the first position of `a` in `s`.
pub open spec fn is_first_index(s: Seq<Seq<u8>>, a: Seq<u8>, p: int) -> bool {
    &&& 0 <= p < s.len()
    &&& s[p] == a
    &&& forall|i: int| 0 <= i < p ==> s[i] != a
}

/// The views of a list of byte strings.
pub open spec fn byte_views(v: Seq<Vec<u8>>) -> Seq<Seq<u8>> {
    v.map_values(|a: Vec<u8>| a@)
}

impl View for Addresses {
    type V = Seq<Seq<u8>>;

    closed spec fn view(&self) -> Seq<Seq<u8>> {
        byte_views(self.addrs@)
    }
}

/// Compares two byte strings.
pub(crate) fn same_bytes(a: &Vec<u8>, b: &Vec<u8>) -> (r: bool)
    ensures
        r == (a@ == b@),
{
    let r = *a == *b;
    proof {
        if r {
            assert(a@ =~= b@);
        }
    }
    r
}

impl Addresses {
    /// The list is never empty.
    pub closed spec fn wf(&self) -> bool {
        self.addrs.len() >= 1
    }

    /// A list of addresses holds at least one.
    pub proof fn lemma_nonempty(&self)
        requires
            self.wf(),
        ensures
            self@.len() >= 1,
    {
    }

    /// Creates a new list of addresses.
    pub fn new(addr: Vec<u8>) -> (r: Addresses)
        ensures
            r.wf(),
            r@ == seq![addr@],
    {
        let mut addrs: Vec<Vec<u8>> = Vec::new();
        addrs.push(addr);
        let r = Addresses { addrs };
        assert(r@ =~= seq![addr@]);
        r
    }

    /// Gets a reference to the first address in the list.
    pub fn first(&self) -> (r: &Vec<u8>)
        requires
            self.wf(),
        ensures
            r@ == self@[0],
    {
        &self.addrs[0]
    }

    /// The addresses, in order.
    pub fn iter(&self) -> (r: &[Vec<u8>])
        ensures
            byte_views(r@) == self@,
    {
        self.addrs.as_slice()
    }

    /// Returns the number of addresses in the list.
    pub fn len(&self) -> (r: usize)
        ensures
            r == self@.len(),
    {
        self.addrs.len()
    }

    /// A copy of the list.
    pub fn duplicate(&self) -> (r: Addresses)
        ensures
            r@ == self@,
            self.wf() ==> r.wf(),
    {
        let mut addrs: Vec<Vec<u8>> = Vec::new();
        let mut i: usize = 0;
        while i < self.addrs.len()
            invariant
                0 <= i <= self.addrs@.len(),
                byte_views(addrs@) =~= byte_views(self.addrs@).take(i as int),
            decreases self.addrs@.len() - i,
        {
            let ghost before = addrs@;
            addrs.push(crate::record::copy_bytes(&self.addrs[i]));
            proof {
                assert(addrs@ =~= before.push(addrs@.last()));
                assert(byte_views(self.addrs@).take(i + 1) =~= byte_views(self.addrs@).take(i as int).push(self.addrs@[i as int]@));
            }
            i += 1;
        }
        assert(byte_views(self.addrs@).take(self.addrs@.len() as int) =~= byte_views(self.addrs@));
        Addresses { addrs }
    }

    /// Converts the addresses into a `Vec`.
    pub fn into_vec(self) -> (r: Vec<Vec<u8>>)
        ensures
            byte_views(r@) == self@,
    {
        self.addrs
    }

    /// The first position of `addr` in the list, if it is there.
    fn position(&self, addr: &Vec<u8>) -> (r: Option<usize>)
        ensures
            match r {
                Some(p) => is_first_index(self@, addr@, p as int),
                None => forall|i: int| 0 <= i < self@.len() ==> self@[i] != addr@,
            },
    {
        let mut i: usize = 0;
        while i < self.addrs.len()
            invariant
                i <= self.addrs.len(),
                forall|j: int| 0 <= j < i ==> self@[j] != addr@,
            decreases self.addrs.len() - i,
        {
            if same_bytes(&self.addrs[i], addr) {
                return Some(i);
            }
            i += 1;
        }
        None
    }

    /// Removes the given address from the list.
    ///
    /// Returns `Ok(())` if the address is either not in the list or was
    /// found and removed (its first occurrence). Returns `Err(())` if the
    /// address is the last remaining address, which cannot be removed.
    pub fn remove(&mut self, addr: &Vec<u8>) -> (r: Result<(), ()>)
        requires
            old(self).wf(),
        ensures
            final(self).wf(),
            final(self)@.len() >= 1,
            r is Err <==> (old(self)@.len() == 1 && old(self)@[0] == addr@),
            r is Err ==> final(self)@ == old(self)@,
            (forall|i: int| 0 <= i < old(self)@.len() ==> old(self)@[i] != addr@) ==> final(self)@
                == old(self)@,
            forall|p: int|
                is_first_index(old(self)@, addr@, p) && r is Ok ==> final(self)@ == old(self)@.remove(p),
    {
        if self.addrs.len() == 1 && same_bytes(&self.addrs[0], addr) {
            return Err(());
        }
        match self.position(addr) {
            Some(pos) => {
                let ghost before = self@;
                self.addrs.remove(pos);
                proof {
                    assert(self@ =~= before.remove(pos as int));
                    assert forall|p: int| is_first_index(before, addr@, p) implies p == pos by {
                        if p < pos {
                        } else if p > pos {
                        }
                    }
                }
            },
            None => {},
        }
        Ok(())
    }

    /// Adds a new address to the end of the list.
    ///
    /// Returns true if the address was added, false otherwise (i.e. if the
    /// address is already in the list).
    pub fn insert(&mut self, addr: Vec<u8>) -> (r: bool)
        ensures
            final(self).wf(),
            r == !old(self)@.contains(addr@),
            r ==> final(self)@ == old(self)@.push(addr@),
            !r ==> final(self)@ == old(self)@,
    {
        match self.position(&addr) {
            Some(p) => {
                assert(self@[p as int] == addr@);
                false
            },
            None => {
                let ghost before = self@;
                self.addrs.push(addr);
                assert(self@ =~= before.push(addr@));
                true
            },
        }
    }

    /// Replaces an old address with a new address.
    ///
    /// Returns true if the previous address was found (its first occurrence)
    /// and replaced with a copy of the new address, returns false otherwise.
    pub fn replace(&mut self, old_addr: &Vec<u8>, new_addr: &Vec<u8>) -> (r: bool)
        requires
            old(self).wf(),
        ensures
            final(self).wf(),
            r == old(self)@.contains(old_addr@),
            !r ==> final(self)@ == old(self)@,
            forall|p: int| is_first_index(old(self)@, old_addr@, p) ==> final(self)@ == old(self)@.update(p, new_addr@),
    {
        match self.position(old_addr) {
            Some(pos) => {
                let ghost before = self@;
                let copy = new_addr.clone();
                assert(copy@ =~= new_addr@);
                self.addrs.set(pos, copy);
                proof {
                    assert(self@ =~= before.update(pos as int, new_addr@));
                    assert forall|p: int| is_first_index(before, old_addr@, p) implies p == pos by {
                        if p < pos {
                        } else if p > pos {
                        }
                    }
                }
                true
            },
            None => false,
        }
    }
}

} // verus!
