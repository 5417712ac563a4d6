//! Handles for what the engine holds on behalf of the host.

use vstd::prelude::*;

verus! {

/// The host's side of what the engine holds by handle: callbacks and the
/// user data of instances. The engine keeps a handle in a reserved property
/// and gives it back on each call; an item leaves the registry when the
/// engine says that the object that held its handle is gone.
///
/// A handle is never zero and never issued twice.
pub struct Registry<C> {
    slots: Vec<Option<C>>,
}

impl<C> Registry<C> {
    /// The items that are held, by their handles.
    pub closed spec fn view(&self) -> Map<u64, C> {
        Map::new(
            |handle: u64|
                1 <= handle <= self.slots.len() && self.slots[handle - 1] is Some,
            |handle: u64| self.slots[handle - 1]->0,
        )
    }

    /// How many handles were issued so far: they are 1 up to this number.
    pub closed spec fn issued(&self) -> nat {
        self.slots.len() as nat
    }

    /// No handle beyond those issued holds an item, nor does zero.
    pub proof fn lemma_handles(&self)
        ensures
            forall|handle: u64| #[trigger]
                self@.dom().contains(handle) ==> 1 <= handle <= self.issued(),
    {
    }

    pub fn new() -> (r: Registry<C>)
        ensures
            r@ == Map::<u64, C>::empty(),
            r.issued() == 0,
    {
        let r = Registry { slots: Vec::new() };
        assert(r@ =~= Map::<u64, C>::empty());
        r
    }

    /// Takes an item in and issues its handle, the next number. Where the
    /// handles are used up the item is given back.
    pub fn insert(&mut self, item: C) -> (r: Result<u64, C>)
        ensures
            r is Ok <==> old(self).issued() < u64::MAX,
            r matches Ok(handle) ==> {
                &&& handle == old(self).issued() + 1
                &&& final(self).issued() == handle
                &&& final(self)@ == old(self)@.insert(handle, item)
            },
            r matches Err(back) ==> back == item && *final(self) == *old(self),
    {
        let count = self.slots.len();
        if count as u64 == u64::MAX {
            return Err(item);
        }
        self.slots.push(Some(item));
        let handle = count as u64 + 1;
        assert(self@ =~= old(self)@.insert(handle, item));
        Ok(handle)
    }

    /// How many more handles can be issued.
    pub fn room(&self) -> (r: u64)
        ensures
            r == u64::MAX - self.issued(),
    {
        u64::MAX - self.slots.len() as u64
    }

    /// Whether the handle holds an item.
    pub fn holds(&self, handle: u64) -> (r: bool)
        ensures
            r == self@.dom().contains(handle),
    {
        handle >= 1 && handle - 1 < self.slots.len() as u64 && self.slots[(handle
            - 1) as usize].is_some()
    }

    /// The item under a handle.
    pub fn get(&self, handle: u64) -> (r: Option<&C>)
        ensures
            r is Some <==> self@.dom().contains(handle),
            r matches Some(item) ==> *item == self@[handle],
    {
        if handle >= 1 && handle - 1 < self.slots.len() as u64 {
            self.slots[(handle - 1) as usize].as_ref()
        } else {
            None
        }
    }

    /// Takes the item under a handle out, for good or until it is put back:
    /// the handle holds nothing afterwards.
    pub fn take(&mut self, handle: u64) -> (r: Option<C>)
        ensures
            r is Some <==> old(self)@.dom().contains(handle),
            r matches Some(item) ==> item == old(self)@[handle],
            final(self)@ == old(self)@.remove(handle),
            final(self).issued() == old(self).issued(),
    {
        if handle >= 1 && handle - 1 < self.slots.len() as u64 {
            let mut taken: Option<C> = None;
            let index = (handle - 1) as usize;
            core::mem::swap(&mut taken, &mut self.slots[index]);
            assert(self@ =~= old(self)@.remove(handle));
            taken
        } else {
            assert(self@ =~= old(self)@.remove(handle));
            None
        }
    }

    /// Puts an item back under a handle that was issued and holds nothing.
    /// Where the handle was never issued or holds an item, the item is given
    /// back and nothing changes.
    pub fn restore(&mut self, handle: u64, item: C) -> (r: Result<(), C>)
        ensures
            r is Ok <==> 1 <= handle <= old(self).issued() && !old(self)@.dom().contains(handle),
            r is Ok ==> final(self)@ == old(self)@.insert(handle, item),
            r matches Err(back) ==> back == item && final(self)@ == old(self)@,
            final(self).issued() == old(self).issued(),
    {
        if handle >= 1 && handle - 1 < self.slots.len() as u64 && self.slots[(handle
            - 1) as usize].is_none() {
            let index = (handle - 1) as usize;
            self.slots.set(index, Some(item));
            assert(self@ =~= old(self)@.insert(handle, item));
            Ok(())
        } else {
            Err(item)
        }
    }
}

} // verus!
