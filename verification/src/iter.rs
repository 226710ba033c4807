//! The iterator façade: couple an index snapshot with the engine's read
//! path to yield key/value pairs.
//!
//! The pairs are materialized when the iterator is made, so later
//! mutations of the engine do not reach an iterator already handed out.

use vstd::prelude::*;

use crate::index::clone_bytes;

verus! {

/// A snapshot of key/value pairs, walked front to back.
pub struct Iter {
    pub(crate) items: Vec<(Vec<u8>, Vec<u8>)>,
    pub(crate) pos: usize,
}

impl Iter {
    /// A fresh iterator over materialized pairs.
    pub(crate) fn from_items(items: Vec<(Vec<u8>, Vec<u8>)>) -> (r: Iter)
        ensures
            r.pos_spec() == 0,
            r.items_seq() == items@.map_values(|e: (Vec<u8>, Vec<u8>)| (e.0@, e.1@)),
    {
        Iter { items, pos: 0 }
    }

    /// The pairs as plain values.
    pub closed spec fn items_seq(self) -> Seq<(Seq<u8>, Seq<u8>)> {
        self.items@.map_values(|e: (Vec<u8>, Vec<u8>)| (e.0@, e.1@))
    }

    pub closed spec fn pos_spec(self) -> nat {
        self.pos as nat
    }

    /// Yield the next key/value pair of the snapshot.
    pub fn next(&mut self) -> (r: Option<(Vec<u8>, Vec<u8>)>)
        requires
            old(self).pos_spec() <= old(self).items_seq().len(),
        ensures
            final(self).items_seq() == old(self).items_seq(),
            old(self).pos_spec() == old(self).items_seq().len() ==> r is None && final(self).pos_spec()
                == old(self).pos_spec(),
            old(self).pos_spec() < old(self).items_seq().len() ==> (r matches Some(p) && (p.0@, p.1@)
                == old(self).items_seq()[old(self).pos_spec() as int] && final(self).pos_spec() == old(
                self,
            ).pos_spec() + 1),
    {
        if self.pos < self.items.len() {
            let i = self.pos;
            self.pos = i + 1;
            let k = clone_bytes(&self.items[i].0);
            let v = clone_bytes(&self.items[i].1);
            Some((k, v))
        } else {
            None
        }
    }
}

} // verus!

