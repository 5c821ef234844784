//! Merkle Mountain Range storage.
use crate::Error;
use vstd::prelude::*;

verus! {

/// Append-only storage of node hashes, addressed by 1-based position.
pub trait Store<T> where T: Clone {
    /// The hashes held, the one at position `p` at index `p - 1`.
    spec fn hashes_view(&self) -> Seq<crate::Hash>;

    /// Append the element's hashes, in order. On success nothing else of the
    /// hash sequence changes.
    fn append(&mut self, elem: &T, hashes: &[crate::Hash]) -> (r: Result<(), Error>)
        ensures
            r is Ok ==> final(self).hashes_view() == old(self).hashes_view() + hashes@,
    ;

    /// The hash at position `pos`, or the missing-hash error carrying `pos`
    /// when nothing is stored there.
    fn hash_at(&self, pos: u64) -> (r: Result<crate::Hash, Error>)
        ensures
            1 <= pos <= self.hashes_view().len() ==> r == Ok::<crate::Hash, Error>(
                self.hashes_view()[pos - 1],
            ),
            !(1 <= pos <= self.hashes_view().len()) ==> r == Err::<crate::Hash, Error>(
                Error::MissingHashAtIndex(pos),
            ),
    ;

    /// The hash of the peak at position `pos`; the same contract as `hash_at`.
    fn peak_hash_at(&self, pos: u64) -> (r: Result<crate::Hash, Error>)
        ensures
            1 <= pos <= self.hashes_view().len() ==> r == Ok::<crate::Hash, Error>(
                self.hashes_view()[pos - 1],
            ),
            !(1 <= pos <= self.hashes_view().len()) ==> r == Err::<crate::Hash, Error>(
                Error::MissingHashAtIndex(pos),
            ),
    ;
}

/// A store held in memory.
pub struct VecStore<T> {
    /// The stored elements, `None` when only hashes are kept.
    pub data: Option<Vec<T>>,
    /// The hashes of all nodes, leaves and parents.
    pub hashes: Vec<crate::Hash>,
}

impl<T> VecStore<T> {
    /// The number of stored elements, or `None` when only hashes are kept.
    pub open spec fn data_len(&self) -> Option<nat> {
        match &self.data {
            Some(d) => Some(d@.len()),
            None => None,
        }
    }

    /// An empty store that keeps elements as well as hashes.
    pub fn new() -> (r: Self)
        ensures
            r.hashes@ == Seq::<crate::Hash>::empty(),
            r.data_len() == Some(0nat),
    {
        VecStore { data: Some(vec![]), hashes: vec![] }
    }

    fn lookup(&self, pos: u64) -> (r: Result<crate::Hash, Error>)
        ensures
            1 <= pos <= self.hashes@.len() ==> r == Ok::<crate::Hash, Error>(self.hashes@[pos - 1]),
            !(1 <= pos <= self.hashes@.len()) ==> r == Err::<crate::Hash, Error>(
                Error::MissingHashAtIndex(pos),
            ),
    {
        if pos == 0 || pos - 1 >= self.hashes.len() as u64 {
            return Err(Error::MissingHashAtIndex(pos));
        }
        Ok(self.hashes[(pos - 1) as usize])
    }
}

impl<T> Default for VecStore<T> {
    fn default() -> (r: Self)
        ensures
            r.hashes@ == Seq::<crate::Hash>::empty(),
            r.data_len() == Some(0nat),
    {
        Self::new()
    }
}

impl<T> Store<T> for VecStore<T> where T: Clone {
    open spec fn hashes_view(&self) -> Seq<crate::Hash> {
        self.hashes@
    }

    fn append(&mut self, elem: &T, hashes: &[crate::Hash]) -> (r: Result<(), Error>)
        ensures
            r is Ok,
            final(self).data_len() == match old(self).data_len() {
                Some(n) => Some(n + 1),
                None => None::<nat>,
            },
            match (old(self).data, final(self).data) {
                (Some(d0), Some(d1)) => d1@.drop_last() == d0@ && cloned(*elem, d1@.last()),
                (None, None) => true,
                _ => false,
            },
    {
        if let Some(data) = &mut self.data {
            data.push(elem.clone());
        }
        let ghost data_after = self.data;
        let ghost start = self.hashes@;
        let mut i: usize = 0;
        while i < hashes.len()
            invariant
                i <= hashes@.len(),
                self.hashes@ == start + hashes@.subrange(0, i as int),
                self.data == data_after,
                self.data_len() == match old(self).data_len() {
                    Some(n) => Some(n + 1),
                    None => None::<nat>,
                },
            decreases hashes@.len() - i,
        {
            self.hashes.push(hashes[i]);
            i += 1;
            assert(hashes@.subrange(0, i as int) =~= hashes@.subrange(0, i - 1).push(hashes@[i - 1]));
        }
        assert(hashes@.subrange(0, i as int) =~= hashes@);
        Ok(())
    }

    fn hash_at(&self, pos: u64) -> (r: Result<crate::Hash, Error>) {
        self.lookup(pos)
    }

    fn peak_hash_at(&self, pos: u64) -> (r: Result<crate::Hash, Error>) {
        self.lookup(pos)
    }
}

} // verus!
