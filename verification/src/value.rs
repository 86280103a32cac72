//! The versions of a single key's value.

use vstd::prelude::*;
use crate::index_set::{ascending, insert_index, lemma_ascending_is_listing};
use crate::index_set::{ascending_listing, extend_indices, lists_ascending};
use crate::model::{
    all_extrinsics, fresh_version, lemma_written_indices_cover, listable, optional_index,
    stack_fold_top, stack_write, visible, with_top_extrinsic, with_top_value, written_indices,
    Version,
};
use crate::unique::{first_occurrences, lemma_first_occurrences, unique_indices};

verus! {

/// A storage key: an opaque byte string.
pub type StorageKey = Vec<u8>;

/// A storage value: an opaque byte string.
pub type StorageValue = Vec<u8>;

/// The bytes of an optional value.
pub open spec fn value_view(value: Option<StorageValue>) -> Option<Seq<u8>> {
    match value {
        Some(bytes) => Some(bytes@),
        None => None,
    }
}

/// One version of a value, as written in one scope.
#[derive(Debug, Clone)]
pub struct InnerValue {
    /// Current value. `None` if the value has been deleted.
    value: Option<StorageValue>,
    /// The indices of the extrinsics that changed the value, ascending.
    extrinsics: Vec<u32>,
}

impl View for InnerValue {
    type V = Version;

    closed spec fn view(&self) -> Version {
        Version { value: value_view(self.value), extrinsics: self.extrinsics@.to_set() }
    }
}

impl InnerValue {
    /// The extrinsic indices are held in ascending order.
    pub closed spec fn wf(&self) -> bool {
        ascending(self.extrinsics@)
    }

    /// The extrinsic indices in the order in which they are held.
    pub closed spec fn held_indices(&self) -> Seq<u32> {
        self.extrinsics@
    }

    /// The indices are held as the ascending listing of the version's set.
    pub proof fn lemma_held_indices(&self)
        requires
            self.wf(),
        ensures
            self.held_indices() == ascending_listing(self@.extrinsics),
            lists_ascending(self.held_indices(), self@.extrinsics),
    {
        lemma_ascending_is_listing(self.extrinsics@);
    }

    /// A version that holds `value` and names no extrinsic.
    pub fn new(value: Option<StorageValue>) -> (r: InnerValue)
        ensures
            r.wf(),
            r@ == fresh_version(value_view(value)),
    {
        let r = InnerValue { value, extrinsics: Vec::new() };
        assert(r.extrinsics@.to_set() =~= Set::<u32>::empty());
        r
    }

    /// The value of this version.
    pub fn into_value(self) -> (r: Option<StorageValue>)
        ensures
            value_view(r) == self@.value,
    {
        self.value
    }
}

impl Default for InnerValue {
    /// A version that marks a deletion and names no extrinsic.
    fn default() -> (r: Self)
        ensures
            r.wf(),
            r@ == fresh_version(None),
    {
        InnerValue::new(None)
    }
}

/// An overlay that contains all versions of a value for a specific key.
#[derive(Debug, Clone)]
pub struct OverlayedValue {
    /// The individual versions of that value, oldest first: one entry per
    /// transaction during which the value was actually written.
    transactions: Vec<InnerValue>,
}

impl View for OverlayedValue {
    type V = Seq<Version>;

    closed spec fn view(&self) -> Seq<Version> {
        Seq::new(self.transactions@.len(), |i: int| self.transactions@[i]@)
    }
}

impl Default for OverlayedValue {
    /// An overlayed value without any version yet. It becomes well formed
    /// with its first write.
    fn default() -> (r: Self)
        ensures
            r.versions_wf(),
            r@ == Seq::<Version>::empty(),
    {
        OverlayedValue::empty()
    }
}

impl OverlayedValue {
    /// Every version holds its extrinsic indices in ascending order.
    pub closed spec fn versions_wf(&self) -> bool {
        forall|i: int| 0 <= i < self.transactions@.len() ==> (#[trigger] self.transactions@[i]).wf()
    }

    /// There is at least one version, and every version is well formed.
    pub open spec fn wf(&self) -> bool {
        self@.len() >= 1 && self.versions_wf()
    }

    /// An overlayed value without any version yet.
    pub(crate) fn empty() -> (r: OverlayedValue)
        ensures
            r.versions_wf(),
            r@ == Seq::<Version>::empty(),
    {
        let r = OverlayedValue { transactions: Vec::new() };
        assert(r@ =~= Seq::<Version>::empty());
        r
    }

    /// The number of versions.
    pub fn version_count(&self) -> (n: usize)
        ensures
            n == self@.len(),
    {
        self.transactions.len()
    }

    /// The value as seen by the current transaction.
    pub fn value(&self) -> (r: Option<&StorageValue>)
        requires
            self.wf(),
        ensures
            match r {
                Some(bytes) => visible(self@) == Some(bytes@),
                None => visible(self@) is None,
            },
    {
        let n = self.transactions.len();
        self.transactions[n - 1].value.as_ref()
    }

    /// Mutable reference to the most recent version's value.
    pub fn value_mut(&mut self) -> (r: &mut Option<StorageValue>)
        requires
            old(self).wf(),
        ensures
            value_view(*r) == visible(old(self)@),
            final(self)@ == with_top_value(old(self)@, value_view(*final(r))),
            final(self).wf(),
    {
        let n = self.transactions.len();
        let r = &mut self.transactions[n - 1].value;
        proof {
            assert(forall|i: int|
                0 <= i < old(self).transactions@.len() ==> (#[trigger] old(
                    self,
                ).transactions@[i]).wf());
        }
        r
    }

    /// The versions of a well-formed value name sets that can be listed.
    pub proof fn lemma_listable(&self)
        requires
            self.versions_wf(),
        ensures
            listable(self@),
    {
        assert forall|i: int| 0 <= i < self@.len() implies lists_ascending(
            ascending_listing(#[trigger] self@[i].extrinsics),
            self@[i].extrinsics,
        ) by {
            self.transactions@[i].lemma_held_indices();
        }
    }

    /// Unique list of extrinsic indices which modified the value: the
    /// indices of all versions, oldest version first and ascending within a
    /// version, each index where it first occurs.
    pub fn extrinsics(&self) -> (r: Vec<u32>)
        requires
            self.versions_wf(),
        ensures
            r@ == first_occurrences(written_indices(self@)),
            r@.no_duplicates(),
            r@.to_set() == all_extrinsics(self@),
    {
        let mut all: Vec<u32> = Vec::new();
        let mut i: usize = 0;
        assert(self@.take(0) =~= Seq::<Version>::empty());
        while i < self.transactions.len()
            invariant
                0 <= i <= self.transactions.len(),
                self.versions_wf(),
                all@ == written_indices(self@.take(i as int)),
            decreases self.transactions.len() - i,
        {
            let version = &self.transactions[i];
            let ghost before = all@;
            let mut j: usize = 0;
            while j < version.extrinsics.len()
                invariant
                    0 <= j <= version.extrinsics.len(),
                    all@ == before + version.extrinsics@.take(j as int),
                decreases version.extrinsics.len() - j,
            {
                all.push(version.extrinsics[j]);
                assert(version.extrinsics@.take(j + 1) =~= version.extrinsics@.take(j as int).push(
                    version.extrinsics@[j as int],
                ));
                j += 1;
            }
            proof {
                assert(version.extrinsics@.take(j as int) =~= version.extrinsics@);
                version.lemma_held_indices();
                let next = self@.take(i + 1);
                assert(next.drop_last() =~= self@.take(i as int));
                assert(next.last() == version@);
            }
            i += 1;
        }
        proof {
            assert(self@.take(i as int) =~= self@);
            self.lemma_listable();
            lemma_written_indices_cover(self@);
            lemma_first_occurrences(all@);
        }
        unique_indices(all)
    }

    /// Mutable reference to the indices recorded for the most recent version
    /// only. The value stays well formed as long as the indices are left in
    /// ascending order.
    pub(crate) fn transaction_extrinsics_mut(&mut self) -> (r: &mut Vec<u32>)
        requires
            old(self).wf(),
        ensures
            ascending(r@),
            r@.to_set() == old(self)@.last().extrinsics,
            ascending(final(r)@) ==> final(self).wf() && final(self)@ == old(self)@.update(
                old(self)@.len() - 1,
                Version { value: old(self)@.last().value, extrinsics: final(r)@.to_set() },
            ),
    {
        let n = self.transactions.len();
        let r = &mut self.transactions[n - 1].extrinsics;
        proof {
            assert(forall|i: int|
                0 <= i < old(self).transactions@.len() ==> (#[trigger] old(
                    self,
                ).transactions@[i]).wf());
        }
        r
    }

    /// Folds the most recent version into the one below it: the lower version
    /// takes over the value and gains the extrinsics of the dropped one.
    pub fn fold_top(&mut self)
        requires
            old(self)@.len() >= 2,
            old(self).wf(),
        ensures
            final(self).wf(),
            final(self)@ == stack_fold_top(old(self)@),
    {
        let dropped = self.pop_transaction();
        *self.value_mut() = dropped.value;
        extend_indices(self.transaction_extrinsics_mut(), &dropped.extrinsics);
        assert(self@ =~= stack_fold_top(old(self)@));
    }

    /// Remove the last version and return it.
    pub fn pop_transaction(&mut self) -> (r: InnerValue)
        requires
            old(self).wf(),
        ensures
            r.wf(),
            r@ == old(self)@.last(),
            final(self)@ == old(self)@.drop_last(),
            final(self).versions_wf(),
    {
        let r = self.transactions.pop().unwrap();
        assert(self@ =~= old(self)@.drop_last());
        assert(r == old(self).transactions@[old(self).transactions@.len() - 1]);
        r
    }

    /// Writes a new version of a value.
    ///
    /// This makes sure that the old version is not overwritten and can be
    /// properly rolled back when required.
    pub fn set(
        &mut self,
        value: Option<StorageValue>,
        first_write_in_tx: bool,
        at_extrinsic: Option<u32>,
    )
        requires
            old(self).versions_wf(),
        ensures
            final(self).wf(),
            final(self)@ == stack_write(
                old(self)@,
                value_view(value),
                first_write_in_tx,
                at_extrinsic,
            ),
    {
        let ghost given = value_view(value);
        if first_write_in_tx || self.transactions.len() == 0 {
            self.transactions.push(InnerValue::new(value));
            assert(self@ =~= old(self)@.push(fresh_version(given)));
        } else {
            let n = self.transactions.len();
            self.transactions[n - 1].value = value;
            assert(self@ =~= with_top_value(old(self)@, given));
        }
        let ghost placed = self@;
        assert(self.versions_wf());
        if let Some(extrinsic) = at_extrinsic {
            let n = self.transactions.len();
            insert_index(&mut self.transactions[n - 1].extrinsics, extrinsic);
            assert(placed.last().extrinsics.union(optional_index(at_extrinsic))
                =~= placed.last().extrinsics.insert(extrinsic));
            assert(self@ =~= with_top_extrinsic(placed, at_extrinsic));
        } else {
            assert(placed.last().extrinsics.union(optional_index(at_extrinsic))
                =~= placed.last().extrinsics);
            assert(self@ =~= with_top_extrinsic(placed, at_extrinsic));
        }
    }
}

} // verus!
