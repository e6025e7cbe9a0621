use crate::diffing::diff::{
    Diff, DiffItemAdded, DiffItemDeleted, DiffItemModified, DiffItemTypeChanged,
    DiffItemView, DiffType,
};
use crate::drivers::common::DriverItemMetadata;
use vstd::prelude::*;

verus! {

/// The path and payload of a record, if the record is an addition.
pub open spec fn as_added(item: DiffItemView) -> Option<(Seq<char>, DiffItemAdded)> {
    match item.status {
        DiffType::Added(a) => Some((item.path, a)),
        _ => None,
    }
}

/// The path and payload of a record, if the record is a modification.
pub open spec fn as_modified(item: DiffItemView) -> Option<(Seq<char>, DiffItemModified)> {
    match item.status {
        DiffType::Modified(m) => Some((item.path, m)),
        _ => None,
    }
}

/// The path and payload of a record, if the record is a change of type.
pub open spec fn as_type_changed(item: DiffItemView) -> Option<(Seq<char>, DiffItemTypeChanged)> {
    match item.status {
        DiffType::TypeChanged(t) => Some((item.path, t)),
        _ => None,
    }
}

/// The path and payload of a record, if the record is a deletion.
pub open spec fn as_deleted(item: DiffItemView) -> Option<(Seq<char>, DiffItemDeleted)> {
    match item.status {
        DiffType::Deleted(d) => Some((item.path, d)),
        _ => None,
    }
}

/// The mathematical value of a [`CategorizedDiff`]: one list for each kind of change.
pub struct CategorizedDiffView {
    pub added: Seq<(Seq<char>, DiffItemAdded)>,
    pub modified: Seq<(Seq<char>, DiffItemModified)>,
    pub type_changed: Seq<(Seq<char>, DiffItemTypeChanged)>,
    pub deleted: Seq<(Seq<char>, DiffItemDeleted)>,
}

/// The records of `diff` sorted into one list for each kind of change. Each list holds
/// the records of its kind in the order in which `diff` holds them.
pub open spec fn categorized(diff: Seq<DiffItemView>) -> CategorizedDiffView {
    CategorizedDiffView {
        added: diff.filter_map(|item: DiffItemView| as_added(item)),
        modified: diff.filter_map(|item: DiffItemView| as_modified(item)),
        type_changed: diff.filter_map(|item: DiffItemView| as_type_changed(item)),
        deleted: diff.filter_map(|item: DiffItemView| as_deleted(item)),
    }
}

/// The values of a list of paths with payloads, in the same order.
pub open spec fn entry_views<P>(entries: Seq<(String, P)>) -> Seq<(Seq<char>, P)> {
    Seq::new(entries.len(), |i: int| (entries[i].0@, entries[i].1))
}

/// The bytes that bringing an item over takes: the size of a file, nothing for a directory.
pub open spec fn size_of_new(metadata: DriverItemMetadata) -> nat {
    match metadata {
        DriverItemMetadata::File(file) => file.size as nat,
        DriverItemMetadata::Directory => 0,
    }
}

/// The sum of the sizes of what the additions bring.
pub open spec fn added_size(entries: Seq<(Seq<char>, DiffItemAdded)>) -> nat
    decreases entries.len(),
{
    if entries.len() == 0 {
        0
    } else {
        added_size(entries.drop_last()) + size_of_new(entries.last().1.new)
    }
}

/// The sum of the sizes of the files as modified.
pub open spec fn modified_size(entries: Seq<(Seq<char>, DiffItemModified)>) -> nat
    decreases entries.len(),
{
    if entries.len() == 0 {
        0
    } else {
        modified_size(entries.drop_last()) + entries.last().1.new.size as nat
    }
}

/// The sum of the sizes of what the changes of type bring.
pub open spec fn type_changed_size(entries: Seq<(Seq<char>, DiffItemTypeChanged)>) -> nat
    decreases entries.len(),
{
    if entries.len() == 0 {
        0
    } else {
        type_changed_size(entries.drop_last()) + size_of_new(entries.last().1.new)
    }
}

impl CategorizedDiffView {
    /// The number of items to bring over: every addition, modification and change of type.
    pub open spec fn transfer_count(self) -> nat {
        self.added.len() + self.modified.len() + self.type_changed.len()
    }

    /// The number of items to remove: every change of type and deletion.
    pub open spec fn delete_count(self) -> nat {
        self.type_changed.len() + self.deleted.len()
    }

    /// The number of bytes to bring over: the sizes of the new files among the additions,
    /// modifications and changes of type.
    pub open spec fn transfer_size(self) -> nat {
        added_size(self.added) + modified_size(self.modified) + type_changed_size(
            self.type_changed,
        )
    }
}

/// Adds up the sizes of what the additions bring.
fn sum_added(entries: &Vec<(String, DiffItemAdded)>) -> (r: u128)
    ensures
        r == added_size(entry_views(entries@)),
        r <= entries@.len() * u64::MAX,
{
    let ghost views = entry_views(entries@);
    let mut total: u128 = 0;
    let mut i: usize = 0;
    assert(views.take(0) =~= Seq::<(Seq<char>, DiffItemAdded)>::empty());
    while i < entries.len()
        invariant
            0 <= i <= entries.len(),
            views == entry_views(entries@),
            total == added_size(views.take(i as int)),
            total <= i * u64::MAX,
        decreases entries.len() - i,
    {
        assert(views.take(i + 1).drop_last() =~= views.take(i as int));
        let size = match entries[i].1.new.size() {
            Some(size) => size,
            None => 0,
        };
        total = total + size as u128;
        i += 1;
    }
    assert(views.take(i as int) =~= views);
    total
}

/// Adds up the sizes of the files as modified.
fn sum_modified(entries: &Vec<(String, DiffItemModified)>) -> (r: u128)
    ensures
        r == modified_size(entry_views(entries@)),
        r <= entries@.len() * u64::MAX,
{
    let ghost views = entry_views(entries@);
    let mut total: u128 = 0;
    let mut i: usize = 0;
    assert(views.take(0) =~= Seq::<(Seq<char>, DiffItemModified)>::empty());
    while i < entries.len()
        invariant
            0 <= i <= entries.len(),
            views == entry_views(entries@),
            total == modified_size(views.take(i as int)),
            total <= i * u64::MAX,
        decreases entries.len() - i,
    {
        assert(views.take(i + 1).drop_last() =~= views.take(i as int));
        total = total + entries[i].1.new.size as u128;
        i += 1;
    }
    assert(views.take(i as int) =~= views);
    total
}

/// Adds up the sizes of what the changes of type bring.
fn sum_type_changed(entries: &Vec<(String, DiffItemTypeChanged)>) -> (r: u128)
    ensures
        r == type_changed_size(entry_views(entries@)),
        r <= entries@.len() * u64::MAX,
{
    let ghost views = entry_views(entries@);
    let mut total: u128 = 0;
    let mut i: usize = 0;
    assert(views.take(0) =~= Seq::<(Seq<char>, DiffItemTypeChanged)>::empty());
    while i < entries.len()
        invariant
            0 <= i <= entries.len(),
            views == entry_views(entries@),
            total == type_changed_size(views.take(i as int)),
            total <= i * u64::MAX,
        decreases entries.len() - i,
    {
        assert(views.take(i + 1).drop_last() =~= views.take(i as int));
        let size = match entries[i].1.new.size() {
            Some(size) => size,
            None => 0,
        };
        total = total + size as u128;
        i += 1;
    }
    assert(views.take(i as int) =~= views);
    total
}

/// A diff sorted into one list for each kind of change.
#[derive(Debug)]
pub struct CategorizedDiff {
    added: Vec<(String, DiffItemAdded)>,
    modified: Vec<(String, DiffItemModified)>,
    type_changed: Vec<(String, DiffItemTypeChanged)>,
    deleted: Vec<(String, DiffItemDeleted)>,
}

impl View for CategorizedDiff {
    type V = CategorizedDiffView;

    closed spec fn view(&self) -> CategorizedDiffView {
        CategorizedDiffView {
            added: entry_views(self.added@),
            modified: entry_views(self.modified@),
            type_changed: entry_views(self.type_changed@),
            deleted: entry_views(self.deleted@),
        }
    }
}

impl CategorizedDiff {
    /// The lists come from one diff, so that their lengths can be added up.
    #[verifier::type_invariant]
    spec fn countable(&self) -> bool {
        self.added@.len() + self.modified@.len() + self.type_changed@.len() + self.deleted@.len()
            <= usize::MAX
    }

    /// Sorts the records of a diff into one list for each kind of change, keeping in each
    /// list the order that the records have in the diff.
    pub fn new(diff: Diff) -> (r: Self)
        ensures
            r@ == categorized(diff@),
    {
        let mut added: Vec<(String, DiffItemAdded)> = Vec::new();
        let mut modified: Vec<(String, DiffItemModified)> = Vec::new();
        let mut type_changed: Vec<(String, DiffItemTypeChanged)> = Vec::new();
        let mut deleted: Vec<(String, DiffItemDeleted)> = Vec::new();

        let items = diff.into_items();
        let ghost all = Seq::new(items@.len(), |i: int| items@[i]@);
        let ghost raw = items@;
        assert(raw.len() == items.len());
        assert(all == diff@);
        assert(all.take(0) =~= Seq::<DiffItemView>::empty());
        assert(all.take(0).filter_map(|item: DiffItemView| as_added(item)) =~= entry_views(added@));
        assert(all.take(0).filter_map(|item: DiffItemView| as_modified(item)) =~= entry_views(
            modified@,
        ));
        assert(all.take(0).filter_map(|item: DiffItemView| as_type_changed(item)) =~= entry_views(
            type_changed@,
        ));
        assert(all.take(0).filter_map(|item: DiffItemView| as_deleted(item)) =~= entry_views(
            deleted@,
        ));

        for item in it: items
            invariant
                it.seq() == raw,
                all == Seq::new(raw.len(), |i: int| raw[i]@),
                raw.len() <= usize::MAX,
                0 <= it.index() <= raw.len(),
                added@.len() + modified@.len() + type_changed@.len() + deleted@.len()
                    == it.index(),
                entry_views(added@) == all.take(it.index()).filter_map(
                    |item: DiffItemView| as_added(item),
                ),
                entry_views(modified@) == all.take(it.index()).filter_map(
                    |item: DiffItemView| as_modified(item),
                ),
                entry_views(type_changed@) == all.take(it.index()).filter_map(
                    |item: DiffItemView| as_type_changed(item),
                ),
                entry_views(deleted@) == all.take(it.index()).filter_map(
                    |item: DiffItemView| as_deleted(item),
                ),
        {
            let ghost n = it.index();
            let ghost before_added = entry_views(added@);
            let ghost before_modified = entry_views(modified@);
            let ghost before_type_changed = entry_views(type_changed@);
            let ghost before_deleted = entry_views(deleted@);
            proof {
                assert(all[n] == item@);
                all.lemma_filter_map_take_succ(|item: DiffItemView| as_added(item), n);
                all.lemma_filter_map_take_succ(|item: DiffItemView| as_modified(item), n);
                all.lemma_filter_map_take_succ(|item: DiffItemView| as_type_changed(item), n);
                all.lemma_filter_map_take_succ(|item: DiffItemView| as_deleted(item), n);
            }
            match item.status {
                DiffType::Added(i) => {
                    added.push((item.path, i));
                    assert(entry_views(added@) =~= before_added + seq![(item@.path, i)]);
                },
                DiffType::Modified(i) => {
                    modified.push((item.path, i));
                    assert(entry_views(modified@) =~= before_modified + seq![(item@.path, i)]);
                },
                DiffType::TypeChanged(i) => {
                    type_changed.push((item.path, i));
                    assert(entry_views(type_changed@) =~= before_type_changed + seq![
                        (item@.path, i),
                    ]);
                },
                DiffType::Deleted(i) => {
                    deleted.push((item.path, i));
                    assert(entry_views(deleted@) =~= before_deleted + seq![(item@.path, i)]);
                },
            }
            assert(entry_views(added@) =~= all.take(n + 1).filter_map(
                |item: DiffItemView| as_added(item),
            ));
            assert(entry_views(modified@) =~= all.take(n + 1).filter_map(
                |item: DiffItemView| as_modified(item),
            ));
            assert(entry_views(type_changed@) =~= all.take(n + 1).filter_map(
                |item: DiffItemView| as_type_changed(item),
            ));
            assert(entry_views(deleted@) =~= all.take(n + 1).filter_map(
                |item: DiffItemView| as_deleted(item),
            ));
        }
        assert(all.take(all.len() as int) =~= all);

        Self { added, modified, type_changed, deleted }
    }

    /// The additions, in the order of the diff.
    pub fn added(&self) -> (r: &Vec<(String, DiffItemAdded)>)
        ensures
            entry_views(r@) == self@.added,
    {
        &self.added
    }

    /// The modifications, in the order of the diff.
    pub fn modified(&self) -> (r: &Vec<(String, DiffItemModified)>)
        ensures
            entry_views(r@) == self@.modified,
    {
        &self.modified
    }

    /// The changes of type, in the order of the diff.
    pub fn type_changed(&self) -> (r: &Vec<(String, DiffItemTypeChanged)>)
        ensures
            entry_views(r@) == self@.type_changed,
    {
        &self.type_changed
    }

    /// The deletions, in the order of the diff.
    pub fn deleted(&self) -> (r: &Vec<(String, DiffItemDeleted)>)
        ensures
            entry_views(r@) == self@.deleted,
    {
        &self.deleted
    }

    /// The number of items to bring over.
    pub fn transfer_count(&self) -> (r: usize)
        ensures
            r == self@.transfer_count(),
    {
        proof {
            use_type_invariant(self);
        }
        self.added.len() + self.modified.len() + self.type_changed.len()
    }

    /// The number of bytes to bring over. The sum of that many sizes always fits the result.
    pub fn transfer_size(&self) -> (r: u128)
        ensures
            r == self@.transfer_size(),
    {
        proof {
            use_type_invariant(self);
        }
        sum_added(&self.added) + sum_modified(&self.modified) + sum_type_changed(
            &self.type_changed,
        )
    }

    /// The number of items to remove.
    pub fn delete_count(&self) -> (r: usize)
        ensures
            r == self@.delete_count(),
    {
        proof {
            use_type_invariant(self);
        }
        self.type_changed.len() + self.deleted.len()
    }
}

} // verus!
