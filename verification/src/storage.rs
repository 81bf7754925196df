//! The record store: the layer above the pager that associates pages
//! with tables and field-name/value record semantics.
//!
//! It owns one pager, a page directory mapping each table name to the
//! identifiers of the pages holding that table's records, and a schema
//! directory of declared field descriptors. A page belongs to exactly
//! one table from the moment it is inserted, and a table's identifier
//! set only grows: no removal operation exists. The schema directory
//! is declared but populated by no operation yet; records are not
//! validated against it.

use vstd::prelude::*;

use crate::codec::{marshall, spec_marshall_record, Record};
use crate::pager::{Page, Pager};
use crate::types::{FieldName, PageId, StorageError, TableName};

verus! {

/// Whether the directory has an entry for the given table.
pub open spec fn dir_contains(dir: Seq<(Seq<char>, Seq<PageId>)>, table: Seq<char>) -> bool {
    exists|i: int| 0 <= i < dir.len() && (#[trigger] dir[i]).0 == table
}

/// The identifiers of the pages holding the given table's records, in
/// insertion order; empty for a table with no record yet.
pub open spec fn dir_ids(dir: Seq<(Seq<char>, Seq<PageId>)>, table: Seq<char>) -> Seq<PageId> {
    if dir_contains(dir, table) {
        let i = choose|i: int| 0 <= i < dir.len() && (#[trigger] dir[i]).0 == table;
        dir[i].1
    } else {
        Seq::empty()
    }
}

/// No table name occurs twice in the directory.
pub open spec fn distinct_tables(dir: Seq<(Seq<char>, Seq<PageId>)>) -> bool {
    forall|i: int, j: int| 0 <= i < j < dir.len() ==> (#[trigger] dir[i]).0 != (#[trigger] dir[j]).0
}

/// Every identifier in the directory points at an existing page.
pub open spec fn ids_in_range(dir: Seq<(Seq<char>, Seq<PageId>)>, page_count: int) -> bool {
    forall|i: int, k: int|
        0 <= i < dir.len() && 0 <= k < dir[i].1.len() ==> (#[trigger] dir[i].1[k]).0 < page_count
}

/// A page identifier appears in at most one table's set, and at most
/// once there: a page belongs to exactly one table.
pub open spec fn ids_unique(dir: Seq<(Seq<char>, Seq<PageId>)>) -> bool {
    forall|i1: int, k1: int, i2: int, k2: int|
        0 <= i1 < dir.len() && 0 <= k1 < dir[i1].1.len() && 0 <= i2 < dir.len() && 0 <= k2
            < dir[i2].1.len() && (i1 != i2 || k1 != k2) ==> #[trigger] dir[i1].1[k1]
            != #[trigger] dir[i2].1[k2]
}

/// The record store.
pub struct StorageManager {
    pager: Pager,
    page_directory: Vec<(TableName, Vec<PageId>)>,
    schemas: Vec<(TableName, FieldName)>,
}

impl StorageManager {
    /// The payloads of all pages, in identifier order.
    pub closed spec fn pages(self) -> Seq<Seq<u8>> {
        self.pager@
    }

    /// The page directory: table names with their page identifiers.
    pub closed spec fn dir(self) -> Seq<(Seq<char>, Seq<PageId>)> {
        self.page_directory@.map_values(|e: (TableName, Vec<PageId>)| (e.0.0@, e.1@))
    }

    /// The schema directory: declared field descriptors per table.
    pub closed spec fn schema_entries(self) -> Seq<(Seq<char>, Seq<char>)> {
        self.schemas@.map_values(|e: (TableName, FieldName)| (e.0.0@, e.1.0@))
    }

    /// Internal consistency: the pager is well-formed, table names are
    /// unique, every directory identifier points at an existing page,
    /// and a page belongs to exactly one table.
    pub closed spec fn wf(self) -> bool {
        &&& self.pager.wf()
        &&& distinct_tables(self.dir())
        &&& ids_in_range(self.dir(), self.pages().len() as int)
        &&& ids_unique(self.dir())
    }

    pub fn new() -> (store: StorageManager)
        ensures
            store.wf(),
            store.pages().len() == 0,
            store.dir().len() == 0,
            store.schema_entries().len() == 0,
    {
        let store = StorageManager {
            pager: Pager::new(),
            page_directory: Vec::new(),
            schemas: Vec::new(),
        };
        proof {
            assert(store.dir() =~= Seq::<(Seq<char>, Seq<PageId>)>::empty());
            assert(store.schema_entries() =~= Seq::<(Seq<char>, Seq<char>)>::empty());
        }
        store
    }

    /// Serializes `data`, stores it as a fresh page, and registers the
    /// new page identifier under `table_name`, creating the table's
    /// directory entry on its first record. Never fails: the codec can
    /// represent every record and the pager always has room.
    pub fn insert_data(&mut self, table_name: TableName, data: Record) -> (result: Result<
        PageId,
        StorageError,
    >)
        requires
            old(self).wf(),
            data.wf(),
        ensures
            final(self).wf(),
            result is Ok,
            result matches Ok(id) ==> {
                &&& id.0 == old(self).pages().len()
                &&& final(self).pages() == old(self).pages().push(spec_marshall_record(data@))
                &&& dir_ids(final(self).dir(), table_name.0@) == dir_ids(
                    old(self).dir(),
                    table_name.0@,
                ).push(id)
                &&& forall|t: Seq<char>|
                    t != table_name.0@ ==> #[trigger] dir_ids(final(self).dir(), t) == dir_ids(
                        old(self).dir(),
                        t,
                    )
            },
            final(self).schema_entries() == old(self).schema_entries(),
    {
        let bytes = match marshall(&data) {
            Ok(b) => b,
            Err(e) => {
                return Err(e);
            },
        };
        let id = self.pager.store_new(bytes);
        let ghost mid = *self;
        proof {
            assert(self.dir() =~= old(self).dir());
            assert(self.schema_entries() =~= old(self).schema_entries());
        }
        let n = self.page_directory.len();
        let mut i: usize = 0;
        while i < n
            invariant
                *self == mid,
                old(self).wf(),
                mid.dir() == old(self).dir(),
                mid.schema_entries() == old(self).schema_entries(),
                mid.pages() == old(self).pages().push(spec_marshall_record(data@)),
                id.0 == old(self).pages().len(),
                mid.pager.wf(),
                n == self.page_directory@.len(),
                i <= n,
                forall|j: int| 0 <= j < i ==> (#[trigger] self.dir()[j]).0 != table_name.0@,
            decreases n - i,
        {
            if self.page_directory[i].0 == table_name {
                assert(self.dir()[i as int].0 == table_name.0@);
                let (tname, mut ids) = self.page_directory.remove(i);
                ids.push(id);
                self.page_directory.insert(i, (tname, ids));
                proof {
                    let updated = mid.dir().update(
                        i as int,
                        (mid.dir()[i as int].0, mid.dir()[i as int].1.push(id)),
                    );
                    assert(self.dir() =~= updated);
                    assert(self.schema_entries() =~= old(self).schema_entries());
                    lemma_dir_update_entry(mid.dir(), i as int, id);
                    lemma_range_after_update_entry(
                        mid.dir(),
                        i as int,
                        id,
                        old(self).pages().len() as int,
                    );
                }
                return Ok(id);
            }
            i += 1;
        }
        assert(!dir_contains(self.dir(), table_name.0@));
        self.page_directory.push((table_name, vec![id]));
        proof {
            let entry = self.page_directory@.last();
            assert(entry.1@ =~= seq![id]);
            assert(self.dir() =~= mid.dir().push((entry.0.0@, seq![id])));
            assert(self.schema_entries() =~= old(self).schema_entries());
            lemma_dir_push_entry(mid.dir(), entry.0.0@, id);
            lemma_range_after_push_entry(
                mid.dir(),
                entry.0.0@,
                id,
                old(self).pages().len() as int,
            );
        }
        Ok(id)
    }

    /// Serializes `data` and overwrites the identified page in place.
    /// The page keeps its identifier and its table; the directory is
    /// untouched. Fails, changing nothing, exactly when `id` was never
    /// allocated by this store's pager.
    ///
    /// Deliberately loose on ownership: no table name is taken and no
    /// set membership is checked, so the caller is trusted to pass an
    /// identifier obtained from a prior insert for the right table.
    pub fn update_data(&mut self, id: PageId, data: Record) -> (result: Result<
        PageId,
        StorageError,
    >)
        requires
            old(self).wf(),
            data.wf(),
        ensures
            final(self).wf(),
            result is Ok <==> id.0 < old(self).pages().len(),
            result matches Ok(returned) ==> {
                &&& returned == id
                &&& final(self).pages() == old(self).pages().update(
                    id.0 as int,
                    spec_marshall_record(data@),
                )
            },
            result is Err ==> final(self).pages() == old(self).pages(),
            final(self).dir() == old(self).dir(),
            final(self).schema_entries() == old(self).schema_entries(),
    {
        let bytes = match marshall(&data) {
            Ok(b) => b,
            Err(e) => {
                return Err(e);
            },
        };
        let result = self.pager.update(id, bytes);
        proof {
            assert(self.dir() =~= old(self).dir());
            assert(self.schema_entries() =~= old(self).schema_entries());
        }
        match result {
            Ok(()) => Ok(id),
            Err(e) => Err(e),
        }
    }

    /// Point lookup, delegated to the pager; callers deserialize the
    /// payload themselves via the codec.
    pub fn read(&self, id: PageId) -> (result: Option<&Page>)
        requires
            self.wf(),
        ensures
            result is Some <==> id.0 < self.pages().len(),
            id.0 < self.pages().len() ==> {
                &&& result matches Some(page)
                &&& page@ == self.pages()[id.0 as int]
                &&& page.wf()
            },
    {
        self.pager.read(id)
    }

    /// The identifiers of the pages registered under `table`, in
    /// insertion order; empty for an unknown table.
    pub fn table_pages(&self, table: &TableName) -> (ids: Vec<PageId>)
        requires
            self.wf(),
        ensures
            ids@ == dir_ids(self.dir(), table.0@),
    {
        let n = self.page_directory.len();
        let mut i: usize = 0;
        while i < n
            invariant
                self.wf(),
                n == self.page_directory@.len(),
                i <= n,
                forall|j: int| 0 <= j < i ==> (#[trigger] self.dir()[j]).0 != table.0@,
            decreases n - i,
        {
            if self.page_directory[i].0 == *table {
                assert(self.dir()[i as int].0 == table.0@);
                let found = &self.page_directory[i].1;
                let m = found.len();
                let mut out: Vec<PageId> = Vec::new();
                let mut k: usize = 0;
                while k < m
                    invariant
                        m == found@.len(),
                        k <= m,
                        out@ == found@.take(k as int),
                    decreases m - k,
                {
                    out.push(found[k]);
                    proof {
                        assert(found@.take(k + 1) =~= found@.take(k as int).push(
                            found@[k as int],
                        ));
                    }
                    k += 1;
                }
                proof {
                    assert(found@.take(m as int) =~= found@);
                    assert(dir_ids(self.dir(), table.0@) == self.dir()[i as int].1) by {
                        let c = choose|c: int|
                            0 <= c < self.dir().len() && (#[trigger] self.dir()[c]).0 == table.0@;
                        assert(self.dir()[c].0 == table.0@);
                    }
                }
                return out;
            }
            i += 1;
        }
        assert(!dir_contains(self.dir(), table.0@));
        Vec::new()
    }
}

/// Registering a fresh identifier under an existing table appends it
/// to that table's set and leaves every other table's set unchanged.
proof fn lemma_dir_update_entry(dir: Seq<(Seq<char>, Seq<PageId>)>, at: int, id: PageId)
    requires
        distinct_tables(dir),
        0 <= at < dir.len(),
    ensures
        ({
            let updated = dir.update(at, (dir[at].0, dir[at].1.push(id)));
            &&& distinct_tables(updated)
            &&& dir_ids(updated, dir[at].0) == dir_ids(dir, dir[at].0).push(id)
            &&& forall|t: Seq<char>|
                t != dir[at].0 ==> #[trigger] dir_ids(updated, t) == dir_ids(dir, t)
        }),
{
    let updated = dir.update(at, (dir[at].0, dir[at].1.push(id)));
    assert(updated[at].0 == dir[at].0);
    assert(dir_ids(dir, dir[at].0) == dir[at].1) by {
        let c = choose|c: int| 0 <= c < dir.len() && (#[trigger] dir[c]).0 == dir[at].0;
        assert(dir[c].0 == dir[at].0);
    }
    assert(dir_ids(updated, dir[at].0) == updated[at].1) by {
        let c = choose|c: int| 0 <= c < updated.len() && (#[trigger] updated[c]).0 == dir[at].0;
        assert(updated[c].0 == dir[at].0);
        assert(forall|i: int| 0 <= i < dir.len() ==> (#[trigger] updated[i]).0 == dir[i].0);
    }
    assert forall|t: Seq<char>| t != dir[at].0 implies #[trigger] dir_ids(updated, t) == dir_ids(
        dir,
        t,
    ) by {
        assert(forall|i: int| 0 <= i < dir.len() ==> (#[trigger] updated[i]).0 == dir[i].0);
        if dir_contains(dir, t) {
            let i = choose|i: int| 0 <= i < dir.len() && (#[trigger] dir[i]).0 == t;
            assert(updated[i].0 == t);
            let c = choose|c: int| 0 <= c < updated.len() && (#[trigger] updated[c]).0 == t;
            assert(dir[c].0 == t);
            assert(updated[c].1 == dir[c].1);
        } else {
            if dir_contains(updated, t) {
                let i = choose|i: int| 0 <= i < updated.len() && (#[trigger] updated[i]).0 == t;
                assert(dir[i].0 == t);
            }
        }
    }
}

/// Registering a table's first identifier creates its entry and
/// leaves every other table's set unchanged.
proof fn lemma_dir_push_entry(dir: Seq<(Seq<char>, Seq<PageId>)>, table: Seq<char>, id: PageId)
    requires
        distinct_tables(dir),
        !dir_contains(dir, table),
    ensures
        ({
            let pushed = dir.push((table, seq![id]));
            &&& distinct_tables(pushed)
            &&& dir_ids(pushed, table) == dir_ids(dir, table).push(id)
            &&& forall|t: Seq<char>|
                t != table ==> #[trigger] dir_ids(pushed, t) == dir_ids(dir, t)
        }),
{
    let pushed = dir.push((table, seq![id]));
    assert(pushed[dir.len() as int].0 == table);
    assert(dir_ids(pushed, table) == seq![id]) by {
        let c = choose|c: int| 0 <= c < pushed.len() && (#[trigger] pushed[c]).0 == table;
        assert(c == dir.len());
    }
    assert(dir_ids(dir, table).push(id) =~= seq![id]);
    assert forall|t: Seq<char>| t != table implies #[trigger] dir_ids(pushed, t) == dir_ids(
        dir,
        t,
    ) by {
        if dir_contains(dir, t) {
            let i = choose|i: int| 0 <= i < dir.len() && (#[trigger] dir[i]).0 == t;
            assert(pushed[i].0 == t);
            let c = choose|c: int| 0 <= c < pushed.len() && (#[trigger] pushed[c]).0 == t;
            assert(c < dir.len());
            assert(dir[c].0 == t);
        } else {
            if dir_contains(pushed, t) {
                let i = choose|i: int| 0 <= i < pushed.len() && (#[trigger] pushed[i]).0 == t;
                assert(i < dir.len());
                assert(dir[i].0 == t);
            }
        }
    }
}

/// A page belongs to at most one table: in a well-formed store, a
/// page identifier found in one table's set is in no other table's
/// set.
pub proof fn lemma_tables_disjoint(
    store: StorageManager,
    table: Seq<char>,
    other: Seq<char>,
    id: PageId,
)
    requires
        store.wf(),
        table != other,
        dir_ids(store.dir(), table).contains(id),
    ensures
        !dir_ids(store.dir(), other).contains(id),
{
    let dir = store.dir();
    let i1 = choose|i: int| 0 <= i < dir.len() && (#[trigger] dir[i]).0 == table;
    assert(dir_contains(dir, table));
    assert(dir[i1].0 == table);
    assert(dir_ids(dir, table) == dir[i1].1);
    let k1 = choose|k: int| 0 <= k < dir[i1].1.len() && dir[i1].1[k] == id;
    assert(dir[i1].1[k1] == id);
    if dir_contains(dir, other) {
        let i2 = choose|i: int| 0 <= i < dir.len() && (#[trigger] dir[i]).0 == other;
        assert(dir[i2].0 == other);
        assert(dir_ids(dir, other) == dir[i2].1);
        assert(i1 != i2);
        if dir_ids(dir, other).contains(id) {
            let k2 = choose|k: int| 0 <= k < dir[i2].1.len() && dir[i2].1[k] == id;
            assert(dir[i1].1[k1] != dir[i2].1[k2]);
        }
    }
}

/// A directory whose identifiers all point below `page_count` stays
/// in range and free of repeats after the fresh identifier
/// `page_count` is appended to one existing table's set.
proof fn lemma_range_after_update_entry(
    dir: Seq<(Seq<char>, Seq<PageId>)>,
    at: int,
    id: PageId,
    page_count: int,
)
    requires
        ids_in_range(dir, page_count),
        ids_unique(dir),
        id.0 == page_count,
        0 <= at < dir.len(),
    ensures
        ids_in_range(dir.update(at, (dir[at].0, dir[at].1.push(id))), page_count + 1),
        ids_unique(dir.update(at, (dir[at].0, dir[at].1.push(id)))),
{
    let updated = dir.update(at, (dir[at].0, dir[at].1.push(id)));
    let fresh = dir[at].1.len() as int;
    assert forall|i: int, k: int|
        0 <= i < updated.len() && 0 <= k < updated[i].1.len() implies (#[trigger] updated[i].1[k]).0
        < page_count + 1 by {
        if i != at || k < fresh {
            assert(updated[i].1[k] == dir[i].1[k]);
        }
    }
    assert forall|i1: int, k1: int, i2: int, k2: int|
        0 <= i1 < updated.len() && 0 <= k1 < updated[i1].1.len() && 0 <= i2 < updated.len() && 0
            <= k2 < updated[i2].1.len() && (i1 != i2 || k1 != k2) implies #[trigger] updated[i1].1[k1]
        != #[trigger] updated[i2].1[k2] by {
        let old1 = i1 != at || k1 < fresh;
        let old2 = i2 != at || k2 < fresh;
        if old1 && old2 {
            assert(updated[i1].1[k1] == dir[i1].1[k1]);
            assert(updated[i2].1[k2] == dir[i2].1[k2]);
        } else if old1 && !old2 {
            assert(updated[i1].1[k1] == dir[i1].1[k1]);
            assert(updated[i1].1[k1].0 < page_count);
            assert(updated[i2].1[k2] == id);
        } else if !old1 && old2 {
            assert(updated[i1].1[k1] == id);
            assert(updated[i2].1[k2] == dir[i2].1[k2]);
            assert(updated[i2].1[k2].0 < page_count);
        }
    }
}

/// The same, when the fresh identifier becomes the single element of
/// a brand-new table's set.
proof fn lemma_range_after_push_entry(
    dir: Seq<(Seq<char>, Seq<PageId>)>,
    table: Seq<char>,
    id: PageId,
    page_count: int,
)
    requires
        ids_in_range(dir, page_count),
        ids_unique(dir),
        id.0 == page_count,
    ensures
        ids_in_range(dir.push((table, seq![id])), page_count + 1),
        ids_unique(dir.push((table, seq![id]))),
{
    let pushed = dir.push((table, seq![id]));
    assert forall|i: int, k: int|
        0 <= i < pushed.len() && 0 <= k < pushed[i].1.len() implies (#[trigger] pushed[i].1[k]).0
        < page_count + 1 by {
        if i < dir.len() {
            assert(pushed[i].1[k] == dir[i].1[k]);
        } else {
            assert(pushed[i].1[k] == id);
        }
    }
    assert forall|i1: int, k1: int, i2: int, k2: int|
        0 <= i1 < pushed.len() && 0 <= k1 < pushed[i1].1.len() && 0 <= i2 < pushed.len() && 0 <= k2
            < pushed[i2].1.len() && (i1 != i2 || k1 != k2) implies #[trigger] pushed[i1].1[k1]
        != #[trigger] pushed[i2].1[k2] by {
        if i1 < dir.len() && i2 < dir.len() {
            assert(pushed[i1].1[k1] == dir[i1].1[k1]);
            assert(pushed[i2].1[k2] == dir[i2].1[k2]);
        } else if i1 < dir.len() {
            assert(pushed[i1].1[k1] == dir[i1].1[k1]);
            assert(pushed[i1].1[k1].0 < page_count);
            assert(pushed[i2].1[k2] == id);
        } else if i2 < dir.len() {
            assert(pushed[i1].1[k1] == id);
            assert(pushed[i2].1[k2] == dir[i2].1[k2]);
            assert(pushed[i2].1[k2].0 < page_count);
        }
    }
}

} // verus!
