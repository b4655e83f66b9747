//! The `FILES` table of the embedding database: rows of a random text id,
//! the embedding serialised as a blob, and the file's absolute path.
//!
//! A `Database` holds the table as its rows, in the order in which they
//! were inserted, or `None` while the table has not been created.

use vstd::prelude::*;
use crate::text::chars_equal;

verus! {

/// A row of `FILES`.
pub struct FileRow {
    pub id: String,
    pub emb: Vec<u8>,
    pub path: String,
}

/// A row as the contracts see it.
pub struct FileRowView {
    pub id: Seq<char>,
    pub emb: Seq<u8>,
    pub path: Seq<char>,
}

impl FileRow {
    pub open spec fn view(&self) -> FileRowView {
        FileRowView { id: self.id@, emb: self.emb@, path: self.path@ }
    }
}

/// The database: the `FILES` table, once created.
pub struct Database {
    pub files: Option<Vec<FileRow>>,
}

/// The rows as the contracts see them.
pub open spec fn rows_view(rows: Seq<FileRow>) -> Seq<FileRowView> {
    rows.map_values(|r: FileRow| r.view())
}

/// The paths of the rows, in order.
pub open spec fn row_paths(rows: Seq<FileRowView>) -> Seq<Seq<char>> {
    rows.map_values(|r: FileRowView| r.path)
}

impl View for Database {
    type V = Option<Seq<FileRowView>>;

    open spec fn view(&self) -> Option<Seq<FileRowView>> {
        match self.files {
            Some(rows) => Some(rows_view(rows@)),
            None => None,
        }
    }
}

/// What a statement on the table can fail with.
#[derive(PartialEq, Eq, Structural, Debug, Clone, Copy)]
pub enum SqlError {
    /// `FILES` has not been created.
    NoSuchTable,
    /// A query for one row found none.
    QueryReturnedNoRows,
    /// An insert would give two rows the same id (the primary key).
    ConstraintViolation,
}

/// Some row has this path.
pub open spec fn has_path(rows: Seq<FileRowView>, path: Seq<char>) -> bool {
    exists|i: int| 0 <= i < rows.len() && #[trigger] rows[i].path == path
}

/// Some row has this id.
pub open spec fn has_id(rows: Seq<FileRowView>, id: Seq<char>) -> bool {
    exists|i: int| 0 <= i < rows.len() && #[trigger] rows[i].id == id
}

/// No two rows share an id, and no two share a path.
pub open spec fn table_wf(rows: Seq<FileRowView>) -> bool {
    forall|i: int, j: int|
        0 <= i < rows.len() && 0 <= j < rows.len() && i != j ==> #[trigger] rows[i].id
            != #[trigger] rows[j].id && rows[i].path != rows[j].path
}

/// `UPDATE FILES SET emb = blob WHERE path = address`.
pub open spec fn updated(rows: Seq<FileRowView>, address: Seq<char>, blob: Seq<u8>) -> Seq<FileRowView> {
    rows.map_values(
        |r: FileRowView|
            if r.path == address {
                FileRowView { id: r.id, emb: blob, path: r.path }
            } else {
                r
            },
    )
}

/// `DELETE FROM FILES WHERE path = address`.
pub open spec fn deleted(rows: Seq<FileRowView>, address: Seq<char>) -> Seq<FileRowView> {
    rows.filter(keeps(address))
}

/// The rows that `DELETE ... WHERE path = address` keeps.
pub open spec fn keeps(address: Seq<char>) -> spec_fn(FileRowView) -> bool {
    |r: FileRowView| r.path != address
}

/// The blob of the first row with this path.
pub open spec fn first_blob(rows: Seq<FileRowView>, address: Seq<char>) -> Option<Seq<u8>> {
    match row_paths(rows).index_of_first(address) {
        Some(i) => Some(rows[i].emb),
        None => None,
    }
}

/// The table after `insert_embedding` with the row id `id`: the embedding of
/// a tracked path is updated, an untracked path gets a new row at the end.
pub open spec fn inserted_with_id(
    rows: Seq<FileRowView>,
    address: Seq<char>,
    blob: Seq<u8>,
    id: Seq<char>,
) -> Seq<FileRowView> {
    if has_path(rows, address) {
        updated(rows, address, blob)
    } else {
        rows.push(FileRowView { id, emb: blob, path: address })
    }
}

/// The database after `CREATE TABLE IF NOT EXISTS FILES`.
pub open spec fn created(db: Option<Seq<FileRowView>>) -> Option<Seq<FileRowView>> {
    match db {
        Some(rows) => Some(rows),
        None => Some(Seq::<FileRowView>::empty()),
    }
}

/// `CREATE TABLE IF NOT EXISTS FILES`: creates the empty table, and leaves
/// an existing one as it is.
pub fn make_sql_table(db: &mut Database) -> (res: Result<(), SqlError>)
    ensures
        res is Ok,
        final(db)@ == created(old(db)@),
{
    if db.files.is_none() {
        db.files = Some(Vec::new());
        assert(db@->0 =~= Seq::<FileRowView>::empty());
    }
    Ok(())
}

fn rows_has_path(rows: &Vec<FileRow>, abs_path: &str) -> (res: bool)
    ensures
        res == has_path(rows_view(rows@), abs_path@),
{
    let ghost v = rows_view(rows@);
    let n = rows.len();
    let mut i: usize = 0;
    while i < n
        invariant
            n == rows@.len(),
            v == rows_view(rows@),
            i <= n,
            forall|t: int| 0 <= t < i ==> v[t].path != abs_path@,
        decreases n - i,
    {
        if chars_equal(rows[i].path.as_str(), abs_path) {
            assert(v[i as int].path == abs_path@);
            return true;
        }
        i = i + 1;
    }
    false
}

/// Whether some row of `FILES` has this path. The table must exist.
pub fn path_exists(db: &Database, abs_path: &str) -> (res: bool)
    requires
        db@ is Some,
    ensures
        res == has_path(db@->0, abs_path@),
{
    match &db.files {
        Some(rows) => rows_has_path(rows, abs_path),
        None => false,
    }
}

/// Inserts or updates the embedding of `address`, giving a new row the id
/// `id`. A new row whose id is taken already is refused.
pub fn insert_embedding_with_id(db: &mut Database, address: &str, blob: Vec<u8>, id: String) -> (res:
    Result<(), SqlError>)
    requires
        old(db)@ is Some,
    ensures
        final(db)@ is Some,
        has_path(old(db)@->0, address@) ==> res is Ok,
        !has_path(old(db)@->0, address@) ==> (res is Ok <==> !has_id(old(db)@->0, id@)),
        res is Ok ==> final(db)@->0 == inserted_with_id(old(db)@->0, address@, blob@, id@),
        res is Err ==> res == Err::<(), SqlError>(SqlError::ConstraintViolation) && final(db)@
            == old(db)@,
{
    let mut rows = db.files.take().unwrap();
    let ghost v = rows_view(rows@);
    assert(v == old(db)@->0);
    let n = rows.len();
    if rows_has_path(&rows, address) {
        let mut i: usize = 0;
        while i < n
            invariant
                n == rows@.len(),
                i <= n,
                v.len() == n,
                forall|t: int|
                    0 <= t < n ==> #[trigger] rows@[t].view() == if t < i {
                        updated(v, address@, blob@)[t]
                    } else {
                        v[t]
                    },
            decreases n - i,
        {
            assert(rows@[i as int].view() == v[i as int]);
            if chars_equal(rows[i].path.as_str(), address) {
                let row = FileRow {
                    id: rows[i].id.clone(),
                    emb: blob.clone(),
                    path: rows[i].path.clone(),
                };
                assert(row.emb@ =~= blob@);
                rows.set(i, row);
                assert(rows@[i as int].view() == updated(v, address@, blob@)[i as int]);
            } else {
                assert(rows@[i as int].view() == updated(v, address@, blob@)[i as int]);
            }
            i = i + 1;
        }
        assert(rows_view(rows@) =~= updated(v, address@, blob@));
        db.files = Some(rows);
        Ok(())
    } else {
        let mut j: usize = 0;
        while j < n
            invariant
                n == rows@.len(),
                j <= n,
                v == rows_view(rows@),
                old(db)@ is Some,
                v == old(db)@->0,
                !has_path(old(db)@->0, address@),
                forall|t: int| 0 <= t < j ==> v[t].id != id@,
            decreases n - j,
        {
            if chars_equal(rows[j].id.as_str(), id.as_str()) {
                assert(v[j as int].id == id@);
                db.files = Some(rows);
                assert(db@ == old(db)@);
                return Err(SqlError::ConstraintViolation);
            }
            j = j + 1;
        }
        let path = String::from_str(address);
        rows.push(FileRow { id, emb: blob, path });
        assert(rows_view(rows@) =~= inserted_with_id(
            v,
            address@,
            blob@,
            id@,
        ));
        db.files = Some(rows);
        Ok(())
    }
}

/// A lowercase hexadecimal digit.
pub open spec fn is_lower_hex(c: char) -> bool {
    ('0' <= c && c <= '9') || ('a' <= c && c <= 'f')
}

/// The hyphenated text of a version-4 UUID: 36 chars, `-` at positions 8,
/// 13, 18 and 23, lowercase hexadecimal digits elsewhere, the version digit
/// `4` at position 14, and the variant digit `8`, `9`, `a` or `b` at 19.
pub open spec fn is_uuid_v4_text(id: Seq<char>) -> bool {
    &&& id.len() == 36
    &&& forall|i: int|
        0 <= i < 36 ==> if i == 8 || i == 13 || i == 18 || i == 23 {
            #[trigger] id[i] == '-'
        } else {
            is_lower_hex(id[i])
        }
    &&& id[14] == '4'
    &&& (id[19] == '8' || id[19] == '9' || id[19] == 'a' || id[19] == 'b')
}

/// A fresh row id: the text form of a random version-4 UUID.
///
/// Calls `uuid::Uuid::new_v4` and formats it with `to_string`, which writes
/// the lowercase hyphenated form. `new_v4` fixes the version and variant
/// bits of its random value, so every outcome is version-4 UUID text; the
/// other digits are random and nothing is claimed of them.
#[verifier::external_body]
fn fresh_row_id() -> (id: String)
    ensures
        is_uuid_v4_text(id@),
{
    uuid::Uuid::new_v4().to_string()
}

/// Inserts or updates the embedding of `address`: the rows with that path
/// get the new blob; a new path gets a new row with a fresh random id. The
/// insert fails only when the random id is taken already, which cannot
/// happen while no id in the table is version-4 UUID text.
pub fn insert_embedding(db: &mut Database, address: &str, blob: Vec<u8>) -> (res: Result<(), SqlError>)
    requires
        old(db)@ is Some,
    ensures
        final(db)@ is Some,
        has_path(old(db)@->0, address@) ==> res is Ok && final(db)@->0 == updated(
            old(db)@->0,
            address@,
            blob@,
        ),
        !has_path(old(db)@->0, address@) ==> match res {
            Ok(()) => exists|id: Seq<char>|
                is_uuid_v4_text(id) && !has_id(old(db)@->0, id) && final(db)@->0 == old(
                    db,
                )@->0.push(FileRowView { id, emb: blob@, path: address@ }),
            Err(e) => e == SqlError::ConstraintViolation && final(db)@ == old(db)@ && exists|
                id: Seq<char>,
            | is_uuid_v4_text(id) && has_id(old(db)@->0, id),
        },
{
    let id = fresh_row_id();
    let ghost idv = id@;
    let res = insert_embedding_with_id(db, address, blob, id);
    proof {
        if !has_path(old(db)@->0, address@) {
            if res is Ok {
                assert(final(db)@->0 == old(db)@->0.push(
                    FileRowView { id: idv, emb: blob@, path: address@ },
                ));
            } else {
                assert(is_uuid_v4_text(idv) && has_id(old(db)@->0, idv));
            }
        }
    }
    res
}

/// The embedding blob stored for `address`.
pub fn get_embedding(db: &Database, address: &str) -> (res: Result<Vec<u8>, SqlError>)
    ensures
        match db@ {
            None => res == Err::<Vec<u8>, SqlError>(SqlError::NoSuchTable),
            Some(rows) => match first_blob(rows, address@) {
                Some(b) => res matches Ok(v) && v@ == b,
                None => res == Err::<Vec<u8>, SqlError>(SqlError::QueryReturnedNoRows),
            },
        },
{
    match &db.files {
        None => Err(SqlError::NoSuchTable),
        Some(rows) => {
            let ghost v = rows_view(rows@);
            let ghost ps = row_paths(v);
            proof {
                ps.index_of_first_ensures(address@);
            }
            let n = rows.len();
            let mut i: usize = 0;
            while i < n
                invariant
                    n == rows@.len(),
                    v == rows_view(rows@),
                    ps == row_paths(v),
                    db@ == Some(v),
                    i <= n,
                    forall|t: int| 0 <= t < i ==> ps[t] != address@,
                    match ps.index_of_first(address@) {
                        Some(index) => {
                            &&& 0 <= index < n
                            &&& ps[index] == address@
                            &&& forall|j: int| 0 <= j < index < n ==> ps[j] != address@
                        },
                        None => !ps.contains(address@),
                    },
                decreases n - i,
            {
                if chars_equal(rows[i].path.as_str(), address) {
                    assert(ps[i as int] == address@);
                    assert(v[i as int] == rows@[i as int].view());
                    let blob = rows[i].emb.clone();
                    assert(blob@ =~= rows[i as int].emb@);
                    return Ok(blob);
                }
                i = i + 1;
            }
            Err(SqlError::QueryReturnedNoRows)
        },
    }
}

/// Deletes every row with this path. The path must be in the table.
pub fn remove_row(db: &mut Database, abs_path: &str)
    requires
        old(db)@ is Some,
        has_path(old(db)@->0, abs_path@),
    ensures
        final(db)@ == Some(deleted(old(db)@->0, abs_path@)),
{
    let rows = db.files.take().unwrap();
    let ghost v = rows_view(rows@);
    let n = rows.len();
    let mut kept: Vec<FileRow> = Vec::new();
    let mut rest = rows;
    let mut i: usize = 0;
    while i < n
        invariant
            n == v.len(),
            i <= n,
            rest@.len() == n - i,
            forall|t: int| 0 <= t < n - i ==> #[trigger] rest@[t].view() == v[i + t],
            rows_view(kept@) == v.take(i as int).filter(
                keeps(abs_path@),
            ),
        decreases n - i,
    {
        let row = rest.remove(0);
        assert(row.view() == v[i as int]);
        let keep = !chars_equal(row.path.as_str(), abs_path);
        let ghost before = kept@;
        proof {
            assert(v.take(i + 1).drop_last() =~= v.take(i as int));
        }
        if keep {
            kept.push(row);
        }
        proof {
            reveal_with_fuel(Seq::filter, 1);
            assert(v.take(i + 1).filter(keeps(abs_path@)) == if keep {
                v.take(i as int).filter(keeps(abs_path@)).push(v[i as int])
            } else {
                v.take(i as int).filter(keeps(abs_path@))
            });
            assert(rows_view(kept@) =~= v.take(i + 1).filter(
                keeps(abs_path@),
            ));
        }
        i = i + 1;
    }
    assert(v.take(n as int) =~= v);
    db.files = Some(kept);
}

/// Creating the table a second time changes nothing.
pub proof fn lemma_make_table_idempotent(db: Option<Seq<FileRowView>>)
    ensures
        created(created(db)) == created(db),
        created(db) is Some,
{
}

proof fn lemma_row_paths(rows: Seq<FileRowView>)
    ensures
        row_paths(rows).len() == rows.len(),
        forall|i: int| 0 <= i < rows.len() ==> #[trigger] row_paths(rows)[i] == rows[i].path,
{
}

/// After an accepted insert, reading the path back gives the blob just
/// written.
pub proof fn lemma_insert_then_get(
    rows: Seq<FileRowView>,
    address: Seq<char>,
    blob: Seq<u8>,
    id: Seq<char>,
)
    requires
        has_path(rows, address) || !has_id(rows, id),
    ensures
        has_path(inserted_with_id(rows, address, blob, id), address),
        first_blob(inserted_with_id(rows, address, blob, id), address) == Some(blob),
{
    let t = inserted_with_id(rows, address, blob, id);
    lemma_row_paths(rows);
    lemma_row_paths(t);
    row_paths(t).index_of_first_ensures(address);
    if has_path(rows, address) {
        let w = choose|w: int| 0 <= w < rows.len() && rows[w].path == address;
        assert(t[w].path == address);
        assert(row_paths(t)[w] == address);
    } else {
        assert(t[rows.len() as int].path == address);
        assert(row_paths(t)[rows.len() as int] == address);
    }
    let i = row_paths(t).index_of_first(address).unwrap();
    assert(t[i].path == address);
}

/// An insert leaves what is read for every other path as it was.
pub proof fn lemma_insert_keeps_others(
    rows: Seq<FileRowView>,
    address: Seq<char>,
    blob: Seq<u8>,
    id: Seq<char>,
    other: Seq<char>,
)
    requires
        other != address,
    ensures
        has_path(inserted_with_id(rows, address, blob, id), other) == has_path(rows, other),
        first_blob(inserted_with_id(rows, address, blob, id), other) == first_blob(rows, other),
{
    let t = inserted_with_id(rows, address, blob, id);
    lemma_row_paths(rows);
    lemma_row_paths(t);
    row_paths(t).index_of_first_ensures(other);
    row_paths(rows).index_of_first_ensures(other);
    assert forall|j: int| 0 <= j < rows.len() implies #[trigger] t[j].path == rows[j].path && (
    rows[j].path == other ==> t[j] == rows[j]) by {}
    if has_path(rows, other) {
        let w = choose|w: int| 0 <= w < rows.len() && rows[w].path == other;
        assert(t[w].path == other);
        assert(row_paths(rows)[w] == other);
    }
    if has_path(t, other) {
        let w = choose|w: int| 0 <= w < t.len() && t[w].path == other;
        assert(w < rows.len());
        assert(rows[w].path == other);
        assert(row_paths(t)[w] == other);
    }
    match (row_paths(rows).index_of_first(other), row_paths(t).index_of_first(other)) {
        (Some(i), Some(j)) => {
            if i < j {
                assert(row_paths(t)[i] == other);
            }
            if j < i {
                assert(row_paths(rows)[j] == other);
            }
        },
        _ => {},
    }
}

/// An accepted insert keeps ids and paths unique.
pub proof fn lemma_insert_keeps_wf(
    rows: Seq<FileRowView>,
    address: Seq<char>,
    blob: Seq<u8>,
    id: Seq<char>,
)
    requires
        table_wf(rows),
        has_path(rows, address) || !has_id(rows, id),
    ensures
        table_wf(inserted_with_id(rows, address, blob, id)),
{
    let t = inserted_with_id(rows, address, blob, id);
    if has_path(rows, address) {
        assert forall|i: int, j: int|
            0 <= i < t.len() && 0 <= j < t.len() && i != j implies #[trigger] t[i].id
            != #[trigger] t[j].id && t[i].path != t[j].path by {
            assert(t[i].id == rows[i].id && t[i].path == rows[i].path);
            assert(t[j].id == rows[j].id && t[j].path == rows[j].path);
        }
    } else {
        assert forall|i: int, j: int|
            0 <= i < t.len() && 0 <= j < t.len() && i != j implies #[trigger] t[i].id
            != #[trigger] t[j].id && t[i].path != t[j].path by {
            assert(t == rows.push(FileRowView { id, emb: blob, path: address }));
            if i < rows.len() && j < rows.len() {
                assert(t[i] == rows[i] && t[j] == rows[j]);
            } else if i < rows.len() {
                assert(t[i] == rows[i]);
                assert(rows[i].id != id);
                assert(rows[i].path != address);
            } else {
                assert(t[j] == rows[j]);
                assert(rows[j].id != id);
                assert(rows[j].path != address);
            }
        }
    }
}

/// After a row is removed its path is gone, and every other path is still
/// there or still absent.
pub proof fn lemma_remove_forgets(rows: Seq<FileRowView>, address: Seq<char>, other: Seq<char>)
    requires
        other != address,
    ensures
        !has_path(deleted(rows, address), address),
        has_path(deleted(rows, address), other) == has_path(rows, other),
        table_wf(rows) ==> table_wf(deleted(rows, address)),
{
    let pred = keeps(address);
    let t = deleted(rows, address);
    broadcast use vstd::seq_lib::group_filter_ensures;
    broadcast use Seq::lemma_filter_contains_rev;
    if has_path(t, address) {
        let w = choose|w: int| 0 <= w < t.len() && t[w].path == address;
        assert(pred(t[w]));
    }
    if has_path(rows, other) {
        let w = choose|w: int| 0 <= w < rows.len() && rows[w].path == other;
        assert(rows.contains(rows[w]));
        assert(pred(rows[w]));
        assert(t.contains(rows[w]));
    }
    if has_path(t, other) {
        let w = choose|w: int| 0 <= w < t.len() && t[w].path == other;
        assert(t.contains(t[w]));
        assert(rows.contains(t[w]));
    }
    if table_wf(rows) {
        lemma_filter_keeps_wf(rows, address);
    }
}

proof fn lemma_filter_keeps_wf(rows: Seq<FileRowView>, address: Seq<char>)
    requires
        table_wf(rows),
    ensures
        table_wf(deleted(rows, address)),
    decreases rows.len(),
{
    let pred = keeps(address);
    if rows.len() > 0 {
        let init = rows.drop_last();
        assert(table_wf(init)) by {
            assert forall|i: int, j: int|
                0 <= i < init.len() && 0 <= j < init.len() && i != j implies #[trigger] init[i].id
                != #[trigger] init[j].id && init[i].path != init[j].path by {
                assert(init[i] == rows[i] && init[j] == rows[j]);
            }
        }
        lemma_filter_keeps_wf(init, address);
        reveal_with_fuel(Seq::filter, 1);
        assert(init =~= rows.drop_last());
        let ti = deleted(init, address);
        let t = deleted(rows, address);
        let last = rows.last();
        if pred(last) {
            assert(t == ti.push(last));
            broadcast use vstd::seq_lib::group_filter_ensures;
            broadcast use Seq::lemma_filter_contains_rev;
            assert forall|i: int, j: int|
                0 <= i < t.len() && 0 <= j < t.len() && i != j implies #[trigger] t[i].id
                != #[trigger] t[j].id && t[i].path != t[j].path by {
                if i < ti.len() && j < ti.len() {
                    assert(t[i] == ti[i] && t[j] == ti[j]);
                } else if i < ti.len() {
                    assert(ti.contains(ti[i]));
                    assert(init.contains(ti[i]));
                    let w = choose|w: int| 0 <= w < init.len() && init[w] == ti[i];
                    assert(rows[w] == init[w]);
                    assert(rows[rows.len() - 1] == last);
                } else {
                    assert(ti.contains(ti[j]));
                    assert(init.contains(ti[j]));
                    let w = choose|w: int| 0 <= w < init.len() && init[w] == ti[j];
                    assert(rows[w] == init[w]);
                    assert(rows[rows.len() - 1] == last);
                }
            }
        } else {
            assert(t == ti);
        }
    }
}

} // verus!
