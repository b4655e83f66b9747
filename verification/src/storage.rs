//! The store of tracked files, as the JSON file holds it: a `data` list of
//! entries, each normally with the file's name, absolute path and
//! embedding. An entry read from the file may lack a string `path` or an
//! array `vec`; such entries are kept as they are and skipped where a path
//! or an embedding is needed. Entries are looked up by path; where a path
//! occurs more than once, the first entry with it is the one that is read,
//! replaced or removed.

use vstd::prelude::*;
use crate::file_types::{file_name, file_name_of};
use crate::ranking::{lemma_ranking_exists, rank_indices, ranking, ranks_before};
use crate::text::chars_equal;

verus! {

/// Where an entry comes from: written by the store under a file name, or
/// read from the file as it was (`R` holds the entry as read).
pub enum Origin<R> {
    Named(String),
    Read(R),
}

/// An entry of the store. `path` is the entry's path when it is a string,
/// `vec` its embedding when it is an array.
pub struct Entry<V, R> {
    pub path: Option<String>,
    pub vec: Option<V>,
    pub origin: Origin<R>,
}

/// An entry's origin as the contracts see it.
pub enum OriginView<R> {
    Named(Seq<char>),
    Read(R),
}

/// An entry as the contracts see it.
pub struct EntryView<V, R> {
    pub path: Option<Seq<char>>,
    pub vec: Option<V>,
    pub origin: OriginView<R>,
}

impl<V, R> Entry<V, R> {
    pub open spec fn view(&self) -> EntryView<V, R> {
        EntryView {
            path: match self.path {
                Some(p) => Some(p@),
                None => None,
            },
            vec: self.vec,
            origin: match self.origin {
                Origin::Named(n) => OriginView::Named(n@),
                Origin::Read(r) => OriginView::Read(r),
            },
        }
    }
}

/// The entries as the contracts see them.
pub open spec fn entries_view<V, R>(entries: Seq<Entry<V, R>>) -> Seq<EntryView<V, R>> {
    entries.map_values(|e: Entry<V, R>| e.view())
}

/// The store: its `data` list, or `None` when the file's `data` is not a
/// list.
pub struct Store<V, R> {
    pub data: Option<Vec<Entry<V, R>>>,
}

impl<V, R> View for Store<V, R> {
    type V = Option<Seq<EntryView<V, R>>>;

    open spec fn view(&self) -> Option<Seq<EntryView<V, R>>> {
        match self.data {
            Some(entries) => Some(entries_view(entries@)),
            None => None,
        }
    }
}

/// Why a stored embedding cannot be read.
#[derive(PartialEq, Eq, Structural, Debug, Clone, Copy)]
pub enum StoreError {
    /// The entry for the path holds no embedding list.
    EmbeddingNotFound,
}

/// The paths of the entries, in order (`None` where an entry has none).
pub open spec fn paths<V, R>(s: Seq<EntryView<V, R>>) -> Seq<Option<Seq<char>>> {
    s.map_values(|e: EntryView<V, R>| e.path)
}

/// Where the entry for `address` stands: the first entry with that path.
pub open spec fn position<V, R>(s: Seq<EntryView<V, R>>, address: Seq<char>) -> Option<int> {
    paths(s).index_of_first(Some(address))
}

/// Some entry of the store has this path.
pub open spec fn is_tracked<V, R>(sv: Option<Seq<EntryView<V, R>>>, address: Seq<char>) -> bool {
    match sv {
        Some(s) => paths(s).contains(Some(address)),
        None => false,
    }
}

/// No path occurs twice.
pub open spec fn unique_paths<V, R>(s: Seq<EntryView<V, R>>) -> bool {
    forall|i: int, j: int|
        0 <= i < s.len() && 0 <= j < s.len() && i != j && s[i].path is Some ==> #[trigger] s[i].path
            != #[trigger] s[j].path
}

/// The name of a file: the last `/`-separated segment of its path.
pub open spec fn entry_name(address: Seq<char>) -> Seq<char> {
    file_name_of(address)
}

/// The entry that tracking `address` with `embedding` writes.
pub open spec fn new_entry<V, R>(address: Seq<char>, embedding: V) -> EntryView<V, R> {
    EntryView {
        path: Some(address),
        vec: Some(embedding),
        origin: OriginView::Named(entry_name(address)),
    }
}

/// The entries after tracking `address` with `embedding`: the entry for the
/// path is replaced where there is one, else the new entry goes at the end.
pub open spec fn inserted<V, R>(s: Seq<EntryView<V, R>>, address: Seq<char>, embedding: V) -> Seq<
    EntryView<V, R>,
> {
    match position(s, address) {
        Some(i) => s.update(i, new_entry(address, embedding)),
        None => s.push(new_entry(address, embedding)),
    }
}

/// The entries after forgetting `address`: its entry is taken out.
pub open spec fn removed<V, R>(s: Seq<EntryView<V, R>>, address: Seq<char>) -> Seq<EntryView<V, R>> {
    match position(s, address) {
        Some(i) => s.remove(i),
        None => s,
    }
}

/// The entries that have both a path and an embedding, as (path,
/// embedding) pairs in store order.
pub open spec fn rows_of<V, R>(s: Seq<EntryView<V, R>>) -> Seq<(Seq<char>, V)>
    decreases s.len(),
{
    if s.len() == 0 {
        Seq::empty()
    } else {
        let before = rows_of(s.drop_last());
        match (s.last().path, s.last().vec) {
            (Some(p), Some(v)) => before.push((p, v)),
            _ => before,
        }
    }
}

/// The rows of a store: none when its `data` is not a list.
pub open spec fn rows<V, R>(sv: Option<Seq<EntryView<V, R>>>) -> Seq<(Seq<char>, V)> {
    match sv {
        Some(s) => rows_of(s),
        None => Seq::empty(),
    }
}

proof fn lemma_paths_index<V, R>(s: Seq<EntryView<V, R>>)
    ensures
        paths(s).len() == s.len(),
        forall|i: int| 0 <= i < s.len() ==> #[trigger] paths(s)[i] == s[i].path,
{
}

/// Finds the entry for `address`.
fn find_position<V, R>(entries: &Vec<Entry<V, R>>, address: &str) -> (res: Option<usize>)
    ensures
        match res {
            Some(i) => position(entries_view(entries@), address@) == Some(i as int),
            None => position(entries_view(entries@), address@) is None,
        },
{
    let ghost s = entries_view(entries@);
    let ghost target = Some(address@);
    proof {
        lemma_paths_index(s);
        paths(s).index_of_first_ensures(target);
    }
    let n = entries.len();
    let mut i: usize = 0;
    while i < n
        invariant
            n == s.len(),
            n == entries@.len(),
            s == entries_view(entries@),
            target == Some(address@),
            i <= n,
            paths(s).len() == n,
            forall|t: int| 0 <= t < n ==> #[trigger] paths(s)[t] == s[t].path,
            forall|t: int| 0 <= t < i ==> paths(s)[t] != target,
            match paths(s).index_of_first(target) {
                Some(index) => {
                    &&& paths(s).contains(target)
                    &&& 0 <= index < n
                    &&& paths(s)[index] == target
                    &&& forall|j: int| 0 <= j < index < n ==> paths(s)[j] != target
                },
                None => !paths(s).contains(target),
            },
        decreases n - i,
    {
        assert(s[i as int] == entries@[i as int].view());
        let same = match &entries[i].path {
            Some(p) => chars_equal(p.as_str(), address),
            None => false,
        };
        if same {
            assert(paths(s)[i as int] == target);
            return Some(i);
        }
        i = i + 1;
    }
    None
}

/// A new store with an empty `data` list.
pub fn make_table<V, R>() -> (res: Store<V, R>)
    ensures
        res@ == Some(Seq::<EntryView<V, R>>::empty()),
{
    let res = Store { data: Some(Vec::new()) };
    assert(res@->0 =~= Seq::<EntryView<V, R>>::empty());
    res
}

/// Whether a file with this path is tracked.
pub fn path_exists<V, R>(store: &Store<V, R>, address: &str) -> (res: bool)
    ensures
        res == is_tracked(store@, address@),
{
    match &store.data {
        Some(entries) => {
            proof {
                paths(entries_view(entries@)).index_of_first_ensures(Some(address@));
            }
            find_position(entries, address).is_some()
        },
        None => false,
    }
}

/// Tracks the file at `address` with `embedding`: replaces its entry with
/// a new one (its name, path and embedding), or adds that entry at the end
/// when the path is new. The store's `data` must be a list.
pub fn insert_embedding<V, R>(store: &mut Store<V, R>, address: &str, embedding: V)
    requires
        old(store)@ is Some,
    ensures
        final(store)@ == Some(inserted(old(store)@->0, address@, embedding)),
{
    let mut entries = store.data.take().unwrap();
    let ghost s = entries_view(entries@);
    assert(s == old(store)@->0);
    proof {
        lemma_paths_index(s);
        paths(s).index_of_first_ensures(Some(address@));
    }
    let name = String::from_str(file_name(address));
    let entry = Entry {
        path: Some(String::from_str(address)),
        vec: Some(embedding),
        origin: Origin::Named(name),
    };
    assert(entry.view() == new_entry::<V, R>(address@, embedding));
    match find_position(&entries, address) {
        Some(i) => {
            entries.set(i, entry);
            assert(entries_view(entries@) =~= inserted(s, address@, embedding));
        },
        None => {
            entries.push(entry);
            assert(entries_view(entries@) =~= inserted(s, address@, embedding));
        },
    }
    store.data = Some(entries);
}

/// The embedding stored for `address`: that of its entry, which must
/// exist; an entry without an embedding list is an error.
pub fn get_embedding<'a, V, R>(store: &'a Store<V, R>, address: &str) -> (res: Result<&'a V, StoreError>)
    requires
        is_tracked(store@, address@),
    ensures
        position(store@->0, address@) matches Some(i) && match store@->0[i].vec {
            Some(v) => res matches Ok(r) && *r == v,
            None => res == Err::<&V, StoreError>(StoreError::EmbeddingNotFound),
        },
{
    let entries = store.data.as_ref().unwrap();
    let ghost s = entries_view(entries@);
    proof {
        lemma_paths_index(s);
        paths(s).index_of_first_ensures(Some(address@));
    }
    let i = find_position(entries, address).unwrap();
    assert(s[i as int] == entries@[i as int].view());
    match &entries[i].vec {
        Some(v) => Ok(v),
        None => Err(StoreError::EmbeddingNotFound),
    }
}

/// Stops tracking the file at `address`, taking its entry out.
pub fn remove_row<V, R>(store: &mut Store<V, R>, address: &str)
    requires
        is_tracked(old(store)@, address@),
    ensures
        final(store)@ == Some(removed(old(store)@->0, address@)),
{
    let mut entries = store.data.take().unwrap();
    let ghost s = entries_view(entries@);
    assert(s == old(store)@->0);
    proof {
        lemma_paths_index(s);
        paths(s).index_of_first_ensures(Some(address@));
    }
    let i = find_position(&entries, address).unwrap();
    entries.remove(i);
    assert(entries_view(entries@) =~= removed(s, address@));
    store.data = Some(entries);
}

/// Every entry that has both a path and an embedding, as its path and
/// embedding, in store order; nothing when the store's `data` is not a
/// list.
pub fn get_all_rows<'a, V, R>(store: &'a Store<V, R>) -> (res: Vec<(String, &'a V)>)
    ensures
        res@.len() == rows(store@).len(),
        forall|i: int|
            0 <= i < res@.len() ==> (#[trigger] res@[i]).0@ == rows(store@)[i].0 && *res@[i].1
                == rows(store@)[i].1,
{
    let mut res: Vec<(String, &'a V)> = Vec::new();
    match &store.data {
        None => res,
        Some(entries) => {
            let ghost s = entries_view(entries@);
            let n = entries.len();
            let mut i: usize = 0;
            while i < n
                invariant
                    n == entries@.len(),
                    s == entries_view(entries@),
                    i <= n,
                    res@.len() == rows_of(s.take(i as int)).len(),
                    forall|t: int|
                        0 <= t < res@.len() ==> (#[trigger] res@[t]).0@ == rows_of(
                            s.take(i as int),
                        )[t].0 && *res@[t].1 == rows_of(s.take(i as int))[t].1,
                decreases n - i,
            {
                let e = &entries[i];
                assert(s[i as int] == e.view());
                assert(s.take(i + 1).drop_last() =~= s.take(i as int));
                assert(s.take(i + 1).last() == s[i as int]);
                match (&e.path, &e.vec) {
                    (Some(p), Some(v)) => {
                        res.push((p.clone(), v));
                    },
                    _ => {},
                }
                i = i + 1;
            }
            assert(s.take(n as int) =~= s);
            res
        },
    }
}

/// The smaller of the number asked for and the number of rows.
pub open spec fn take_count(k: u32, n: nat) -> nat {
    if (k as nat) < n {
        k as nat
    } else {
        n
    }
}

/// The paths of the `k` best-scored rows, best first: `keys[i]` is the
/// score of row `i`, higher is closer, and among equal scores the earlier
/// row comes first.
pub open spec fn closest_paths<V>(rs: Seq<(Seq<char>, V)>, keys: Seq<u32>, k: u32) -> Seq<Seq<char>> {
    ranking(keys).take(take_count(k, rs.len()) as int).map_values(|i: usize| rs[i as int].0)
}

/// The paths of the `k` rows whose scores are highest, best first.
/// `keys[i]` is the score of row `i` of `get_all_rows`.
pub fn get_closest_paths<V, R>(store: &Store<V, R>, keys: &Vec<u32>, k: u32) -> (res: Vec<String>)
    requires
        keys@.len() == rows(store@).len(),
    ensures
        res@.map_values(|p: String| p@) == closest_paths(rows(store@), keys@, k),
{
    let all = get_all_rows(store);
    let order = rank_indices(keys);
    let n = order.len();
    let count: usize = if (k as usize) < n {
        k as usize
    } else {
        n
    };
    let ghost rs = rows(store@);
    let ghost target = closest_paths(rs, keys@, k);
    assert(count == take_count(k, rs.len()));
    let mut res: Vec<String> = Vec::new();
    let mut i: usize = 0;
    while i < count
        invariant
            n == order@.len(),
            n == rs.len(),
            n == all@.len(),
            forall|t: int| 0 <= t < n ==> (#[trigger] all@[t]).0@ == rs[t].0,
            count <= n,
            i <= count,
            order@ == ranking(keys@),
            forall|p: int| 0 <= p < n ==> #[trigger] order@[p] < n,
            target == ranking(keys@).take(count as int).map_values(|j: usize| rs[j as int].0),
            res@.len() == i,
            forall|t: int| 0 <= t < i ==> (#[trigger] res@[t])@ == target[t],
        decreases count - i,
    {
        let j = order[i];
        res.push(all[j].0.clone());
        i = i + 1;
    }
    assert(res@.map_values(|p: String| p@) =~= target);
    res
}

/// Reading a path back after tracking it gives the embedding just written,
/// under the name taken from the path.
pub proof fn lemma_insert_then_get<V, R>(s: Seq<EntryView<V, R>>, address: Seq<char>, embedding: V)
    ensures
        paths(inserted(s, address, embedding)).contains(Some(address)),
        position(inserted(s, address, embedding), address) matches Some(i) && inserted(
            s,
            address,
            embedding,
        )[i] == new_entry::<V, R>(address, embedding),
{
    let t = inserted(s, address, embedding);
    lemma_paths_index(s);
    lemma_paths_index(t);
    paths(s).index_of_first_ensures(Some(address));
    paths(t).index_of_first_ensures(Some(address));
    match position(s, address) {
        Some(i) => {
            assert(paths(t)[i] == Some(address));
            assert(forall|j: int| 0 <= j < i ==> paths(t)[j] == paths(s)[j]);
        },
        None => {
            assert(paths(t)[s.len() as int] == Some(address));
            assert(forall|j: int| 0 <= j < s.len() ==> paths(t)[j] == paths(s)[j]);
        },
    }
}

/// Tracking one path leaves every other path as it was: tracked or not as
/// before, and with the same entry.
pub proof fn lemma_insert_keeps_others<V, R>(
    s: Seq<EntryView<V, R>>,
    address: Seq<char>,
    embedding: V,
    other: Seq<char>,
)
    requires
        other != address,
    ensures
        paths(inserted(s, address, embedding)).contains(Some(other)) == paths(s).contains(Some(other)),
        position(inserted(s, address, embedding), other) == position(s, other),
{
    let t = inserted(s, address, embedding);
    lemma_paths_index(s);
    lemma_paths_index(t);
    paths(s).index_of_first_ensures(Some(address));
    paths(s).index_of_first_ensures(Some(other));
    paths(t).index_of_first_ensures(Some(other));
    assert forall|j: int| 0 <= j < s.len() && paths(s)[j] != Some(address) implies paths(t)[j]
        == paths(s)[j] by {}
    if paths(s).contains(Some(other)) {
        let w = choose|w: int| 0 <= w < paths(s).len() && paths(s)[w] == Some(other);
        assert(paths(t)[w] == Some(other));
    }
    if paths(t).contains(Some(other)) {
        let w = choose|w: int| 0 <= w < paths(t).len() && paths(t)[w] == Some(other);
        assert(w < s.len());
        assert(paths(s)[w] == Some(other));
    }
    match (position(s, other), position(t, other)) {
        (Some(i), Some(j)) => {
            if i < j {
                assert(paths(t)[i] == Some(other));
            }
            if j < i {
                assert(paths(s)[j] == Some(other));
            }
        },
        _ => {},
    }
}

/// Tracking a path keeps every path in the store unique.
pub proof fn lemma_insert_keeps_paths_unique<V, R>(s: Seq<EntryView<V, R>>, address: Seq<char>, embedding: V)
    requires
        unique_paths(s),
    ensures
        unique_paths(inserted(s, address, embedding)),
{
    let t = inserted(s, address, embedding);
    lemma_paths_index(s);
    paths(s).index_of_first_ensures(Some(address));
    match position(s, address) {
        Some(i) => {
            assert forall|a: int, b: int|
                0 <= a < t.len() && 0 <= b < t.len() && a != b && t[a].path is Some implies #[trigger] t[a].path
                != #[trigger] t[b].path by {
                if a == i {
                    assert(s[i].path == Some(address));
                    assert(s[b].path != s[i].path);
                } else if b == i {
                    assert(s[i].path == Some(address));
                    assert(s[a].path != s[i].path);
                } else {
                    assert(s[a].path != s[b].path);
                }
            }
        },
        None => {
            assert forall|a: int, b: int|
                0 <= a < t.len() && 0 <= b < t.len() && a != b && t[a].path is Some implies #[trigger] t[a].path
                != #[trigger] t[b].path by {
                if a == s.len() {
                    assert(paths(s)[b] == s[b].path);
                } else if b == s.len() {
                    assert(paths(s)[a] == s[a].path);
                } else {
                    assert(s[a].path != s[b].path);
                }
            }
        },
    }
}

/// Tracking a path adds an entry exactly when the path was not tracked yet.
pub proof fn lemma_insert_len<V, R>(s: Seq<EntryView<V, R>>, address: Seq<char>, embedding: V)
    ensures
        inserted(s, address, embedding).len() == if paths(s).contains(Some(address)) {
            s.len()
        } else {
            s.len() + 1
        },
{
    lemma_paths_index(s);
    paths(s).index_of_first_ensures(Some(address));
}

/// Tracking the same path with the same embedding twice is the same as
/// tracking it once.
pub proof fn lemma_insert_idempotent<V, R>(s: Seq<EntryView<V, R>>, address: Seq<char>, embedding: V)
    ensures
        inserted(inserted(s, address, embedding), address, embedding) == inserted(
            s,
            address,
            embedding,
        ),
{
    let t = inserted(s, address, embedding);
    lemma_insert_then_get(s, address, embedding);
    lemma_paths_index(t);
    paths(t).index_of_first_ensures(Some(address));
    let i = position(t, address).unwrap();
    assert(t.update(i, new_entry(address, embedding)) =~= t);
}

/// Once a path is forgotten it is no longer tracked, when no path occurs
/// twice.
pub proof fn lemma_remove_forgets<V, R>(s: Seq<EntryView<V, R>>, address: Seq<char>)
    requires
        unique_paths(s),
        paths(s).contains(Some(address)),
    ensures
        !paths(removed(s, address)).contains(Some(address)),
        removed(s, address).len() + 1 == s.len(),
        unique_paths(removed(s, address)),
{
    let t = removed(s, address);
    lemma_paths_index(s);
    lemma_paths_index(t);
    paths(s).index_of_first_ensures(Some(address));
    let i = position(s, address).unwrap();
    if paths(t).contains(Some(address)) {
        let w = choose|w: int| 0 <= w < paths(t).len() && paths(t)[w] == Some(address);
        if w < i {
            assert(s[w].path == s[i].path);
        } else {
            assert(s[w + 1].path == s[i].path);
        }
    }
    assert forall|a: int, b: int|
        0 <= a < t.len() && 0 <= b < t.len() && a != b && t[a].path is Some implies #[trigger] t[a].path
        != #[trigger] t[b].path by {
        let a2 = if a < i { a } else { a + 1 };
        let b2 = if b < i { b } else { b + 1 };
        assert(t[a] == s[a2]);
        assert(t[b] == s[b2]);
        assert(s[a2].path != s[b2].path);
    }
}

/// Forgetting one path leaves every other path tracked or not as before,
/// with the same entry.
pub proof fn lemma_remove_keeps_others<V, R>(s: Seq<EntryView<V, R>>, address: Seq<char>, other: Seq<char>)
    requires
        other != address,
    ensures
        paths(removed(s, address)).contains(Some(other)) == paths(s).contains(Some(other)),
        paths(s).contains(Some(other)) ==> (position(removed(s, address), other) matches Some(j)
            && position(s, other) matches Some(i) && removed(s, address)[j] == s[i]),
{
    let t = removed(s, address);
    lemma_paths_index(s);
    lemma_paths_index(t);
    paths(s).index_of_first_ensures(Some(address));
    paths(s).index_of_first_ensures(Some(other));
    paths(t).index_of_first_ensures(Some(other));
    match position(s, address) {
        None => {},
        Some(r) => {
            if paths(s).contains(Some(other)) {
                let w = choose|w: int| 0 <= w < paths(s).len() && paths(s)[w] == Some(other);
                if w < r {
                    assert(paths(t)[w] == Some(other));
                } else {
                    assert(w != r);
                    assert(paths(t)[w - 1] == Some(other));
                }
            }
            if paths(t).contains(Some(other)) {
                let w = choose|w: int| 0 <= w < paths(t).len() && paths(t)[w] == Some(other);
                if w < r {
                    assert(paths(s)[w] == Some(other));
                } else {
                    assert(paths(s)[w + 1] == Some(other));
                }
            }
            if paths(s).contains(Some(other)) {
                let i = position(s, other).unwrap();
                let j = position(t, other).unwrap();
                let i2 = if i < r { i } else { i - 1 };
                assert(i != r);
                assert(paths(t)[i2] == Some(other));
                let j2 = if j < r { j } else { j + 1 };
                assert(paths(s)[j2] == Some(other));
                assert(j == i2);
            }
        },
    }
}

/// The search returns as many paths as asked for, or all of them when fewer
/// rows are stored, and best-scored first.
pub proof fn lemma_closest_paths_ordered<V>(rs: Seq<(Seq<char>, V)>, keys: Seq<u32>, k: u32)
    requires
        keys.len() == rs.len(),
        keys.len() <= usize::MAX,
    ensures
        closest_paths(rs, keys, k).len() == take_count(k, rs.len()),
        forall|p: int, q: int|
            0 <= p < q < take_count(k, rs.len()) ==> keys[ranking(keys)[p] as int]
                >= keys[ranking(keys)[q] as int],
{
    lemma_ranking_exists(keys);
    let r = ranking(keys);
    assert forall|p: int, q: int| 0 <= p < q < take_count(k, rs.len()) implies keys[r[p] as int]
        >= keys[r[q] as int] by {
        assert(ranks_before(keys, r[p] as int, r[q] as int));
    }
}

/// Every row comes from an entry with that path and embedding, and the rows
/// keep the order of their entries.
proof fn lemma_rows_from_entries<V, R>(s: Seq<EntryView<V, R>>)
    ensures
        rows_of(s).len() <= s.len(),
        forall|t: int|
            0 <= t < rows_of(s).len() ==> exists|j: int|
                0 <= j < s.len() && s[j].path == Some(#[trigger] rows_of(s)[t].0),
    decreases s.len(),
{
    if s.len() > 0 {
        let init = s.drop_last();
        lemma_rows_from_entries(init);
        assert forall|t: int| 0 <= t < rows_of(s).len() implies exists|j: int|
            0 <= j < s.len() && s[j].path == Some(#[trigger] rows_of(s)[t].0) by {
            if t < rows_of(init).len() {
                assert(rows_of(s)[t] == rows_of(init)[t]);
                let j = choose|j: int| 0 <= j < init.len() && init[j].path == Some(rows_of(init)[t].0);
                assert(s[j] == init[j]);
            } else {
                assert(s[s.len() - 1] == s.last());
            }
        }
    }
}

/// When no path occurs twice among the entries, no path occurs twice among
/// the rows.
pub proof fn lemma_rows_unique<V, R>(s: Seq<EntryView<V, R>>)
    requires
        unique_paths(s),
    ensures
        forall|a: int, b: int|
            0 <= a < rows_of(s).len() && 0 <= b < rows_of(s).len() && a != b ==> #[trigger] rows_of(
                s,
            )[a].0 != #[trigger] rows_of(s)[b].0,
    decreases s.len(),
{
    if s.len() > 0 {
        let init = s.drop_last();
        assert(unique_paths(init)) by {
            assert forall|i: int, j: int|
                0 <= i < init.len() && 0 <= j < init.len() && i != j && init[i].path is Some implies #[trigger] init[i].path
                != #[trigger] init[j].path by {
                assert(init[i] == s[i] && init[j] == s[j]);
            }
        }
        lemma_rows_unique(init);
        lemma_rows_from_entries(init);
        let ri = rows_of(init);
        let r = rows_of(s);
        assert forall|a: int, b: int|
            0 <= a < r.len() && 0 <= b < r.len() && a != b implies #[trigger] r[a].0 != #[trigger] r[b].0 by {
            if a < ri.len() && b < ri.len() {
                assert(r[a] == ri[a] && r[b] == ri[b]);
            } else {
                let (x, y) = if a < ri.len() { (a, b) } else { (b, a) };
                assert(x < ri.len());
                assert(r[x] == ri[x]);
                let j = choose|j: int| 0 <= j < init.len() && init[j].path == Some(ri[x].0);
                assert(s[j] == init[j]);
                assert(r[y].0 == s.last().path->0);
                assert(s[s.len() - 1] == s.last());
                assert(s[j].path != s[s.len() - 1].path);
            }
        }
    }
}

/// When no path occurs twice, the search returns no path twice.
pub proof fn lemma_closest_paths_distinct<V, R>(s: Seq<EntryView<V, R>>, keys: Seq<u32>, k: u32)
    requires
        keys.len() == rows_of(s).len(),
        keys.len() <= usize::MAX,
        unique_paths(s),
    ensures
        closest_paths(rows_of(s), keys, k).no_duplicates(),
{
    lemma_ranking_exists(keys);
    lemma_rows_unique(s);
    let rs = rows_of(s);
    let r = ranking(keys);
    let c = closest_paths(rs, keys, k);
    assert forall|p: int, q: int| 0 <= p < c.len() && 0 <= q < c.len() && p != q implies c[p]
        != c[q] by {
        if p < q {
            assert(ranks_before(keys, r[p] as int, r[q] as int));
        } else {
            assert(ranks_before(keys, r[q] as int, r[p] as int));
        }
        assert(r[p] < keys.len() && r[q] < keys.len());
        assert(rs[r[p] as int].0 != rs[r[q] as int].0);
    }
}

/// A new store tracks nothing, and so no path twice.
pub proof fn lemma_new_table_empty<V, R>(address: Seq<char>)
    ensures
        !paths(Seq::<EntryView<V, R>>::empty()).contains(Some(address)),
        unique_paths(Seq::<EntryView<V, R>>::empty()),
{
}

/// The search returns the paths of the best-scored rows in ranking order:
/// its `i`-th path is that of the row at position `i` of the ranking of the
/// scores, no row left out scores higher than a row returned, and when
/// anything is asked for from a non-empty store, the first path is that of
/// a row with the highest score.
pub proof fn lemma_closest_paths_best_first<V>(rs: Seq<(Seq<char>, V)>, keys: Seq<u32>, k: u32)
    requires
        keys.len() == rs.len(),
        keys.len() <= usize::MAX,
    ensures
        closest_paths(rs, keys, k).len() == take_count(k, rs.len()),
        forall|i: int|
            0 <= i < take_count(k, rs.len()) ==> #[trigger] closest_paths(rs, keys, k)[i]
                == rs[ranking(keys)[i] as int].0,
        forall|i: int, q: int|
            #![trigger ranking(keys)[i], ranking(keys)[q]]
            0 <= i < take_count(k, rs.len()) <= q < rs.len() ==> keys[ranking(keys)[i] as int]
                >= keys[ranking(keys)[q] as int],
        k >= 1 && rs.len() > 0 ==> exists|j: int|
            0 <= j < rs.len() && closest_paths(rs, keys, k)[0] == rs[j].0 && forall|m: int|
                0 <= m < rs.len() ==> keys[j] >= #[trigger] keys[m],
{
    lemma_ranking_exists(keys);
    let r = ranking(keys);
    let n = rs.len();
    let c = take_count(k, n);
    assert forall|i: int, q: int|
        #![trigger r[i], r[q]]
        0 <= i < c <= q < n implies keys[r[i] as int] >= keys[r[q] as int] by {
        assert(ranks_before(keys, r[i] as int, r[q] as int));
    }
    if k >= 1 && n > 0 {
        let j = r[0] as int;
        assert(closest_paths(rs, keys, k)[0] == rs[j].0);
        assert forall|m: int| 0 <= m < n implies keys[j] >= #[trigger] keys[m] by {
            assert(r.contains(m as usize));
            let q = choose|q: int| 0 <= q < r.len() && r[q] == m as usize;
            if q > 0 {
                assert(ranks_before(keys, r[0] as int, r[q] as int));
            }
        }
    }
}

/// The rows are the entries that have both a path and an embedding, in
/// order: an entry with both adds its row at the end, any other entry adds
/// none, and a store without entries has no rows.
pub proof fn lemma_rows_of_entries<V, R>(s: Seq<EntryView<V, R>>, e: EntryView<V, R>)
    ensures
        rows_of(Seq::<EntryView<V, R>>::empty()).len() == 0,
        (e.path matches Some(p) && e.vec matches Some(v)) ==> rows_of(s.push(e)) == rows_of(s).push(
            (e.path->0, e.vec->0),
        ),
        !(e.path is Some && e.vec is Some) ==> rows_of(s.push(e)) == rows_of(s),
        rows_of(s).len() <= s.len(),
{
    assert(s.push(e).drop_last() =~= s);
    lemma_rows_from_entries(s);
}

} // verus!
