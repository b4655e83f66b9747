use sophist::ranking::rank_indices;
use sophist::stalker::abandon_watch;
use sophist::storage::{
    get_all_rows, get_closest_paths, get_embedding, insert_embedding, make_table, path_exists,
    remove_row, Entry, Origin, Store, StoreError,
};

type S = Store<Vec<f32>, &'static str>;

fn sample() -> S {
    let mut s = make_table();
    insert_embedding(&mut s, "/home/u/a.txt", vec![1.0, 0.0]);
    insert_embedding(&mut s, "/home/u/b.md", vec![0.0, 1.0]);
    insert_embedding(&mut s, "/home/u/c.png", vec![0.5, 0.5]);
    s
}

fn read(path: Option<&str>, vec: Option<Vec<f32>>, raw: &'static str) -> Entry<Vec<f32>, &'static str> {
    Entry { path: path.map(|p| p.to_string()), vec, origin: Origin::Read(raw) }
}

fn entries(s: &S) -> &Vec<Entry<Vec<f32>, &'static str>> {
    s.data.as_ref().unwrap()
}

fn name_of(e: &Entry<Vec<f32>, &'static str>) -> String {
    match &e.origin {
        Origin::Named(n) => n.clone(),
        Origin::Read(_) => panic!("entry was read, not written"),
    }
}

#[test]
fn new_table_is_empty() {
    let s: S = make_table();
    assert!(entries(&s).is_empty());
    assert!(!path_exists(&s, "/home/u/a.txt"));
}

#[test]
fn names_are_last_segment() {
    let s = sample();
    assert_eq!(name_of(&entries(&s)[0]), "a.txt");
    let mut t: S = make_table();
    insert_embedding(&mut t, "plain.txt", vec![]);
    insert_embedding(&mut t, "/dir/", vec![]);
    assert_eq!(name_of(&entries(&t)[0]), "plain.txt");
    assert_eq!(name_of(&entries(&t)[1]), "");
}

#[test]
fn insert_then_get() {
    let s = sample();
    assert_eq!(entries(&s).len(), 3);
    assert!(path_exists(&s, "/home/u/b.md"));
    assert_eq!(get_embedding(&s, "/home/u/b.md"), Ok(&vec![0.0, 1.0]));
    assert_eq!(entries(&s)[2].path.as_deref(), Some("/home/u/c.png"));
}

#[test]
fn insert_existing_path_replaces() {
    let mut s = sample();
    insert_embedding(&mut s, "/home/u/a.txt", vec![9.0, 9.0]);
    assert_eq!(entries(&s).len(), 3);
    assert_eq!(entries(&s)[0].path.as_deref(), Some("/home/u/a.txt"));
    assert_eq!(get_embedding(&s, "/home/u/a.txt"), Ok(&vec![9.0, 9.0]));
    assert_eq!(get_embedding(&s, "/home/u/b.md"), Ok(&vec![0.0, 1.0]));
}

#[test]
fn insert_twice_same_as_once() {
    let mut once = sample();
    insert_embedding(&mut once, "/x/y.txt", vec![2.0]);
    let mut twice = sample();
    insert_embedding(&mut twice, "/x/y.txt", vec![2.0]);
    insert_embedding(&mut twice, "/x/y.txt", vec![2.0]);
    assert_eq!(entries(&once).len(), entries(&twice).len());
    for (a, b) in entries(&once).iter().zip(entries(&twice).iter()) {
        assert_eq!(a.path, b.path);
        assert_eq!(name_of(a), name_of(b));
        assert_eq!(a.vec, b.vec);
    }
}

#[test]
fn remove_forgets_path() {
    let mut s = sample();
    remove_row(&mut s, "/home/u/b.md");
    assert!(!path_exists(&s, "/home/u/b.md"));
    assert_eq!(entries(&s).len(), 2);
    assert_eq!(entries(&s)[0].path.as_deref(), Some("/home/u/a.txt"));
    assert_eq!(entries(&s)[1].path.as_deref(), Some("/home/u/c.png"));
}

#[test]
fn remove_takes_first_of_duplicates() {
    let mut s: S = Store {
        data: Some(vec![
            read(Some("/a"), Some(vec![1.0]), "first"),
            read(Some("/a"), Some(vec![2.0]), "second"),
        ]),
    };
    assert_eq!(get_embedding(&s, "/a"), Ok(&vec![1.0]));
    remove_row(&mut s, "/a");
    assert!(path_exists(&s, "/a"));
    assert_eq!(get_embedding(&s, "/a"), Ok(&vec![2.0]));
}

#[test]
fn entries_without_path_or_embedding() {
    let mut s: S = Store {
        data: Some(vec![
            read(None, Some(vec![1.0]), "no path"),
            read(Some("/b"), None, "no vec"),
            read(Some("/c"), Some(vec![3.0]), "complete"),
        ]),
    };
    assert!(path_exists(&s, "/b"));
    assert_eq!(get_embedding(&s, "/b"), Err(StoreError::EmbeddingNotFound));
    let rows = get_all_rows(&s);
    assert_eq!(rows.len(), 1);
    assert_eq!(rows[0].0, "/c");
    assert_eq!(rows[0].1, &vec![3.0]);
    insert_embedding(&mut s, "/b", vec![2.0]);
    assert_eq!(get_embedding(&s, "/b"), Ok(&vec![2.0]));
    assert_eq!(get_all_rows(&s).len(), 2);
    assert!(matches!(entries(&s)[0].origin, Origin::Read("no path")));
}

#[test]
fn data_not_a_list() {
    let s: S = Store { data: None };
    assert!(!path_exists(&s, "/a"));
    assert!(get_all_rows(&s).is_empty());
    assert_eq!(get_closest_paths(&s, &vec![], 3), Vec::<String>::new());
}

#[test]
fn all_rows_in_order() {
    let s = sample();
    let rows = get_all_rows(&s);
    assert_eq!(rows.len(), 3);
    assert_eq!(rows[0].0, "/home/u/a.txt");
    assert_eq!(rows[2].1, &vec![0.5, 0.5]);
}

#[test]
fn ranking_best_first_ties_stable() {
    assert_eq!(rank_indices(&vec![3, 1, 3, 2]), vec![0, 2, 3, 1]);
    assert_eq!(rank_indices(&vec![]), Vec::<usize>::new());
    assert_eq!(rank_indices(&vec![5, 5, 5]), vec![0, 1, 2]);
    assert_eq!(rank_indices(&vec![1, 2, 3]), vec![2, 1, 0]);
}

#[test]
fn closest_paths_top_k() {
    let s = sample();
    let keys = vec![10, 30, 20];
    assert_eq!(get_closest_paths(&s, &keys, 2), vec!["/home/u/b.md", "/home/u/c.png"]);
    assert_eq!(get_closest_paths(&s, &keys, 0), Vec::<String>::new());
    assert_eq!(
        get_closest_paths(&s, &keys, 10),
        vec!["/home/u/b.md", "/home/u/c.png", "/home/u/a.txt"]
    );
    let ties = vec![7, 7, 7];
    assert_eq!(get_closest_paths(&s, &ties, 2), vec!["/home/u/a.txt", "/home/u/b.md"]);
}

#[test]
fn closest_paths_skip_incomplete_entries() {
    let s: S = Store {
        data: Some(vec![
            read(Some("/x"), None, "no vec"),
            read(Some("/y"), Some(vec![1.0]), "y"),
            read(None, Some(vec![1.0]), "no path"),
            read(Some("/z"), Some(vec![1.0]), "z"),
        ]),
    };
    assert_eq!(get_closest_paths(&s, &vec![1, 2], 5), vec!["/z", "/y"]);
}

#[test]
fn abandon_only_tracked() {
    let mut s = sample();
    assert!(!abandon_watch(&mut s, "/home/u/zzz.txt"));
    assert_eq!(entries(&s).len(), 3);
    assert!(abandon_watch(&mut s, "/home/u/a.txt"));
    assert!(!path_exists(&s, "/home/u/a.txt"));
    assert_eq!(entries(&s).len(), 2);
}
