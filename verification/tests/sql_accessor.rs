use sophist::sql_accessor::{
    get_embedding, insert_embedding, insert_embedding_with_id, make_sql_table, path_exists,
    remove_row, Database, FileRow, SqlError,
};

fn fresh() -> Database {
    let mut db = Database { files: None };
    assert_eq!(make_sql_table(&mut db), Ok(()));
    db
}

#[test]
fn make_table_creates_and_keeps() {
    let mut db = fresh();
    assert_eq!(db.files.as_ref().unwrap().len(), 0);
    insert_embedding_with_id(&mut db, "/a.txt", vec![1, 2], "id-1".to_string()).unwrap();
    assert_eq!(make_sql_table(&mut db), Ok(()));
    assert_eq!(db.files.as_ref().unwrap().len(), 1);
    assert!(path_exists(&db, "/a.txt"));
}

#[test]
fn missing_table_errors() {
    let db = Database { files: None };
    assert_eq!(get_embedding(&db, "/a.txt"), Err(SqlError::NoSuchTable));
}

#[test]
fn insert_then_get_blob() {
    let mut db = fresh();
    assert_eq!(insert_embedding(&mut db, "/a.txt", vec![7, 8, 9]), Ok(()));
    assert!(path_exists(&db, "/a.txt"));
    assert_eq!(get_embedding(&db, "/a.txt"), Ok(vec![7, 8, 9]));
    assert_eq!(get_embedding(&db, "/b.txt"), Err(SqlError::QueryReturnedNoRows));
    let rows = db.files.as_ref().unwrap();
    let id: Vec<char> = rows[0].id.chars().collect();
    assert_eq!(id.len(), 36);
    for (i, c) in id.iter().enumerate() {
        if [8, 13, 18, 23].contains(&i) {
            assert_eq!(*c, '-');
        } else {
            assert!(c.is_ascii_hexdigit() && !c.is_ascii_uppercase());
        }
    }
    assert_eq!(id[14], '4');
    assert!(['8', '9', 'a', 'b'].contains(&id[19]));
}

#[test]
fn insert_existing_updates() {
    let mut db = fresh();
    insert_embedding_with_id(&mut db, "/a.txt", vec![1], "id-1".to_string()).unwrap();
    insert_embedding_with_id(&mut db, "/b.txt", vec![2], "id-2".to_string()).unwrap();
    assert_eq!(insert_embedding(&mut db, "/a.txt", vec![5, 5]), Ok(()));
    let rows = db.files.as_ref().unwrap();
    assert_eq!(rows.len(), 2);
    assert_eq!(rows[0].id, "id-1");
    assert_eq!(rows[0].emb, vec![5, 5]);
    assert_eq!(rows[1].emb, vec![2]);
}

#[test]
fn duplicate_id_refused() {
    let mut db = fresh();
    insert_embedding_with_id(&mut db, "/a.txt", vec![1], "same".to_string()).unwrap();
    assert_eq!(
        insert_embedding_with_id(&mut db, "/b.txt", vec![2], "same".to_string()),
        Err(SqlError::ConstraintViolation)
    );
    assert_eq!(db.files.as_ref().unwrap().len(), 1);
    assert!(!path_exists(&db, "/b.txt"));
}

#[test]
fn remove_deletes_every_row_with_path() {
    let mut db = Database {
        files: Some(vec![
            FileRow { id: "1".to_string(), emb: vec![1], path: "/a".to_string() },
            FileRow { id: "2".to_string(), emb: vec![2], path: "/b".to_string() },
            FileRow { id: "3".to_string(), emb: vec![3], path: "/a".to_string() },
        ]),
    };
    remove_row(&mut db, "/a");
    assert!(!path_exists(&db, "/a"));
    let rows = db.files.as_ref().unwrap();
    assert_eq!(rows.len(), 1);
    assert_eq!(rows[0].id, "2");
}
