use jaysondb::command::{parse_command, usage, Command, Verb};
use jaysondb::database::JaySonDB;
use jaysondb::hashmap::Entry;

#[test]
fn new_uses_default_backup_path() {
    let db = JaySonDB::<String, String>::new(None);
    assert_eq!(db.backup_file(), "save/backup.json");
    assert!(db.list_all().is_empty());
}

#[test]
fn new_uses_given_backup_path() {
    let db = JaySonDB::<String, String>::new(Some("other.json".to_string()));
    assert_eq!(db.backup_file(), "other.json");
}

#[test]
fn insert_lookup_delete() {
    let mut db = JaySonDB::<String, String>::new(None);
    db.insert("a".to_string(), "1".to_string());
    db.insert("b".to_string(), "2".to_string());
    assert_eq!(db.lookup("a".to_string()).unwrap().value, "1");
    db.insert("a".to_string(), "3".to_string());
    assert_eq!(db.lookup("a".to_string()).unwrap().value, "3");
    db.delete("a".to_string());
    assert!(db.lookup("a".to_string()).is_none());
    assert_eq!(db.lookup("b".to_string()).unwrap().value, "2");
    let listed: Vec<(String, String)> = db
        .list_all()
        .iter()
        .map(|e| {
            let e = e.as_ref().unwrap();
            (e.key.clone(), e.value.clone())
        })
        .collect();
    assert_eq!(listed, vec![("b".to_string(), "2".to_string())]);
}

#[test]
fn load_entries_inserts_in_order() {
    let mut db = JaySonDB::<String, String>::new(None);
    db.load_entries(vec![
        Entry::new("x".to_string(), "1".to_string()),
        Entry::new("y".to_string(), "2".to_string()),
        Entry::new("x".to_string(), "9".to_string()),
    ]);
    assert_eq!(db.lookup("x".to_string()).unwrap().value, "9");
    assert_eq!(db.lookup("y".to_string()).unwrap().value, "2");
    assert_eq!(db.list_all().len(), 2);
    assert_eq!(db.list_all()[0].as_ref().unwrap().key, "x");
}

#[test]
fn command_words_decide_the_command() {
    let w = |s: &str| s.split_whitespace().map(String::from).collect::<Vec<String>>();
    match parse_command(&w("insert k v")) {
        Command::Insert(k, v) => assert_eq!((k.as_str(), v.as_str()), ("k", "v")),
        other => panic!("unexpected {:?}", other),
    }
    assert!(matches!(parse_command(&w("insert k")), Command::WrongArity(Verb::Insert)));
    assert!(matches!(parse_command(&w("delete k")), Command::Delete(k) if k == "k"));
    assert!(matches!(parse_command(&w("delete")), Command::WrongArity(Verb::Delete)));
    assert!(matches!(parse_command(&w("lookup a b")), Command::WrongArity(Verb::Lookup)));
    assert!(matches!(parse_command(&w("lookup a")), Command::Lookup(k) if k == "a"));
    assert!(matches!(parse_command(&w("list extra")), Command::List));
    assert!(matches!(parse_command(&w("logic")), Command::Logic));
    assert!(matches!(parse_command(&w("frobnicate")), Command::Unknown));
    assert_eq!(usage(Verb::Insert), "insert requires 2 parameters: Key and Value");
    assert_eq!(usage(Verb::Delete), "delete requires 1 parameter: Key");
    assert_eq!(usage(Verb::Lookup), "lookup requires 1 parameter: Key");
}

#[test]
fn reloading_the_listing_restores_the_store() {
    let mut db = JaySonDB::<String, String>::new(None);
    for (k, v) in [("a", "1"), ("b", "2"), ("c", "3"), ("a", "4")] {
        db.insert(k.to_string(), v.to_string());
    }
    db.delete("b".to_string());
    let listed: Vec<Entry<String, String>> = db
        .list_all()
        .iter()
        .map(|e| {
            let e = e.as_ref().unwrap();
            Entry::new(e.key.clone(), e.value.clone())
        })
        .collect();
    let mut restored = JaySonDB::<String, String>::new(None);
    restored.load_entries(listed);
    let pairs = |d: &JaySonDB<String, String>| -> Vec<(String, String)> {
        d.list_all()
            .iter()
            .map(|e| {
                let e = e.as_ref().unwrap();
                (e.key.clone(), e.value.clone())
            })
            .collect()
    };
    assert_eq!(pairs(&restored), pairs(&db));
    assert_eq!(pairs(&db), vec![("a".to_string(), "4".to_string()), ("c".to_string(), "3".to_string())]);
}
