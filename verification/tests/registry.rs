use winebridge::codec::Data;
use winebridge::errors::BridgeError;
use winebridge::hive::Hive;
use winebridge::store::RegistryStore;

fn test_subkey() -> String {
    String::from("Software\\WineBridgeTest")
}

#[test]
fn test_create_key() {
    let mut store = RegistryStore::new();
    let hive = Hive::CurrentUser;
    let subkey = test_subkey();
    assert!(store.create(hive, &subkey).is_ok(), "Failed to create key");

    let key = store.open(hive, &subkey);
    assert!(key.is_ok(), "Failed to open key");

    store.delete(hive, &subkey).expect("Failed to delete test key");
}

#[test]
fn test_get_key() {
    let mut store = RegistryStore::new();
    let hive = Hive::CurrentUser;
    let subkey = test_subkey();
    store.create(hive, &subkey).expect("Failed to create key");

    let key = store.open(hive, &subkey);
    assert!(key.is_ok(), "Failed to open key");

    store.delete(hive, &subkey).expect("Failed to delete test key");
}

#[test]
fn test_delete_key() {
    let mut store = RegistryStore::new();
    let hive = Hive::CurrentUser;
    let subkey = test_subkey();
    store.create(hive, &subkey).expect("Failed to create key");

    store.delete(hive, &subkey).expect("Failed to delete key");

    let key = store.open(hive, &subkey);
    assert!(key.is_err(), "Key still exists after deletion");
}

#[test]
fn test_create_value() {
    let mut store = RegistryStore::new();
    let hive = Hive::CurrentUser;
    let subkey = test_subkey();

    let key = store.create(hive, &subkey).expect("Failed to create key");

    store
        .write_value(&key, "TestDWord", Data::DWord(42))
        .expect("Failed to set DWord");
    store
        .write_value(&key, "TestString", Data::String(String::from("hello")))
        .expect("Failed to set String");

    let dword = store.read_value(&key, "TestDWord").expect("Failed to get DWord");
    assert_eq!(dword, Data::DWord(42));

    let string = store.read_value(&key, "TestString").expect("Failed to get String");
    assert_eq!(string, Data::String(String::from("hello")));

    store
        .delete_value(&key, "TestDWord")
        .expect("Failed to remove DWord");
    store
        .delete_value(&key, "TestString")
        .expect("Failed to remove String");
}

#[test]
fn test_rename_value() {
    let mut store = RegistryStore::new();
    let hive = Hive::CurrentUser;
    let subkey = test_subkey();
    let key = store.create(hive, &subkey).expect("Failed to open key");

    store
        .write_value(&key, "FromDWord", Data::DWord(42))
        .expect("Failed to set DWord");

    store
        .rename_value(&key, "FromDWord", "ToDWord")
        .expect("Failed to rename value");
    let renamed = store
        .read_value(&key, "ToDWord")
        .expect("Failed to get renamed value");
    assert_eq!(renamed, Data::DWord(42));

    store
        .delete_value(&key, "ToDWord")
        .expect("Failed to delete value");
    assert!(store.read_value(&key, "ToDWord").is_err());
}

#[test]
fn key_lifecycle_deletes_subtree() {
    let mut store = RegistryStore::new();
    let hive = Hive::CurrentUser;
    let child = store.create(hive, "A\\B").expect("create A\\B");
    assert!(store.open(hive, "A\\B").is_ok());
    assert!(store.open(hive, "A").is_ok(), "intermediate key was not created");

    store.delete(hive, "A").expect("delete A");
    assert_eq!(store.open(hive, "A\\B").unwrap_err(), BridgeError::NotFound);
    assert_eq!(store.open(hive, "A").unwrap_err(), BridgeError::NotFound);
    assert_eq!(
        store.read_value(&child, "anything").unwrap_err(),
        BridgeError::NotFound
    );
}

#[test]
fn value_lifecycle_write_read_delete() {
    let mut store = RegistryStore::new();
    let key = store.create(Hive::CurrentUser, "S\\K").expect("create");
    store.write_value(&key, "X", Data::DWord(42)).expect("write X");
    assert_eq!(store.read_value(&key, "X").unwrap(), Data::DWord(42));
    store.delete_value(&key, "X").expect("delete X");
    assert_eq!(store.read_value(&key, "X").unwrap_err(), BridgeError::NotFound);
}

#[test]
fn create_is_idempotent_and_keeps_values() {
    let mut store = RegistryStore::new();
    let key = store.create(Hive::Users, "Top\\Sub").expect("create");
    store.write_value(&key, "V", Data::QWord(7)).expect("write");
    let again = store.create(Hive::Users, "Top\\Sub").expect("create again");
    assert_eq!(store.read_value(&again, "V").unwrap(), Data::QWord(7));
}

#[test]
fn malformed_paths_are_rejected() {
    let mut store = RegistryStore::new();
    let hive = Hive::LocalMachine;
    assert_eq!(store.create(hive, "").unwrap_err(), BridgeError::InvalidPath);
    assert_eq!(store.create(hive, "A\\\\B").unwrap_err(), BridgeError::InvalidPath);
    assert_eq!(store.create(hive, "A\\").unwrap_err(), BridgeError::InvalidPath);
    assert_eq!(store.create(hive, "\\A").unwrap_err(), BridgeError::InvalidPath);
    assert_eq!(store.open(hive, "").unwrap_err(), BridgeError::InvalidPath);
}

#[test]
fn writing_other_is_rejected() {
    let mut store = RegistryStore::new();
    let key = store.create(Hive::ClassesRoot, "K").expect("create");
    assert_eq!(
        store.write_value(&key, "V", Data::Other).unwrap_err(),
        BridgeError::Rejected
    );
}

#[test]
fn missing_key_gives_not_found() {
    let mut store = RegistryStore::new();
    assert_eq!(store.open(Hive::Users, "Nope").unwrap_err(), BridgeError::NotFound);
    assert_eq!(store.delete(Hive::Users, "Nope").unwrap_err(), BridgeError::NotFound);
}

#[test]
fn list_values_yields_each_value_once() {
    let mut store = RegistryStore::new();
    let key = store.create(Hive::CurrentConfig, "L").expect("create");
    store.write_value(&key, "A", Data::DWord(1)).expect("write A");
    store.write_value(&key, "B", Data::String(String::from("two"))).expect("write B");
    store.write_value(&key, "A", Data::DWord(3)).expect("overwrite A");

    let listed = store.list_values(&key).expect("list");
    assert_eq!(listed.len(), 2);
    let mut names: Vec<&str> = listed.iter().map(|p| p.0.as_str()).collect();
    names.sort();
    assert_eq!(names, vec!["A", "B"]);
    for (name, value) in &listed {
        match name.as_str() {
            "A" => assert_eq!(*value, Data::DWord(3)),
            "B" => assert_eq!(*value, Data::String(String::from("two"))),
            _ => panic!("unexpected name"),
        }
    }
}

#[test]
fn hives_are_separate_namespaces() {
    let mut store = RegistryStore::new();
    store.create(Hive::CurrentUser, "Same\\Path").expect("create");
    assert_eq!(
        store.open(Hive::LocalMachine, "Same\\Path").unwrap_err(),
        BridgeError::NotFound
    );
}

#[test]
fn resolve_accepts_both_spellings_of_each_hive() {
    assert_eq!(Hive::resolve("hkcu").unwrap(), Hive::CurrentUser);
    assert_eq!(Hive::resolve("HKCU").unwrap(), Hive::CurrentUser);
    assert_eq!(Hive::resolve("CurrentUser").unwrap(), Hive::CurrentUser);
    assert_eq!(Hive::resolve("classesroot").unwrap(), Hive::ClassesRoot);
    assert_eq!(Hive::resolve("HKCR").unwrap(), Hive::ClassesRoot);
    assert_eq!(Hive::resolve("currentconfig").unwrap(), Hive::CurrentConfig);
    assert_eq!(Hive::resolve("hkcc").unwrap(), Hive::CurrentConfig);
    assert_eq!(Hive::resolve("LOCALMACHINE").unwrap(), Hive::LocalMachine);
    assert_eq!(Hive::resolve("hklm").unwrap(), Hive::LocalMachine);
    assert_eq!(Hive::resolve("Users").unwrap(), Hive::Users);
    assert_eq!(Hive::resolve("HKU").unwrap(), Hive::Users);
}

#[test]
fn resolve_rejects_unknown_names() {
    match Hive::resolve("bogus").unwrap_err() {
        BridgeError::UnknownHive(t) => assert_eq!(t, "bogus"),
        other => panic!("unexpected error {:?}", other),
    }
    assert!(Hive::resolve("").is_err());
    assert!(Hive::resolve("HK").is_err());
}

#[test]
fn hive_short_names() {
    assert_eq!(Hive::ClassesRoot.to_string(), "HKCR");
    assert_eq!(Hive::CurrentConfig.to_string(), "HKCC");
    assert_eq!(Hive::CurrentUser.to_string(), "HKCU");
    assert_eq!(Hive::LocalMachine.to_string(), "HKLM");
    assert_eq!(Hive::Users.to_string(), "HKU");
}
