use johnnydecimal::{reconcile, Area, Category, Error, Id, Index, Outcome, Reconciled, System, Tree};

fn no_dirs() -> Tree {
    Tree { top: vec![], middle: vec![], bottom: vec![] }
}

fn names(list: &[&str]) -> Vec<String> {
    list.iter().map(|s| s.to_string()).collect()
}

#[test]
fn test_adding_and_removing_things() {
    let mut system = System::new("../tests/empty", None, Some(&no_dirs())).expect("Test system should be valid");

    let area = Area::new("40-49 Area 4").expect("`40-49 Area 4` should be valid");
    let category = Category::new("43 New Category").expect("`43 New Category` should be valid");
    let id = Id::new("43.05 New Id").expect("`43.05 New Id` should be valid");

    assert_eq!(system.plan_add_area(&area), Ok("../tests/empty/40-49 Area 4".to_string()));
    assert_eq!(system.add_area(&area, Outcome::Done), Ok(&vec![area.clone()]), "should be able to add a new area `40-49 Area 4`");
    assert!(system.plan_add_area(&area).is_err(), "should fail when adding an existing area");

    assert_eq!(system.plan_add_category(&category), Ok("../tests/empty/40-49 Area 4/43 New Category".to_string()));
    assert_eq!(system.add_category(&category, Outcome::Done), Ok(&vec![category.clone()]), "should be able to add a new category `43 New Category`");
    assert!(system.plan_add_category(&category).is_err(), "should fail when adding an existing category");

    assert_eq!(
        system.plan_add_id(&id),
        Ok("../tests/empty/40-49 Area 4/43 New Category/43.05 New Id".to_string())
    );
    assert_eq!(system.add_id(&id, Outcome::Done), Ok(&vec![id.clone()]), "should be able to add a new id `43.05 New Id`");
    assert!(system.plan_add_id(&id).is_err(), "should fail when adding an existing id");

    assert!(system.plan_remove_id(&id).is_ok());
    assert!(system.remove_id(&id, Outcome::Done).is_ok(), "should be able to remove the added id `43.05 New Id`");
    assert!(system.plan_remove_category(&category).is_ok());
    assert!(system.remove_category(&category, Outcome::Done).is_ok(), "should be able to remove the added category `43 New Category`");
    assert!(system.plan_remove_area(&area).is_ok());
    assert!(system.remove_area(&area, Outcome::Done).is_ok(), "should be able to remove the added area `40-49 Area 4`");
}

#[test]
fn area_add() {
    let mut system = System::new("../test_systems/empty", None, Some(&no_dirs())).expect("Test system should be valid");

    let area = Area::new("40-49 Area 4").expect("`40-49 Area 4` should be valid");
    let category = Category::new("43 New Category").expect("`43 New Category` should be valid");
    let id = Id::new("43.05 New Id").expect("`43.05 New Id` should be valid");

    assert_eq!(system.add_area(&area, Outcome::Done), Ok(&vec![area.clone()]), "should be able to add a new area `40-49 Area 4`");
    assert_eq!(system.add_category(&category, Outcome::Done), Ok(&vec![category.clone()]), "should be able to add a new category `43 New Category`");
    assert_eq!(system.add_id(&id, Outcome::Done), Ok(&vec![id.clone()]), "should be able to add a new id `43.05 New Id`");

    assert!(system.remove_id(&id, Outcome::Done).is_ok(), "should be able to remove the added id `43.05 New Id`");
    assert!(system.remove_category(&category, Outcome::Done).is_ok(), "should be able to remove the added category `43 New Category`");
    assert!(system.remove_area(&area, Outcome::Done).is_ok(), "should be able to remove the added area `40-49 Area 4`");
}

#[test]
fn file_index_different_than_filesystem() {
    let tree = Tree { top: names(&["10-19 Area"]), middle: vec![], bottom: vec![] };
    assert!(
        System::new("../tests/sync", Some("20-29 Area"), Some(&tree)).is_err(),
        "should fail if index different than filesystem (out of sync)"
    );
}

#[test]
fn read_from_file() {
    let text = "10-19 Your first area's title\n11 Your first category's title\n11.01 Your first ID's title\n11.02 The second ID in category 11\n12 Category twelve\n20-29 Your second area\n21 Category twenty-one\n21.01 and so on\n";
    let tree = Tree {
        top: names(&["10-19 Your first area's title", "20-29 Your second area", "notes"]),
        middle: names(&["11 Your first category's title", "12 Category twelve", "21 Category twenty-one"]),
        bottom: names(&["11.01 Your first ID's title", "11.02 The second ID in category 11", "21.01 and so on"]),
    };
    let system = System::new("../tests/file", Some(text), Some(&tree)).expect("should be valid from file");

    let areas = vec![
        Area::new("10-19 Your first area's title").expect("should be valid area"),
        Area::new("20-29 Your second area").expect("should be valid area"),
    ];

    let categories = vec![
        Category::new("11 Your first category's title").expect("should be valid category"),
        Category::new("12 Category twelve").expect("should be valid category"),
        Category::new("21 Category twenty-one").expect("should be valid category"),
    ];

    let ids = vec![
        Id::new("11.01 Your first ID's title").expect("should be valid id"),
        Id::new("11.02 The second ID in category 11").expect("should be valid id"),
        Id::new("21.01 and so on").expect("should be valid id"),
    ];

    let index = Index::with_vecs(&areas, &categories, &ids).expect("should be valid index");

    assert_eq!(*system.get_index(), index, "should create correct index from verified index file");
}

#[test]
fn open_with_file_and_missing_directory_is_desync() {
    assert_eq!(System::new("root", Some("20-29 Area"), Some(&no_dirs())).err(), Some(Error::Desync));
}

#[test]
fn add_area_on_empty_root() {
    let mut system = System::new("root", None, Some(&no_dirs())).expect("empty root");
    let area = Area::new("40-49 New").unwrap();
    assert_eq!(system.plan_add_area(&area), Ok("root/40-49 New".to_string()));
    assert!(system.add_area(&area, Outcome::Done).is_ok());
    assert_eq!(system.get_index().get_areas().len(), 1);
    assert_eq!(system.get_index().get_areas()[0].get_area(), "40-49");
    assert_eq!(system.plan_add_area(&area), Err(Error::Duplicate));
}

#[test]
fn open_sources() {
    let system = System::new("root", None, None).expect("nothing there");
    assert!(system.get_index().get_areas().is_empty());
    assert_eq!(system.get_root(), "root");
    let system = System::new("root", Some("20-29 Area"), None).expect("file only");
    assert_eq!(system.get_index().get_areas().len(), 1);
    let tree = Tree { top: names(&["20-29 Area", "Photos"]), middle: names(&["22 Cat"]), bottom: vec![] };
    let system = System::new("root", None, Some(&tree)).expect("tree only");
    assert_eq!(system.get_index().get_categories().len(), 1);
    assert_eq!(System::new("root", Some("Nonsense"), None).err(), Some(Error::Unrecognized));
    let twice = Tree { top: names(&["20-29 Area", "20-29 Copy"]), middle: vec![], bottom: vec![] };
    assert_eq!(System::new("root", None, Some(&twice)).err(), Some(Error::Duplicate));
}

#[test]
fn reconcile_cases() {
    let a = || Index::new("20-29 Area").unwrap();
    let b = || Index::new("30-39 Area").unwrap();
    assert!(matches!(reconcile(Some(a()), Some(a())), Reconciled::Agree(_)));
    assert!(matches!(reconcile(Some(a()), Some(b())), Reconciled::Conflict));
    assert!(matches!(reconcile(Some(a()), None), Reconciled::FileOnly(_)));
    assert!(matches!(reconcile(None, Some(b())), Reconciled::FsOnly(_)));
    assert!(matches!(reconcile(None, None), Reconciled::Neither));
}

#[test]
fn file_system_outcomes() {
    let mut system = System::new("root", Some("20-29 Area"), None).unwrap();
    let area = Area::new("30-39 New").unwrap();
    assert_eq!(system.add_area(&area, Outcome::AlreadyExists), Err(Error::Desync));
    assert_eq!(system.add_area(&area, Outcome::Failed), Err(Error::Io));
    assert_eq!(system.get_index().get_areas().len(), 1);
    let old = Area::new("20-29 Area").unwrap();
    assert_eq!(system.plan_remove_area(&old), Ok("root/20-29 Area".to_string()));
    assert_eq!(system.remove_area(&old, Outcome::Failed), Err(Error::Io));
    assert_eq!(system.get_index().get_areas().len(), 1);
    assert_eq!(system.plan_remove_area(&area), Err(Error::NotFound));
    let orphan = Category::new("55 Orphan").unwrap();
    assert_eq!(system.plan_add_category(&orphan), Err(Error::Orphan));
    assert_eq!(system.add_category(&orphan, Outcome::Done), Err(Error::Desync));
}
