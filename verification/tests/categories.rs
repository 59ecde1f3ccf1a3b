use pyroxene::category::default_catalog;
use pyroxene::category::populate;
use pyroxene::category::Category;
use pyroxene::desktop::DesktopEntry;
use pyroxene::desktop::DesktopEntryErr;
use pyroxene::store::build_store;

fn store_of(texts: &[&str]) -> Vec<DesktopEntry> {
    let owned: Vec<String> = texts.iter().map(|t| t.to_string()).collect();
    let (entries, failures) = build_store(&owned);
    assert!(failures.is_empty());
    entries
}

#[test]
fn membership_sorted_case_insensitively() {
    let store = store_of(&[
        "[Desktop Entry]\nName=Zeta\nExec=z\nCategories=network\n",
        "[Desktop Entry]\nName=alpha\nExec=a\nCategories=network\n",
    ]);
    let mut cat = Category::new("network", "Network", "applications-internet");
    cat.add_entries(&store);
    let names: Vec<&str> = cat.entries.iter().map(|&i| store[i].name.as_str()).collect();
    assert_eq!(names, vec!["alpha", "Zeta"]);
}

#[test]
fn membership_matches_identifier_case_insensitively() {
    let store = store_of(&["[Desktop Entry]\nName=Surf\nExec=s\nCategories=NETWORK;X-Extra\n"]);
    let mut cat = Category::new("network", "Network", "applications-internet");
    cat.add_entries(&store);
    assert_eq!(cat.entries, vec![0]);
}

#[test]
fn membership_ties_keep_store_order() {
    let store = store_of(&[
        "[Desktop Entry]\nName=Same\nExec=one\nCategories=game\n",
        "[Desktop Entry]\nName=same\nExec=two\nCategories=game\n",
    ]);
    let mut cat = Category::new("game", "Games", "applications-games");
    cat.add_entries(&store);
    assert_eq!(cat.entries, vec![0, 1]);
}

#[test]
fn empty_categories_are_dropped_from_catalog() {
    let store = store_of(&[
        "[Desktop Entry]\nName=Surf\nExec=s\nCategories=Network\n",
        "[Desktop Entry]\nName=Paint\nExec=p\nCategories=Graphics\n",
    ]);
    let catalog = populate(default_catalog(), &store);
    let idens: Vec<&str> = catalog.iter().map(|c| c.iden.as_str()).collect();
    assert_eq!(idens, vec!["graphics", "network"]);
    assert!(catalog.iter().all(|c| !c.entries.is_empty()));
}

#[test]
fn catalog_without_matches_is_empty() {
    let store = store_of(&["[Desktop Entry]\nName=Plain\nExec=p\n"]);
    let catalog = populate(default_catalog(), &store);
    assert!(catalog.is_empty());
}

#[test]
fn default_catalog_has_eleven_entries_in_order() {
    let catalog = default_catalog();
    assert_eq!(catalog.len(), 11);
    assert_eq!(catalog[0].iden, "utility");
    assert_eq!(catalog[0].name, "Accessories");
    assert_eq!(catalog[0].icon, "applications-utilities");
    assert_eq!(catalog[6].iden, "network");
    assert_eq!(catalog[6].name, "Network");
    assert_eq!(catalog[10].iden, "system");
    assert!(catalog.iter().all(|c| c.entries.is_empty()));
}

#[test]
fn build_store_keeps_discovery_order_and_reports_failures() {
    let texts: Vec<String> = vec![
        "[Desktop Entry]\nName=One\nExec=one\n".to_string(),
        "[Desktop Entry]\nName=Ghost\nExec=g\nHidden=true\n".to_string(),
        "[Desktop Entry]\nName=NoRun\n".to_string(),
        "[Desktop Entry]\nName=Two\nExec=two\n".to_string(),
    ];
    let (entries, failures) = build_store(&texts);
    let names: Vec<&str> = entries.iter().map(|e| e.name.as_str()).collect();
    assert_eq!(names, vec!["One", "Two"]);
    assert_eq!(failures.len(), 1);
    assert_eq!(failures[0].0, 2);
    assert!(matches!(failures[0].1, DesktopEntryErr::MissingExec));
}
