use licenser::license::License;
use licenser::repo::CatalogInit;
use licenser::repo::Licenser;

fn mk(key: &str, name: &str, url: &str, description: &str, implementation: &str, body: &str) -> License {
    License {
        key: String::from(key),
        name: String::from(name),
        url: String::from(url),
        description: String::from(description),
        implementation: String::from(implementation),
        body: String::from(body),
    }
}

fn sample_catalog() -> Vec<License> {
    vec![
        mk("mit", "MIT License", "https://api.github.com/licenses/mit", "A short and simple permissive license.", "Create a text file.", "MIT text..."),
        mk("gpl-3.0", "GNU General Public License v3.0", "https://api.github.com/licenses/gpl-3.0", "Strong copyleft.", "Include a copy.", "GPL body\ntext"),
        mk("apache-2.0", "Apache License 2.0", "https://api.github.com/licenses/apache-2.0", "Permissive.", "Place a NOTICE file.", "Apache body"),
    ]
}

#[test]
fn find_by_key_present_returns_matching_record() {
    let repo = Licenser::from_licenses(sample_catalog());
    let found = repo.get_license("gpl-3.0");
    let l = found.expect("key present in the catalog must be found");
    assert_eq!(l.key, "gpl-3.0");
    assert_eq!(l.name, "GNU General Public License v3.0");
    assert_eq!(l.body, "GPL body\ntext");
}

#[test]
fn find_by_key_every_present_key_matches_query() {
    let catalog = sample_catalog();
    for l in &catalog {
        let repo = Licenser::from_licenses(sample_catalog());
        let found = repo.get_license(&l.key).expect("present key");
        assert_eq!(found.key, l.key);
    }
}

#[test]
fn find_by_key_absent_returns_nothing() {
    let repo = Licenser::from_licenses(sample_catalog());
    assert!(repo.get_license("bsd-2-clause").is_none());
}

#[test]
fn find_by_key_is_exact_no_case_or_partial_match() {
    let repo = Licenser::from_licenses(sample_catalog());
    assert!(repo.get_license("MIT").is_none());
    let repo = Licenser::from_licenses(sample_catalog());
    assert!(repo.get_license("mi").is_none());
    let repo = Licenser::from_licenses(sample_catalog());
    assert!(repo.get_license("").is_none());
}

#[test]
fn find_by_key_on_empty_catalog_returns_nothing() {
    let repo = Licenser::from_licenses(Vec::new());
    assert!(repo.get_license("mit").is_none());
}

#[test]
fn find_by_key_returns_first_of_equal_keys() {
    let twice = vec![
        mk("mit", "first", "u1", "", "", "b1"),
        mk("mit", "second", "u2", "", "", "b2"),
    ];
    let repo = Licenser::from_licenses(twice);
    let l = repo.get_license("mit").unwrap();
    assert_eq!(l.name, "first");
}

#[test]
fn init_runs_one_detail_fetch_per_listed_record() {
    // The bulk listing yields records without bodies; the driver performs one
    // detail fetch per record, exactly catalog-size many.
    let summaries = vec![
        mk("mit", "MIT License", "https://api.github.com/licenses/mit", "", "", ""),
        mk("gpl-3.0", "GPL", "https://api.github.com/licenses/gpl-3.0", "", "", ""),
        mk("apache-2.0", "Apache", "https://api.github.com/licenses/apache-2.0", "", "", ""),
    ];
    let n = summaries.len();
    let full = sample_catalog();
    let mut init = CatalogInit::new(summaries);
    let mut fetches: usize = 0;
    while let Some(url) = init.next_url() {
        let fetched = full
            .iter()
            .find(|l| l.url == url)
            .expect("the URL asked for comes from the listing")
            .clone();
        init.supply(fetched);
        fetches += 1;
        assert!(fetches <= n);
    }
    assert_eq!(fetches, n);
    let done = init.finish();
    assert_eq!(done.len(), n);
    for (d, f) in done.iter().zip(full.iter()) {
        assert_eq!(d.key, f.key);
        assert_eq!(d.body, f.body);
        assert!(!d.body.is_empty());
    }
}

#[test]
fn init_on_empty_listing_needs_no_fetch() {
    let mut init = CatalogInit::new(Vec::new());
    assert!(init.next_url().is_none());
    let done = init.finish();
    assert!(done.is_empty());
}
