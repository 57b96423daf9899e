use licenser::license::License;
use licenser::repo::Licenser;

fn mit() -> License {
    License {
        key: String::from("mit"),
        name: String::from("MIT License"),
        url: String::from("https://api.github.com/licenses/mit"),
        description: String::from("A short and simple permissive license."),
        implementation: String::from("Create a text file."),
        body: String::from("MIT text..."),
    }
}

#[test]
fn new_writes_exactly_the_body_bytes() {
    let contents = mit().new_file_contents();
    assert_eq!(contents.as_bytes(), "MIT text...".as_bytes());
}

#[test]
fn new_does_not_append_anything_to_the_body() {
    let body = "body without trailing newline";
    let mut l = mit();
    l.body = String::from(body);
    assert_eq!(l.new_file_contents(), body);
}

#[test]
fn show_body_only_prints_body_and_one_newline() {
    assert_eq!(mit().render_body(), "MIT text...\n");
}

#[test]
fn show_full_prints_labelled_fields_in_fixed_order() {
    let expected = "Name: MIT License\n\n\
                    Description: A short and simple permissive license.\n\n\
                    Implementation: Create a text file.\n\n\
                    MIT text...\n";
    assert_eq!(mit().render_full(), expected);
}

#[test]
fn show_full_keeps_order_with_empty_optional_fields() {
    let mut l = mit();
    l.description = String::new();
    l.implementation = String::new();
    assert_eq!(
        l.render_full(),
        "Name: MIT License\n\nDescription: \n\nImplementation: \n\nMIT text...\n"
    );
}

#[test]
fn render_show_picks_body_only_or_full() {
    let l = mit();
    assert_eq!(l.render_show(true), "MIT text...\n");
    let full = l.render_show(false);
    assert!(full.starts_with("Name: MIT License"));
    assert!(full.ends_with("MIT text...\n"));
}

#[test]
fn show_mit_body_only_scenario() {
    let repo = Licenser::from_licenses(vec![mit()]);
    let found = repo.get_license("mit").unwrap();
    assert_eq!(found.render_show(true), "MIT text...\n");
}
