use yron::ron_filename;

fn derive(name: &str) -> String {
    let chars: Vec<char> = name.chars().collect();
    ron_filename(&chars).into_iter().collect()
}

#[test]
fn extension_is_replaced() {
    assert_eq!(derive("config.yml"), "config.ron");
}

#[test]
fn everything_after_first_dot_goes() {
    assert_eq!(derive("archive.tar.gz"), "archive.ron");
}

#[test]
fn name_without_extension_gets_suffix() {
    assert_eq!(derive("notes"), "notes.ron");
}

#[test]
fn leading_dot_leaves_empty_stem() {
    assert_eq!(derive(".hidden"), ".ron");
}

#[test]
fn empty_name_gives_bare_suffix() {
    assert_eq!(derive(""), ".ron");
}
