use rgssad::archive::RGSSArchive;
use rgssad::filter::keep;

fn archive_of(names: &[&str]) -> RGSSArchive {
    let key: u32 = 3;
    let mut bytes = b"RGSSAD\x00\x03".to_vec();
    bytes.extend_from_slice(&0u32.to_le_bytes());
    for name in names {
        for field in [64u32, 0, 1, name.len() as u32] {
            bytes.extend_from_slice(&(field ^ key).to_le_bytes());
        }
        for (i, b) in name.as_bytes().iter().enumerate() {
            bytes.push(b ^ key.to_le_bytes()[i % 4]);
        }
    }
    bytes.extend_from_slice(&key.to_le_bytes());
    RGSSArchive::open(bytes).unwrap()
}

fn strings(names: &[&str]) -> Vec<String> {
    names.iter().map(|n| n.to_string()).collect()
}

#[test]
fn select_keeps_the_names_that_the_pattern_matches() {
    let archive = archive_of(&["Data/Map001.rxdata", "Graphics/a.png", "Data/Scripts.rxdata", "b.png"]);
    assert_eq!(archive.select("^Data/"), Some(strings(&["Data/Map001.rxdata", "Data/Scripts.rxdata"])));
    assert_eq!(archive.select(r"\.png$"), Some(strings(&["Graphics/a.png", "b.png"])));
    assert_eq!(archive.select("Map[0-9]+"), Some(strings(&["Data/Map001.rxdata"])));
    assert_eq!(archive.select("nothing"), Some(Vec::new()));
}

#[test]
fn select_searches_anywhere_in_the_name() {
    let archive = archive_of(&["Data/Map001.rxdata", "Graphics/a.png"]);
    assert_eq!(archive.select("a"), Some(strings(&["Data/Map001.rxdata", "Graphics/a.png"])));
    assert_eq!(archive.select(""), Some(strings(&["Data/Map001.rxdata", "Graphics/a.png"])));
    assert_eq!(archive.select("^a"), Some(Vec::new()));
    // The pattern is a pattern, not the name: it does not match itself here.
    assert_eq!(archive.select("^Graphics/a.png$"), Some(strings(&["Graphics/a.png"])));
    assert_eq!(archive.select("[x-z]"), Some(strings(&["Data/Map001.rxdata"])));
}

#[test]
fn select_keeps_the_order_of_the_index() {
    let archive = archive_of(&["c", "a", "b", "a"]);
    assert_eq!(archive.select("."), Some(strings(&["c", "a", "b"])));
}

#[test]
fn select_fails_on_a_pattern_that_is_not_accepted() {
    let archive = archive_of(&["a", "b"]);
    assert_eq!(archive.select("*"), None);
    assert_eq!(archive.select("("), None);
    assert_eq!(archive.select("[a"), None);
}

#[test]
fn select_on_an_empty_archive_selects_nothing() {
    let archive = archive_of(&[]);
    assert_eq!(archive.select("a"), Some(Vec::new()));
    assert_eq!(archive.select("*"), Some(Vec::new()));
}

#[test]
fn keep_adds_the_name_only_on_a_true_verdict() {
    let mut selected = strings(&["x"]);
    keep(&mut selected, &String::from("y"), false);
    assert_eq!(selected, strings(&["x"]));
    keep(&mut selected, &String::from("y"), true);
    assert_eq!(selected, strings(&["x", "y"]));
    keep(&mut selected, &String::from("y"), true);
    assert_eq!(selected, strings(&["x", "y", "y"]));
}
