use taco_pack::space::pack::category::{parse_bool, Category};
use taco_pack::space::pack::events::XmlAttribute;
use taco_pack::space::pack::{Category as NestedCategory, Pack, PartialItem};

fn attrs(list: &[(&str, &str)]) -> Vec<XmlAttribute> {
    list.iter().map(|(n, v)| XmlAttribute { name: n.to_string(), value: v.to_string() }).collect()
}

fn read(stack: &[PartialItem], list: &[(&str, &str)]) -> Category {
    let mut pack = Pack::default();
    Category::from_xml(&mut pack, stack, attrs(list)).unwrap()
}

#[test]
fn flags_and_prefixes_are_read() {
    let c = read(
        &[PartialItem::OverlayData],
        &[
            ("bh-name", "my cat"),
            ("bh-bh-DisplayName", "Mine"),
            ("IsSeparator", "true"),
            ("ishidden", "TRUE"),
            ("bh-defaulttoggle", "false"),
            ("unknown", "x"),
        ],
    );
    assert_eq!(c.id, "my_cat");
    assert_eq!(c.full_id, "my_cat");
    assert_eq!(c.display_name, "Mine");
    assert!(c.is_separator);
    assert!(!c.is_hidden);
    assert!(!c.default_toggle);
    assert!(c.sub_categories.is_empty());
    // "Bh-" is not the prefix; the name is then unknown
    let d = read(&[], &[("Bh-name", "x")]);
    assert_eq!(d.id, "");
    assert_eq!(d.display_name, "");
}

#[test]
fn full_id_follows_the_enclosing_category() {
    let mut pack = Pack::default();
    let parent = NestedCategory::from_xml(&[PartialItem::OverlayData], attrs(&[("name", "p")])).unwrap();
    let c = Category::from_xml(&mut pack, &[PartialItem::OverlayData, PartialItem::MarkerCategory(parent)], attrs(&[("name", "c")])).unwrap();
    assert_eq!(c.full_id, "p.c");
}

#[test]
fn bools_parse_as_std_does() {
    for t in ["true", "false", "True", "FALSE", "", "yes", "1", " true", "true "] {
        assert_eq!(parse_bool(t), t.parse::<bool>().ok(), "{t:?}");
    }
}

#[test]
fn merge_adds_missing_sub_categories() {
    let mut a = read(&[], &[("name", "a"), ("DisplayName", "first")]);
    a.sub_categories.insert("x".into(), "a.x".into());
    let mut b = read(&[], &[("name", "a"), ("DisplayName", "second")]);
    b.sub_categories.insert("y".into(), "a.y".into());
    b.sub_categories.insert("x".into(), "other.x".into());
    b.sub_categories.insert("z".into(), "a.z".into());
    a.merge(b);
    assert_eq!(a.display_name, "first");
    let entries: Vec<(&str, &str)> = a.sub_categories.iter().map(|(k, v)| (k.as_str(), v.as_str())).collect();
    assert_eq!(entries, vec![("x", "a.x"), ("y", "a.y"), ("z", "a.z")]);
    // merging the same definition again adds nothing
    let mut again = read(&[], &[("name", "a")]);
    again.sub_categories.insert("y".into(), "a.y".into());
    again.sub_categories.insert("z".into(), "changed".into());
    a.merge(again);
    assert_eq!(a.sub_categories.len(), 3);
    assert_eq!(a.sub_categories.get("z").unwrap(), "a.z");
}

#[test]
fn merge_of_another_category_changes_nothing() {
    let mut a = read(&[], &[("name", "a")]);
    let mut b = read(&[], &[("name", "b")]);
    b.sub_categories.insert("y".into(), "b.y".into());
    a.merge(b);
    assert!(a.sub_categories.is_empty());
}
