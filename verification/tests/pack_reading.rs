use std::collections::HashMap;
use taco_pack::space::pack::events::{XmlAttribute, XmlItem, XmlName};
use taco_pack::space::pack::loader::{DirectoryLoader, LoadError, PackLoaderContext};
use taco_pack::space::pack::{parse_pack_def, parse_pack_document, parse_pack_events, PackReading, Axis, Category, Pack, PackError, PackLoadError, PartialItem};

struct MemoryPack {
    files: HashMap<String, Vec<u8>>,
}

impl PackLoaderContext for MemoryPack {
    fn load_asset(&self, name: &str) -> Result<Vec<u8>, LoadError> {
        self.files.get(name).cloned().ok_or(LoadError { message: format!("no asset {name}") })
    }

    fn all_files_with_ext(&self, ext: &str) -> Result<Vec<String>, LoadError> {
        let mut names: Vec<String> =
            self.files.keys().filter(|n| n.ends_with(&format!(".{ext}"))).cloned().collect();
        names.sort();
        Ok(names)
    }
}

fn memory(files: &[(&str, &str)]) -> MemoryPack {
    MemoryPack { files: files.iter().map(|(n, c)| (n.to_string(), c.as_bytes().to_vec())).collect() }
}

fn name(local: &str) -> XmlName {
    XmlName { local_name: local.to_string(), namespace: None, prefix: None }
}

fn start(local: &str, attrs: &[(&str, &str)]) -> XmlItem {
    XmlItem::StartElement(
        name(local),
        attrs.iter().map(|(n, v)| XmlAttribute { name: n.to_string(), value: v.to_string() }).collect(),
    )
}

fn end(local: &str) -> XmlItem {
    XmlItem::EndElement(name(local))
}

fn read(events: Vec<XmlItem>) -> (Pack, Result<(), PackError>) {
    let mut pack = Pack::default();
    let ctx = memory(&[]);
    let r = parse_pack_events(&mut pack, &ctx, events);
    (pack, r)
}

#[test]
fn categories_nest_and_pois_are_kept() {
    let (pack, r) = read(vec![
        XmlItem::StartDocument,
        start("OverlayData", &[]),
        start("MarkerCategory", &[("name", "Top Level"), ("DisplayName", "Top")]),
        start("markercategory", &[("NAME", "inner")]),
        end("MarkerCategory"),
        end("MarkerCategory"),
        start("POIs", &[]),
        start("POI", &[("type", "top.inner"), ("MapID", "15"), ("xpos", "1.5"), ("ypos", "-2"), ("zpos", "3e2"), ("other", "x")]),
        end("POI"),
        end("POIs"),
        end("OverlayData"),
        XmlItem::EndDocument,
    ]);
    assert!(r.is_ok());
    assert_eq!(pack.categories.len(), 1);
    let (key, top) = pack.categories.get_index(0).unwrap();
    assert_eq!(key, "Top_Level");
    assert_eq!(top.id, "Top_Level");
    assert_eq!(top.full_id, "Top_Level");
    assert_eq!(top.display_name, "Top");
    assert!(top.default_toggle && !top.is_hidden && !top.is_separator);
    assert_eq!(top.sub_categories.len(), 1);
    let inner = top.sub_categories.get("inner").unwrap();
    assert_eq!(inner.full_id, "Top_Level.inner");
    assert_eq!(inner.display_name, "inner");
    assert_eq!(pack.pois.len(), 1);
    let poi = &pack.pois[0];
    assert_eq!(poi.id, "top.inner");
    assert_eq!(poi.map_id, 15);
    assert_eq!((poi.position.x.as_str(), poi.position.y.as_str(), poi.position.z.as_str()), ("1.5", "-2", "3e2"));
    assert!(pack.trails.is_empty());
}

#[test]
fn same_category_name_replaces_in_place() {
    let (pack, r) = read(vec![
        start("OverlayData", &[]),
        start("MarkerCategory", &[("name", "a")]),
        end("MarkerCategory"),
        start("MarkerCategory", &[("name", "b")]),
        end("MarkerCategory"),
        start("MarkerCategory", &[("name", "a"), ("DisplayName", "again")]),
        end("MarkerCategory"),
        end("OverlayData"),
    ]);
    assert!(r.is_ok());
    assert_eq!(pack.categories.len(), 2);
    assert_eq!(pack.categories.get_index(0).unwrap().1.display_name, "again");
    assert_eq!(pack.categories.get_index(1).unwrap().0, "b");
    assert!(pack.categories.get_index(2).is_none());
    assert!(pack.categories.get("c").is_none());
}

#[test]
fn elements_out_of_place_are_rejected() {
    let (_, r) = read(vec![start("POI", &[])]);
    assert!(matches!(r, Err(PackError::UnexpectedStart(n)) if n.local_name == "POI"));
    let (_, r) = read(vec![start("OverlayData", &[]), start("OverlayData", &[])]);
    assert!(matches!(r, Err(PackError::UnexpectedStart(_))));
    let (_, r) = read(vec![start("OverlayData", &[]), start("Unknown", &[])]);
    assert!(matches!(r, Err(PackError::UnexpectedStart(n)) if n.local_name == "Unknown"));
    let (_, r) = read(vec![start("OverlayData", &[]), end("POIs")]);
    assert!(matches!(r, Err(PackError::UnexpectedEnd(n)) if n.local_name == "POIs"));
    let (_, r) = read(vec![start("OverlayData", &[]), XmlItem::EndDocument]);
    assert!(matches!(r, Err(PackError::UnexpectedEndOfDocument)));
    let (_, r) = read(vec![start("OverlayData", &[])]);
    assert!(matches!(r, Err(PackError::UnexpectedEndOfDocument)));
}

#[test]
fn point_of_interest_errors() {
    let poi = |attrs: &[(&str, &str)]| {
        read(vec![start("OverlayData", &[]), start("POIs", &[]), start("POI", attrs)]).1
    };
    assert!(matches!(poi(&[("xpos", "1"), ("ypos", "1"), ("zpos", "1")]), Err(PackError::PoiMissingMapId)));
    assert!(matches!(poi(&[("MapID", "1"), ("xpos", "1"), ("ypos", "1")]), Err(PackError::PoiMissingPosition)));
    assert!(matches!(poi(&[("MapID", "x1")]), Err(PackError::InvalidPoiMapId)));
    assert!(matches!(poi(&[("xpos", "one")]), Err(PackError::InvalidPoiCoordinate(Axis::X))));
    assert!(matches!(poi(&[("ypos", "1,5")]), Err(PackError::InvalidPoiCoordinate(Axis::Y))));
    assert!(matches!(poi(&[("zpos", "")]), Err(PackError::InvalidPoiCoordinate(Axis::Z))));
    // the first attribute that fails to parse decides
    assert!(matches!(poi(&[("MapID", "1"), ("zpos", "?"), ("xpos", "?")]), Err(PackError::InvalidPoiCoordinate(Axis::Z))));
}

#[test]
fn trail_elements_are_rejected() {
    let trail = |attrs: &[(&str, &str)]| {
        read(vec![start("OverlayData", &[]), start("POIs", &[]), start("Trail", attrs)]).1
    };
    assert!(matches!(trail(&[]), Err(PackError::TrailMissingType)));
    assert!(matches!(trail(&[("trailData", "")]), Err(PackError::TrailMissingType)));
    assert!(matches!(trail(&[("trailData", "a/b c.trl")]), Err(PackError::TrailMissingData(id)) if id == "a_b_c.trl"));
}

#[test]
fn reading_stops_at_end_of_document() {
    let (pack, r) = read(vec![
        start("OverlayData", &[]),
        start("MarkerCategory", &[("name", "a")]),
        end("MarkerCategory"),
        end("OverlayData"),
        XmlItem::EndDocument,
        start("POI", &[]),
    ]);
    assert!(r.is_ok());
    assert_eq!(pack.categories.len(), 1);
}

#[test]
fn reading_only_adds_to_a_pack() {
    let ctx = memory(&[]);
    let mut pack = Pack::default();
    let doc = |map: &str| {
        vec![
            start("OverlayData", &[]),
            start("POIs", &[]),
            start("POI", &[("MapID", map), ("xpos", "0"), ("ypos", "0"), ("zpos", "0")]),
            end("POI"),
            end("POIs"),
            end("OverlayData"),
        ]
    };
    assert!(parse_pack_events(&mut pack, &ctx, doc("1")).is_ok());
    let mut failing = doc("2");
    failing.push(start("Bogus", &[]));
    // a rejected document keeps what it read before the rejected event
    assert!(parse_pack_events(&mut pack, &ctx, failing).is_err());
    assert_eq!(pack.pois.iter().map(|p| p.map_id).collect::<Vec<_>>(), vec![1, 2]);
    assert!(parse_pack_events(&mut pack, &ctx, doc("3")).is_ok());
    assert_eq!(pack.pois.iter().map(|p| p.map_id).collect::<Vec<_>>(), vec![1, 2, 3]);
    assert!(pack.trails.is_empty());
}

#[test]
fn category_from_attributes() {
    let parent = Category::from_xml(&[PartialItem::OverlayData], vec![XmlAttribute { name: "name".into(), value: "p q".into() }]).unwrap();
    assert_eq!(parent.full_id, "p_q");
    let child = Category::from_xml(
        &[PartialItem::OverlayData, PartialItem::MarkerCategory(parent)],
        vec![
            XmlAttribute { name: "DisplayName".into(), value: "Child!".into() },
            XmlAttribute { name: "name".into(), value: "c.d".into() },
            XmlAttribute { name: "name".into(), value: "e".into() },
        ],
    )
    .unwrap();
    assert_eq!(child.id, "e");
    assert_eq!(child.full_id, "p_q.e");
    assert_eq!(child.display_name, "Child!");
    assert_eq!(child.sub_categories.len(), 0);
}

#[test]
fn textures_take_new_slots() {
    let mut pack = Pack::default();
    assert_eq!(pack.get_or_load_texture("a.png").unwrap(), 0);
    assert_eq!(pack.get_or_load_texture("a.png").unwrap(), 1);
    pack.texture_list.push(("b.png".to_string(), 7));
    assert_eq!(pack.get_or_load_texture("b.png").unwrap(), 7);
    assert_eq!(pack.textures.len(), 2);
}

#[test]
fn definitions_are_read_from_markup() {
    let ctx = memory(&[(
        "defs/main.xml",
        r#"<?xml version="1.0"?>
<OverlayData>
  <!-- a comment -->
  <MarkerCategory name="Races" DisplayName="Races">
    <MarkerCategory name="Beetle Race"/>
  </MarkerCategory>
  <POIs>
    <POI type="Races.Beetle" MapID="50" xpos="1" ypos="2.5" zpos="-3"/>
  </POIs>
</OverlayData>"#,
    )]);
    let mut pack = Pack::default();
    assert!(parse_pack_def(&mut pack, &ctx, "defs/main.xml").is_ok());
    let races = pack.categories.get("Races").unwrap();
    assert_eq!(races.sub_categories.get("Beetle_Race").unwrap().full_id, "Races.Beetle_Race");
    assert_eq!(pack.pois.len(), 1);
    assert_eq!(pack.pois[0].map_id, 50);
}

#[test]
fn markup_errors_carry_the_position() {
    let ctx = memory(&[
        ("bad.xml", "<OverlayData>\n  <POIs>\n</OverlayData>"),
        ("rule.xml", "<OverlayData>\n  <POI MapID=\"1\"/>\n</OverlayData>"),
    ]);
    let mut pack = Pack::default();
    match parse_pack_def(&mut pack, &ctx, "bad.xml") {
        Err(PackLoadError::Definition { asset, row, cause: PackError::Xml(message), .. }) => {
            assert_eq!(asset, "bad.xml");
            assert_eq!(row, 2);
            assert!(!message.is_empty());
        }
        _ => panic!("a markup error was expected"),
    }
    match parse_pack_def(&mut pack, &ctx, "rule.xml") {
        Err(PackLoadError::Definition { asset, row, cause: PackError::UnexpectedStart(n), .. }) => {
            assert_eq!(asset, "rule.xml");
            assert_eq!(n.local_name, "POI");
            assert_eq!(row, 1);
        }
        _ => panic!("a misplaced element was expected"),
    }
    assert!(matches!(parse_pack_def(&mut pack, &ctx, "missing.xml"), Err(PackLoadError::Load(_))));
}

#[test]
fn a_pack_loads_every_definition() {
    let ctx = memory(&[
        ("a.xml", "<OverlayData><MarkerCategory name=\"one\"/></OverlayData>"),
        ("b.xml", "<OverlayData><MarkerCategory name=\"two\"/></OverlayData>"),
        ("c.txt", "not read"),
    ]);
    let pack = Pack::load(ctx).unwrap();
    assert_eq!(pack.categories.len(), 2);
    assert_eq!(pack.categories.get_index(0).unwrap().0, "one");
    assert_eq!(pack.categories.get_index(1).unwrap().0, "two");
    let broken = memory(&[("a.xml", "<OverlayData><Trail trailData=\"x.trl\"/></OverlayData>")]);
    assert!(matches!(Pack::load(broken), Err(PackLoadError::Definition { cause: PackError::UnexpectedStart(_), .. })));
}

#[test]
fn directory_loader_keeps_its_root() {
    let d = DirectoryLoader::new("/packs/tekkit".to_string());
    assert_eq!(d.root(), "/packs/tekkit");
}

#[test]
fn a_listing_decides_which_definitions_load() {
    let ctx = memory(&[
        ("a.xml", "<OverlayData><MarkerCategory name=\"one\"/></OverlayData>"),
        ("b.xml", "<OverlayData><POIs><Nope/></POIs></OverlayData>"),
    ]);
    let empty = Pack::load_from_listing(&ctx, Ok(vec![])).unwrap();
    assert_eq!(empty.categories.len(), 0);
    assert!(empty.pois.is_empty());
    match Pack::load_from_listing(&ctx, Err(LoadError { message: "unreadable".to_string() })) {
        Err(PackLoadError::Load(e)) => assert_eq!(e.message, "unreadable"),
        _ => panic!("the listing's error was expected"),
    }
    let one = Pack::load_from_listing(&ctx, Ok(vec!["a.xml".to_string()])).unwrap();
    assert_eq!(one.categories.get_index(0).unwrap().0, "one");
    match Pack::load_from_listing(&ctx, Ok(vec!["a.xml".to_string(), "b.xml".to_string()])) {
        Err(PackLoadError::Definition { asset, .. }) => assert_eq!(asset, "b.xml"),
        _ => panic!("the second document was expected to be rejected"),
    }
}

fn read_document(text: &str) -> (Pack, Result<(), PackLoadError>) {
    let mut pack = Pack::default();
    let r = parse_pack_document(&mut pack, &memory(&[]), "doc.xml", text.as_bytes().to_vec());
    (pack, r)
}

#[test]
fn a_document_nests_its_categories() {
    let (pack, r) = read_document(
        r#"<OverlayData><MarkerCategory name="a"><MarkerCategory name="b"/></MarkerCategory></OverlayData>"#,
    );
    assert!(r.is_ok());
    assert_eq!(pack.categories.len(), 1);
    let (key, a) = pack.categories.get_index(0).unwrap();
    assert_eq!(key, "a");
    assert_eq!(a.full_id, "a");
    assert_eq!(a.sub_categories.len(), 1);
    let (key, b) = a.sub_categories.get_index(0).unwrap();
    assert_eq!(key, "b");
    assert_eq!(b.full_id, "a.b");
    assert!(pack.pois.is_empty());
    assert!(pack.trails.is_empty());
}

#[test]
fn a_document_gives_its_point_of_interest() {
    let (pack, r) = read_document(
        r#"<OverlayData><POIs><POI type="x y.z" MapID="15" xpos="1" ypos="2" zpos="3"/></POIs></OverlayData>"#,
    );
    assert!(r.is_ok());
    assert_eq!(pack.pois.len(), 1);
    assert_eq!(pack.pois[0].id, "x_y.z");
    assert_eq!(pack.pois[0].map_id, 15);
    assert_eq!(pack.pois[0].position.x, "1");
    assert_eq!(pack.pois[0].position.y, "2");
    assert_eq!(pack.pois[0].position.z, "3");
    assert!(pack.trails.is_empty());
    assert_eq!(pack.categories.len(), 0);
}

#[test]
fn a_document_with_elements_out_of_place_is_rejected() {
    let (pack, r) = read_document(r#"<MarkerCategory name="a"/>"#);
    match r {
        Err(PackLoadError::Definition { asset, cause: PackError::UnexpectedStart(n), .. }) => {
            assert_eq!(asset, "doc.xml");
            assert_eq!(n.local_name, "MarkerCategory");
        }
        _ => panic!("a misplaced category was expected"),
    }
    assert_eq!(pack.categories.len(), 0);
    let (pack, r) = read_document(r#"<OverlayData><POI MapID="1" xpos="0" ypos="0" zpos="0"/></OverlayData>"#);
    assert!(matches!(r, Err(PackLoadError::Definition { cause: PackError::UnexpectedStart(_), .. })));
    assert!(pack.pois.is_empty());
}

#[test]
fn a_document_that_stops_early_keeps_what_was_read() {
    let (pack, r) = read_document(r#"<OverlayData><POIs><POI MapID="2" xpos="0" ypos="0" zpos="0"/></POIs>"#);
    assert!(matches!(r, Err(PackLoadError::Definition { cause: PackError::Xml(_), .. })));
    assert_eq!(pack.pois.len(), 1);
}

#[test]
fn reading_a_listing_asks_for_each_name_in_order() {
    let ctx = memory(&[]);
    let mut reading = PackReading::start(vec!["first.xml".to_string(), "second.xml".to_string()]);
    assert_eq!(reading.next_asset().unwrap(), "first.xml");
    reading = reading
        .answer(&ctx, Ok(b"<OverlayData><MarkerCategory name=\"one\"/></OverlayData>".to_vec()))
        .unwrap();
    assert_eq!(reading.next_asset().unwrap(), "second.xml");
    reading = reading
        .answer(&ctx, Ok(b"<OverlayData><MarkerCategory name=\"two\"/></OverlayData>".to_vec()))
        .unwrap();
    assert!(reading.next_asset().is_none());
    let pack = reading.finish();
    assert_eq!(pack.categories.get_index(0).unwrap().0, "one");
    assert_eq!(pack.categories.get_index(1).unwrap().0, "two");
}

#[test]
fn reading_a_listing_stops_at_the_first_failure() {
    let ctx = memory(&[]);
    let reading = PackReading::start(vec!["a.xml".to_string(), "b.xml".to_string()]);
    match reading.answer(&ctx, Err(LoadError { message: "gone".to_string() })) {
        Err(PackLoadError::Load(e)) => assert_eq!(e.message, "gone"),
        _ => panic!("the loader's error was expected"),
    }
    let reading = PackReading::start(vec!["a.xml".to_string(), "b.xml".to_string()]);
    match reading.answer(&ctx, Ok(b"<OverlayData>\n<Nope/></OverlayData>".to_vec())) {
        Err(PackLoadError::Definition { asset, row, column, cause: PackError::UnexpectedStart(_) }) => {
            assert_eq!(asset, "a.xml");
            assert_eq!(row, 1);
            assert_eq!(column, 0);
        }
        _ => panic!("the first document was expected to be rejected"),
    }
    let empty = PackReading::start(vec![]);
    assert!(empty.next_asset().is_none());
    assert_eq!(empty.finish().categories.len(), 0);
}

struct RecordingPack {
    files: MemoryPack,
    asked: std::cell::RefCell<Vec<String>>,
}

impl PackLoaderContext for RecordingPack {
    fn load_asset(&self, name: &str) -> Result<Vec<u8>, LoadError> {
        self.asked.borrow_mut().push(name.to_string());
        self.files.load_asset(name)
    }

    fn all_files_with_ext(&self, ext: &str) -> Result<Vec<String>, LoadError> {
        self.asked.borrow_mut().push(format!("*.{ext}"));
        self.files.all_files_with_ext(ext)
    }
}

#[test]
fn loading_asks_for_the_listing_then_each_name_in_order() {
    let loader = RecordingPack {
        files: memory(&[
            ("b.xml", "<OverlayData><MarkerCategory name=\"two\"/></OverlayData>"),
            ("a.xml", "<OverlayData><MarkerCategory name=\"one\"/></OverlayData>"),
            ("c.xml", "<OverlayData><Nope/></OverlayData>"),
            ("d.xml", "<OverlayData/>"),
        ]),
        asked: std::cell::RefCell::new(Vec::new()),
    };
    let result = Pack::load_from_listing(&loader, loader.all_files_with_ext("xml"));
    assert!(matches!(result, Err(PackLoadError::Definition { ref asset, .. }) if asset == "c.xml"));
    assert_eq!(*loader.asked.borrow(), vec!["*.xml", "a.xml", "b.xml", "c.xml"]);
    let mut pack = Pack::default();
    assert!(parse_pack_def(&mut pack, &loader, "b.xml").is_ok());
    assert_eq!(loader.asked.borrow().last().unwrap(), "b.xml");
}
