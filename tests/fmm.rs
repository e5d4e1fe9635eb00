use fmm::directory::{Directory, ModError, ModListJsonMod};
use fmm::index::{DependencyKind, InfoJson, ModDependency, ModEntry, ModEntryStructure, ModIdent};
use fmm::settings::{decode, encode, ModSettings, SettingsError, SettingsValue};
use fmm::version::{parse_version, ReqOp, Requirement, Version};

fn v(a: u64, b: u64, c: u64) -> Version {
    Version::new(a, b, c)
}

fn bytes(s: &str) -> Vec<u8> {
    s.as_bytes().to_vec()
}

fn entry(name: &str, ver: Version, structure: ModEntryStructure, deps: Vec<ModDependency>) -> (Vec<u8>, ModEntry) {
    let mut e = ModEntry::new(bytes(&format!("{}_{}.{}.{}", name, ver.major, ver.minor, ver.patch)), structure, ver);
    e.set_info_json(InfoJson { name: bytes(name), version: ver, dependencies: deps });
    (bytes(name), e)
}

fn dep(name: &str, kind: DependencyKind, requirement: Option<Requirement>) -> ModDependency {
    ModDependency { name: bytes(name), requirement, kind }
}

fn ident(name: &str, version: Option<Version>) -> ModIdent {
    ModIdent { name: bytes(name), version, version_req: None }
}

fn record<'a>(d: &'a Directory, name: &str) -> Option<&'a ModListJsonMod> {
    d.mod_list.iter().find(|r| r.name == bytes(name))
}

fn empty_settings() -> ModSettings {
    ModSettings { settings: vec![] }
}

fn versions(d: &Directory, name: &str) -> Vec<Version> {
    d.mods.iter().find(|s| s.name == bytes(name)).map(|s| s.entries.iter().map(|e| e.version).collect()).unwrap_or_default()
}

#[test]
fn required_dependency_picks_matching_version() {
    let found = vec![
        entry("A", v(1, 0, 0), ModEntryStructure::Directory, vec![dep("D", DependencyKind::Required, Some(Requirement { op: ReqOp::Ge, version: v(1, 0, 0) }))]),
        entry("D", v(0, 9, 0), ModEntryStructure::Zip, vec![]),
        entry("D", v(1, 2, 0), ModEntryStructure::Zip, vec![]),
    ];
    let mut d = Directory::new(found, vec![], empty_settings());
    assert!(d.enable_with_dependencies(&ident("A", None)).is_ok());
    let r = record(&d, "D").unwrap();
    assert!(r.enabled);
    assert_eq!(r.version, Some(v(1, 2, 0)));
    let a = record(&d, "A").unwrap();
    assert!(a.enabled);
    assert_eq!(a.version, None);
}

#[test]
fn required_dependency_without_match_fails() {
    let found = vec![
        entry("A", v(1, 0, 0), ModEntryStructure::Directory, vec![dep("D", DependencyKind::Required, Some(Requirement { op: ReqOp::Ge, version: v(2, 0, 0) }))]),
        entry("D", v(1, 2, 0), ModEntryStructure::Zip, vec![]),
    ];
    let mut d = Directory::new(found, vec![], empty_settings());
    let r = d.enable_with_dependencies(&ident("A", None));
    assert!(matches!(r, Err(ModError::NoMatchingVersion(ref n)) if *n == bytes("D")));
    assert!(d.mod_list.is_empty());
}

#[test]
fn incompatible_with_enabled_fails_and_keeps_store() {
    let found = vec![
        entry("A", v(1, 0, 0), ModEntryStructure::Directory, vec![dep("B", DependencyKind::Incompatible, None)]),
        entry("B", v(1, 0, 0), ModEntryStructure::Directory, vec![]),
    ];
    let list = vec![
        ModListJsonMod { name: bytes("A"), version: None, enabled: false },
        ModListJsonMod { name: bytes("B"), version: None, enabled: true },
    ];
    let mut d = Directory::new(found, list, empty_settings());
    let r = d.enable_with_dependencies(&ident("A", None));
    assert!(matches!(r, Err(ModError::DependencyConflict { .. })));
    assert!(!record(&d, "A").unwrap().enabled);
    assert!(record(&d, "B").unwrap().enabled);
    assert_eq!(d.mod_list.len(), 2);
}

#[test]
fn disable_all_keeps_base_unless_included() {
    let list = vec![
        ModListJsonMod { name: bytes("base"), version: None, enabled: true },
        ModListJsonMod { name: bytes("foo"), version: Some(v(1, 0, 0)), enabled: true },
    ];
    let mut d = Directory::new(vec![], list.clone(), empty_settings());
    d.disable_all(false);
    assert!(record(&d, "base").unwrap().enabled);
    assert!(!record(&d, "foo").unwrap().enabled);
    assert_eq!(record(&d, "foo").unwrap().version, None);
    d.disable_all(true);
    assert!(!record(&d, "base").unwrap().enabled);
}

#[test]
fn scan_and_dedup() {
    let zip = ModIdent::from_file_name(b"foo_1.0.0.zip").unwrap();
    let dir = ModIdent::from_file_name(b"foo_2.0.0").unwrap();
    assert_eq!(zip.name, bytes("foo"));
    assert_eq!(zip.version, Some(v(1, 0, 0)));
    assert_eq!(dir.version, Some(v(2, 0, 0)));
    let found = vec![
        (zip.name.clone(), ModEntry::new(bytes("foo_1.0.0.zip"), ModEntryStructure::Zip, v(1, 0, 0))),
        (dir.name.clone(), ModEntry::new(bytes("foo_2.0.0"), ModEntryStructure::Directory, v(2, 0, 0))),
    ];
    let mut d = Directory::new(found, vec![], empty_settings());
    assert_eq!(versions(&d, "foo"), vec![v(1, 0, 0), v(2, 0, 0)]);
    let removed = d.dedup();
    assert_eq!(removed.len(), 1);
    assert_eq!(removed[0].path, bytes("foo_1.0.0.zip"));
    assert_eq!(versions(&d, "foo"), vec![v(2, 0, 0)]);
}

#[test]
fn dedup_repins_to_latest() {
    let found = vec![
        entry("foo", v(1, 0, 0), ModEntryStructure::Zip, vec![]),
        entry("foo", v(1, 1, 0), ModEntryStructure::Zip, vec![]),
        entry("foo", v(1, 2, 0), ModEntryStructure::Zip, vec![]),
    ];
    let list = vec![ModListJsonMod { name: bytes("foo"), version: Some(v(1, 0, 0)), enabled: true }];
    let mut d = Directory::new(found, list, empty_settings());
    let removed = d.dedup();
    assert_eq!(removed.len(), 2);
    assert_eq!(versions(&d, "foo"), vec![v(1, 2, 0)]);
    assert_eq!(record(&d, "foo").unwrap().version, Some(v(1, 2, 0)));
}

#[test]
fn enable_exact_version_pins_it() {
    let found = vec![
        entry("RecipeBook", v(1, 0, 0), ModEntryStructure::Zip, vec![]),
        entry("RecipeBook", v(1, 2, 0), ModEntryStructure::Zip, vec![]),
    ];
    let mut d = Directory::new(found, vec![], empty_settings());
    let req = ModIdent::parse(b"RecipeBook@1.2.0").unwrap();
    assert!(d.enable_with_dependencies(&req).is_ok());
    let r = record(&d, "RecipeBook").unwrap();
    assert_eq!(r.name, bytes("RecipeBook"));
    assert_eq!(r.version, Some(v(1, 2, 0)));
    assert!(r.enabled);
}

#[test]
fn enable_missing_is_not_found() {
    let mut d = Directory::new(vec![], vec![], empty_settings());
    let r = d.enable(&ident("nothing", None));
    assert!(matches!(r, Err(ModError::NotFound(_))));
    let r = d.enable_with_dependencies(&ident("nothing", None));
    assert!(matches!(r, Err(ModError::NotFound(_))));
}

#[test]
fn enable_without_descriptor_is_invalid() {
    let found = vec![(bytes("bare"), ModEntry::new(bytes("bare_1.0.0"), ModEntryStructure::Directory, v(1, 0, 0)))];
    let mut d = Directory::new(found, vec![], empty_settings());
    let r = d.enable_with_dependencies(&ident("bare", None));
    assert!(matches!(r, Err(ModError::InvalidDescriptor(_))));
    assert!(d.enable(&ident("bare", None)).is_ok());
}

#[test]
fn circular_dependencies_enable_both_once() {
    let found = vec![
        entry("A", v(1, 0, 0), ModEntryStructure::Directory, vec![dep("B", DependencyKind::Required, None)]),
        entry("B", v(1, 0, 0), ModEntryStructure::Directory, vec![dep("A", DependencyKind::Required, None)]),
    ];
    let mut d = Directory::new(found, vec![], empty_settings());
    assert!(d.enable_with_dependencies(&ident("A", None)).is_ok());
    assert_eq!(d.mod_list.iter().filter(|r| r.name == bytes("A")).count(), 1);
    assert_eq!(d.mod_list.iter().filter(|r| r.name == bytes("B")).count(), 1);
    assert!(record(&d, "A").unwrap().enabled);
    assert!(record(&d, "B").unwrap().enabled);
}

#[test]
fn optional_dependency_enabled_only_when_installed() {
    let found = vec![
        entry("A", v(1, 0, 0), ModEntryStructure::Directory, vec![
            dep("B", DependencyKind::Optional, None),
            dep("C", DependencyKind::OptionalHidden, None),
            dep("base", DependencyKind::Required, None),
        ]),
        entry("B", v(1, 0, 0), ModEntryStructure::Directory, vec![]),
    ];
    let mut d = Directory::new(found, vec![], empty_settings());
    assert!(d.enable_with_dependencies(&ident("A", None)).is_ok());
    assert!(record(&d, "B").unwrap().enabled);
    assert!(record(&d, "C").is_none());
}

#[test]
fn insertion_keeps_versions_sorted_and_unique() {
    let found = vec![
        entry("m", v(2, 0, 0), ModEntryStructure::Zip, vec![]),
        entry("m", v(1, 0, 0), ModEntryStructure::Zip, vec![]),
        entry("m", v(3, 0, 0), ModEntryStructure::Zip, vec![]),
        entry("m", v(1, 0, 0), ModEntryStructure::Directory, vec![]),
        entry("m", v(1, 5, 0), ModEntryStructure::Zip, vec![]),
    ];
    let mut d = Directory::new(found, vec![], empty_settings());
    assert_eq!(versions(&d, "m"), vec![v(1, 0, 0), v(1, 5, 0), v(2, 0, 0), v(3, 0, 0)]);
    d.add(bytes("m"), ModEntry::new(bytes("m_0.1.0.zip"), ModEntryStructure::Zip, v(0, 1, 0)));
    assert_eq!(versions(&d, "m"), vec![v(0, 1, 0), v(1, 0, 0), v(1, 5, 0), v(2, 0, 0), v(3, 0, 0)]);
    let r = record(&d, "m").unwrap();
    assert!(!r.enabled);
}

#[test]
fn add_resets_record_to_disabled() {
    let list = vec![ModListJsonMod { name: bytes("m"), version: Some(v(1, 0, 0)), enabled: true }];
    let mut d = Directory::new(vec![], list, empty_settings());
    d.add(bytes("m"), ModEntry::new(bytes("m_1.0.0.zip"), ModEntryStructure::Zip, v(1, 0, 0)));
    let r = record(&d, "m").unwrap();
    assert!(!r.enabled);
    assert_eq!(r.version, None);
}

#[test]
fn disable_and_contains() {
    let found = vec![entry("foo", v(1, 0, 0), ModEntryStructure::Zip, vec![])];
    let list = vec![ModListJsonMod { name: bytes("foo"), version: Some(v(1, 0, 0)), enabled: true }];
    let mut d = Directory::new(found, list, empty_settings());
    assert!(d.contains(&ident("foo", None)));
    assert!(d.contains(&ident("foo", Some(v(1, 0, 0)))));
    assert!(!d.contains(&ident("foo", Some(v(2, 0, 0)))));
    assert!(!d.contains(&ident("bar", None)));
    assert!(!d.disable(&ident("bar", None)));
    assert!(d.disable(&ident("foo", None)));
    assert!(!record(&d, "foo").unwrap().enabled);
    assert!(d.disable(&ident("base", None)));
}

#[test]
fn remove_takes_latest_version() {
    let found = vec![
        entry("foo", v(1, 0, 0), ModEntryStructure::Zip, vec![]),
        entry("foo", v(2, 0, 0), ModEntryStructure::Zip, vec![]),
    ];
    let mut d = Directory::new(found, vec![], empty_settings());
    let e = d.remove(&ident("foo", None)).unwrap();
    assert_eq!(e.version, v(2, 0, 0));
    assert_eq!(versions(&d, "foo"), vec![v(1, 0, 0)]);
    assert!(matches!(d.remove(&ident("foo", Some(v(3, 0, 0)))), Err(ModError::NotFound(_))));
}

#[test]
fn duplicate_records_keep_the_first() {
    let list = vec![
        ModListJsonMod { name: bytes("a"), version: None, enabled: true },
        ModListJsonMod { name: bytes("a"), version: None, enabled: false },
    ];
    let d = Directory::new(vec![], list, empty_settings());
    assert_eq!(d.mod_list.len(), 1);
    assert!(d.mod_list[0].enabled);
}

#[test]
fn parses_versions_and_names() {
    assert_eq!(parse_version(b"1.2.3"), Some(v(1, 2, 3)));
    assert_eq!(parse_version(b"10.0.255"), Some(v(10, 0, 255)));
    assert_eq!(parse_version(b"1.2"), None);
    assert_eq!(parse_version(b"1..2"), None);
    assert_eq!(parse_version(b"1.2.x"), None);
    assert_eq!(parse_version(b"1.2.99999999999999999999999"), None);
    assert!(ModIdent::from_file_name(b"foo").is_none());
    assert!(ModIdent::from_file_name(b"_1.0.0").is_none());
    let m = ModIdent::from_file_name(b"my_mod_0.3.1.zip").unwrap();
    assert_eq!(m.name, bytes("my_mod"));
    assert_eq!(m.version, Some(v(0, 3, 1)));
    let r = ModIdent::parse(b"RecipeBook").unwrap();
    assert_eq!(r.name, bytes("RecipeBook"));
    assert_eq!(r.version, None);
    let r = ModIdent::parse(b"RecipeBook@1.0.0").unwrap();
    assert_eq!(r.version, Some(v(1, 0, 0)));
    assert!(ModIdent::parse(b"RecipeBook@1.0.0@foo").is_none());
    assert!(ModIdent::parse(b"@1.0.0").is_none());
}

#[test]
fn parses_dependency_clauses() {
    let d = ModDependency::parse(b"base >= 1.1.0").unwrap();
    assert_eq!(d.name, bytes("base"));
    assert_eq!(d.kind, DependencyKind::Required);
    assert_eq!(d.requirement, Some(Requirement { op: ReqOp::Ge, version: v(1, 1, 0) }));
    let d = ModDependency::parse(b"! bad-mod").unwrap();
    assert_eq!(d.kind, DependencyKind::Incompatible);
    assert_eq!(d.name, bytes("bad-mod"));
    assert_eq!(d.requirement, None);
    let d = ModDependency::parse(b"? opt < 2.0.0").unwrap();
    assert_eq!(d.kind, DependencyKind::Optional);
    assert_eq!(d.requirement, Some(Requirement { op: ReqOp::Lt, version: v(2, 0, 0) }));
    let d = ModDependency::parse(b"(?) hidden").unwrap();
    assert_eq!(d.kind, DependencyKind::OptionalHidden);
    assert_eq!(d.name, bytes("hidden"));
    assert!(ModDependency::parse(b"x ~ 1.0.0").is_none());
    assert!(ModDependency::parse(b"").is_none());
}

#[test]
fn requirement_matching() {
    let ge = Requirement { op: ReqOp::Ge, version: v(1, 0, 0) };
    assert!(ge.matches(&v(1, 2, 0)));
    assert!(ge.matches(&v(1, 0, 0)));
    assert!(!ge.matches(&v(0, 9, 0)));
    let eq = Requirement { op: ReqOp::Eq, version: v(1, 0, 0) };
    assert!(!eq.matches(&v(1, 0, 1)));
    assert!(v(1, 9, 9).less_than(&v(2, 0, 0)));
}

#[test]
fn structure_classification() {
    assert_eq!(ModEntryStructure::parse(true, true, true), Some(ModEntryStructure::Zip));
    assert_eq!(ModEntryStructure::parse(false, true, false), Some(ModEntryStructure::Symlink));
    assert_eq!(ModEntryStructure::parse(false, false, true), Some(ModEntryStructure::Directory));
    assert_eq!(ModEntryStructure::parse(false, false, false), None);
}

fn sample_tree() -> SettingsValue {
    SettingsValue::Dictionary(vec![
        (bytes("startup"), SettingsValue::Dictionary(vec![
            (bytes("difficulty"), SettingsValue::Text(bytes("normal"))),
            (bytes("seed"), SettingsValue::Number(42f64.to_bits())),
        ])),
        (bytes("empty"), SettingsValue::Dictionary(vec![])),
        (bytes("list"), SettingsValue::List(vec![SettingsValue::Nothing, SettingsValue::Bool(true), SettingsValue::Text(vec![]), SettingsValue::Text(vec![7u8; 300])])),
        (bytes("one"), SettingsValue::Dictionary(vec![(bytes("k"), SettingsValue::Bool(false))])),
    ])
}

fn same(a: &SettingsValue, b: &SettingsValue) -> bool {
    match (a, b) {
        (SettingsValue::Nothing, SettingsValue::Nothing) => true,
        (SettingsValue::Bool(x), SettingsValue::Bool(y)) => x == y,
        (SettingsValue::Number(x), SettingsValue::Number(y)) => x == y,
        (SettingsValue::Text(x), SettingsValue::Text(y)) => x == y,
        (SettingsValue::List(x), SettingsValue::List(y)) => x.len() == y.len() && x.iter().zip(y).all(|(p, q)| same(p, q)),
        (SettingsValue::Dictionary(x), SettingsValue::Dictionary(y)) => x.len() == y.len() && x.iter().zip(y).all(|(p, q)| p.0 == q.0 && same(&p.1, &q.1)),
        _ => false,
    }
}

#[test]
fn codec_round_trip() {
    let t = sample_tree();
    let b = encode(&t);
    let (back, n) = decode(&b).unwrap();
    assert_eq!(n, b.len());
    assert!(same(&t, &back));
}

#[test]
fn codec_exact_bytes() {
    assert_eq!(encode(&SettingsValue::Nothing), vec![0, 0]);
    assert_eq!(encode(&SettingsValue::Bool(true)), vec![1, 0, 1]);
    assert_eq!(encode(&SettingsValue::Number(1f64.to_bits())), vec![2, 0, 0, 0, 0, 0, 0, 0, 0xf0, 0x3f]);
    assert_eq!(encode(&SettingsValue::Text(bytes("ab"))), vec![3, 0, 0, 2, 97, 98]);
    assert_eq!(encode(&SettingsValue::Text(vec![])), vec![3, 0, 1]);
    let long = encode(&SettingsValue::Text(vec![1u8; 256]));
    assert_eq!(&long[0..8], &[3, 0, 0, 255, 0, 1, 0, 0]);
    assert_eq!(long.len(), 8 + 256);
    assert_eq!(encode(&SettingsValue::List(vec![SettingsValue::Nothing])), vec![4, 0, 1, 0, 0, 0, 0, 0]);
    assert_eq!(
        encode(&SettingsValue::Dictionary(vec![(bytes("k"), SettingsValue::Bool(false))])),
        vec![5, 0, 1, 0, 0, 0, 0, 1, 107, 1, 0, 0]
    );
}

#[test]
fn codec_rejects_truncated() {
    let b = encode(&sample_tree());
    assert!(matches!(decode(&b[..b.len() - 1]), Err(SettingsError::DecodeError)));
    assert!(matches!(decode(&[9, 0]), Err(SettingsError::DecodeError)));
    assert!(matches!(decode(&[]), Err(SettingsError::DecodeError)));
}

#[test]
fn merge_overrides_into_startup() {
    let t = sample_tree();
    let b = encode(&t);
    let mut doc = ModSettings::from_bytes(&b).unwrap();
    let overrides = SettingsValue::Dictionary(vec![(bytes("difficulty"), SettingsValue::Text(bytes("hard")))]);
    assert!(doc.merge_startup(&overrides).is_ok());
    let expected = SettingsValue::Dictionary(vec![
        (bytes("difficulty"), SettingsValue::Text(bytes("hard"))),
        (bytes("seed"), SettingsValue::Number(42f64.to_bits())),
    ]);
    assert!(same(&doc.settings[0].1, &expected));
    assert_eq!(doc.settings.len(), 4);
    let extra = SettingsValue::Dictionary(vec![(bytes("new"), SettingsValue::Nothing)]);
    assert!(doc.merge_startup(&extra).is_ok());
    match &doc.settings[0].1 {
        SettingsValue::Dictionary(p) => {
            assert_eq!(p.len(), 3);
            assert_eq!(p[2].0, bytes("new"));
        }
        _ => panic!("startup is not a dictionary"),
    }
    let again = ModSettings::from_bytes(&doc.to_bytes()).unwrap();
    assert_eq!(again.settings.len(), 4);
}

#[test]
fn merge_errors() {
    let mut doc = ModSettings { settings: vec![(bytes("other"), SettingsValue::Nothing)] };
    let overrides = SettingsValue::Dictionary(vec![]);
    assert_eq!(doc.merge_startup(&overrides), Err(SettingsError::MissingSection));
    let mut doc = ModSettings { settings: vec![(bytes("startup"), SettingsValue::Dictionary(vec![]))] };
    assert_eq!(doc.merge_startup(&SettingsValue::Nothing), Err(SettingsError::NotADictionary));
    let mut d = Directory::new(vec![], vec![], ModSettings { settings: vec![] });
    assert_eq!(d.sync_settings(&overrides), Err(SettingsError::MissingSection));
    assert!(ModSettings::from_bytes(&encode(&SettingsValue::Nothing)).is_err());
}

#[test]
fn save_returns_records_in_order() {
    let list = vec![
        ModListJsonMod { name: bytes("b"), version: Some(v(1, 0, 0)), enabled: true },
        ModListJsonMod { name: bytes("a"), version: None, enabled: false },
    ];
    let d = Directory::new(vec![], list, empty_settings());
    let saved = d.save();
    assert_eq!(saved.mods.len(), 2);
    assert_eq!(saved.mods[0].name, bytes("b"));
    assert_eq!(saved.mods[0].version, Some(v(1, 0, 0)));
    assert_eq!(saved.mods[1].name, bytes("a"));
    assert!(!saved.mods[1].enabled);
}

#[test]
fn latest_matching_release() {
    let vs = vec![v(0, 9, 0), v(1, 0, 0), v(1, 2, 0), v(2, 0, 0)];
    let lt2 = Some(Requirement { op: ReqOp::Lt, version: v(2, 0, 0) });
    assert_eq!(fmm::directory::latest_matching(&vs, &lt2), Some(2));
    assert_eq!(fmm::directory::latest_matching(&vs, &None), Some(3));
    let gt3 = Some(Requirement { op: ReqOp::Gt, version: v(3, 0, 0) });
    assert_eq!(fmm::directory::latest_matching(&vs, &gt3), None);
}

#[test]
fn identify_prefers_file_name() {
    let info = InfoJson { name: bytes("declared"), version: v(3, 0, 0), dependencies: vec![] };
    let a = ModIdent::identify(b"foo_1.0.0.zip", Some(&info)).unwrap();
    assert_eq!(a.name, bytes("foo"));
    assert_eq!(a.version, Some(v(1, 0, 0)));
    let b = ModIdent::identify(b"some-dir", Some(&info)).unwrap();
    assert_eq!(b.name, bytes("declared"));
    assert_eq!(b.version, Some(v(3, 0, 0)));
    assert!(ModIdent::identify(b"readme.txt", None).is_none());
}

#[test]
fn incompatible_with_enabled_base_fails() {
    let found = vec![entry("A", v(1, 0, 0), ModEntryStructure::Directory, vec![dep("base", DependencyKind::Incompatible, None)])];
    let list = vec![ModListJsonMod { name: bytes("base"), version: None, enabled: true }];
    let mut d = Directory::new(found, list, empty_settings());
    let r = d.enable_with_dependencies(&ident("A", None));
    assert!(matches!(r, Err(ModError::DependencyConflict { ref name, ref other }) if *name == bytes("A") && *other == bytes("base")));
    assert!(record(&d, "A").is_none());
}

#[test]
fn requirement_on_request_does_not_pin_root() {
    let found = vec![
        entry("R", v(1, 0, 0), ModEntryStructure::Zip, vec![]),
        entry("R", v(2, 0, 0), ModEntryStructure::Zip, vec![]),
    ];
    let mut d = Directory::new(found, vec![], empty_settings());
    let req = ModIdent { name: bytes("R"), version: None, version_req: Some(Requirement { op: ReqOp::Lt, version: v(2, 0, 0) }) };
    assert!(d.enable_with_dependencies(&req).is_ok());
    let r = record(&d, "R").unwrap();
    assert!(r.enabled);
    assert_eq!(r.version, None);
}

#[test]
fn missing_required_without_requirement_is_not_found() {
    let found = vec![entry("A", v(1, 0, 0), ModEntryStructure::Directory, vec![dep("Z", DependencyKind::Required, None)])];
    let mut d = Directory::new(found, vec![], empty_settings());
    let r = d.enable_with_dependencies(&ident("A", None));
    assert!(matches!(r, Err(ModError::NotFound(ref n)) if *n == bytes("Z")));
    assert!(d.mod_list.is_empty());
}
