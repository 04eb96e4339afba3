use aurora::builder::{consolidate_schemas, merge_values, Builder, MergeError};
use aurora::schema::{
    blocks_equal, contains_name, Block, Declaration, EnumBlock, Fragment, Kind, Property,
};

fn s(x: &str) -> String {
    x.to_string()
}

fn block(name: &str, props: &[(&str, &str)]) -> Block {
    Block {
        name: s(name),
        properties: props
            .iter()
            .map(|(k, v)| Property { key: s(k), value: s(v) })
            .collect(),
    }
}

fn datasource(name: &str, provider: &str, url: &str) -> Declaration {
    Declaration::Datasource(block(name, &[("provider", provider), ("url", url)]))
}

fn generator(name: &str, provider: &str) -> Declaration {
    Declaration::Generator(block(name, &[("provider", provider)]))
}

fn enumeration(name: &str, values: &[&str]) -> Declaration {
    Declaration::Enum(EnumBlock { name: s(name), values: values.iter().map(|v| s(v)).collect() })
}

fn fragment(path: &str, declarations: Vec<Declaration>) -> Fragment {
    Fragment { path: s(path), declarations }
}

fn enum_values(doc: &[Declaration], name: &str) -> Vec<String> {
    for d in doc {
        if let Declaration::Enum(e) = d {
            if e.name == name {
                return e.values.clone();
            }
        }
    }
    panic!("no enum named {}", name);
}

fn kinds(doc: &[Declaration]) -> Vec<Kind> {
    doc.iter().map(|d| d.kind()).collect()
}

#[test]
fn zero_fragment_run_gives_empty_document() {
    let doc = consolidate_schemas(vec![]);
    assert!(matches!(doc, Ok(ref d) if d.is_empty()));
    assert!(Builder::new().render().is_empty());
}

#[test]
fn datasource_mismatch_fails_naming_both_origins() {
    let a = fragment("a.prisma", vec![datasource("db", "\"postgres\"", "\"X\"")]);
    let b = fragment("b.prisma", vec![datasource("db", "\"postgres\"", "\"Y\"")]);
    match consolidate_schemas(vec![a, b]) {
        Err(MergeError::DatasourceConflict(c)) => {
            assert_eq!(c.name, "db");
            assert_eq!(c.existing_path, "a.prisma");
            assert_eq!(c.incoming_path, "b.prisma");
        }
        _ => panic!("expected a datasource conflict"),
    }
}

#[test]
fn identical_generators_are_kept_once() {
    let a = fragment("a.prisma", vec![generator("client", "\"x\"")]);
    let b = fragment("b.prisma", vec![generator("client", "\"x\"")]);
    let doc = consolidate_schemas(vec![a, b]).ok().unwrap();
    assert_eq!(doc.len(), 1);
    assert_eq!(doc[0].kind(), Kind::Generator);
    assert_eq!(doc[0].name(), "client");
}

#[test]
fn differing_generators_of_one_name_conflict() {
    let a = fragment("a.prisma", vec![generator("client", "\"x\"")]);
    let b = fragment("b.prisma", vec![generator("client", "\"y\"")]);
    match consolidate_schemas(vec![a, b]) {
        Err(MergeError::GeneratorConflict(c)) => {
            assert_eq!(c.name, "client");
            assert_eq!(c.existing_path, "a.prisma");
            assert_eq!(c.incoming_path, "b.prisma");
        }
        _ => panic!("expected a generator conflict"),
    }
}

#[test]
fn enum_values_are_merged_in_first_seen_order() {
    let a = fragment("a.prisma", vec![enumeration("Color", &["RED", "GREEN"])]);
    let b = fragment("b.prisma", vec![enumeration("Color", &["GREEN", "BLUE"])]);
    let doc = consolidate_schemas(vec![a, b]).ok().unwrap();
    assert_eq!(doc.len(), 1);
    assert_eq!(enum_values(&doc, "Color"), vec![s("RED"), s("GREEN"), s("BLUE")]);
}

#[test]
fn registering_a_fragment_twice_changes_nothing() {
    let make = || {
        fragment(
            "a.prisma",
            vec![
                datasource("db", "\"postgres\"", "\"X\""),
                generator("client", "\"x\""),
                generator("docs", "\"y\""),
            ],
        )
    };
    let mut once = Builder::new();
    assert!(once.register(make()).is_ok());
    let mut twice = Builder::new();
    assert!(twice.register(make()).is_ok());
    assert!(twice.register(make()).is_ok());
    let once = once.render();
    let twice = twice.render();
    assert_eq!(once.len(), 3);
    assert_eq!(twice.len(), once.len());
    assert_eq!(kinds(&twice), kinds(&once));
    for (x, y) in once.iter().zip(twice.iter()) {
        assert_eq!(x.name(), y.name());
    }
}

#[test]
fn enum_union_does_not_depend_on_order() {
    let a = || fragment("a.prisma", vec![enumeration("Role", &["USER", "ADMIN"])]);
    let b = || fragment("b.prisma", vec![enumeration("Role", &["GUEST", "ADMIN", "OWNER"])]);
    let ab = consolidate_schemas(vec![a(), b()]).ok().unwrap();
    let ba = consolidate_schemas(vec![b(), a()]).ok().unwrap();
    let mut x = enum_values(&ab, "Role");
    let mut y = enum_values(&ba, "Role");
    assert_eq!(x, vec![s("USER"), s("ADMIN"), s("GUEST"), s("OWNER")]);
    assert_eq!(y, vec![s("GUEST"), s("ADMIN"), s("OWNER"), s("USER")]);
    x.sort();
    y.sort();
    assert_eq!(x, y);
}

#[test]
fn repeated_datasource_stays_single() {
    let frags = (0..4)
        .map(|i| fragment(&format!("f{}.prisma", i), vec![datasource("db", "\"sqlite\"", "\"file:dev.db\"")]))
        .collect();
    let doc = consolidate_schemas(frags).ok().unwrap();
    assert_eq!(doc.iter().filter(|d| d.kind() == Kind::Datasource).count(), 1);
}

#[test]
fn datasource_with_another_name_still_conflicts() {
    let mut b = Builder::new();
    assert!(b.add_datasource(block("db", &[("provider", "\"mysql\"")]), s("a.prisma")).is_ok());
    let r = b.add_datasource(block("main", &[("provider", "\"mysql\"")]), s("b.prisma"));
    match r {
        Err(MergeError::DatasourceConflict(c)) => {
            assert_eq!(c.name, "main");
            assert_eq!(c.existing_path, "a.prisma");
            assert_eq!(c.incoming_path, "b.prisma");
        }
        _ => panic!("expected a datasource conflict"),
    }
    assert_eq!(b.document().len(), 1);
}

#[test]
fn generators_of_different_names_are_all_kept() {
    let mut b = Builder::new();
    assert!(b.add_generator(block("client", &[("provider", "\"x\"")]), s("a.prisma")).is_ok());
    assert!(b.add_generator(block("docs", &[("provider", "\"x\"")]), s("b.prisma")).is_ok());
    let doc = b.render();
    assert_eq!(doc.len(), 2);
    assert_eq!(doc[0].name(), "client");
    assert_eq!(doc[1].name(), "docs");
}

#[test]
fn new_enum_drops_repeated_value_names() {
    let mut b = Builder::new();
    let e = EnumBlock { name: s("Size"), values: vec![s("S"), s("M"), s("S"), s("L")] };
    assert!(b.add_enum(e, s("a.prisma")).is_ok());
    assert_eq!(enum_values(&b.render(), "Size"), vec![s("S"), s("M"), s("L")]);
}

#[test]
fn enums_of_different_names_stay_apart() {
    let a = fragment("a.prisma", vec![enumeration("Color", &["RED"]), enumeration("Size", &["S"])]);
    let b = fragment("b.prisma", vec![enumeration("Size", &["M"]), enumeration("Color", &["RED"])]);
    let doc = consolidate_schemas(vec![a, b]).ok().unwrap();
    assert_eq!(doc.len(), 2);
    assert_eq!(enum_values(&doc, "Color"), vec![s("RED")]);
    assert_eq!(enum_values(&doc, "Size"), vec![s("S"), s("M")]);
}

#[test]
fn models_composite_types_and_aliases_pass_through() {
    let user = || Declaration::Model(block("User", &[("id", "Int @id")]));
    let address = || block("Address", &[("street", "String")]);
    let alias = || Declaration::TypeAlias(block("Id", &[("", "Int")]));
    let mut b = Builder::new();
    b.add_composite_type(address(), s("a.prisma"));
    b.add_composite_type(address(), s("b.prisma"));
    assert!(b.add_declaration(user(), s("a.prisma")).is_ok());
    assert!(b.add_declaration(user(), s("b.prisma")).is_ok());
    assert!(b.add_declaration(alias(), s("b.prisma")).is_ok());
    let doc = b.render();
    assert_eq!(
        kinds(&doc),
        vec![Kind::CompositeType, Kind::CompositeType, Kind::Model, Kind::Model, Kind::TypeAlias]
    );
}

#[test]
fn declaration_order_follows_first_occurrence() {
    let a = fragment(
        "a.prisma",
        vec![generator("client", "\"x\""), enumeration("Color", &["RED"])],
    );
    let b = fragment(
        "b.prisma",
        vec![
            datasource("db", "\"postgres\"", "\"X\""),
            enumeration("Color", &["BLUE"]),
            generator("client", "\"x\""),
        ],
    );
    let doc = consolidate_schemas(vec![a, b]).ok().unwrap();
    assert_eq!(kinds(&doc), vec![Kind::Generator, Kind::Enum, Kind::Datasource]);
    assert_eq!(enum_values(&doc, "Color"), vec![s("RED"), s("BLUE")]);
}

#[test]
fn register_stops_at_the_first_conflict() {
    let mut b = Builder::new();
    assert!(b.register(fragment("a.prisma", vec![datasource("db", "\"postgres\"", "\"X\"")])).is_ok());
    let r = b.register(fragment(
        "b.prisma",
        vec![
            generator("client", "\"x\""),
            datasource("db", "\"postgres\"", "\"Y\""),
            generator("docs", "\"x\""),
        ],
    ));
    assert!(matches!(r, Err(MergeError::DatasourceConflict(_))));
    let names: Vec<String> = b.render().iter().map(|d| d.name().clone()).collect();
    assert_eq!(names, vec![s("db"), s("client")]);
}

#[test]
fn conflict_in_a_later_fragment_ends_the_run() {
    let a = fragment("a.prisma", vec![generator("client", "\"x\"")]);
    let b = fragment("b.prisma", vec![generator("client", "\"x\"")]);
    let c = fragment("c.prisma", vec![generator("client", "\"z\"")]);
    let d = fragment("d.prisma", vec![datasource("db", "\"postgres\"", "\"X\"")]);
    match consolidate_schemas(vec![a, b, c, d]) {
        Err(MergeError::GeneratorConflict(c)) => {
            assert_eq!(c.existing_path, "a.prisma");
            assert_eq!(c.incoming_path, "c.prisma");
        }
        _ => panic!("expected a generator conflict"),
    }
}

#[test]
fn origin_names_the_first_fragment() {
    let mut b = Builder::new();
    assert!(b.add_generator(block("client", &[("provider", "\"x\"")]), s("a.prisma")).is_ok());
    assert!(b.add_generator(block("client", &[("provider", "\"x\"")]), s("b.prisma")).is_ok());
    assert!(b.add_enum(EnumBlock { name: s("Color"), values: vec![s("RED")] }, s("c.prisma")).is_ok());
    assert!(b.add_enum(EnumBlock { name: s("Color"), values: vec![s("BLUE")] }, s("d.prisma")).is_ok());
    assert_eq!(b.origin(Kind::Generator, &s("client")), Some(&s("a.prisma")));
    assert_eq!(b.origin(Kind::Enum, &s("Color")), Some(&s("c.prisma")));
    assert_eq!(b.origin(Kind::Generator, &s("docs")), None);
    assert_eq!(b.origin(Kind::Datasource, &s("db")), None);
}

#[test]
fn block_equality_is_structural() {
    let a = block("db", &[("provider", "\"postgres\""), ("url", "\"X\"")]);
    assert!(blocks_equal(&a, &block("db", &[("provider", "\"postgres\""), ("url", "\"X\"")])));
    assert!(!blocks_equal(&a, &block("db", &[("provider", "\"postgres\""), ("url", "\"Y\"")])));
    assert!(!blocks_equal(&a, &block("db", &[("url", "\"X\""), ("provider", "\"postgres\"")])));
    assert!(!blocks_equal(&a, &block("db", &[("provider", "\"postgres\"")])));
    assert!(!blocks_equal(&a, &block("main", &[("provider", "\"postgres\""), ("url", "\"X\"")])));
}

#[test]
fn value_lists_merge_by_name() {
    let mut v = vec![s("A"), s("B")];
    merge_values(&mut v, &vec![s("C"), s("A"), s("D"), s("C")]);
    assert_eq!(v, vec![s("A"), s("B"), s("C"), s("D")]);
    assert!(contains_name(&v, &s("D")));
    assert!(!contains_name(&v, &s("E")));
    let mut empty: Vec<String> = vec![];
    merge_values(&mut empty, &vec![]);
    assert!(empty.is_empty());
}
