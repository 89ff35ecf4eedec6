use dep_audit::{decode, encode, DependencyGraph, ModelError, Package, PackageKind};

fn pkg(name: &str, version: &str, source: Option<&str>, kind: PackageKind, deps: Vec<usize>) -> Package {
    Package {
        name: name.to_string(),
        version: version.to_string(),
        source: source.map(|s| s.to_string()),
        kind,
        dependencies: deps,
    }
}

fn sample_graph() -> DependencyGraph {
    let packages = vec![
        pkg("app", "1.0.0", None, PackageKind::Runtime, vec![1, 2]),
        pkg(
            "serde",
            "1.0.190",
            Some("registry+https://github.com/rust-lang/crates.io-index"),
            PackageKind::Runtime,
            vec![],
        ),
        pkg("cc", "1.0.83", Some("registry"), PackageKind::Build, vec![]),
    ];
    DependencyGraph::new(packages).unwrap()
}

#[test]
fn round_trip_sample_graph() {
    let g = sample_graph();
    let bytes = encode(&g);
    let back = decode(bytes.as_slice()).unwrap();
    assert_eq!(back, g);
}

#[test]
fn round_trip_empty_graph() {
    let g = DependencyGraph::new(Vec::new()).unwrap();
    let bytes = encode(&g);
    assert_eq!(bytes, vec![0u8; 8]);
    let back = decode(bytes.as_slice()).unwrap();
    assert_eq!(back, g);
}

#[test]
fn round_trip_non_ascii_strings() {
    let packages = vec![pkg("nam\u{e9}", "1.0.0+\u{1F980}", None, PackageKind::Development, vec![0])];
    let g = DependencyGraph::new(packages).unwrap();
    let back = decode(encode(&g).as_slice()).unwrap();
    assert_eq!(back, g);
}

#[test]
fn encode_is_deterministic() {
    let g = sample_graph();
    assert_eq!(encode(&g), encode(&g));
}

#[test]
fn decode_rejects_truncated() {
    let g = sample_graph();
    let mut bytes = encode(&g);
    bytes.pop();
    assert!(decode(bytes.as_slice()).is_err());
}

#[test]
fn decode_rejects_trailing_bytes() {
    let g = sample_graph();
    let mut bytes = encode(&g);
    bytes.push(0);
    assert!(decode(bytes.as_slice()).is_err());
}

#[test]
fn decode_rejects_short_header() {
    assert!(decode(&[1, 2, 3]).is_err());
}

#[test]
fn decode_rejects_bad_kind_byte() {
    // one package: empty name, empty version, no source, kind byte 7.
    let mut bytes = vec![1u8, 0, 0, 0, 0, 0, 0, 0];
    bytes.extend_from_slice(&[0u8; 8]); // name length 0
    bytes.extend_from_slice(&[0u8; 8]); // version length 0
    bytes.push(0); // no source
    bytes.push(7); // no such kind
    bytes.extend_from_slice(&[0u8; 8]); // no dependencies
    assert!(decode(bytes.as_slice()).is_err());
}

#[test]
fn decode_rejects_surrogate_scalar() {
    // one package whose name claims one character with value 0xD800.
    let mut bytes = vec![1u8, 0, 0, 0, 0, 0, 0, 0];
    bytes.extend_from_slice(&[1, 0, 0, 0, 0, 0, 0, 0]); // name length 1
    bytes.extend_from_slice(&[0x00, 0xD8, 0x00, 0x00]); // a surrogate, no char
    assert!(decode(bytes.as_slice()).is_err());
}

#[test]
fn decode_rejects_dangling_index() {
    // one package with a dependency edge pointing at package 5 of 1.
    let mut bytes = vec![1u8, 0, 0, 0, 0, 0, 0, 0];
    bytes.extend_from_slice(&[0u8; 8]); // name length 0
    bytes.extend_from_slice(&[0u8; 8]); // version length 0
    bytes.push(0); // no source
    bytes.push(0); // Runtime
    bytes.extend_from_slice(&[1, 0, 0, 0, 0, 0, 0, 0]); // one dependency
    bytes.extend_from_slice(&[5, 0, 0, 0, 0, 0, 0, 0]); // index 5: dangling
    assert!(decode(bytes.as_slice()).is_err());
}

#[test]
fn decode_rejects_duplicate_identity() {
    // Built by hand (not through DependencyGraph::new, which would refuse the
    // duplicate), then serialized: decode must reject the result.
    let g = DependencyGraph {
        packages: vec![
            pkg("a", "1", None, PackageKind::Runtime, vec![]),
            pkg("a", "1", None, PackageKind::Build, vec![]),
        ],
    };
    let bytes = encode(&g);
    assert!(decode(bytes.as_slice()).is_err());
}

#[test]
fn new_rejects_dangling_dependency() {
    let packages = vec![pkg("a", "1", None, PackageKind::Runtime, vec![1])];
    assert_eq!(
        DependencyGraph::new(packages),
        Err(ModelError::DanglingDependency { package: 0 })
    );
}

#[test]
fn new_rejects_duplicate_triple() {
    let packages = vec![
        pkg("a", "1", Some("registry"), PackageKind::Runtime, vec![]),
        pkg("b", "2", None, PackageKind::Runtime, vec![0]),
        pkg("a", "1", Some("registry"), PackageKind::Build, vec![]),
    ];
    assert_eq!(
        DependencyGraph::new(packages),
        Err(ModelError::DuplicatePackage { package: 2 })
    );
}

#[test]
fn new_accepts_same_name_different_version() {
    let packages = vec![
        pkg("a", "1", None, PackageKind::Runtime, vec![]),
        pkg("a", "2", None, PackageKind::Runtime, vec![]),
    ];
    let g = DependencyGraph::new(packages).unwrap();
    assert_eq!(g.len(), 2);
    assert_eq!(g.package(1).version, "2");
}

#[test]
fn packages_returns_the_arena() {
    let g = sample_graph();
    assert_eq!(g.packages().len(), 3);
    assert_eq!(g.packages()[0].name, "app");
    assert_eq!(g.packages()[0].dependencies, vec![1, 2]);
}

#[test]
fn encoding_layout_of_single_package() {
    // one package, name "ab", version empty, no source, Build kind, no deps.
    let g = DependencyGraph::new(vec![pkg("ab", "", None, PackageKind::Build, vec![])]).unwrap();
    let bytes = encode(&g);
    let mut expected = vec![1u8, 0, 0, 0, 0, 0, 0, 0];
    expected.extend_from_slice(&[2, 0, 0, 0, 0, 0, 0, 0]); // name length 2
    expected.extend_from_slice(&[b'a' as u8, 0, 0, 0]); // 'a' as a 32-bit scalar
    expected.extend_from_slice(&[b'b' as u8, 0, 0, 0]); // 'b'
    expected.extend_from_slice(&[0u8; 8]); // version length 0
    expected.push(0); // no source
    expected.push(1); // Build
    expected.extend_from_slice(&[0u8; 8]); // no dependencies
    assert_eq!(bytes, expected);
}

#[test]
fn cycles_at_the_edge_level_are_allowed() {
    // acyclicity is not this layer's concern: mutually dependent packages
    // form a valid graph and survive the round trip.
    let packages = vec![
        pkg("a", "1", None, PackageKind::Runtime, vec![1]),
        pkg("b", "1", None, PackageKind::Runtime, vec![0, 1]),
    ];
    let g = DependencyGraph::new(packages).unwrap();
    let back = decode(encode(&g).as_slice()).unwrap();
    assert_eq!(back, g);
}
