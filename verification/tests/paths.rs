use nomad_core::paths::{truncate_digest, MAX_COMPONENT_BYTES, MAX_REL_PATH_BYTES};
use nomad_core::{
    is_hidden_or_allowlist_name, normalize_file_route, normalize_page_route, path_hash,
    strip_file_prefix, strip_page_prefix, validate_content_relative_path, NomadError,
    DEFAULT_INDEX_ROUTE, FILE_PREFIX, MAX_PATH_COMPONENTS, NOMAD_NODE_ASPECT, PAGE_PREFIX,
};

/// The first 16 bytes of the SHA-256 digest.
fn truncated_hash(data: &[u8]) -> [u8; 16] {
    let digest = rns_crypto::sha256::sha256(data);
    let mut out = [0u8; 16];
    out.copy_from_slice(&digest[..16]);
    out
}

fn invalid_path(r: Result<(), NomadError>) -> String {
    match r {
        Err(NomadError::InvalidPath(why)) => why,
        other => panic!("expected an invalid path, got {other:?}"),
    }
}

#[test]
fn page_route_normalization() {
    assert_eq!(normalize_page_route("index.mu").unwrap(), "/page/index.mu");
    assert_eq!(
        normalize_page_route("/page/docs/help.mu").unwrap(),
        "/page/docs/help.mu"
    );
    assert_eq!(normalize_page_route("/page").unwrap(), DEFAULT_INDEX_ROUTE);
}

#[test]
fn file_route_normalization() {
    assert_eq!(
        normalize_file_route("manual.pdf").unwrap(),
        "/file/manual.pdf"
    );
    assert_eq!(normalize_file_route("/file/a.bin").unwrap(), "/file/a.bin");
    assert!(matches!(
        normalize_file_route("/file"),
        Err(NomadError::InvalidPath(_))
    ));
}

#[test]
fn rejects_traversal() {
    assert!(matches!(
        validate_content_relative_path("../secret"),
        Err(NomadError::PathTraversal)
    ));
    assert!(normalize_page_route("/page/../x.mu").is_err());
}

#[test]
fn rejects_nul_backslash_and_curdir() {
    assert!(validate_content_relative_path("a\0b").is_err());
    assert!(validate_content_relative_path(r"a\b").is_err());
    // Leading slash is stripped by validation; CurDir is rejected.
    assert!(matches!(
        validate_content_relative_path("."),
        Err(NomadError::PathTraversal)
    ));
    assert!(matches!(
        validate_content_relative_path("./x.mu"),
        Err(NomadError::PathTraversal)
    ));
}

#[test]
fn rejects_path_too_deep() {
    let deep = (0..=MAX_PATH_COMPONENTS)
        .map(|i| format!("d{i}"))
        .collect::<Vec<_>>()
        .join("/");
    let with_file = format!("{deep}/x.mu");
    assert!(matches!(
        validate_content_relative_path(&with_file),
        Err(NomadError::InvalidPath(_))
    ));
}

#[test]
fn path_hash_is_truncated_sha256() {
    let h = path_hash("/page/index.mu");
    assert_eq!(h, truncated_hash(b"/page/index.mu"));
}

#[test]
fn rejects_dotfiles_and_allowed_suffix() {
    assert!(is_hidden_or_allowlist_name(".secret"));
    assert!(is_hidden_or_allowlist_name("index.mu.allowed"));
    assert!(!is_hidden_or_allowlist_name("index.mu"));
    assert!(validate_content_relative_path(".hidden.mu").is_err());
    assert!(validate_content_relative_path("docs/.keep").is_err());
    assert!(validate_content_relative_path("page.mu.allowed").is_err());
    assert!(normalize_page_route("/page/.hidden.mu").is_err());
    assert!(normalize_file_route("/file/notes.allowed").is_err());
}

#[test]
fn interop_path_hashes_match_wire_contract() {
    assert_eq!(
        hex::encode(path_hash("/page/index.mu")),
        hex::encode(truncated_hash(b"/page/index.mu"))
    );
    assert_eq!(
        hex::encode(path_hash("/file/readme.txt")),
        hex::encode(truncated_hash(b"/file/readme.txt"))
    );
    // Distinct routes must not collide for typical short names.
    assert_ne!(path_hash("/page/index.mu"), path_hash("/page/about.mu"));
}

#[test]
fn path_hashes_have_known_values() {
    assert_eq!(hex::encode(path_hash("/page/index.mu")), "fb40abf359b3f25fa0086107c5eee516");
    assert_eq!(hex::encode(path_hash("/file/readme.txt")), "874e07ad3e1011d9d9054018c5ba8bc7");
    // The empty digest of SHA-256 begins with e3b0c442.
    assert_eq!(
        hex::encode(path_hash("")),
        "e3b0c44298fc1c149afbf4c8996fb924"
    );
}

#[test]
fn a_digest_is_cut_to_its_first_half() {
    let mut digest = [0u8; 32];
    for (i, b) in digest.iter_mut().enumerate() {
        *b = i as u8;
    }
    let cut = truncate_digest(&digest);
    assert_eq!(cut, [0, 1, 2, 3, 4, 5, 6, 7, 8, 9, 10, 11, 12, 13, 14, 15]);
}

#[test]
fn wire_constants() {
    assert_eq!(PAGE_PREFIX, "/page/");
    assert_eq!(FILE_PREFIX, "/file/");
    assert_eq!(DEFAULT_INDEX_ROUTE, "/page/index.mu");
    assert_eq!(NOMAD_NODE_ASPECT, "nomadnetwork.node");
    assert_eq!(MAX_PATH_COMPONENTS, 32);
}

#[test]
fn normalizing_twice_changes_nothing() {
    for path in ["index.mu", " docs/help.mu ", "/page", "/page/a//b.mu", "x/"] {
        let once = normalize_page_route(path).unwrap();
        assert_eq!(normalize_page_route(&once).unwrap(), once, "{path:?}");
    }
    for path in ["manual.pdf", " a/b.bin ", "/file/a.bin"] {
        let once = normalize_file_route(path).unwrap();
        assert_eq!(normalize_file_route(&once).unwrap(), once, "{path:?}");
    }
}

#[test]
fn stripping_gives_back_the_path_of_a_route() {
    for rel in ["index.mu", "docs/help.mu", "a b/c.mu", "ünï/cödé.mu"] {
        let route = normalize_page_route(rel).unwrap();
        assert_eq!(route, format!("/page/{rel}"));
        assert_eq!(strip_page_prefix(&route).unwrap(), rel);
        let route = normalize_file_route(rel).unwrap();
        assert_eq!(route, format!("/file/{rel}"));
        assert_eq!(strip_file_prefix(&route).unwrap(), rel);
    }
}

#[test]
fn stripping_refuses_what_is_not_such_a_route() {
    for route in ["index.mu", "/page", "/page/", "/file/a.bin", "page/a.mu"] {
        assert!(
            matches!(strip_page_prefix(route), Err(NomadError::InvalidPath(_))),
            "{route:?}"
        );
    }
    assert!(matches!(
        strip_file_prefix("/page/a.mu"),
        Err(NomadError::InvalidPath(_))
    ));
    assert!(matches!(
        strip_page_prefix("/page/../a.mu"),
        Err(NomadError::PathTraversal)
    ));
}

#[test]
fn bare_routes() {
    let why = |r: Result<String, NomadError>| r.unwrap_err().describe();
    assert_eq!(why(normalize_page_route(" ")), "invalid path: empty page path");
    assert_eq!(why(normalize_page_route("/page/")), "invalid path: not a page route: /page/");
    assert_eq!(why(normalize_file_route("")), "invalid path: empty file path");
    assert_eq!(
        why(normalize_file_route("/file")),
        "invalid path: bare /file route requires a file name"
    );
    assert_eq!(why(normalize_page_route("a\\b")), "invalid path: invalid route characters");
    assert_eq!(why(normalize_page_route("a\u{1}b")), "invalid path: control characters in route");
    // Another kind's prefix is taken as a directory name.
    assert_eq!(normalize_page_route("/file/a.mu").unwrap(), "/page/file/a.mu");
}

#[test]
fn an_empty_path_is_refused() {
    for rel in ["", "   ", "/", "///"] {
        assert_eq!(invalid_path(validate_content_relative_path(rel)), "empty relative path");
    }
}

#[test]
fn lengths_are_bounded() {
    let name = "n".repeat(MAX_COMPONENT_BYTES);
    assert!(validate_content_relative_path(&name).is_ok());
    let long_name = "n".repeat(MAX_COMPONENT_BYTES + 1);
    assert!(validate_content_relative_path(&long_name).is_err());
    // Four names of 255 bytes and three slashes: 1023 bytes.
    let most = [name.as_str(), &name, &name, &name].join("/");
    assert!(validate_content_relative_path(&most).is_ok());
    assert!(most.len() < MAX_REL_PATH_BYTES);
    let too_long = format!("{most}/ab");
    assert_eq!(invalid_path(validate_content_relative_path(&too_long)), "path too long");
}

#[test]
fn as_many_components_as_allowed_are_accepted() {
    let most = vec!["d"; MAX_PATH_COMPONENTS].join("/");
    assert!(validate_content_relative_path(&most).is_ok());
    let more = vec!["d"; MAX_PATH_COMPONENTS + 1].join("/");
    assert!(validate_content_relative_path(&more).is_err());
}

#[test]
fn control_characters_are_refused_anywhere() {
    for rel in [
        "a\u{1}b",
        "docs/a\u{7f}.mu",
        "a\u{85}b",
        "a\tb",
        "x.mu\n",
        "\tx.mu",
        "/\u{b}x.mu",
        "x.mu \r\n",
        "\u{85}x.mu",
        "x.mu\0",
        "\0x.mu",
    ] {
        assert!(
            matches!(
                validate_content_relative_path(rel),
                Err(NomadError::InvalidPath(_))
            ),
            "{rel:?}"
        );
    }
    // Blanks at the ends are no control characters.
    for rel in [" x.mu", "x.mu ", "/x.mu", "\u{a0}x.mu"] {
        assert!(validate_content_relative_path(rel).is_ok(), "{rel:?}");
    }
}

#[test]
fn hidden_names_are_told_after_trimming() {
    assert!(is_hidden_or_allowlist_name(" .secret "));
    assert!(is_hidden_or_allowlist_name("."));
    assert!(is_hidden_or_allowlist_name(".allowed"));
    assert!(!is_hidden_or_allowlist_name(""));
    assert!(!is_hidden_or_allowlist_name("allowed"));
    assert!(!is_hidden_or_allowlist_name("a.allowed.mu"));
}
