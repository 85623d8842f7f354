use module_resolver::context::ResolutionContext;
use module_resolver::error::ResolveError;
use module_resolver::fs::FileSystem;
use module_resolver::options::{AliasRule, AliasTarget, ExtensionAlias, Options};
use module_resolver::resolver::{Resolved, Resolver};

fn b(s: &str) -> Vec<u8> {
    s.as_bytes().to_vec()
}

fn list(items: &[&str]) -> Vec<Vec<u8>> {
    items.iter().map(|s| b(s)).collect()
}

fn snapshot(dirs: &[&str], files: &[(&str, &str)]) -> FileSystem {
    let mut fs = FileSystem::new();
    fs.add_directory(b"/");
    for d in dirs {
        fs.add_directory(d.as_bytes());
    }
    for (p, c) in files {
        fs.add_file(p.as_bytes(), c.as_bytes());
    }
    fs
}

fn resolver(options: Options) -> Resolver {
    Resolver::new(options).expect("valid options")
}

fn path_of(r: Result<Resolved, ResolveError>) -> String {
    match r {
        Ok(Resolved::File(file)) => String::from_utf8(file.path).unwrap(),
        other => panic!("no file: {:?}", other),
    }
}

fn sorted(mut v: Vec<Vec<u8>>) -> Vec<String> {
    v.sort();
    v.into_iter().map(|p| String::from_utf8(p).unwrap()).collect()
}

#[test]
fn first_extension_wins() {
    let fs = snapshot(&["/a"], &[("/a/x.ts", ""), ("/a/x.js", "")]);
    let mut r = resolver(Options { extensions: list(&[".ts", ".js"]), ..Options::default() });
    let mut ctx = ResolutionContext::new();
    assert_eq!(path_of(r.resolve(&fs, b"/a", b"./x", &mut ctx)), "/a/x.ts");
}

#[test]
fn later_extension_when_first_is_missing() {
    let fs = snapshot(&["/a"], &[("/a/x.js", "")]);
    let mut r = resolver(Options { extensions: list(&[".ts", ".js"]), ..Options::default() });
    let mut ctx = ResolutionContext::new();
    assert_eq!(path_of(r.resolve(&fs, b"/a", b"./x", &mut ctx)), "/a/x.js");
    assert_eq!(sorted(ctx.missing_dependencies()), vec!["/a/x", "/a/x.ts"]);
    assert_eq!(sorted(ctx.file_dependencies()), vec!["/a/x.js"]);
}

#[test]
fn exact_file_needs_no_extension() {
    let fs = snapshot(&["/a"], &[("/a/x", ""), ("/a/x.js", "")]);
    let mut r = resolver(Options { extensions: list(&[".js"]), ..Options::default() });
    let mut ctx = ResolutionContext::new();
    assert_eq!(path_of(r.resolve(&fs, b"/a", b"./x", &mut ctx)), "/a/x");
    assert_eq!(sorted(ctx.file_dependencies()), vec!["/a/x"]);
    assert!(ctx.missing_dependencies().is_empty());
}

fn js_to_ts() -> Options {
    Options {
        extensions: list(&[".js"]),
        extension_alias: vec![ExtensionAlias {
            extension: b(".js"),
            replacements: list(&[".ts", ".js"]),
        }],
        ..Options::default()
    }
}

#[test]
fn extension_alias_tries_replacements_in_order() {
    let fs = snapshot(&["/a"], &[("/a/x.ts", "")]);
    let mut r = resolver(js_to_ts());
    let mut ctx = ResolutionContext::new();
    assert_eq!(path_of(r.resolve(&fs, b"/a", b"./x.js", &mut ctx)), "/a/x.ts");
    assert!(ctx.has_missing(b"/a/x.js"));
    assert!(ctx.has_file(b"/a/x.ts"));
}

#[test]
fn extension_alias_exhausted_is_not_found() {
    let fs = snapshot(&["/a"], &[("/a/x.js.js", "")]);
    let mut r = resolver(js_to_ts());
    let mut ctx = ResolutionContext::new();
    assert_eq!(
        r.resolve(&fs, b"/a", b"./x.js", &mut ctx).unwrap_err(),
        ResolveError::NotFound
    );
    assert_eq!(sorted(ctx.missing_dependencies()), vec!["/a/x.js", "/a/x.ts"]);
}

#[test]
fn no_written_extension_uses_extensions_not_the_alias() {
    let fs = snapshot(&["/a"], &[("/a/x.ts", ""), ("/a/x.js", "")]);
    let mut r = resolver(js_to_ts());
    let mut ctx = ResolutionContext::new();
    assert_eq!(path_of(r.resolve(&fs, b"/a", b"./x", &mut ctx)), "/a/x.js");
    assert!(!ctx.has_file(b"/a/x.ts"));
    assert!(!ctx.has_missing(b"/a/x.ts"));
}

#[test]
fn alias_exact_rule_before_prefix_rule() {
    let fs = snapshot(&["/a"], &[("/a/exact.js", ""), ("/a/prefix.js", "")]);
    let options = Options {
        alias: vec![
            AliasRule { pattern: b("foo"), exact: false, target: AliasTarget::Path(b("./prefix.js")) },
            AliasRule { pattern: b("foo"), exact: true, target: AliasTarget::Path(b("./exact.js")) },
        ],
        ..Options::default()
    };
    let mut r = resolver(options);
    let mut ctx = ResolutionContext::new();
    assert_eq!(path_of(r.resolve(&fs, b"/a", b"foo", &mut ctx)), "/a/exact.js");
}

#[test]
fn alias_prefix_rule_keeps_the_rest() {
    let fs = snapshot(&["/a", "/src", "/src/util"], &[("/src/util/x.js", "")]);
    let options = Options {
        alias: vec![AliasRule { pattern: b("@"), exact: false, target: AliasTarget::Path(b("/src")) }],
        ..Options::default()
    };
    let mut r = resolver(options);
    let mut ctx = ResolutionContext::new();
    assert_eq!(path_of(r.resolve(&fs, b"/a", b"@/util/x.js", &mut ctx)), "/src/util/x.js");
}

#[test]
fn alias_longer_pattern_before_shorter() {
    let fs = snapshot(&["/a"], &[("/a/short.js", ""), ("/a/long.js", "")]);
    let options = Options {
        alias: vec![
            AliasRule { pattern: b("lib"), exact: false, target: AliasTarget::Path(b("./short.js")) },
            AliasRule { pattern: b("lib/deep"), exact: false, target: AliasTarget::Path(b("./long.js")) },
        ],
        ..Options::default()
    };
    let mut r = resolver(options);
    let mut ctx = ResolutionContext::new();
    assert_eq!(path_of(r.resolve(&fs, b"/a", b"lib/deep", &mut ctx)), "/a/long.js");
}

#[test]
fn alias_to_ignore_is_ignored_not_missing() {
    let fs = snapshot(&["/a"], &[]);
    let options = Options {
        alias: vec![AliasRule { pattern: b("fs"), exact: false, target: AliasTarget::Ignore }],
        ..Options::default()
    };
    let mut r = resolver(options);
    let mut ctx = ResolutionContext::new();
    let out = r.resolve(&fs, b"/a", b"fs", &mut ctx);
    assert!(matches!(out, Ok(Resolved::Ignored)));
    assert!(ctx.file_dependencies().is_empty());
    assert!(ctx.missing_dependencies().is_empty());
}

#[test]
fn alias_circle_is_reported() {
    let fs = snapshot(&["/a"], &[]);
    let options = Options {
        alias: vec![
            AliasRule { pattern: b("a"), exact: true, target: AliasTarget::Path(b("b")) },
            AliasRule { pattern: b("b"), exact: true, target: AliasTarget::Path(b("a")) },
        ],
        ..Options::default()
    };
    let mut r = resolver(options);
    let mut ctx = ResolutionContext::new();
    assert_eq!(
        r.resolve(&fs, b"/a", b"a", &mut ctx).unwrap_err(),
        ResolveError::CircularAlias
    );
}

fn conditional_package(exports: &str) -> FileSystem {
    let descriptor = format!("{{\"name\":\"pkg\",\"exports\":{}}}", exports);
    snapshot(
        &["/app", "/app/node_modules", "/app/node_modules/pkg", "/app/src"],
        &[
            ("/app/node_modules/pkg/package.json", descriptor.as_str()),
            ("/app/node_modules/pkg/a.mjs", ""),
            ("/app/node_modules/pkg/a.js", ""),
            ("/app/node_modules/pkg/a.cjs", ""),
            ("/app/node_modules/pkg/hidden.js", ""),
        ],
    )
}

fn import_node() -> Options {
    Options { condition_names: list(&["import", "node"]), ..Options::default() }
}

#[test]
fn conditions_go_by_the_configured_order() {
    let fs = conditional_package(
        "{\"node\":\"./a.js\",\"default\":\"./a.cjs\",\"import\":\"./a.mjs\"}",
    );
    let mut r = resolver(import_node());
    let mut ctx = ResolutionContext::new();
    assert_eq!(
        path_of(r.resolve(&fs, b"/app/src", b"pkg", &mut ctx)),
        "/app/node_modules/pkg/a.mjs"
    );
}

#[test]
fn conditions_without_import_take_node() {
    let fs = conditional_package("{\"node\":\"./a.js\",\"default\":\"./a.cjs\"}");
    let mut r = resolver(import_node());
    let mut ctx = ResolutionContext::new();
    assert_eq!(
        path_of(r.resolve(&fs, b"/app/src", b"pkg", &mut ctx)),
        "/app/node_modules/pkg/a.js"
    );
}

#[test]
fn conditions_fall_back_to_default() {
    let fs = conditional_package("{\"default\":\"./a.cjs\"}");
    let mut r = resolver(import_node());
    let mut ctx = ResolutionContext::new();
    assert_eq!(
        path_of(r.resolve(&fs, b"/app/src", b"pkg", &mut ctx)),
        "/app/node_modules/pkg/a.cjs"
    );
}

#[test]
fn unlisted_subpath_is_not_exported_though_the_file_exists() {
    let fs = conditional_package("{\".\":\"./a.js\"}");
    let mut r = resolver(import_node());
    let mut ctx = ResolutionContext::new();
    assert_eq!(
        r.resolve(&fs, b"/app/src", b"pkg/hidden.js", &mut ctx).unwrap_err(),
        ResolveError::PackagePathNotExported
    );
    assert!(!ctx.has_file(b"/app/node_modules/pkg/hidden.js"));
}

#[test]
fn package_without_exports_gives_any_file() {
    let fs = snapshot(
        &["/app", "/app/node_modules", "/app/node_modules/pkg"],
        &[
            ("/app/node_modules/pkg/package.json", "{\"name\":\"pkg\"}"),
            ("/app/node_modules/pkg/hidden.js", ""),
        ],
    );
    let mut r = resolver(Options::default());
    let mut ctx = ResolutionContext::new();
    assert_eq!(
        path_of(r.resolve(&fs, b"/app", b"pkg/hidden.js", &mut ctx)),
        "/app/node_modules/pkg/hidden.js"
    );
}

#[test]
fn symlinked_directory_resolves_to_the_real_path() {
    let mut fs = snapshot(&["/real"], &[("/real/x.js", "")]);
    fs.add_symlink(b"/link", b"/real");
    let mut r = resolver(Options::default());
    let mut ctx = ResolutionContext::new();
    assert_eq!(path_of(r.resolve(&fs, b"/link", b"./x.js", &mut ctx)), "/real/x.js");
    assert_eq!(sorted(ctx.file_dependencies()), vec!["/link", "/link/x.js", "/real/x.js"]);
    assert!(ctx.missing_dependencies().is_empty());
}

#[test]
fn preserved_symlink_keeps_the_path_as_written() {
    let mut fs = snapshot(&["/real"], &[("/real/x.js", "")]);
    fs.add_symlink(b"/link", b"/real");
    let mut r = resolver(Options { preserve_symlinks: true, ..Options::default() });
    let mut ctx = ResolutionContext::new();
    assert_eq!(path_of(r.resolve(&fs, b"/link", b"./x.js", &mut ctx)), "/link/x.js");
    assert_eq!(sorted(ctx.file_dependencies()), vec!["/link/x.js"]);
}

#[test]
fn resolving_twice_gives_the_same() {
    let fs = conditional_package("{\".\":{\"import\":\"./a.mjs\"},\"./sub/*\":\"./*.js\"}");
    let mut r = resolver(import_node());
    let mut first = ResolutionContext::new();
    let one = path_of(r.resolve(&fs, b"/app/src", b"pkg/sub/a", &mut first));
    let mut second = ResolutionContext::new();
    let two = path_of(r.resolve(&fs, b"/app/src", b"pkg/sub/a", &mut second));
    assert_eq!(one, "/app/node_modules/pkg/a.js");
    assert_eq!(one, two);
    assert_eq!(sorted(first.file_dependencies()), sorted(second.file_dependencies()));
    assert_eq!(sorted(first.missing_dependencies()), sorted(second.missing_dependencies()));
    assert_eq!(
        sorted(first.missing_dependencies()),
        vec!["/app/src/node_modules/pkg"]
    );
    assert_eq!(
        sorted(first.file_dependencies()),
        vec![
            "/app/node_modules/pkg",
            "/app/node_modules/pkg/a.js",
            "/app/node_modules/pkg/package.json"
        ]
    );
}
