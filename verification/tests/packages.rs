use module_resolver::context::ResolutionContext;
use module_resolver::descriptor::{DescriptorCache, Lookup, PackageDescriptor};
use module_resolver::error::ResolveError;
use module_resolver::fs::FileSystem;
use module_resolver::options::Options;
use module_resolver::resolver::{Resolved, Resolver};

fn b(s: &str) -> Vec<u8> {
    s.as_bytes().to_vec()
}

fn list(items: &[&str]) -> Vec<Vec<u8>> {
    items.iter().map(|s| b(s)).collect()
}

fn snapshot(dirs: &[&str], files: &[(&str, &str)]) -> FileSystem {
    let mut fs = FileSystem::new();
    fs.add_directory(b"/");
    for d in dirs {
        fs.add_directory(d.as_bytes());
    }
    for (p, c) in files {
        fs.add_file(p.as_bytes(), c.as_bytes());
    }
    fs
}

fn resolver(options: Options) -> Resolver {
    Resolver::new(options).expect("valid options")
}

fn file_of(r: Result<Resolved, ResolveError>) -> (String, Option<String>, String) {
    match r {
        Ok(Resolved::File(file)) => (
            String::from_utf8(file.path).unwrap(),
            file.package.map(|p| String::from_utf8(p).unwrap()),
            String::from_utf8(file.suffix).unwrap(),
        ),
        other => panic!("no file: {:?}", other),
    }
}

fn sorted(mut v: Vec<Vec<u8>>) -> Vec<String> {
    v.sort();
    v.into_iter().map(|p| String::from_utf8(p).unwrap()).collect()
}

#[test]
fn invalid_options_make_no_resolver() {
    assert!(Resolver::new(Options { extensions: list(&["js"]), ..Options::default() }).is_none());
    assert!(Resolver::new(Options::default()).is_some());
}

#[test]
fn start_directory_is_checked() {
    let mut fs = snapshot(&["/a"], &[("/a/x.js", "")]);
    fs.add_denied(b"/locked");
    let mut r = resolver(Options::default());
    let mut ctx = ResolutionContext::new();
    for dir in ["a", "", "/missing", "/a/x.js"] {
        assert_eq!(
            r.resolve(&fs, dir.as_bytes(), b"./x.js", &mut ctx).unwrap_err(),
            ResolveError::InvalidStartDirectory
        );
    }
    assert_eq!(
        r.resolve(&fs, b"/locked", b"./x.js", &mut ctx).unwrap_err(),
        ResolveError::FilesystemError
    );
    assert!(ctx.file_dependencies().is_empty());
    assert!(ctx.missing_dependencies().is_empty());
}

#[test]
fn invalid_specifiers_are_rejected() {
    let fs = snapshot(&["/a"], &[]);
    let mut r = resolver(Options::default());
    let mut ctx = ResolutionContext::new();
    for raw in ["", "@", "@scope", "?q"] {
        assert_eq!(
            r.resolve(&fs, b"/a", raw.as_bytes(), &mut ctx).unwrap_err(),
            ResolveError::InvalidSpecifier
        );
    }
}

#[test]
fn external_specifier_is_given_back() {
    let fs = snapshot(&["/a"], &[]);
    let mut r = resolver(Options::default());
    let mut ctx = ResolutionContext::new();
    match r.resolve(&fs, b"/a", b"node:fs", &mut ctx) {
        Ok(Resolved::External(s)) => assert_eq!(s, b("node:fs")),
        other => panic!("{:?}", other),
    }
    assert!(ctx.file_dependencies().is_empty());
}

#[test]
fn missing_file_is_not_found_and_recorded() {
    let fs = snapshot(&["/a"], &[]);
    let mut r = resolver(Options { extensions: list(&[".js", ".json"]), ..Options::default() });
    let mut ctx = ResolutionContext::new();
    assert_eq!(r.resolve(&fs, b"/a", b"./x", &mut ctx).unwrap_err(), ResolveError::NotFound);
    assert_eq!(sorted(ctx.missing_dependencies()), vec!["/a/x", "/a/x.js", "/a/x.json"]);
    assert!(ctx.file_dependencies().is_empty());
}

#[test]
fn unreadable_candidate_is_a_filesystem_error() {
    let mut fs = snapshot(&["/a"], &[("/a/x.json", "")]);
    fs.add_denied(b"/a/x.js");
    let mut r = resolver(Options { extensions: list(&[".js", ".json"]), ..Options::default() });
    let mut ctx = ResolutionContext::new();
    assert_eq!(
        r.resolve(&fs, b"/a", b"./x", &mut ctx).unwrap_err(),
        ResolveError::FilesystemError
    );
}

#[test]
fn query_and_fragment_are_carried() {
    let fs = snapshot(&["/a"], &[("/a/x.js", "")]);
    let mut r = resolver(Options::default());
    let mut ctx = ResolutionContext::new();
    let (path, package, suffix) = file_of(r.resolve(&fs, b"/a", b"./x.js?raw#top", &mut ctx));
    assert_eq!(path, "/a/x.js");
    assert_eq!(package, None);
    assert_eq!(suffix, "?raw#top");
}

#[test]
fn absolute_specifier() {
    let fs = snapshot(&["/a", "/b"], &[("/b/y.js", "")]);
    let mut r = resolver(Options { extensions: list(&[".js"]), ..Options::default() });
    let mut ctx = ResolutionContext::new();
    assert_eq!(file_of(r.resolve(&fs, b"/a", b"/b/../b/y", &mut ctx)).0, "/b/y.js");
}

#[test]
fn directory_goes_by_main_field_then_index() {
    let fs = snapshot(
        &["/a", "/a/lib", "/a/lib/dist", "/a/other", "/a/empty"],
        &[
            ("/a/lib/package.json", "{\"main\": \"./dist/entry\"}"),
            ("/a/lib/dist/entry.js", ""),
            ("/a/lib/index.js", ""),
            ("/a/other/index.js", ""),
        ],
    );
    let mut r = resolver(Options { extensions: list(&[".js"]), ..Options::default() });
    let mut ctx = ResolutionContext::new();
    assert_eq!(file_of(r.resolve(&fs, b"/a", b"./lib", &mut ctx)).0, "/a/lib/dist/entry.js");
    assert!(ctx.has_file(b"/a/lib/package.json"));
    assert!(ctx.has_file(b"/a/lib"));
    assert!(ctx.has_missing(b"/a/lib.js"));
    assert!(ctx.has_missing(b"/a/lib/dist/entry"));
    let mut ctx2 = ResolutionContext::new();
    assert_eq!(file_of(r.resolve(&fs, b"/a", b"./other", &mut ctx2)).0, "/a/other/index.js");
    assert!(ctx2.has_missing(b"/a/other/package.json"));
    let mut ctx3 = ResolutionContext::new();
    assert_eq!(r.resolve(&fs, b"/a", b"./empty", &mut ctx3).unwrap_err(), ResolveError::NotFound);
    assert!(ctx3.has_missing(b"/a/empty/index.js"));
}

#[test]
fn main_fields_go_by_the_configured_order() {
    let fs = snapshot(
        &["/a", "/a/lib", "/a/lib/m"],
        &[
            (
                "/a/lib/package.json",
                "{\"main\": \"./main.js\", \"module\": \"./gone.js\", \"browser\": \"./m\"}",
            ),
            ("/a/lib/main.js", ""),
            ("/a/lib/m/index.js", ""),
        ],
    );
    let options = Options {
        extensions: list(&[".js"]),
        main_fields: list(&["module", "browser", "main"]),
        ..Options::default()
    };
    let mut r = resolver(options);
    let mut ctx = ResolutionContext::new();
    assert_eq!(file_of(r.resolve(&fs, b"/a", b"./lib", &mut ctx)).0, "/a/lib/m/index.js");
    assert!(ctx.has_missing(b"/a/lib/gone.js"));
}

#[test]
fn file_is_preferred_to_directory_of_the_same_name() {
    let fs = snapshot(&["/a", "/a/x"], &[("/a/x.js", ""), ("/a/x/index.js", "")]);
    let mut r = resolver(Options { extensions: list(&[".js"]), ..Options::default() });
    let mut ctx = ResolutionContext::new();
    assert_eq!(file_of(r.resolve(&fs, b"/a", b"./x", &mut ctx)).0, "/a/x.js");
}

#[test]
fn package_is_found_in_an_ancestor() {
    let fs = snapshot(
        &["/app", "/app/src", "/app/src/deep", "/app/node_modules", "/app/node_modules/@s", "/app/node_modules/@s/pkg"],
        &[
            ("/app/node_modules/@s/pkg/package.json", "{\"main\": \"lib.js\"}"),
            ("/app/node_modules/@s/pkg/lib.js", ""),
        ],
    );
    let mut r = resolver(Options::default());
    let mut ctx = ResolutionContext::new();
    let (path, package, _) = file_of(r.resolve(&fs, b"/app/src/deep", b"@s/pkg", &mut ctx));
    assert_eq!(path, "/app/node_modules/@s/pkg/lib.js");
    assert_eq!(package.as_deref(), Some("/app/node_modules/@s/pkg"));
    assert!(ctx.has_missing(b"/app/src/deep/node_modules/@s/pkg"));
    assert!(ctx.has_missing(b"/app/src/node_modules/@s/pkg"));
    assert!(ctx.has_file(b"/app/node_modules/@s/pkg"));
}

#[test]
fn package_that_is_nowhere_is_not_found() {
    let fs = snapshot(&["/app", "/app/src"], &[]);
    let mut r = resolver(Options::default());
    let mut ctx = ResolutionContext::new();
    assert_eq!(
        r.resolve(&fs, b"/app/src", b"ghost/x", &mut ctx).unwrap_err(),
        ResolveError::NotFound
    );
    assert_eq!(
        sorted(ctx.missing_dependencies()),
        vec!["/app/node_modules/ghost", "/app/src/node_modules/ghost", "/node_modules/ghost"]
    );
}

#[test]
fn exports_targets_are_tried_in_order_until_one_exists() {
    let fs = snapshot(
        &["/app", "/app/node_modules", "/app/node_modules/pkg"],
        &[
            (
                "/app/node_modules/pkg/package.json",
                "{\"exports\": {\".\": [\"./gone.js\", \"./here.js\"], \"./none\": [\"./gone.js\"]}}",
            ),
            ("/app/node_modules/pkg/here.js", ""),
        ],
    );
    let mut r = resolver(Options::default());
    let mut ctx = ResolutionContext::new();
    assert_eq!(file_of(r.resolve(&fs, b"/app", b"pkg", &mut ctx)).0, "/app/node_modules/pkg/here.js");
    assert!(ctx.has_missing(b"/app/node_modules/pkg/gone.js"));
    assert_eq!(r.resolve(&fs, b"/app", b"pkg/none", &mut ctx).unwrap_err(), ResolveError::NotFound);
}

#[test]
fn exports_target_that_leaves_the_package_is_passed_over() {
    let fs = snapshot(
        &["/app", "/app/node_modules", "/app/node_modules/pkg"],
        &[
            (
                "/app/node_modules/pkg/package.json",
                "{\"exports\": {\".\": [\"./../../secret.js\", \"./ok.js\"]}}",
            ),
            ("/app/node_modules/pkg/ok.js", ""),
            ("/app/secret.js", ""),
        ],
    );
    let mut r = resolver(Options::default());
    let mut ctx = ResolutionContext::new();
    assert_eq!(file_of(r.resolve(&fs, b"/app", b"pkg", &mut ctx)).0, "/app/node_modules/pkg/ok.js");
    assert!(!ctx.has_file(b"/app/secret.js"));
}

#[test]
fn mixed_exports_are_an_invalid_configuration() {
    let fs = snapshot(
        &["/app", "/app/node_modules", "/app/node_modules/pkg"],
        &[("/app/node_modules/pkg/package.json", "{\"exports\": {\".\": \"./a.js\", \"node\": \"./b.js\"}}")],
    );
    let mut r = resolver(Options::default());
    let mut ctx = ResolutionContext::new();
    assert_eq!(
        r.resolve(&fs, b"/app", b"pkg", &mut ctx).unwrap_err(),
        ResolveError::InvalidPackageConfig
    );
}

#[test]
fn self_reference_goes_through_imports() {
    let fs = snapshot(
        &["/app", "/app/src", "/app/src/deep"],
        &[
            (
                "/app/package.json",
                "{\"name\": \"app\", \"imports\": {\"#util/*\": {\"node\": \"./src/util-*.js\"}}}",
            ),
            ("/app/src/util-x.js", ""),
        ],
    );
    let mut r = resolver(Options { condition_names: list(&["node"]), ..Options::default() });
    let mut ctx = ResolutionContext::new();
    let (path, package, _) = file_of(r.resolve(&fs, b"/app/src/deep", b"#util/x", &mut ctx));
    assert_eq!(path, "/app/src/util-x.js");
    assert_eq!(package.as_deref(), Some("/app"));
    assert!(ctx.has_missing(b"/app/src/deep/package.json"));
    assert!(ctx.has_file(b"/app/package.json"));
    assert_eq!(
        r.resolve(&fs, b"/app/src", b"#other", &mut ctx).unwrap_err(),
        ResolveError::PackagePathNotExported
    );
}

#[test]
fn self_reference_without_a_package_is_not_found() {
    let fs = snapshot(&["/app"], &[]);
    let mut r = resolver(Options::default());
    let mut ctx = ResolutionContext::new();
    assert_eq!(r.resolve(&fs, b"/app", b"#x", &mut ctx).unwrap_err(), ResolveError::NotFound);
}

#[test]
fn alias_fields_rewrite_and_ignore() {
    let fs = snapshot(
        &["/app", "/app/src", "/app/node_modules", "/app/node_modules/shim"],
        &[
            (
                "/app/package.json",
                "{\"browser\": {\"fs\": false, \"net\": \"shim\", \"./src/server.js\": \"./src/client.js\"}}",
            ),
            ("/app/src/server.js", ""),
            ("/app/src/client.js", ""),
            ("/app/node_modules/shim/index.js", ""),
        ],
    );
    let options = Options {
        alias_fields: vec![list(&["exotic", "none"]), list(&["browser"])],
        extensions: list(&[".js"]),
        ..Options::default()
    };
    let mut r = resolver(options);
    let mut ctx = ResolutionContext::new();
    assert!(matches!(r.resolve(&fs, b"/app/src", b"fs", &mut ctx), Ok(Resolved::Ignored)));
    assert_eq!(
        file_of(r.resolve(&fs, b"/app/src", b"net", &mut ctx)).0,
        "/app/node_modules/shim/index.js"
    );
    assert_eq!(
        file_of(r.resolve(&fs, b"/app/src", b"./server.js", &mut ctx)).0,
        "/app/src/client.js"
    );
    let mut plain = resolver(Options { extensions: list(&[".js"]), ..Options::default() });
    assert_eq!(
        file_of(plain.resolve(&fs, b"/app/src", b"./server.js", &mut ctx)).0,
        "/app/src/server.js"
    );
}

#[test]
fn malformed_descriptor_fails_once_and_is_not_kept() {
    let mut fs = snapshot(
        &["/app", "/app/node_modules", "/app/node_modules/pkg"],
        &[
            ("/app/node_modules/pkg/package.json", "{\"main\": "),
            ("/app/node_modules/pkg/entry.js", ""),
        ],
    );
    let mut r = resolver(Options::default());
    let mut ctx = ResolutionContext::new();
    assert_eq!(
        r.resolve(&fs, b"/app", b"pkg", &mut ctx).unwrap_err(),
        ResolveError::InvalidPackageConfig
    );
    assert!(ctx.has_file(b"/app/node_modules/pkg/package.json"));
    fs.add_file(b"/app/node_modules/pkg/package.json", b"{\"main\": \"entry.js\"}");
    assert_eq!(
        file_of(r.resolve(&fs, b"/app", b"pkg", &mut ctx)).0,
        "/app/node_modules/pkg/entry.js"
    );
}

#[test]
fn descriptor_that_is_no_object_is_malformed() {
    let fs = snapshot(&["/app", "/app/lib"], &[("/app/lib/package.json", "[1, 2]")]);
    let mut r = resolver(Options::default());
    let mut ctx = ResolutionContext::new();
    assert_eq!(
        r.resolve(&fs, b"/app", b"./lib", &mut ctx).unwrap_err(),
        ResolveError::InvalidPackageConfig
    );
}

#[test]
fn cached_descriptor_outlives_a_change_until_the_cache_is_cleared() {
    let mut fs = snapshot(
        &["/app", "/app/lib"],
        &[
            ("/app/lib/package.json", "{\"main\": \"one.js\"}"),
            ("/app/lib/one.js", ""),
            ("/app/lib/two.js", ""),
        ],
    );
    let mut r = resolver(Options::default());
    let mut ctx = ResolutionContext::new();
    assert_eq!(file_of(r.resolve(&fs, b"/app", b"./lib", &mut ctx)).0, "/app/lib/one.js");
    fs.add_file(b"/app/lib/package.json", b"{\"main\": \"two.js\"}");
    assert_eq!(file_of(r.resolve(&fs, b"/app", b"./lib", &mut ctx)).0, "/app/lib/one.js");
    r.clear_cache();
    assert_eq!(file_of(r.resolve(&fs, b"/app", b"./lib", &mut ctx)).0, "/app/lib/two.js");
}

#[test]
fn cache_reads_a_descriptor_once() {
    let fs = snapshot(&["/p"], &[("/p/package.json", "{\"name\": \"p\"}")]);
    let files = list(&["alt.json", "package.json"]);
    let mut cache = DescriptorCache::new();
    let mut first = ResolutionContext::new();
    let one = cache.get_or_load(&fs, &files, b"/p/.", &mut first);
    assert_eq!(one, Lookup::Found(0));
    assert_eq!(cache.count(), 1);
    assert_eq!(cache.entry(0).name(), Some(&b("p")));
    assert_eq!(cache.entry(0).directory(), &b("/p"));
    assert_eq!(cache.entry(0).index(), 1);
    let mut second = ResolutionContext::new();
    assert_eq!(cache.get_or_load(&fs, &files, b"/p", &mut second), Lookup::Found(0));
    assert_eq!(cache.count(), 1);
    assert_eq!(sorted(first.file_dependencies()), vec!["/p/package.json"]);
    assert_eq!(sorted(first.missing_dependencies()), vec!["/p/alt.json"]);
    assert_eq!(sorted(second.file_dependencies()), sorted(first.file_dependencies()));
    assert_eq!(sorted(second.missing_dependencies()), sorted(first.missing_dependencies()));
    let mut third = ResolutionContext::new();
    assert_eq!(cache.get_or_load(&fs, &files, b"/q", &mut third), Lookup::Absent);
    assert_eq!(sorted(third.missing_dependencies()), vec!["/q/alt.json", "/q/package.json"]);
    assert_eq!(cache.count(), 1);
}

#[test]
fn cache_reports_what_it_cannot_read() {
    let mut fs = snapshot(&["/p", "/q"], &[("/p/package.json", "nope")]);
    fs.add_denied(b"/q/package.json");
    let files = list(&["package.json"]);
    let mut cache = DescriptorCache::new();
    let mut ctx = ResolutionContext::new();
    assert_eq!(cache.get_or_load(&fs, &files, b"/p", &mut ctx), Lookup::Invalid);
    assert_eq!(cache.get_or_load(&fs, &files, b"/q", &mut ctx), Lookup::Failed);
    assert_eq!(cache.count(), 0);
}

#[test]
fn link_that_cannot_be_followed_is_a_filesystem_error() {
    let mut fs = snapshot(&["/a"], &[]);
    fs.add_symlink(b"/a/x.js", b"/a/y.js");
    fs.add_symlink(b"/a/y.js", b"/a/x.js");
    let mut r = resolver(Options::default());
    let mut ctx = ResolutionContext::new();
    assert_eq!(
        r.resolve(&fs, b"/a", b"./x.js", &mut ctx).unwrap_err(),
        ResolveError::FilesystemError
    );
}

#[test]
fn aliased_request_is_classified_again() {
    let fs = snapshot(
        &["/a", "/a/node_modules", "/a/node_modules/real"],
        &[("/a/node_modules/real/index.js", "")],
    );
    let options = Options {
        extensions: list(&[".js"]),
        alias: vec![module_resolver::options::AliasRule {
            pattern: b("./fake"),
            exact: true,
            target: module_resolver::options::AliasTarget::Path(b("real")),
        }],
        ..Options::default()
    };
    let mut r = resolver(options);
    let mut ctx = ResolutionContext::new();
    let (path, package, suffix) = file_of(r.resolve(&fs, b"/a", b"./fake?v=1", &mut ctx));
    assert_eq!(path, "/a/node_modules/real/index.js");
    assert_eq!(package.as_deref(), Some("/a/node_modules/real"));
    assert_eq!(suffix, "?v=1");
}

#[test]
fn text_entry_point_takes_the_bytes() {
    let fs = snapshot(&["/a"], &[("/a/x.js", "")]);
    let mut r = resolver(Options { extensions: list(&[".js"]), ..Options::default() });
    let mut ctx = ResolutionContext::new();
    let (path, _, suffix) = file_of(r.resolve_str(&fs, "/a", "./x#top", &mut ctx));
    assert_eq!(path, "/a/x.js");
    assert_eq!(suffix, "#top");
    assert_eq!(r.configuration().extensions, list(&[".js"]));
}

#[test]
fn contexts_can_be_merged() {
    let fs = snapshot(&["/a"], &[("/a/x.js", ""), ("/a/y.js", "")]);
    let mut r = resolver(Options { extensions: list(&[".js"]), ..Options::default() });
    let mut one = ResolutionContext::new();
    let mut two = ResolutionContext::new();
    r.resolve(&fs, b"/a", b"./x", &mut one).unwrap();
    r.resolve(&fs, b"/a", b"./y", &mut two).unwrap();
    let mut all = ResolutionContext::new();
    all.merge(&one);
    all.merge(&two);
    all.merge(&one);
    assert_eq!(sorted(all.file_dependencies()), vec!["/a/x.js", "/a/y.js"]);
    assert_eq!(sorted(all.missing_dependencies()), vec!["/a/x", "/a/y"]);
}

#[test]
fn one_context_collects_over_resolutions() {
    let fs = snapshot(&["/a"], &[("/a/x.js", "")]);
    let mut r = resolver(Options { extensions: list(&[".js"]), ..Options::default() });
    let mut ctx = ResolutionContext::new();
    r.resolve(&fs, b"/a", b"./x", &mut ctx).unwrap();
    assert_eq!(r.resolve(&fs, b"/a", b"./z", &mut ctx).unwrap_err(), ResolveError::NotFound);
    assert_eq!(sorted(ctx.file_dependencies()), vec!["/a/x.js"]);
    assert_eq!(sorted(ctx.missing_dependencies()), vec!["/a/x", "/a/z", "/a/z.js"]);
}

#[test]
fn descriptor_from_bytes() {
    let d = PackageDescriptor::from_bytes(b"/p", 0, b" {\"name\": \"p\", \"sideEffects\": false} ")
        .expect("an object");
    assert_eq!(d.directory(), &b("/p"));
    assert_eq!(d.index(), 0);
    assert_eq!(d.name(), Some(&b("p")));
    assert!(matches!(d.field(b"sideEffects"), Some(module_resolver::json::Json::Bool(false))));
    assert!(d.field(b"main").is_none());
    assert!(matches!(d.json(), module_resolver::json::Json::Object(m) if m.len() == 2));
    let unnamed = PackageDescriptor::from_bytes(b"/p", 0, b"{\"name\": 1}").expect("an object");
    assert_eq!(unnamed.name(), None);
    for bad in ["", "[]", "\"text\"", "null", "{\"a\": }", "{} x"] {
        assert!(PackageDescriptor::from_bytes(b"/p", 0, bad.as_bytes()).is_none(), "{:?}", bad);
    }
}

#[test]
fn alias_field_can_lie_deeper_in_the_descriptor() {
    let fs = snapshot(
        &["/app"],
        &[
            ("/app/package.json", "{\"targets\": {\"web\": {\"./a.js\": \"./b.js\"}}}"),
            ("/app/a.js", ""),
            ("/app/b.js", ""),
        ],
    );
    let options = Options { alias_fields: vec![list(&["targets", "web"])], ..Options::default() };
    let mut r = resolver(options);
    let mut ctx = ResolutionContext::new();
    assert_eq!(file_of(r.resolve(&fs, b"/app", b"./a.js", &mut ctx)).0, "/app/b.js");
}
