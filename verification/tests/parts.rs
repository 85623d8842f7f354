use module_resolver::alias::{apply_aliases, select_rule, AliasOutcome};
use module_resolver::bytes::{concatenated, ends_with, find_from, find_last, starts_with};
use module_resolver::context::ResolutionContext;
use module_resolver::error::ResolveError;
use module_resolver::exports::{match_exports, match_imports, Match};
use module_resolver::fs::{FileSystem, Node, Stat};
use module_resolver::json::{get_field, parse, Json};
use module_resolver::options::{AliasRule, AliasTarget, ExtensionAlias, Options};
use module_resolver::path::{joined, normalized, split, starts_at_root, to_path};
use module_resolver::specifier::{classify, extension, SpecifierKind};

fn b(s: &str) -> Vec<u8> {
    s.as_bytes().to_vec()
}

fn s(v: Vec<u8>) -> String {
    String::from_utf8(v).unwrap()
}

fn list(items: &[&str]) -> Vec<Vec<u8>> {
    items.iter().map(|x| b(x)).collect()
}

#[test]
fn byte_helpers() {
    assert_eq!(concatenated(b"ab", b"cd"), b("abcd"));
    assert!(starts_with(b"abc", b"ab"));
    assert!(!starts_with(b"a", b"ab"));
    assert!(ends_with(b"x.js", b".js"));
    assert!(!ends_with(b"js", b".js"));
    assert_eq!(find_from(b"a/b/c", 0, b'/'), 1);
    assert_eq!(find_from(b"a/b/c", 2, b'/'), 3);
    assert_eq!(find_from(b"abc", 0, b'/'), 3);
    assert_eq!(find_last(b"a/b/c", b'/'), Some(3));
    assert_eq!(find_last(b"abc", b'/'), None);
}

#[test]
fn normalize_removes_dots() {
    assert_eq!(s(normalized(b"/a/./b/../c")), "/a/c");
    assert_eq!(s(normalized(b"/a//b/")), "/a/b");
    assert_eq!(s(normalized(b"/../..")), "/");
    assert_eq!(s(normalized(b"/")), "/");
    assert_eq!(s(normalized(b"")), "/");
    assert_eq!(s(normalized(b"/a/...")), "/a/...");
}

#[test]
fn join_follows_from_the_directory() {
    assert_eq!(s(joined(b"/a/b", b"./x")), "/a/b/x");
    assert_eq!(s(joined(b"/a/b", b"../x")), "/a/x");
    assert_eq!(s(joined(b"/a/b", b"x/y")), "/a/b/x/y");
    assert_eq!(s(joined(b"/a/b", b"/x")), "/x");
    assert_eq!(s(joined(b"/a/b", b"")), "/a/b");
    assert_eq!(s(joined(b"/", b"../../x")), "/x");
}

#[test]
fn split_and_render() {
    let segs = split(b"/a/b/../c");
    assert_eq!(segs, list(&["a", "c"]));
    assert_eq!(s(to_path(&segs)), "/a/c");
    assert_eq!(s(to_path(&Vec::new())), "/");
    assert!(starts_at_root(b"/x"));
    assert!(!starts_at_root(b"x"));
    assert!(!starts_at_root(b""));
}

#[test]
fn classify_kinds() {
    assert_eq!(classify(b"/x/y").unwrap().kind, SpecifierKind::Absolute);
    assert_eq!(classify(b"./x").unwrap().kind, SpecifierKind::Relative);
    assert_eq!(classify(b"../x").unwrap().kind, SpecifierKind::Relative);
    assert_eq!(classify(b".").unwrap().kind, SpecifierKind::Relative);
    assert_eq!(classify(b"..").unwrap().kind, SpecifierKind::Relative);
    assert_eq!(classify(b"lodash").unwrap().kind, SpecifierKind::Bare);
    assert_eq!(classify(b".hidden").unwrap().kind, SpecifierKind::Bare);
    assert_eq!(classify(b"@scope/pkg/sub").unwrap().kind, SpecifierKind::ScopedBare);
    assert_eq!(classify(b"#imports/x").unwrap().kind, SpecifierKind::SelfReference);
    assert_eq!(classify(b"node:fs").unwrap().kind, SpecifierKind::External);
    assert_eq!(classify(b"data:text/plain,x").unwrap().kind, SpecifierKind::External);
    assert_eq!(classify(b"c:/x").unwrap().kind, SpecifierKind::Bare);
}

#[test]
fn classify_parts_of_a_bare_request() {
    let c = classify(b"lodash/fp/map.js?q=1#frag").unwrap();
    assert_eq!(c.kind, SpecifierKind::Bare);
    assert_eq!(s(c.request), "lodash/fp/map.js");
    assert_eq!(s(c.package_name), "lodash");
    assert_eq!(s(c.subpath), "/fp/map.js");
    assert_eq!(s(c.extension), ".js");
    assert_eq!(s(c.suffix), "?q=1#frag");
}

#[test]
fn classify_parts_of_a_scoped_request() {
    let c = classify(b"@scope/pkg/sub").unwrap();
    assert_eq!(s(c.package_name), "@scope/pkg");
    assert_eq!(s(c.subpath), "/sub");
    assert_eq!(s(c.extension), "");
    let root = classify(b"@scope/pkg").unwrap();
    assert_eq!(s(root.package_name), "@scope/pkg");
    assert_eq!(s(root.subpath), "");
}

#[test]
fn classify_self_reference_keeps_the_hash() {
    let c = classify(b"#imports/x#frag").unwrap();
    assert_eq!(s(c.request), "#imports/x");
    assert_eq!(s(c.subpath), "#imports/x");
    assert_eq!(s(c.package_name), "");
    assert_eq!(s(c.suffix), "#frag");
}

#[test]
fn classify_external_is_verbatim() {
    let c = classify(b"node:fs?x").unwrap();
    assert_eq!(s(c.request), "node:fs?x");
    assert_eq!(s(c.suffix), "");
}

#[test]
fn classify_rejects_empty_and_bad_scope() {
    assert_eq!(classify(b"").unwrap_err(), ResolveError::InvalidSpecifier);
    assert_eq!(classify(b"?x").unwrap_err(), ResolveError::InvalidSpecifier);
    assert_eq!(classify(b"@").unwrap_err(), ResolveError::InvalidSpecifier);
    assert_eq!(classify(b"@scope").unwrap_err(), ResolveError::InvalidSpecifier);
    assert_eq!(classify(b"@scope/").unwrap_err(), ResolveError::InvalidSpecifier);
    assert_eq!(classify(b"@scope//x").unwrap_err(), ResolveError::InvalidSpecifier);
}

#[test]
fn extension_of_the_last_segment() {
    assert_eq!(s(extension(b"./x.js")), ".js");
    assert_eq!(s(extension(b"./x.test.ts")), ".ts");
    assert_eq!(s(extension(b"./a.b/x")), "");
    assert_eq!(s(extension(b"./.gitignore")), "");
    assert_eq!(s(extension(b"..")), "");
    assert_eq!(s(extension(b"./x.")), "");
    assert_eq!(s(extension(b"x")), "");
}

#[test]
fn json_values() {
    assert!(matches!(parse(b" null "), Some(Json::Null)));
    assert!(matches!(parse(b"true"), Some(Json::Bool(true))));
    assert!(matches!(parse(b"false"), Some(Json::Bool(false))));
    match parse(b"-12.5e+3") {
        Some(Json::Number(n)) => assert_eq!(s(n), "-12.5e+3"),
        other => panic!("{:?}", other),
    }
    match parse(b"\"a\\n\\\"b\\u0041\\u00e9\\u20ac\"") {
        Some(Json::Text(t)) => assert_eq!(s(t), "a\n\"bA\u{e9}\u{20ac}"),
        other => panic!("{:?}", other),
    }
    match parse(b"[1, [2, 3], {}]") {
        Some(Json::Array(items)) => {
            assert_eq!(items.len(), 3);
            assert!(matches!(&items[1], Json::Array(inner) if inner.len() == 2));
            assert!(matches!(&items[2], Json::Object(m) if m.is_empty()));
        }
        other => panic!("{:?}", other),
    }
}

#[test]
fn json_objects_keep_order_and_last_member_wins() {
    let j = parse(b"{\"b\": 1, \"a\": 2, \"b\": 3}").unwrap();
    match &j {
        Json::Object(m) => {
            assert_eq!(m.len(), 3);
            assert_eq!(m[0].0, b("b"));
            assert_eq!(m[1].0, b("a"));
        }
        other => panic!("{:?}", other),
    }
    assert!(matches!(get_field(&j, b"b"), Some(Json::Number(n)) if n == &b("3")));
    assert!(matches!(get_field(&j, b"a"), Some(Json::Number(n)) if n == &b("2")));
    assert!(get_field(&j, b"c").is_none());
    assert!(get_field(&Json::Null, b"a").is_none());
}

#[test]
fn json_rejects_what_is_no_document() {
    for bad in [
        "", "   ", "{", "[1,]", "{\"a\":1,}", "{\"a\" 1}", "{a:1}", "01", "1.", "1e", "-",
        "tru", "nul", "\"abc", "\"\\x\"", "\"\\ud800\"", "\"\\u12\"", "[1] 2", "1 2", "+1",
        "\"a\nb\"", "[", "]", "{\"a\":}",
    ] {
        assert!(parse(bad.as_bytes()).is_none(), "accepted {:?}", bad);
    }
}

#[test]
fn json_nesting_has_a_limit() {
    let deep_ok = format!("{}{}", "[".repeat(128), "]".repeat(128));
    assert!(parse(deep_ok.as_bytes()).is_some());
    let too_deep = format!("{}{}", "[".repeat(129), "]".repeat(129));
    assert!(parse(too_deep.as_bytes()).is_none());
}

#[test]
fn filesystem_lookup_and_replacement() {
    let mut fs = FileSystem::new();
    fs.add_directory(b"/a");
    fs.add_file(b"/a/./x.js", b"one");
    assert_eq!(fs.stat(b"/a"), Stat::Directory);
    assert_eq!(fs.stat(b"/a/x.js"), Stat::File);
    assert_eq!(fs.stat(b"/a/y.js"), Stat::Missing);
    assert_eq!(fs.read_file(b"/a/x.js"), Some(b("one")));
    assert_eq!(fs.read_file(b"/a"), None);
    assert_eq!(fs.read_file(b"/a/y.js"), None);
    fs.add_file(b"/a/x.js", b"two");
    assert_eq!(fs.read_file(b"/a/x.js"), Some(b("two")));
    assert!(matches!(fs.get(b"/a"), Some(Node::Directory)));
    assert!(fs.get(b"/b").is_none());
    fs.add_denied(b"/secret");
    assert_eq!(fs.stat(b"/secret"), Stat::Failed);
}

#[test]
fn realpath_follows_links() {
    let mut fs = FileSystem::new();
    fs.add_directory(b"/real");
    fs.add_directory(b"/real/sub");
    fs.add_file(b"/real/sub/x.js", b"");
    fs.add_symlink(b"/link", b"/real");
    fs.add_symlink(b"/real/rel", b"sub");
    fs.add_symlink(b"/real/up", b"../real/sub");
    assert_eq!(fs.realpath(b"/link/sub/x.js"), Some(b("/real/sub/x.js")));
    assert_eq!(fs.realpath(b"/link/rel/x.js"), Some(b("/real/sub/x.js")));
    assert_eq!(fs.realpath(b"/link/up/x.js"), Some(b("/real/sub/x.js")));
    assert_eq!(fs.realpath(b"/none/x"), Some(b("/none/x")));
    assert_eq!(fs.stat(b"/link/rel/x.js"), Stat::File);
    assert_eq!(fs.stat(b"/link"), Stat::Directory);
    assert!(fs.is_present(b"/link/rel"));
    assert!(!fs.is_present(b"/link/none"));
    let (canon, links) = fs.follow_links(b"/link/rel/x.js");
    assert_eq!(canon, Some(b("/real/sub/x.js")));
    assert_eq!(links, list(&["/link", "/real/rel"]));
    let (same, none) = fs.follow_links(b"/real/sub/x.js");
    assert_eq!(same, Some(b("/real/sub/x.js")));
    assert!(none.is_empty());
}

#[test]
fn realpath_gives_up_on_a_circle_of_links() {
    let mut fs = FileSystem::new();
    fs.add_symlink(b"/a", b"/b");
    fs.add_symlink(b"/b", b"/a");
    assert_eq!(fs.realpath(b"/a/x"), None);
    assert_eq!(fs.stat(b"/a/x"), Stat::Failed);
    assert_eq!(fs.read_file(b"/a/x"), None);
}

#[test]
fn context_is_a_set() {
    let mut ctx = ResolutionContext::new();
    ctx.add_file(b"/a");
    ctx.add_file(b"/b");
    ctx.add_file(b"/a");
    ctx.add_missing(b"/c");
    ctx.add_missing(b"/c");
    ctx.add_files(&list(&["/b", "/a"]));
    assert_eq!(ctx.file_dependencies(), list(&["/a", "/b"]));
    ctx.add_files(&list(&["/d", "/d"]));
    assert!(ctx.has_file(b"/d"));
    assert_eq!(ctx.file_dependencies().len(), 3);
    let mut ctx = ctx;
    ctx.add_files(&Vec::new());
    assert_eq!(ctx.missing_dependencies(), list(&["/c"]));
    assert!(ctx.has_file(b"/a"));
    assert!(!ctx.has_file(b"/c"));
    assert!(ctx.has_missing(b"/c"));
    assert!(!ctx.has_missing(b"/a"));
}

fn rule(pattern: &str, exact: bool, target: &str) -> AliasRule {
    AliasRule { pattern: b(pattern), exact, target: AliasTarget::Path(b(target)) }
}

#[test]
fn alias_selection() {
    let rules = vec![
        rule("foo", false, "./p"),
        rule("foo", true, "./e"),
        rule("foo/bar", false, "./deep"),
        rule("foo/bar", false, "./deep2"),
    ];
    assert_eq!(select_rule(&rules, b"foo"), Some(1));
    assert_eq!(select_rule(&rules, b"foo/x"), Some(0));
    assert_eq!(select_rule(&rules, b"foo/bar/x"), Some(2));
    assert_eq!(select_rule(&rules, b"foobar"), None);
    assert_eq!(select_rule(&rules, b"fo"), None);
}

#[test]
fn alias_rewrites_until_nothing_applies() {
    let rules = vec![rule("a", false, "b"), rule("b", false, "./c")];
    match apply_aliases(&rules, b"a/x") {
        AliasOutcome::Request(r) => assert_eq!(s(r), "./c/x"),
        other => panic!("{:?}", other),
    }
    match apply_aliases(&rules, b"z") {
        AliasOutcome::Request(r) => assert_eq!(s(r), "z"),
        other => panic!("{:?}", other),
    }
}

#[test]
fn alias_does_not_rewrite_what_is_already_below_its_target() {
    let rules = vec![rule("lib", false, "lib/dist")];
    match apply_aliases(&rules, b"lib/x") {
        AliasOutcome::Request(r) => assert_eq!(s(r), "lib/dist/x"),
        other => panic!("{:?}", other),
    }
}

#[test]
fn alias_without_end_is_circular() {
    let rules = vec![rule("a", true, "b"), rule("b", true, "c"), rule("c", true, "a")];
    assert!(matches!(apply_aliases(&rules, b"a"), AliasOutcome::Circular));
    let growing = vec![rule("a", false, "b/x"), rule("b", false, "a/y")];
    assert!(matches!(apply_aliases(&growing, b"a"), AliasOutcome::Circular));
    let ignore = vec![AliasRule { pattern: b("x"), exact: true, target: AliasTarget::Ignore }];
    assert!(matches!(apply_aliases(&ignore, b"x"), AliasOutcome::Ignored));
}

fn targets(m: Match) -> Vec<String> {
    match m {
        Match::Targets(t) => t.into_iter().map(s).collect(),
        other => panic!("{:?}", other),
    }
}

#[test]
fn exports_sugar_and_maps() {
    let conds = list(&["import", "node"]);
    let text = parse(b"\"./index.js\"").unwrap();
    assert_eq!(targets(match_exports(&text, b".", &conds)), vec!["./index.js"]);
    assert!(matches!(match_exports(&text, b"./x", &conds), Match::NotExported));
    let map = parse(
        b"{\".\": \"./main.js\", \"./feature\": {\"node\": \"./f-node.js\", \"default\": \"./f.js\"}, \"./internal/*\": null}",
    )
    .unwrap();
    assert_eq!(targets(match_exports(&map, b".", &conds)), vec!["./main.js"]);
    assert_eq!(targets(match_exports(&map, b"./feature", &conds)), vec!["./f-node.js"]);
    assert_eq!(targets(match_exports(&map, b"./feature", &list(&[]))), vec!["./f.js"]);
    assert!(matches!(match_exports(&map, b"./internal/x", &conds), Match::NotExported));
    assert!(matches!(match_exports(&map, b"./other", &conds), Match::NotExported));
    let mixed = parse(b"{\".\": \"./a.js\", \"node\": \"./b.js\"}").unwrap();
    assert!(matches!(match_exports(&mixed, b".", &conds), Match::Invalid));
}

#[test]
fn exports_patterns_substitute_the_rest() {
    let conds = list(&[]);
    let map = parse(
        b"{\"./*\": \"./any/*.js\", \"./features/*\": \"./src/features/*.js\", \"./features/*.css\": \"./css/*.css\"}",
    )
    .unwrap();
    assert_eq!(
        targets(match_exports(&map, b"./features/a/b", &conds)),
        vec!["./src/features/a/b.js"]
    );
    assert_eq!(targets(match_exports(&map, b"./other", &conds)), vec!["./any/other.js"]);
    assert_eq!(
        targets(match_exports(&map, b"./features/x.css", &conds)),
        vec!["./src/features/x.css.js"]
    );
    assert!(matches!(match_exports(&map, b".", &conds), Match::NotExported));
}

#[test]
fn exports_arrays_give_every_alternative() {
    let conds = list(&["node"]);
    let map = parse(
        b"{\".\": [{\"import\": \"./a.mjs\"}, \"not-a-target\", {\"node\": [\"./b.js\", \"./c.js\"]}, \"./d.js\"]}",
    )
    .unwrap();
    assert_eq!(targets(match_exports(&map, b".", &conds)), vec!["./b.js", "./c.js", "./d.js"]);
}

#[test]
fn exports_nested_conditions_skip_what_gives_nothing() {
    let conds = list(&["import", "node"]);
    let map = parse(
        b"{\"import\": {\"browser\": \"./browser.mjs\"}, \"node\": \"./node.js\", \"default\": \"./d.js\"}",
    )
    .unwrap();
    assert_eq!(targets(match_exports(&map, b".", &conds)), vec!["./node.js"]);
}

#[test]
fn imports_use_the_same_matching() {
    let conds = list(&["node"]);
    let map = parse(b"{\"#dep\": {\"node\": \"./dep-node.js\"}, \"#internal/*\": \"./src/*.js\"}")
        .unwrap();
    assert_eq!(targets(match_imports(&map, b"#dep", &conds)), vec!["./dep-node.js"]);
    assert_eq!(targets(match_imports(&map, b"#internal/a", &conds)), vec!["./src/a.js"]);
    assert!(matches!(match_imports(&map, b"#other", &conds), Match::NotExported));
    assert!(matches!(match_imports(&Json::Null, b"#dep", &conds), Match::NotExported));
}

#[test]
fn default_options_are_valid() {
    let o = Options::default();
    assert!(o.is_valid());
    assert!(o.extensions.is_empty());
    assert_eq!(o.main_fields, list(&["main"]));
    assert_eq!(o.description_files, list(&["package.json"]));
    assert!(!o.preserve_symlinks);
}

#[test]
fn options_are_checked() {
    assert!(!Options { extensions: list(&["js"]), ..Options::default() }.is_valid());
    assert!(!Options { extensions: list(&["."]), ..Options::default() }.is_valid());
    assert!(!Options { extensions: list(&[".a/b"]), ..Options::default() }.is_valid());
    assert!(!Options { description_files: Vec::new(), ..Options::default() }.is_valid());
    assert!(!Options { description_files: list(&["a/b.json"]), ..Options::default() }.is_valid());
    assert!(!Options { main_fields: list(&[""]), ..Options::default() }.is_valid());
    assert!(!Options { condition_names: list(&[""]), ..Options::default() }.is_valid());
    assert!(!Options { alias_fields: vec![list(&[""])], ..Options::default() }.is_valid());
    assert!(!Options { alias_fields: vec![Vec::new()], ..Options::default() }.is_valid());
    assert!(Options { alias_fields: vec![list(&["a", "b"])], ..Options::default() }.is_valid());
    assert!(!Options {
        alias: vec![AliasRule { pattern: Vec::new(), exact: false, target: AliasTarget::Ignore }],
        ..Options::default()
    }
    .is_valid());
    assert!(!Options {
        extension_alias: vec![ExtensionAlias { extension: b("js"), replacements: list(&[".ts"]) }],
        ..Options::default()
    }
    .is_valid());
    assert!(!Options {
        extension_alias: vec![ExtensionAlias { extension: b(".js"), replacements: list(&["ts"]) }],
        ..Options::default()
    }
    .is_valid());
    assert!(Options {
        extensions: list(&[".ts", ".d.ts"]),
        extension_alias: vec![ExtensionAlias { extension: b(".js"), replacements: list(&[".ts"]) }],
        ..Options::default()
    }
    .is_valid());
}
