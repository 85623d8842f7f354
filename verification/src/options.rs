//! The configuration of a resolver.

use vstd::prelude::*;
use crate::bytes::views;
use crate::path::{DOT, SLASH};

verus! {

/// What an alias rule puts in place of its pattern.
#[derive(Debug)]
pub enum AliasTarget {
    /// A path or specifier.
    Path(Vec<u8>),
    /// Nothing: the module is left out on purpose.
    Ignore,
}

/// The mathematical value of an `AliasTarget`.
pub enum AliasTargetModel {
    Path(Seq<u8>),
    Ignore,
}

impl View for AliasTarget {
    type V = AliasTargetModel;

    open spec fn view(&self) -> AliasTargetModel {
        match self {
            AliasTarget::Path(p) => AliasTargetModel::Path(p@),
            AliasTarget::Ignore => AliasTargetModel::Ignore,
        }
    }
}

/// One alias rule: requests that match `pattern` are rewritten to `target`.
/// An exact rule matches the pattern alone; any other also matches what
/// lies below it.
#[derive(Debug)]
pub struct AliasRule {
    pub pattern: Vec<u8>,
    pub exact: bool,
    pub target: AliasTarget,
}

/// The mathematical value of an `AliasRule`.
pub struct AliasRuleModel {
    pub pattern: Seq<u8>,
    pub exact: bool,
    pub target: AliasTargetModel,
}

impl View for AliasRule {
    type V = AliasRuleModel;

    open spec fn view(&self) -> AliasRuleModel {
        AliasRuleModel { pattern: self.pattern@, exact: self.exact, target: self.target@ }
    }
}

/// The extensions tried in place of one that a request wrote out.
#[derive(Debug)]
pub struct ExtensionAlias {
    pub extension: Vec<u8>,
    pub replacements: Vec<Vec<u8>>,
}

/// The mathematical value of an `ExtensionAlias`.
pub struct ExtensionAliasModel {
    pub extension: Seq<u8>,
    pub replacements: Seq<Seq<u8>>,
}

impl View for ExtensionAlias {
    type V = ExtensionAliasModel;

    open spec fn view(&self) -> ExtensionAliasModel {
        ExtensionAliasModel {
            extension: self.extension@,
            replacements: views(self.replacements@),
        }
    }
}

/// The values of a list of alias rules.
pub open spec fn rule_models(rules: Seq<AliasRule>) -> Seq<AliasRuleModel> {
    Seq::new(rules.len(), |i: int| rules[i]@)
}

/// The values of a list of field paths.
pub open spec fn path_views(items: Seq<Vec<Vec<u8>>>) -> Seq<Seq<Seq<u8>>> {
    Seq::new(items.len(), |i: int| views(items[i]@))
}

/// The values of a list of extension aliases.
pub open spec fn extension_alias_models(items: Seq<ExtensionAlias>) -> Seq<ExtensionAliasModel> {
    Seq::new(items.len(), |i: int| items[i]@)
}

/// The configuration of a resolver. Every list is tried in the order given.
#[derive(Debug)]
pub struct Options {
    /// Extensions appended to a path that names no file.
    pub extensions: Vec<Vec<u8>>,
    /// Rewrites applied to a request before anything else.
    pub alias: Vec<AliasRule>,
    /// Descriptor fields that hold a package's own rewrites, each given as
    /// the path of names that leads to it from the top of the descriptor.
    pub alias_fields: Vec<Vec<Vec<u8>>>,
    /// Extensions tried in place of one written out.
    pub extension_alias: Vec<ExtensionAlias>,
    /// The conditions under which conditional exports are read.
    pub condition_names: Vec<Vec<u8>>,
    /// Descriptor fields that name a directory's entry file.
    pub main_fields: Vec<Vec<u8>>,
    /// Whether the result keeps symbolic links as written.
    pub preserve_symlinks: bool,
    /// The file names under which a package descriptor is looked for.
    pub description_files: Vec<Vec<u8>>,
}

/// The mathematical value of `Options`.
pub struct OptionsModel {
    pub extensions: Seq<Seq<u8>>,
    pub alias: Seq<AliasRuleModel>,
    pub alias_fields: Seq<Seq<Seq<u8>>>,
    pub extension_alias: Seq<ExtensionAliasModel>,
    pub condition_names: Seq<Seq<u8>>,
    pub main_fields: Seq<Seq<u8>>,
    pub preserve_symlinks: bool,
    pub description_files: Seq<Seq<u8>>,
}

impl View for Options {
    type V = OptionsModel;

    open spec fn view(&self) -> OptionsModel {
        OptionsModel {
            extensions: views(self.extensions@),
            alias: rule_models(self.alias@),
            alias_fields: path_views(self.alias_fields@),
            extension_alias: extension_alias_models(self.extension_alias@),
            condition_names: views(self.condition_names@),
            main_fields: views(self.main_fields@),
            preserve_symlinks: self.preserve_symlinks,
            description_files: views(self.description_files@),
        }
    }
}

/// The field name `main`.
pub open spec fn main_name() -> Seq<u8> {
    seq![109u8, 97, 105, 110]
}

/// The file name `package.json`.
pub open spec fn package_json() -> Seq<u8> {
    seq![112u8, 97, 99, 107, 97, 103, 101, 46, 106, 115, 111, 110]
}

/// An extension is a dot followed by at least one byte, none a separator.
pub open spec fn is_extension(e: Seq<u8>) -> bool {
    e.len() >= 2 && e[0] == DOT && forall|i: int| 0 <= i < e.len() ==> #[trigger] e[i] != SLASH
}

/// A name is non-empty and holds no separator.
pub open spec fn is_name(n: Seq<u8>) -> bool {
    n.len() >= 1 && forall|i: int| 0 <= i < n.len() ==> #[trigger] n[i] != SLASH
}

/// Every entry of `items` is an extension.
pub open spec fn all_extensions(items: Seq<Seq<u8>>) -> bool {
    forall|i: int| 0 <= i < items.len() ==> is_extension(#[trigger] items[i])
}

/// Every entry of `items` is a name.
pub open spec fn all_names(items: Seq<Seq<u8>>) -> bool {
    forall|i: int| 0 <= i < items.len() ==> is_name(#[trigger] items[i])
}

impl OptionsModel {
    /// What a resolver asks of its configuration: extensions are
    /// extensions, alias patterns are non-empty, field, condition and file
    /// names are names, a field path is not empty, and there is a
    /// descriptor file name.
    pub open spec fn valid(self) -> bool {
        &&& all_extensions(self.extensions)
        &&& forall|i: int| 0 <= i < self.alias.len() ==> (#[trigger] self.alias[i]).pattern.len() > 0
        &&& forall|i: int|
            0 <= i < self.alias_fields.len() ==> (#[trigger] self.alias_fields[i]).len() > 0
                && all_names(self.alias_fields[i])
        &&& forall|i: int|
            0 <= i < self.extension_alias.len() ==> is_extension(
                (#[trigger] self.extension_alias[i]).extension,
            ) && all_extensions(self.extension_alias[i].replacements)
        &&& all_names(self.condition_names)
        &&& all_names(self.main_fields)
        &&& all_names(self.description_files)
        &&& self.description_files.len() > 0
    }
}

fn no_separator(n: &Vec<u8>) -> (r: bool)
    ensures
        r == forall|i: int| 0 <= i < n@.len() ==> #[trigger] n@[i] != SLASH,
{
    let mut i: usize = 0;
    while i < n.len()
        invariant
            i <= n@.len(),
            forall|j: int| 0 <= j < i ==> #[trigger] n@[j] != SLASH,
        decreases n@.len() - i,
    {
        if n[i] == SLASH {
            return false;
        }
        i += 1;
    }
    true
}

fn extension_ok(e: &Vec<u8>) -> (r: bool)
    ensures
        r == is_extension(e@),
{
    e.len() >= 2 && e[0] == DOT && no_separator(e)
}

fn name_ok(n: &Vec<u8>) -> (r: bool)
    ensures
        r == is_name(n@),
{
    n.len() >= 1 && no_separator(n)
}

fn extensions_ok(items: &Vec<Vec<u8>>) -> (r: bool)
    ensures
        r == all_extensions(views(items@)),
{
    let mut i: usize = 0;
    while i < items.len()
        invariant
            i <= items@.len(),
            forall|j: int| 0 <= j < i ==> is_extension(#[trigger] views(items@)[j]),
        decreases items@.len() - i,
    {
        if !extension_ok(&items[i]) {
            assert(!is_extension(views(items@)[i as int]));
            return false;
        }
        i += 1;
    }
    true
}

fn names_ok(items: &Vec<Vec<u8>>) -> (r: bool)
    ensures
        r == all_names(views(items@)),
{
    let mut i: usize = 0;
    while i < items.len()
        invariant
            i <= items@.len(),
            forall|j: int| 0 <= j < i ==> is_name(#[trigger] views(items@)[j]),
        decreases items@.len() - i,
    {
        if !name_ok(&items[i]) {
            assert(!is_name(views(items@)[i as int]));
            return false;
        }
        i += 1;
    }
    true
}

impl Options {
    /// The configuration with every list empty, but for the main field
    /// `main` and the descriptor file `package.json`.
    pub fn new() -> (r: Options)
        ensures
            r@.extensions.len() == 0,
            r@.alias.len() == 0,
            r@.alias_fields.len() == 0,
            r@.extension_alias.len() == 0,
            r@.condition_names.len() == 0,
            r@.main_fields == seq![main_name()],
            !r@.preserve_symlinks,
            r@.description_files == seq![package_json()],
            r@.valid(),
    {
        let main: Vec<u8> = vec![109u8, 97, 105, 110];
        let file: Vec<u8> = vec![112u8, 97, 99, 107, 97, 103, 101, 46, 106, 115, 111, 110];
        assert(main@ =~= main_name());
        assert(file@ =~= package_json());
        let r = Options {
            extensions: Vec::new(),
            alias: Vec::new(),
            alias_fields: Vec::new(),
            extension_alias: Vec::new(),
            condition_names: Vec::new(),
            main_fields: vec![main],
            preserve_symlinks: false,
            description_files: vec![file],
        };
        assert(r@.main_fields =~= seq![main_name()]);
        assert(r@.description_files =~= seq![package_json()]);
        assert(is_name(main_name()));
        assert(is_name(package_json()));
        r
    }

    /// Whether the configuration is one a resolver accepts.
    pub fn is_valid(&self) -> (r: bool)
        ensures
            r == self@.valid(),
    {
        if !extensions_ok(&self.extensions) || !names_ok(&self.condition_names) || !names_ok(
            &self.main_fields,
        ) || !names_ok(&self.description_files) || self.description_files.len() == 0 {
            return false;
        }
        let mut f: usize = 0;
        while f < self.alias_fields.len()
            invariant
                f <= self.alias_fields@.len(),
                forall|j: int|
                    0 <= j < f ==> (#[trigger] self@.alias_fields[j]).len() > 0 && all_names(
                        self@.alias_fields[j],
                    ),
            decreases self.alias_fields@.len() - f,
        {
            assert(self@.alias_fields[f as int] == views(self.alias_fields@[f as int]@));
            if self.alias_fields[f].len() == 0 || !names_ok(&self.alias_fields[f]) {
                return false;
            }
            f += 1;
        }
        let mut i: usize = 0;
        while i < self.alias.len()
            invariant
                i <= self.alias@.len(),
                forall|j: int| 0 <= j < i ==> (#[trigger] self@.alias[j]).pattern.len() > 0,
            decreases self.alias@.len() - i,
        {
            if self.alias[i].pattern.len() == 0 {
                assert(self@.alias[i as int].pattern.len() == 0);
                return false;
            }
            i += 1;
        }
        let mut k: usize = 0;
        while k < self.extension_alias.len()
            invariant
                k <= self.extension_alias@.len(),
                forall|j: int|
                    0 <= j < k ==> is_extension((#[trigger] self@.extension_alias[j]).extension)
                        && all_extensions(self@.extension_alias[j].replacements),
            decreases self.extension_alias@.len() - k,
        {
            if !extension_ok(&self.extension_alias[k].extension) || !extensions_ok(
                &self.extension_alias[k].replacements,
            ) {
                assert(self@.extension_alias[k as int].extension
                    == self.extension_alias@[k as int].extension@);
                return false;
            }
            k += 1;
        }
        true
    }
}

impl Default for Options {
    fn default() -> (r: Options)
        ensures
            r@.extensions.len() == 0,
            r@.alias.len() == 0,
            r@.alias_fields.len() == 0,
            r@.extension_alias.len() == 0,
            r@.condition_names.len() == 0,
            r@.main_fields == seq![main_name()],
            !r@.preserve_symlinks,
            r@.description_files == seq![package_json()],
            r@.valid(),
    {
        Options::new()
    }
}

} // verus!
