//! An in-memory filesystem snapshot: files, directories, symbolic links and
//! entries that cannot be read.

use vstd::prelude::*;
use crate::bytes::{copy, equal, optional_view, views};
use crate::path::{
    absolute, extend_segments, first_segments, follow, is_absolute, normalize, normalized,
    segments, segments_onto, split, starts_at_root, to_path,
};

verus! {

/// How many symbolic links one lookup follows before it gives up.
pub const MAX_LINKS: usize = 40;

/// What the snapshot holds at one path.
#[derive(Debug)]
pub enum Node {
    /// A regular file and its content.
    File(Vec<u8>),
    /// A directory.
    Directory,
    /// A symbolic link and the path it points to.
    Symlink(Vec<u8>),
    /// An entry that exists but may not be read.
    Denied,
}

/// The mathematical value of a `Node`.
pub enum NodeModel {
    File(Seq<u8>),
    Directory,
    Symlink(Seq<u8>),
    Denied,
}

impl View for Node {
    type V = NodeModel;

    open spec fn view(&self) -> NodeModel {
        match self {
            Node::File(content) => NodeModel::File(content@),
            Node::Directory => NodeModel::Directory,
            Node::Symlink(target) => NodeModel::Symlink(target@),
            Node::Denied => NodeModel::Denied,
        }
    }
}

/// A snapshot as a map from normal absolute paths to what is there.
pub type FsModel = Map<Seq<u8>, NodeModel>;

/// The answer to a probe of one path.
#[derive(Debug, Clone, Copy, PartialEq, Eq, Structural)]
pub enum Stat {
    /// Nothing is there.
    Missing,
    /// A regular file.
    File,
    /// A directory.
    Directory,
    /// The lookup failed: an unreadable entry or too many links.
    Failed,
}

/// Follows symbolic links in `segs`, prefix by prefix, the first `k`
/// segments being known to hold none. `None` when `fuel` links were followed
/// and another one came up.
pub open spec fn resolve_links(fs: FsModel, segs: Seq<Seq<u8>>, k: int, fuel: nat) -> Option<
    Seq<Seq<u8>>,
>
    decreases fuel, segs.len() - k,
{
    if k < 0 || k >= segs.len() {
        Some(segs)
    } else {
        let prefix = absolute(segs.take(k + 1));
        if fs.contains_key(prefix) && fs[prefix] is Symlink {
            if fuel == 0 {
                None
            } else {
                resolve_links(fs, link_target(segs, k, fs[prefix]->Symlink_0), 0, (fuel - 1) as nat)
            }
        } else {
            resolve_links(fs, segs, k + 1, fuel)
        }
    }
}

/// The segments of a path whose prefix `segs[..=k]` is a link to `target`:
/// the target, followed from the link's directory unless it is absolute,
/// and then the rest of the path.
pub open spec fn link_target(segs: Seq<Seq<u8>>, k: int, target: Seq<u8>) -> Seq<Seq<u8>> {
    let base = if is_absolute(target) {
        segments(target)
    } else {
        segments_onto(segs.take(k), target)
    };
    base + segs.skip(k + 1)
}

/// The symbolic links that `resolve_links` follows, in the order in which
/// it comes to them, each by the path under which it was found.
pub open spec fn links_on(fs: FsModel, segs: Seq<Seq<u8>>, k: int, fuel: nat) -> Seq<Seq<u8>>
    decreases fuel, segs.len() - k,
{
    if k < 0 || k >= segs.len() {
        Seq::empty()
    } else {
        let prefix = absolute(segs.take(k + 1));
        if fs.contains_key(prefix) && fs[prefix] is Symlink {
            if fuel == 0 {
                Seq::empty()
            } else {
                seq![prefix] + links_on(
                    fs,
                    link_target(segs, k, fs[prefix]->Symlink_0),
                    0,
                    (fuel - 1) as nat,
                )
            }
        } else {
            links_on(fs, segs, k + 1, fuel)
        }
    }
}

/// The symbolic links passed through on the way to the canonical path of
/// `p`.
pub open spec fn links_of(fs: FsModel, p: Seq<u8>) -> Seq<Seq<u8>> {
    links_on(fs, segments(p), 0, MAX_LINKS as nat)
}

/// The canonical path of `p`: every symbolic link on the way replaced by
/// what it points to. `None` when more than `MAX_LINKS` links come up.
pub open spec fn realpath(fs: FsModel, p: Seq<u8>) -> Option<Seq<u8>> {
    match resolve_links(fs, segments(p), 0, MAX_LINKS as nat) {
        Some(segs) => Some(absolute(segs)),
        None => None,
    }
}

/// What a probe of `p` finds, links followed.
pub open spec fn stat(fs: FsModel, p: Seq<u8>) -> Stat {
    match realpath(fs, p) {
        None => Stat::Failed,
        Some(canon) => if !fs.contains_key(canon) {
            Stat::Missing
        } else {
            match fs[canon] {
                NodeModel::File(_) => Stat::File,
                NodeModel::Directory => Stat::Directory,
                _ => Stat::Failed,
            }
        },
    }
}

/// The content of the file at `p`, links followed, if a file is there.
pub open spec fn content(fs: FsModel, p: Seq<u8>) -> Option<Seq<u8>> {
    match realpath(fs, p) {
        None => None,
        Some(canon) => if fs.contains_key(canon) && fs[canon] is File {
            Some(fs[canon]->File_0)
        } else {
            None
        },
    }
}

/// One entry of the snapshot.
#[derive(Debug)]
pub struct Entry {
    pub path: Vec<u8>,
    pub node: Node,
}

/// The map that a list of entries stands for; a later entry replaces an
/// earlier one at the same path.
pub open spec fn entries_map(entries: Seq<Entry>) -> FsModel
    decreases entries.len(),
{
    if entries.len() == 0 {
        Map::empty()
    } else {
        entries_map(entries.drop_last()).insert(entries.last().path@, entries.last().node@)
    }
}

/// A filesystem snapshot held in memory.
#[derive(Debug)]
pub struct FileSystem {
    entries: Vec<Entry>,
}

impl View for FileSystem {
    type V = FsModel;

    closed spec fn view(&self) -> FsModel {
        entries_map(self.entries@)
    }
}

impl FileSystem {
    /// A snapshot with nothing in it.
    pub fn new() -> (r: FileSystem)
        ensures
            r@ == Map::<Seq<u8>, NodeModel>::empty(),
    {
        FileSystem { entries: Vec::new() }
    }

    /// Puts `node` at the normal form of `path`, in place of what was there.
    pub fn insert(&mut self, path: &[u8], node: Node)
        ensures
            final(self)@ == old(self)@.insert(normalize(path@), node@),
    {
        let key = normalized(path);
        self.entries.push(Entry { path: key, node });
        assert(self.entries@.drop_last() =~= old(self).entries@);
    }

    /// Puts a regular file with `content` at `path`.
    pub fn add_file(&mut self, path: &[u8], content: &[u8])
        ensures
            final(self)@ == old(self)@.insert(normalize(path@), NodeModel::File(content@)),
    {
        self.insert(path, Node::File(copy(content)));
    }

    /// Puts a directory at `path`.
    pub fn add_directory(&mut self, path: &[u8])
        ensures
            final(self)@ == old(self)@.insert(normalize(path@), NodeModel::Directory),
    {
        self.insert(path, Node::Directory);
    }

    /// Puts a symbolic link to `target` at `path`.
    pub fn add_symlink(&mut self, path: &[u8], target: &[u8])
        ensures
            final(self)@ == old(self)@.insert(normalize(path@), NodeModel::Symlink(target@)),
    {
        self.insert(path, Node::Symlink(copy(target)));
    }

    /// Puts an unreadable entry at `path`.
    pub fn add_denied(&mut self, path: &[u8])
        ensures
            final(self)@ == old(self)@.insert(normalize(path@), NodeModel::Denied),
    {
        self.insert(path, Node::Denied);
    }

    /// What the snapshot holds at exactly `path`, no link followed.
    pub fn get(&self, path: &[u8]) -> (r: Option<&Node>)
        ensures
            match r {
                Some(node) => self@.contains_key(path@) && self@[path@] == node@,
                None => !self@.contains_key(path@),
            },
    {
        let mut i: usize = self.entries.len();
        assert(self.entries@.take(i as int) =~= self.entries@);
        while i > 0
            invariant
                i <= self.entries@.len(),
                self@.contains_key(path@) == entries_map(self.entries@.take(i as int)).contains_key(
                    path@,
                ),
                self@.contains_key(path@) ==> self@[path@] == entries_map(
                    self.entries@.take(i as int),
                )[path@],
            decreases i,
        {
            i -= 1;
            proof {
                assert(self.entries@.take(i + 1).drop_last() =~= self.entries@.take(i as int));
                assert(self.entries@.take(i + 1).last() == self.entries@[i as int]);
            }
            if equal(self.entries[i].path.as_slice(), path) {
                return Some(&self.entries[i].node);
            }
        }
        None
    }

    /// The canonical path of `p`, or `None` when too many links come up;
    /// and the symbolic links passed through on the way.
    pub fn follow_links(&self, p: &[u8]) -> (r: (Option<Vec<u8>>, Vec<Vec<u8>>))
        ensures
            optional_view(r.0) == realpath(self@, p@),
            views(r.1@) == links_of(self@, p@),
    {
        let mut segs = split(p);
        let mut passed: Vec<Vec<u8>> = Vec::new();
        let mut k: usize = 0;
        let mut fuel: usize = MAX_LINKS;
        assert(views(passed@) =~= Seq::<Seq<u8>>::empty());
        loop
            invariant
                k <= segs@.len(),
                realpath(self@, p@) == match resolve_links(self@, views(segs@), k as int, fuel as nat) {
                    Some(s) => Some(absolute(s)),
                    None => None,
                },
                links_of(self@, p@) == views(passed@) + links_on(
                    self@,
                    views(segs@),
                    k as int,
                    fuel as nat,
                ),
            decreases fuel, segs@.len() - k,
        {
            if k >= segs.len() {
                assert(views(passed@) + Seq::<Seq<u8>>::empty() =~= views(passed@));
                return (Some(to_path(&segs)), passed);
            }
            let prefix = first_segments(&segs, k + 1);
            let at = to_path(&prefix);
            let found = self.get(at.as_slice());
            match found {
                Some(Node::Symlink(target)) => {
                    if fuel == 0 {
                        assert(views(passed@) + Seq::<Seq<u8>>::empty() =~= views(passed@));
                        return (None, passed);
                    }
                    let mut next = if starts_at_root(target.as_slice()) {
                        split(target.as_slice())
                    } else {
                        let mut base = first_segments(&segs, k);
                        follow(&mut base, target.as_slice());
                        base
                    };
                    extend_segments(&mut next, &segs, k + 1);
                    let ghost before = views(passed@);
                    let ghost rest = links_on(self@, views(next@), 0, (fuel - 1) as nat);
                    passed.push(at);
                    assert(views(passed@) =~= before.push(at@));
                    assert(before + (seq![at@] + rest) =~= before.push(at@) + rest);
                    segs = next;
                    k = 0;
                    fuel -= 1;
                },
                _ => {
                    k += 1;
                },
            }
        }
    }

    /// The canonical path of `p`, or `None` when too many links come up.
    pub fn realpath(&self, p: &[u8]) -> (r: Option<Vec<u8>>)
        ensures
            optional_view(r) == realpath(self@, p@),
    {
        self.follow_links(p).0
    }

    /// Probes `p`, links followed.
    pub fn stat(&self, p: &[u8]) -> (r: Stat)
        ensures
            r == stat(self@, p@),
    {
        match self.realpath(p) {
            None => Stat::Failed,
            Some(canon) => match self.get(canon.as_slice()) {
                None => Stat::Missing,
                Some(Node::File(_)) => Stat::File,
                Some(Node::Directory) => Stat::Directory,
                Some(_) => Stat::Failed,
            },
        }
    }

    /// Whether a file or a directory is at `p`, links followed.
    pub fn is_present(&self, p: &[u8]) -> (r: bool)
        ensures
            r == (stat(self@, p@) is File || stat(self@, p@) is Directory),
    {
        match self.stat(p) {
            Stat::File => true,
            Stat::Directory => true,
            _ => false,
        }
    }

    /// Reads the file at `p`, links followed.
    pub fn read_file(&self, p: &[u8]) -> (r: Option<Vec<u8>>)
        ensures
            optional_view(r) == content(self@, p@),
    {
        match self.realpath(p) {
            None => None,
            Some(canon) => match self.get(canon.as_slice()) {
                Some(Node::File(bytes)) => Some(copy(bytes.as_slice())),
                _ => None,
            },
        }
    }
}

} // verus!
