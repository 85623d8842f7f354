//! The record of every path a resolution looked at: those that were there
//! and those that were not.

use vstd::prelude::*;
use crate::bytes::{contains, copy, copy_all, views};

verus! {

/// Two sets of paths: the ones found and the ones probed in vain.
pub struct Deps {
    pub files: Set<Seq<u8>>,
    pub missing: Set<Seq<u8>>,
}

impl Deps {
    /// Nothing was looked at.
    pub open spec fn empty() -> Deps {
        Deps { files: Set::empty(), missing: Set::empty() }
    }

    /// Everything in either record.
    pub open spec fn union(self, other: Deps) -> Deps {
        Deps { files: self.files.union(other.files), missing: self.missing.union(other.missing) }
    }

    /// One more path that was found.
    pub open spec fn with_file(self, p: Seq<u8>) -> Deps {
        Deps { files: self.files.insert(p), missing: self.missing }
    }

    /// One more path that was not there.
    pub open spec fn with_missing(self, p: Seq<u8>) -> Deps {
        Deps { files: self.files, missing: self.missing.insert(p) }
    }

    /// The record of one path that was found.
    pub open spec fn file(p: Seq<u8>) -> Deps {
        Deps { files: set![p], missing: Set::empty() }
    }

    /// The record of one path that was not there.
    pub open spec fn miss(p: Seq<u8>) -> Deps {
        Deps { files: Set::empty(), missing: set![p] }
    }

    /// Every path of `self` is in `other`.
    pub open spec fn within(self, other: Deps) -> bool {
        self.files.subset_of(other.files) && self.missing.subset_of(other.missing)
    }
}

/// Two records with the same paths are the same record.
pub proof fn lemma_deps_equal(a: Deps, b: Deps)
    requires
        a.files =~= b.files,
        a.missing =~= b.missing,
    ensures
        a == b,
{
}

/// Joining records does not depend on how they are grouped.
pub proof fn lemma_union_assoc(a: Deps, b: Deps, c: Deps)
    ensures
        a.union(b).union(c) == a.union(b.union(c)),
{
    lemma_deps_equal(a.union(b).union(c), a.union(b.union(c)));
}

/// Joining the empty record changes nothing, and joining a record of one
/// path adds that path.
pub proof fn lemma_union_simple(a: Deps, p: Seq<u8>)
    ensures
        a.union(Deps::empty()) == a,
        Deps::empty().union(a) == a,
        a.union(Deps::file(p)) == a.with_file(p),
        a.union(Deps::miss(p)) == a.with_missing(p),
        a.union(a) == a,
{
    lemma_deps_equal(a.union(Deps::empty()), a);
    lemma_deps_equal(Deps::empty().union(a), a);
    lemma_deps_equal(a.union(Deps::file(p)), a.with_file(p));
    lemma_deps_equal(a.union(Deps::miss(p)), a.with_missing(p));
    lemma_deps_equal(a.union(a), a);
}

/// The paths among the first `i` of a list are those among the first
/// `i - 1` and the one after them.
pub proof fn lemma_take_set(all: Seq<Seq<u8>>, i: int)
    requires
        0 < i <= all.len(),
    ensures
        all.take(i).to_set() == all.take(i - 1).to_set().insert(all[i - 1]),
{
    let shorter = all.take(i - 1);
    let longer = all.take(i);
    assert(longer =~= shorter.push(all[i - 1]));
    assert forall|q: Seq<u8>| longer.contains(q) <==> (shorter.contains(q) || q == all[i - 1]) by {
        if longer.contains(q) {
            let k = choose|k: int| 0 <= k < longer.len() && longer[k] == q;
            if k < shorter.len() {
                assert(shorter[k] == q);
            }
        }
        if shorter.contains(q) {
            let k = choose|k: int| 0 <= k < shorter.len() && shorter[k] == q;
            assert(longer[k] == q);
        }
        if q == all[i - 1] {
            assert(longer[shorter.len() as int] == q);
        }
    }
    assert(longer.to_set() =~= shorter.to_set().insert(all[i - 1]));
}

/// The dependency record that a caller hands to a resolution and reads back
/// afterwards. Paths are only ever added.
pub struct ResolutionContext {
    files: Vec<Vec<u8>>,
    missing: Vec<Vec<u8>>,
}

fn record(items: &mut Vec<Vec<u8>>, p: &[u8])
    requires
        views(old(items)@).no_duplicates(),
    ensures
        views(final(items)@).no_duplicates(),
        views(final(items)@).to_set() == views(old(items)@).to_set().insert(p@),
{
    if contains(items, p) {
        assert(views(items@).to_set() =~= views(items@).to_set().insert(p@));
    } else {
        let ghost before = views(items@);
        items.push(copy(p));
        assert(views(items@) =~= before.push(p@));
        proof {
            lemma_take_set(views(items@), items@.len() as int);
            assert(views(items@).take(items@.len() as int) =~= views(items@));
            assert(views(items@).take(items@.len() - 1) =~= before);
        }
    }
}

impl View for ResolutionContext {
    type V = Deps;

    closed spec fn view(&self) -> Deps {
        Deps { files: views(self.files@).to_set(), missing: views(self.missing@).to_set() }
    }
}

impl ResolutionContext {
    #[verifier::type_invariant]
    spec fn no_repeats(self) -> bool {
        views(self.files@).no_duplicates() && views(self.missing@).no_duplicates()
    }

    /// A record with nothing in it.
    pub fn new() -> (r: ResolutionContext)
        ensures
            r@ == Deps::empty(),
    {
        let r = ResolutionContext { files: Vec::new(), missing: Vec::new() };
        assert(views(r.files@).to_set() =~= Set::empty());
        assert(views(r.missing@).to_set() =~= Set::empty());
        r
    }

    /// Records a path that was found.
    pub fn add_file(&mut self, p: &[u8])
        ensures
            final(self)@ == old(self)@.with_file(p@),
    {
        proof {
            use_type_invariant(&*self);
        }
        let mut items: Vec<Vec<u8>> = Vec::new();
        core::mem::swap(&mut self.files, &mut items);
        record(&mut items, p);
        core::mem::swap(&mut self.files, &mut items);
    }

    /// Records a path that was probed and was not there.
    pub fn add_missing(&mut self, p: &[u8])
        ensures
            final(self)@ == old(self)@.with_missing(p@),
    {
        proof {
            use_type_invariant(&*self);
        }
        let mut items: Vec<Vec<u8>> = Vec::new();
        core::mem::swap(&mut self.missing, &mut items);
        record(&mut items, p);
        core::mem::swap(&mut self.missing, &mut items);
    }

    /// Records every path of `paths` as found.
    pub fn add_files(&mut self, paths: &Vec<Vec<u8>>)
        ensures
            final(self)@ == old(self)@.union(
                Deps { files: views(paths@).to_set(), missing: Set::empty() },
            ),
    {
        let ghost all = views(paths@);
        let mut i: usize = 0;
        proof {
            assert(all.take(0).to_set() =~= Set::<Seq<u8>>::empty());
            lemma_deps_equal(
                self@,
                old(self)@.union(Deps { files: all.take(0).to_set(), missing: Set::empty() }),
            );
        }
        while i < paths.len()
            invariant
                i <= paths@.len(),
                all == views(paths@),
                self@ == old(self)@.union(
                    Deps { files: all.take(i as int).to_set(), missing: Set::empty() },
                ),
            decreases paths@.len() - i,
        {
            self.add_file(paths[i].as_slice());
            i += 1;
            proof {
                assert(all[i - 1] == paths@[i - 1]@);
                lemma_take_set(all, i as int);
                lemma_deps_equal(
                    self@,
                    old(self)@.union(
                        Deps { files: all.take(i as int).to_set(), missing: Set::empty() },
                    ),
                );
            }
        }
        assert(all.take(paths@.len() as int) =~= all);
    }

    /// Takes over everything that `other` holds.
    pub fn merge(&mut self, other: &ResolutionContext)
        ensures
            final(self)@ == old(self)@.union(other@),
    {
        let found = other.file_dependencies();
        let missing = other.missing_dependencies();
        self.add_files(&found);
        let ghost mid = self@;
        let ghost all = views(missing@);
        let mut i: usize = 0;
        proof {
            assert(all.take(0).to_set() =~= Set::<Seq<u8>>::empty());
            lemma_deps_equal(
                self@,
                mid.union(Deps { files: Set::empty(), missing: all.take(0).to_set() }),
            );
        }
        while i < missing.len()
            invariant
                i <= missing@.len(),
                all == views(missing@),
                self@ == mid.union(
                    Deps { files: Set::empty(), missing: all.take(i as int).to_set() },
                ),
            decreases missing@.len() - i,
        {
            self.add_missing(missing[i].as_slice());
            i += 1;
            proof {
                assert(all[i - 1] == missing@[i - 1]@);
                lemma_take_set(all, i as int);
                lemma_deps_equal(
                    self@,
                    mid.union(Deps { files: Set::empty(), missing: all.take(i as int).to_set() }),
                );
            }
        }
        proof {
            assert(all.take(missing@.len() as int) =~= all);
            lemma_deps_equal(self@, old(self)@.union(other@));
        }
    }

    /// Whether `p` was recorded as found.
    pub fn has_file(&self, p: &[u8]) -> (r: bool)
        ensures
            r == self@.files.contains(p@),
    {
        contains(&self.files, p)
    }

    /// Whether `p` was recorded as not there.
    pub fn has_missing(&self, p: &[u8]) -> (r: bool)
        ensures
            r == self@.missing.contains(p@),
    {
        contains(&self.missing, p)
    }

    /// The paths that were found, each once.
    pub fn file_dependencies(&self) -> (r: Vec<Vec<u8>>)
        ensures
            views(r@).to_set() == self@.files,
            views(r@).no_duplicates(),
    {
        proof {
            use_type_invariant(self);
        }
        copy_all(&self.files)
    }

    /// The paths that were probed in vain, each once.
    pub fn missing_dependencies(&self) -> (r: Vec<Vec<u8>>)
        ensures
            views(r@).to_set() == self@.missing,
            views(r@).no_duplicates(),
    {
        proof {
            use_type_invariant(self);
        }
        copy_all(&self.missing)
    }
}

} // verus!
