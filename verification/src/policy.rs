//! The write/create policy guard.
//!
//! Two rule sets of absolute path prefixes, built once from configuration:
//! paths under a never-write rule must not be overwritten, paths under a
//! no-create rule must not be created.  The write check resolves symlinks
//! first, so indirection cannot smuggle a write into a protected tree; the
//! create check is purely lexical, since a path that does not exist yet
//! cannot be resolved.
use vstd::prelude::*;

use crate::paths::AbsPath;
use crate::paths::is_path_prefix;
use crate::paths::normalize_spec;
use crate::paths::wf_comps;
use crate::resolve::LinkTable;
use crate::resolve::resolve_in;
use crate::resolve::resolve_spec;

verus! {

/// The parsed policy configuration: never-write and no-create rule sets.
pub struct ParsedCfg {
    never: Vec<AbsPath>,
    no_create: Vec<AbsPath>,
}

impl ParsedCfg {
    /// The never-write rules, as component sequences.
    pub closed spec fn never_view(&self) -> Seq<Seq<Seq<u8>>> {
        Seq::new(self.never@.len(), |i: int| self.never@[i]@)
    }

    /// The no-create rules, as component sequences.
    pub closed spec fn no_create_view(&self) -> Seq<Seq<Seq<u8>>> {
        Seq::new(self.no_create@.len(), |i: int| self.no_create@[i]@)
    }

    /// Some never-write rule is an ancestor of `p` (or `p` itself).
    pub open spec fn never_denies(&self, p: Seq<Seq<u8>>) -> bool {
        exists|i: int|
            0 <= i < self.never_view().len() && #[trigger] is_path_prefix(self.never_view()[i], p)
    }

    /// Some no-create rule is an ancestor of `p` (or `p` itself).
    pub open spec fn no_create_denies(&self, p: Seq<Seq<u8>>) -> bool {
        exists|i: int|
            0 <= i < self.no_create_view().len() && #[trigger] is_path_prefix(
                self.no_create_view()[i],
                p,
            )
    }

    /// An empty configuration: nothing is denied.
    pub fn new() -> (r: ParsedCfg)
        ensures
            r.never_view() == Seq::<Seq<Seq<u8>>>::empty(),
            r.no_create_view() == Seq::<Seq<Seq<u8>>>::empty(),
    {
        let r = ParsedCfg { never: Vec::new(), no_create: Vec::new() };
        proof {
            assert(r.never_view() =~= Seq::<Seq<Seq<u8>>>::empty());
            assert(r.no_create_view() =~= Seq::<Seq<Seq<u8>>>::empty());
        }
        r
    }

    /// Add one never-write rule, already resolved by the caller.
    pub fn add_never(&mut self, rule: AbsPath)
        ensures
            final(self).never_view() == old(self).never_view().push(rule@),
            final(self).no_create_view() == old(self).no_create_view(),
    {
        self.never.push(rule);
        proof {
            assert(self.never_view() =~= old(self).never_view().push(rule@));
            assert(self.no_create_view() =~= old(self).no_create_view());
        }
    }

    /// Add one no-create rule, already resolved by the caller.
    pub fn add_no_create(&mut self, rule: AbsPath)
        ensures
            final(self).no_create_view() == old(self).no_create_view().push(rule@),
            final(self).never_view() == old(self).never_view(),
    {
        self.no_create.push(rule);
        proof {
            assert(self.no_create_view() =~= old(self).no_create_view().push(rule@));
            assert(self.never_view() =~= old(self).never_view());
        }
    }

    /// May the already resolved path `p` be written?  False exactly when a
    /// never-write rule is an ancestor of `p` or `p` itself.
    pub fn can_write_resolved(&self, p: &AbsPath) -> (r: bool)
        ensures
            r == !self.never_denies(p@),
    {
        let mut i: usize = 0;
        while i < self.never.len()
            invariant
                i <= self.never@.len(),
                forall|k: int|
                    0 <= k < i ==> !#[trigger] is_path_prefix(self.never_view()[k], p@),
            decreases self.never@.len() - i,
        {
            if self.never[i].is_ancestor_of(p) {
                proof {
                    assert(is_path_prefix(self.never_view()[i as int], p@));
                }
                return false;
            }
            i = i + 1;
        }
        true
    }

    /// May the path written `raw` be written?  The path is resolved through
    /// the link table first, so a symlink into a protected tree is caught.
    pub fn can_write(&self, links: &LinkTable, raw: &Vec<u8>, cwd: &AbsPath) -> (r: bool)
        requires
            cwd.wf(),
        ensures
            r == !self.never_denies(resolve_spec(links@, raw@, cwd@)),
    {
        let resolved = resolve_in(links, raw, cwd);
        self.can_write_resolved(&resolved)
    }

    /// May the path written `raw` be created?  Purely lexical: the path is
    /// normalized (nothing on it need exist) and checked against the
    /// no-create rules.
    pub fn can_create(&self, raw: &Vec<u8>, cwd: &AbsPath) -> (r: bool)
        requires
            cwd.wf(),
        ensures
            r == !self.no_create_denies(normalize_spec(raw@, cwd@)),
    {
        let p = AbsPath::normalize(raw, cwd);
        let mut i: usize = 0;
        while i < self.no_create.len()
            invariant
                i <= self.no_create@.len(),
                p@ == normalize_spec(raw@, cwd@),
                forall|k: int|
                    0 <= k < i ==> !#[trigger] is_path_prefix(self.no_create_view()[k], p@),
            decreases self.no_create@.len() - i,
        {
            if self.no_create[i].is_ancestor_of(&p) {
                proof {
                    assert(is_path_prefix(self.no_create_view()[i as int], p@));
                }
                return false;
            }
            i = i + 1;
        }
        true
    }
}

} // verus!
