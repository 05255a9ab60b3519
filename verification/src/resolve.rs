//! Symlink-aware path resolution, one component at a time.
//!
//! The walk is driven as a state machine: the machine names the next path
//! to probe, the caller answers whether that path is a symbolic link, and
//! the machine substitutes targets into the accumulated prefix.  Resolving
//! against a [`LinkTable`] — an explicit, in-memory map from link paths to
//! targets — is fully verified here; a live filesystem can drive the same
//! machine with real answers.
use vstd::prelude::*;

use crate::paths::AbsPath;
use crate::paths::bytes_eq;
use crate::paths::normalize_spec;
use crate::paths::wf_comps;

verus! {

/// What a probe of one candidate path reported.
pub enum LinkAnswer {
    /// The path is not a symbolic link (or does not exist).
    NotLink,
    /// The path is a symbolic link with these target bytes.
    LinkTo(Vec<u8>),
    /// The path is a symbolic link whose target could not be read.
    Unreadable,
}

/// A symlink target could not be read while resolving.
#[derive(Debug)]
pub struct ResolveError {}

/// Where the resolution walk stands.
#[derive(Clone, Copy, PartialEq, Eq, Structural)]
pub enum ResolvePhase {
    /// Components are still being walked.
    Walking,
    /// All components are placed; the whole result gets one more check.
    FinalCheck,
    /// The walk ended with a resolved path.
    Done,
    /// The walk ended because a link target was unreadable.
    Failed,
}

/// A symlink target substituted for a component: an absolute target
/// replaces the accumulated prefix, a relative one is resolved against it.
pub open spec fn apply_target(resolved: Seq<Seq<u8>>, t: Seq<u8>) -> Seq<Seq<u8>> {
    normalize_spec(t, resolved)
}

/// A symlink target substituted for the whole resolved path: a relative
/// target is resolved against the path's parent.
pub open spec fn apply_final_target(resolved: Seq<Seq<u8>>, t: Seq<u8>) -> Seq<Seq<u8>> {
    if resolved.len() == 0 {
        normalize_spec(t, resolved)
    } else {
        normalize_spec(t, resolved.drop_last())
    }
}

/// The phase after one more component was placed.
pub open spec fn walk_next_phase(idx: int, len: int) -> ResolvePhase {
    if idx + 1 >= len {
        ResolvePhase::FinalCheck
    } else {
        ResolvePhase::Walking
    }
}

/// The component walk over a link map, starting at component `i` with the
/// prefix `resolved` already symlink-free.
pub open spec fn walk_spec(
    links: Map<Seq<Seq<u8>>, Seq<u8>>,
    resolved: Seq<Seq<u8>>,
    pending: Seq<Seq<u8>>,
    i: int,
) -> Seq<Seq<u8>>
    decreases pending.len() - i,
{
    if i < 0 || i >= pending.len() {
        resolved
    } else {
        let cand = resolved.push(pending[i]);
        let next = if links.dom().contains(cand) {
            apply_target(resolved, links[cand])
        } else {
            cand
        };
        walk_spec(links, next, pending, i + 1)
    }
}

/// The one extra check of the fully walked path.
pub open spec fn final_check_spec(
    links: Map<Seq<Seq<u8>>, Seq<u8>>,
    resolved: Seq<Seq<u8>>,
) -> Seq<Seq<u8>> {
    if links.dom().contains(resolved) {
        apply_final_target(resolved, links[resolved])
    } else {
        resolved
    }
}

/// Full resolution of `raw` against the link map: normalize, walk every
/// component, then check the result once more.
pub open spec fn resolve_spec(
    links: Map<Seq<Seq<u8>>, Seq<u8>>,
    raw: Seq<u8>,
    cwd: Seq<Seq<u8>>,
) -> Seq<Seq<u8>> {
    final_check_spec(links, walk_spec(links, Seq::empty(), normalize_spec(raw, cwd), 0))
}

/// One known symbolic link: a normalized link path and its raw target.
struct LinkEntry {
    path: Vec<Vec<u8>>,
    target: Vec<u8>,
}

/// An explicit table of symbolic links, keyed by normalized path.
pub struct LinkTable {
    entries: Vec<LinkEntry>,
}

/// The map an entry list denotes; later entries shadow earlier ones.
spec fn table_map(s: Seq<LinkEntry>) -> Map<Seq<Seq<u8>>, Seq<u8>>
    decreases s.len(),
{
    if s.len() == 0 {
        Map::empty()
    } else {
        table_map(s.drop_last()).insert(s.last().path.deep_view(), s.last().target@)
    }
}

impl View for LinkTable {
    type V = Map<Seq<Seq<u8>>, Seq<u8>>;

    closed spec fn view(&self) -> Map<Seq<Seq<u8>>, Seq<u8>> {
        table_map(self.entries@)
    }
}

/// The two component vectors hold the same components.
fn comps_eq(a: &Vec<Vec<u8>>, b: &Vec<Vec<u8>>) -> (r: bool)
    ensures
        r == (a.deep_view() == b.deep_view()),
{
    proof {
        assert forall|k: int| 0 <= k < a@.len() implies a.deep_view()[k] == a@[k]@ by {
            assert(a@[k].deep_view() =~= a@[k]@);
        }
        assert forall|k: int| 0 <= k < b@.len() implies b.deep_view()[k] == b@[k]@ by {
            assert(b@[k].deep_view() =~= b@[k]@);
        }
    }
    if a.len() != b.len() {
        proof {
            assert(a.deep_view().len() != b.deep_view().len());
        }
        return false;
    }
    let mut i: usize = 0;
    while i < a.len()
        invariant
            i <= a.len(),
            a@.len() == b@.len(),
            a.deep_view().len() == a@.len(),
            b.deep_view().len() == b@.len(),
            forall|k: int| 0 <= k < a@.len() ==> a.deep_view()[k] == a@[k]@,
            forall|k: int| 0 <= k < b@.len() ==> b.deep_view()[k] == b@[k]@,
            forall|k: int| 0 <= k < i ==> a@[k]@ == b@[k]@,
        decreases a.len() - i,
    {
        if !bytes_eq(&a[i], &b[i]) {
            proof {
                assert(a.deep_view()[i as int] != b.deep_view()[i as int]);
            }
            return false;
        }
        i = i + 1;
    }
    proof {
        assert(a.deep_view() =~= b.deep_view());
    }
    true
}

impl LinkTable {
    /// A table with no links.
    pub fn new() -> (r: LinkTable)
        ensures
            r@ == Map::<Seq<Seq<u8>>, Seq<u8>>::empty(),
    {
        LinkTable { entries: Vec::new() }
    }

    /// Record that the path written `link` (normalized against `cwd`) is a
    /// symbolic link to `target`.
    pub fn add(&mut self, link: &Vec<u8>, target: &Vec<u8>, cwd: &AbsPath)
        requires
            cwd.wf(),
        ensures
            final(self)@ == old(self)@.insert(normalize_spec(link@, cwd@), target@),
    {
        let key = AbsPath::normalize(link, cwd).into_comps();
        let t = crate::paths::copy_bytes(target);
        let ghost before = self.entries@;
        self.entries.push(LinkEntry { path: key, target: t });
        proof {
            assert(self.entries@.drop_last() =~= before);
        }
    }

    /// Look the candidate path up in the table.
    pub fn lookup(&self, key: &Vec<Vec<u8>>) -> (r: Option<Vec<u8>>)
        ensures
            match r {
                Some(t) => self@.dom().contains(key.deep_view()) && t@ == self@[key.deep_view()],
                None => !self@.dom().contains(key.deep_view()),
            },
    {
        let ghost k = key.deep_view();
        let mut i: usize = self.entries.len();
        proof {
            assert(self.entries@.take(i as int) =~= self.entries@);
        }
        while i > 0
            invariant
                i <= self.entries@.len(),
                k == key.deep_view(),
                table_map(self.entries@).dom().contains(k) == table_map(
                    self.entries@.take(i as int),
                ).dom().contains(k),
                table_map(self.entries@.take(i as int)).dom().contains(k) ==> table_map(
                    self.entries@,
                )[k] == table_map(self.entries@.take(i as int))[k],
            decreases i,
        {
            i = i - 1;
            let ghost upto = self.entries@.take(i as int + 1);
            proof {
                assert(upto.drop_last() =~= self.entries@.take(i as int));
                assert(upto.last() == self.entries@[i as int]);
            }
            proof {
                assert(table_map(upto) == table_map(upto.drop_last()).insert(
                    upto.last().path.deep_view(),
                    upto.last().target@,
                ));
            }
            let entry = &self.entries[i];
            if comps_eq(&entry.path, key) {
                let r = crate::paths::copy_bytes(&entry.target);
                return Some(r);
            }
        }
        proof {
            assert(self.entries@.take(0) =~= Seq::<LinkEntry>::empty());
        }
        None
    }
}

/// The incremental resolution walk, driven by probe answers.
pub struct ResolveMachine {
    resolved: AbsPath,
    pending: AbsPath,
    idx: usize,
    phase: ResolvePhase,
}

impl ResolveMachine {
    /// The symlink-free prefix accumulated so far.
    pub closed spec fn resolved_view(&self) -> Seq<Seq<u8>> {
        self.resolved@
    }

    /// The lexically cleaned components still to walk.
    pub closed spec fn pending_view(&self) -> Seq<Seq<u8>> {
        self.pending@
    }

    /// The index of the next component to walk.
    pub closed spec fn idx_view(&self) -> int {
        self.idx as int
    }

    /// The walk's phase.
    pub closed spec fn phase_view(&self) -> ResolvePhase {
        self.phase
    }

    /// The machine's invariant.
    pub open spec fn wf(&self) -> bool {
        &&& wf_comps(self.resolved_view())
        &&& wf_comps(self.pending_view())
        &&& 0 <= self.idx_view() <= self.pending_view().len()
        &&& self.phase_view() == ResolvePhase::Walking ==> self.idx_view()
            < self.pending_view().len()
        &&& self.phase_view() == ResolvePhase::FinalCheck ==> self.idx_view()
            == self.pending_view().len()
    }

    /// Start resolving `raw` against the working directory `cwd`.
    pub fn new(raw: &Vec<u8>, cwd: &AbsPath) -> (m: ResolveMachine)
        requires
            cwd.wf(),
        ensures
            m.wf(),
            m.resolved_view() == Seq::<Seq<u8>>::empty(),
            m.pending_view() == normalize_spec(raw@, cwd@),
            m.idx_view() == 0,
            m.phase_view() == if normalize_spec(raw@, cwd@).len() == 0 {
                ResolvePhase::FinalCheck
            } else {
                ResolvePhase::Walking
            },
    {
        let pending = AbsPath::normalize(raw, cwd);
        let phase = if pending.depth() == 0 {
            ResolvePhase::FinalCheck
        } else {
            ResolvePhase::Walking
        };
        ResolveMachine { resolved: AbsPath::root(), pending, idx: 0, phase }
    }

    /// The next path whose symlink status the walk needs, or `None` when
    /// the walk has ended.
    pub fn probe(&self) -> (r: Option<Vec<Vec<u8>>>)
        requires
            self.wf(),
        ensures
            match r {
                Some(key) => {
                    &&& self.phase_view() == ResolvePhase::Walking ==> key.deep_view()
                        == self.resolved_view().push(self.pending_view()[self.idx_view()])
                    &&& self.phase_view() == ResolvePhase::FinalCheck ==> key.deep_view()
                        == self.resolved_view()
                    &&& self.phase_view() == ResolvePhase::Walking || self.phase_view()
                        == ResolvePhase::FinalCheck
                },
                None => self.phase_view() == ResolvePhase::Done || self.phase_view()
                    == ResolvePhase::Failed,
            },
    {
        match self.phase {
            ResolvePhase::Walking => {
                let mut key = self.resolved.duplicate().into_comps();
                let comp = self.pending.comp_at(self.idx);
                let ghost before = key;
                key.push(comp);
                proof {
                    crate::paths::lemma_comps_deep_push(before, key, comp);
                }
                Some(key)
            },
            ResolvePhase::FinalCheck => Some(self.resolved.duplicate().into_comps()),
            ResolvePhase::Done => None,
            ResolvePhase::Failed => None,
        }
    }

    /// Advance the walk with the probe's answer.
    pub fn feed(&mut self, ans: LinkAnswer)
        requires
            old(self).wf(),
            old(self).phase_view() == ResolvePhase::Walking || old(self).phase_view()
                == ResolvePhase::FinalCheck,
        ensures
            final(self).wf(),
            final(self).pending_view() == old(self).pending_view(),
            ans matches LinkAnswer::Unreadable ==> final(self).phase_view()
                == ResolvePhase::Failed,
            old(self).phase_view() == ResolvePhase::Walking && !(ans
                matches LinkAnswer::Unreadable) ==> {
                &&& final(self).idx_view() == old(self).idx_view() + 1
                &&& final(self).phase_view() == walk_next_phase(
                    old(self).idx_view(),
                    old(self).pending_view().len() as int,
                )
                &&& (ans matches LinkAnswer::NotLink ==> final(self).resolved_view() == old(
                    self,
                ).resolved_view().push(old(self).pending_view()[old(self).idx_view()]))
                &&& (forall|t: Vec<u8>|
                    ans == LinkAnswer::LinkTo(t) ==> final(self).resolved_view() == apply_target(
                        old(self).resolved_view(),
                        t@,
                    ))
            },
            old(self).phase_view() == ResolvePhase::FinalCheck && !(ans
                matches LinkAnswer::Unreadable) ==> {
                &&& final(self).phase_view() == ResolvePhase::Done
                &&& final(self).idx_view() == old(self).idx_view()
                &&& (ans matches LinkAnswer::NotLink ==> final(self).resolved_view() == old(
                    self,
                ).resolved_view())
                &&& (forall|t: Vec<u8>|
                    ans == LinkAnswer::LinkTo(t) ==> final(self).resolved_view()
                        == apply_final_target(old(self).resolved_view(), t@))
            },
    {
        let walking = match self.phase {
            ResolvePhase::Walking => true,
            _ => false,
        };
        match ans {
            LinkAnswer::Unreadable => {
                self.phase = ResolvePhase::Failed;
            },
            LinkAnswer::NotLink => {
                if walking {
                    let len = self.pending.depth();
                    let comp = self.pending.comp_at(self.idx);
                    self.resolved.push_comp(comp);
                    self.idx = self.idx + 1;
                    self.phase = if self.idx < len {
                        ResolvePhase::Walking
                    } else {
                        ResolvePhase::FinalCheck
                    };
                } else {
                    self.phase = ResolvePhase::Done;
                }
            },
            LinkAnswer::LinkTo(t) => {
                if walking {
                    let len = self.pending.depth();
                    let nr = AbsPath::normalize(&t, &self.resolved);
                    self.resolved = nr;
                    self.idx = self.idx + 1;
                    self.phase = if self.idx < len {
                        ResolvePhase::Walking
                    } else {
                        ResolvePhase::FinalCheck
                    };
                } else {
                    self.resolved.pop_comp();
                    let nr = AbsPath::normalize(&t, &self.resolved);
                    self.resolved = nr;
                    self.phase = ResolvePhase::Done;
                }
            },
        }
    }

    /// The walk's outcome, once it has ended.
    pub fn result(&self) -> (r: Result<AbsPath, ResolveError>)
        requires
            self.wf(),
            self.phase_view() == ResolvePhase::Done || self.phase_view() == ResolvePhase::Failed,
        ensures
            self.phase_view() == ResolvePhase::Done ==> (r matches Ok(p) && p@
                == self.resolved_view() && p.wf()),
            self.phase_view() == ResolvePhase::Failed ==> (r matches Err(_)),
    {
        match self.phase {
            ResolvePhase::Failed => Err(ResolveError {}),
            _ => Ok(self.resolved.duplicate()),
        }
    }
}

/// The rank a phase contributes to the walk's termination measure.
pub open spec fn phase_rank(p: ResolvePhase) -> int {
    match p {
        ResolvePhase::Walking => 1,
        ResolvePhase::FinalCheck => 1,
        ResolvePhase::Done => 0,
        ResolvePhase::Failed => 0,
    }
}

/// Resolve `raw` against the explicit link table, following each symlink
/// component the table knows about.
pub fn resolve_in(links: &LinkTable, raw: &Vec<u8>, cwd: &AbsPath) -> (r: AbsPath)
    requires
        cwd.wf(),
    ensures
        r.wf(),
        r@ == resolve_spec(links@, raw@, cwd@),
{
    let mut m = ResolveMachine::new(raw, cwd);
    proof {
        assert(walk_spec(links@, m.resolved_view(), m.pending_view(), 0) == walk_spec(
            links@,
            Seq::empty(),
            normalize_spec(raw@, cwd@),
            0,
        ));
    }
    loop
        invariant
            m.wf(),
            m.phase_view() != ResolvePhase::Failed,
            (m.phase_view() == ResolvePhase::Walking || m.phase_view() == ResolvePhase::FinalCheck)
                ==> final_check_spec(
                links@,
                walk_spec(links@, m.resolved_view(), m.pending_view(), m.idx_view()),
            ) == resolve_spec(links@, raw@, cwd@),
            m.phase_view() == ResolvePhase::Done ==> m.resolved_view() == resolve_spec(
                links@,
                raw@,
                cwd@,
            ),
        ensures
            m.wf(),
            m.phase_view() == ResolvePhase::Done,
            m.resolved_view() == resolve_spec(links@, raw@, cwd@),
        decreases m.pending_view().len() - m.idx_view() + phase_rank(m.phase_view()),
    {
        let probe = m.probe();
        match probe {
            None => {
                break ;
            },
            Some(key) => {
                let ans = match links.lookup(&key) {
                    Some(t) => LinkAnswer::LinkTo(t),
                    None => LinkAnswer::NotLink,
                };
                let ghost resolved0 = m.resolved_view();
                let ghost idx0 = m.idx_view();
                let ghost walking0 = m.phase_view() == ResolvePhase::Walking;
                m.feed(ans);
                proof {
                    if walking0 {
                        let cand = resolved0.push(m.pending_view()[idx0]);
                        assert(walk_spec(links@, resolved0, m.pending_view(), idx0) == walk_spec(
                            links@,
                            if links@.dom().contains(cand) {
                                apply_target(resolved0, links@[cand])
                            } else {
                                cand
                            },
                            m.pending_view(),
                            idx0 + 1,
                        ));
                    }
                }
            },
        }
    }
    match m.result() {
        Ok(p) => p,
        Err(_) => AbsPath::root(),
    }
}

/// Walking components none of whose prefixes are links leaves them alone.
proof fn lemma_walk_no_links(links: Map<Seq<Seq<u8>>, Seq<u8>>, c: Seq<Seq<u8>>, k: int)
    requires
        0 <= k <= c.len(),
        forall|i: int| k < i <= c.len() ==> !links.dom().contains(#[trigger] c.take(i)),
    ensures
        walk_spec(links, c.take(k), c, k) == c,
    decreases c.len() - k,
{
    if k == c.len() {
        assert(c.take(k) =~= c);
    } else {
        let cand = c.take(k).push(c[k]);
        assert(cand =~= c.take(k + 1));
        assert(!links.dom().contains(cand));
        lemma_walk_no_links(links, c, k + 1);
    }
}

/// Resolution idempotence: resolving the printed form of an already
/// symlink-free (no prefix of it is a link the table knows), lexically
/// clean absolute path returns it unchanged, whatever the working
/// directory.
pub proof fn lemma_resolve_idempotent(
    links: Map<Seq<Seq<u8>>, Seq<u8>>,
    c: Seq<Seq<u8>>,
    cwd: Seq<Seq<u8>>,
)
    requires
        wf_comps(c),
        forall|i: int| 0 <= i <= c.len() ==> !links.dom().contains(#[trigger] c.take(i)),
    ensures
        resolve_spec(links, crate::paths::path_bytes_spec(c), cwd) == c,
{
    crate::paths::lemma_normalize_idempotent(c, cwd);
    assert(c.take(0) =~= Seq::<Seq<u8>>::empty());
    lemma_walk_no_links(links, c, 0);
    assert(c.take(c.len() as int) =~= c);
    assert(!links.dom().contains(c));
}

} // verus!

