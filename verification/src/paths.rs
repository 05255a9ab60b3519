//! Lexical model of POSIX-style absolute paths.
//!
//! A path is modelled as a sequence of components (byte strings without
//! `/`, never `.` or `..`); the empty sequence stands for the root `/`.
//! Normalization turns raw path bytes into such a sequence: it makes the
//! path absolute against a working directory and collapses `.` and `..`
//! segments, so that later stages never see a dot segment.
use vstd::prelude::*;

verus! {

/// The byte `/`.
pub const SLASH: u8 = 47;

/// The byte `.`.
pub const DOT: u8 = 46;

/// The single segment `.`, which normalization drops.
pub open spec fn dot_seg() -> Seq<u8> {
    seq![DOT]
}

/// The single segment `..`, which normalization resolves against its parent.
pub open spec fn dotdot_seg() -> Seq<u8> {
    seq![DOT, DOT]
}

/// A valid path component: non-empty, no separator, not a dot segment.
pub open spec fn is_component(c: Seq<u8>) -> bool {
    &&& c.len() > 0
    &&& !c.contains(SLASH)
    &&& c != dot_seg()
    &&& c != dotdot_seg()
}

/// Every entry of `s` is a valid component.
pub open spec fn wf_comps(s: Seq<Seq<u8>>) -> bool {
    forall|i: int| 0 <= i < s.len() ==> is_component(#[trigger] s[i])
}

/// Fold one raw segment into the accumulated components: empty and `.`
/// segments vanish, `..` removes the last component (at the root it is
/// ignored), anything else is appended.
pub open spec fn fold_segment(acc: Seq<Seq<u8>>, seg: Seq<u8>) -> Seq<Seq<u8>> {
    if seg.len() == 0 || seg == dot_seg() {
        acc
    } else if seg == dotdot_seg() {
        if acc.len() == 0 {
            acc
        } else {
            acc.drop_last()
        }
    } else {
        acc.push(seg)
    }
}

/// Normalize the raw bytes `s` onto the accumulated components `acc`,
/// with `cur` the partial segment read so far (it holds no `/`).
pub open spec fn norm_from(s: Seq<u8>, cur: Seq<u8>, acc: Seq<Seq<u8>>) -> Seq<Seq<u8>>
    decreases s.len(),
{
    if s.len() == 0 {
        fold_segment(acc, cur)
    } else if s[0] == SLASH {
        norm_from(s.skip(1), seq![], fold_segment(acc, cur))
    } else {
        norm_from(s.skip(1), cur.push(s[0]), acc)
    }
}

/// Raw bytes that denote an absolute path.
pub open spec fn is_abs_bytes(s: Seq<u8>) -> bool {
    s.len() > 0 && s[0] == SLASH
}

/// The components of `raw` made absolute against `cwd` and lexically
/// cleaned: an absolute path starts from the root, a relative one from
/// `cwd`.
pub open spec fn normalize_spec(raw: Seq<u8>, cwd: Seq<Seq<u8>>) -> Seq<Seq<u8>> {
    if is_abs_bytes(raw) {
        norm_from(raw, seq![], Seq::empty())
    } else {
        norm_from(raw, seq![], cwd)
    }
}

/// The textual form of a component sequence: `/` for the root, otherwise
/// `/` before each component.
pub open spec fn join_comps(s: Seq<Seq<u8>>) -> Seq<u8>
    decreases s.len(),
{
    if s.len() == 0 {
        Seq::empty()
    } else {
        seq![SLASH] + s[0] + join_comps(s.skip(1))
    }
}

/// The bytes that print a component sequence as a path.
pub open spec fn path_bytes_spec(s: Seq<Seq<u8>>) -> Seq<u8> {
    if s.len() == 0 {
        seq![SLASH]
    } else {
        join_comps(s)
    }
}

/// `pre` is an ancestor of `p`, or `p` itself.
pub open spec fn is_path_prefix(pre: Seq<Seq<u8>>, p: Seq<Seq<u8>>) -> bool {
    pre.len() <= p.len() && pre == p.subrange(0, pre.len() as int)
}

/// Folding segments preserves well-formedness of the accumulator, as long
/// as the segment holds no separator.
proof fn lemma_fold_segment_wf(acc: Seq<Seq<u8>>, seg: Seq<u8>)
    requires
        wf_comps(acc),
        !seg.contains(SLASH),
    ensures
        wf_comps(fold_segment(acc, seg)),
{
    let r = fold_segment(acc, seg);
    if seg.len() == 0 || seg == dot_seg() || seg == dotdot_seg() {
        assert(forall|i: int| 0 <= i < r.len() ==> is_component(#[trigger] r[i]));
    } else {
        assert(is_component(seg));
        assert(forall|i: int| 0 <= i < r.len() ==> is_component(#[trigger] r[i]));
    }
}

/// Normalization yields well-formed components.
pub proof fn lemma_norm_from_wf(s: Seq<u8>, cur: Seq<u8>, acc: Seq<Seq<u8>>)
    requires
        wf_comps(acc),
        !cur.contains(SLASH),
    ensures
        wf_comps(norm_from(s, cur, acc)),
    decreases s.len(),
{
    if s.len() == 0 {
        lemma_fold_segment_wf(acc, cur);
    } else if s[0] == SLASH {
        lemma_fold_segment_wf(acc, cur);
        lemma_norm_from_wf(s.skip(1), seq![], fold_segment(acc, cur));
    } else {
        let cur2 = cur.push(s[0]);
        assert(!cur2.contains(SLASH)) by {
            assert(forall|i: int| 0 <= i < cur2.len() ==> cur2[i] != SLASH);
        }
        lemma_norm_from_wf(s.skip(1), cur2, acc);
    }
}

/// Pushing onto a component vector pushes its deep view.
pub proof fn lemma_comps_deep_push(v1: Vec<Vec<u8>>, v2: Vec<Vec<u8>>, x: Vec<u8>)
    requires
        v2@ == v1@.push(x),
    ensures
        v2.deep_view() == v1.deep_view().push(x@),
{
    assert forall|k: int| 0 <= k < v2@.len() implies v2.deep_view()[k] == v1.deep_view().push(
        x@,
    )[k] by {
        if k < v1@.len() {
            assert(v2@[k] == v1@[k]);
            assert(v2@[k].deep_view() =~= v2@[k]@);
        } else {
            assert(v2@[k] == x);
            assert(x.deep_view() =~= x@);
        }
    }
    assert(v2.deep_view() =~= v1.deep_view().push(x@));
}

/// Popping from a component vector drops the last entry of its deep view.
proof fn lemma_deep_drop_last(v1: Vec<Vec<u8>>, v2: Vec<Vec<u8>>)
    requires
        v1@.len() > 0,
        v2@ == v1@.drop_last(),
    ensures
        v2.deep_view() == v1.deep_view().drop_last(),
{
    assert forall|k: int| 0 <= k < v2@.len() implies v2.deep_view()[k]
        == v1.deep_view().drop_last()[k] by {
        assert(v2@[k] == v1@[k]);
    }
    assert(v2.deep_view() =~= v1.deep_view().drop_last());
}

/// Fold one finished raw segment onto the accumulated components.
fn push_segment(acc: &mut Vec<Vec<u8>>, seg: Vec<u8>)
    ensures
        final(acc).deep_view() == fold_segment(old(acc).deep_view(), seg@),
{
    let ghost acc0 = acc.deep_view();
    if seg.len() == 0 || (seg.len() == 1 && seg[0] == DOT) {
        proof {
            if seg@.len() == 1 {
                assert(seg@ =~= dot_seg());
            }
        }
    } else if seg.len() == 2 && seg[0] == DOT && seg[1] == DOT {
        proof {
            assert(seg@ =~= dotdot_seg());
        }
        if acc.len() > 0 {
            let ghost before = *acc;
            acc.pop();
            proof {
                lemma_deep_drop_last(before, *acc);
            }
        }
    } else {
        proof {
            assert(seg@ != dot_seg());
            assert(seg@ != dotdot_seg());
        }
        let ghost before = *acc;
        acc.push(seg);
        proof {
            lemma_comps_deep_push(before, *acc, seg);
        }
    }
}

/// An independent copy of a component vector.
fn copy_comps(v: &Vec<Vec<u8>>) -> (r: Vec<Vec<u8>>)
    ensures
        r.deep_view() == v.deep_view(),
{
    let mut comps: Vec<Vec<u8>> = Vec::new();
    let mut i: usize = 0;
    while i < v.len()
        invariant
            i <= v.len(),
            comps@.len() == i,
            forall|k: int| 0 <= k < i ==> comps@[k]@ == v@[k]@,
        decreases v.len() - i,
    {
        let mut c: Vec<u8> = Vec::new();
        let comp = &v[i];
        let mut j: usize = 0;
        while j < comp.len()
            invariant
                j <= comp.len(),
                c@ == comp@.take(j as int),
            decreases comp.len() - j,
        {
            c.push(comp[j]);
            j = j + 1;
            proof {
                assert(c@ =~= comp@.take(j as int));
            }
        }
        proof {
            assert(c@ =~= comp@);
        }
        comps.push(c);
        i = i + 1;
    }
    proof {
        assert forall|k: int| 0 <= k < comps@.len() implies comps.deep_view()[k]
            == v.deep_view()[k] by {
            assert(comps@[k]@ == v@[k]@);
        }
        assert(comps.deep_view() =~= v.deep_view());
    }
    comps
}

/// An independent copy of a byte vector.
pub fn copy_bytes(v: &Vec<u8>) -> (r: Vec<u8>)
    ensures
        r@ == v@,
{
    let mut c: Vec<u8> = Vec::new();
    let mut j: usize = 0;
    while j < v.len()
        invariant
            j <= v.len(),
            c@ == v@.take(j as int),
        decreases v.len() - j,
    {
        c.push(v[j]);
        j = j + 1;
        proof {
            assert(c@ =~= v@.take(j as int));
        }
    }
    proof {
        assert(c@ =~= v@);
    }
    c
}

/// The two byte vectors hold the same bytes.
pub fn bytes_eq(a: &Vec<u8>, b: &Vec<u8>) -> (r: bool)
    ensures
        r == (a@ == b@),
{
    if a.len() != b.len() {
        return false;
    }
    let mut i: usize = 0;
    while i < a.len()
        invariant
            i <= a.len(),
            a@.len() == b@.len(),
            forall|k: int| 0 <= k < i ==> a@[k] == b@[k],
        decreases a.len() - i,
    {
        if a[i] != b[i] {
            return false;
        }
        i = i + 1;
    }
    proof {
        assert(a@ =~= b@);
    }
    true
}

/// An absolute, symlink-free-by-construction, lexically clean path.
pub struct AbsPath {
    comps: Vec<Vec<u8>>,
}

impl View for AbsPath {
    type V = Seq<Seq<u8>>;

    closed spec fn view(&self) -> Seq<Seq<u8>> {
        self.comps.deep_view()
    }
}

impl AbsPath {
    /// The type's invariant: every component is valid.
    pub open spec fn wf(&self) -> bool {
        wf_comps(self@)
    }

    /// The root path `/`.
    pub fn root() -> (r: AbsPath)
        ensures
            r@ == Seq::<Seq<u8>>::empty(),
            r.wf(),
    {
        let r = AbsPath { comps: Vec::new() };
        proof {
            assert(r@ =~= Seq::<Seq<u8>>::empty());
        }
        r
    }

    /// How many components the path has (0 for the root).
    pub fn depth(&self) -> (n: usize)
        ensures
            n == self@.len(),
    {
        self.comps.len()
    }

    /// An independent copy of the path.
    pub fn duplicate(&self) -> (r: AbsPath)
        ensures
            r@ == self@,
            r.wf() == self.wf(),
    {
        AbsPath { comps: copy_comps(&self.comps) }
    }

    /// The path's components, surrendered as a vector.
    pub fn into_comps(self) -> (r: Vec<Vec<u8>>)
        ensures
            r.deep_view() == self@,
    {
        self.comps
    }

    /// A path assembled directly from components.
    pub fn from_comps(comps: Vec<Vec<u8>>) -> (r: AbsPath)
        ensures
            r@ == comps.deep_view(),
    {
        AbsPath { comps }
    }

    /// A copy of the component at `i`.
    pub fn comp_at(&self, i: usize) -> (r: Vec<u8>)
        requires
            i < self@.len(),
        ensures
            r@ == self@[i as int],
    {
        let r = copy_bytes(&self.comps[i]);
        proof {
            assert(self.comps@[i as int].deep_view() =~= self.comps@[i as int]@);
        }
        r
    }

    /// Append one component.
    pub fn push_comp(&mut self, c: Vec<u8>)
        ensures
            final(self)@ == old(self)@.push(c@),
    {
        let ghost before = self.comps;
        self.comps.push(c);
        proof {
            lemma_comps_deep_push(before, self.comps, c);
        }
    }

    /// Drop the last component; the root is left unchanged.
    pub fn pop_comp(&mut self)
        ensures
            final(self)@ == if old(self)@.len() == 0 {
                old(self)@
            } else {
                old(self)@.drop_last()
            },
    {
        if self.comps.len() > 0 {
            let ghost before = self.comps;
            self.comps.pop();
            proof {
                lemma_deep_drop_last(before, self.comps);
            }
        }
    }

    /// Make `raw` absolute against `cwd` and clean it lexically.
    pub fn normalize(raw: &Vec<u8>, cwd: &AbsPath) -> (r: AbsPath)
        requires
            cwd.wf(),
        ensures
            r.wf(),
            r@ == normalize_spec(raw@, cwd@),
    {
        let is_abs = raw.len() > 0 && raw[0] == SLASH;
        let mut acc: Vec<Vec<u8>> = if is_abs {
            Vec::new()
        } else {
            copy_comps(&cwd.comps)
        };
        let ghost acc0 = acc.deep_view();
        proof {
            if is_abs {
                assert(acc.deep_view() =~= Seq::<Seq<u8>>::empty());
            }
            assert(wf_comps(acc0));
        }
        let mut cur: Vec<u8> = Vec::new();
        proof {
            assert(raw@.skip(0) =~= raw@);
            assert(cur@ =~= Seq::<u8>::empty());
        }
        let mut i: usize = 0;
        while i < raw.len()
            invariant
                i <= raw.len(),
                !cur@.contains(SLASH),
                wf_comps(acc.deep_view()),
                norm_from(raw@.skip(i as int), cur@, acc.deep_view()) == norm_from(
                    raw@,
                    seq![],
                    acc0,
                ),
            decreases raw.len() - i,
        {
            let ghost rest = raw@.skip(i as int);
            proof {
                assert(rest[0] == raw@[i as int]);
                assert(rest.skip(1) =~= raw@.skip(i as int + 1));
            }
            let b = raw[i];
            if b == SLASH {
                let ghost acc_before = acc.deep_view();
                let ghost cur_before = cur@;
                push_segment(&mut acc, cur);
                cur = Vec::new();
                proof {
                    lemma_fold_segment_wf(acc_before, cur_before);
                    assert(cur@ =~= Seq::<u8>::empty());
                }
            } else {
                cur.push(b);
                proof {
                    assert(forall|k: int| 0 <= k < cur@.len() ==> cur@[k] != SLASH);
                }
            }
            i = i + 1;
        }
        proof {
            assert(raw@.skip(i as int) =~= Seq::<u8>::empty());
        }
        let ghost acc_final = acc.deep_view();
        let ghost cur_final = cur@;
        push_segment(&mut acc, cur);
        proof {
            lemma_fold_segment_wf(acc_final, cur_final);
            if is_abs {
                assert(is_abs_bytes(raw@));
            } else {
                assert(!is_abs_bytes(raw@));
            }
        }
        AbsPath { comps: acc }
    }

    /// The path printed as bytes: `/` for the root, else `/` before each
    /// component.
    pub fn path_bytes(&self) -> (r: Vec<u8>)
        ensures
            r@ == path_bytes_spec(self@),
    {
        if self.comps.len() == 0 {
            let mut r: Vec<u8> = Vec::new();
            r.push(SLASH);
            proof {
                assert(r@ =~= seq![SLASH]);
            }
            return r;
        }
        let mut r: Vec<u8> = Vec::new();
        let mut i: usize = 0;
        while i < self.comps.len()
            invariant
                i <= self.comps.len(),
                r@ == join_comps(self@.take(i as int)),
            decreases self.comps.len() - i,
        {
            proof {
                assert(join_comps(self@.take(0)) =~= Seq::<u8>::empty());
            }
            r.push(SLASH);
            let comp = &self.comps[i];
            let mut j: usize = 0;
            while j < comp.len()
                invariant
                    j <= comp.len(),
                    r@ == join_comps(self@.take(i as int)) + seq![SLASH] + comp@.take(j as int),
                decreases comp.len() - j,
            {
                r.push(comp[j]);
                j = j + 1;
                proof {
                    assert(r@ =~= join_comps(self@.take(i as int)) + seq![SLASH] + comp@.take(
                        j as int,
                    ));
                }
            }
            proof {
                assert(comp@ == self@[i as int]) by {
                    assert(self.comps@[i as int].deep_view() =~= self.comps@[i as int]@);
                }
                assert(comp@.take(comp@.len() as int) =~= comp@);
                lemma_join_push(self@.take(i as int), self@[i as int]);
                assert(self@.take(i as int).push(self@[i as int]) =~= self@.take(i as int + 1));
            }
            i = i + 1;
        }
        proof {
            assert(self@.take(i as int) =~= self@);
        }
        r
    }

    /// This path is an ancestor of `p`, or equal to it.
    pub fn is_ancestor_of(&self, p: &AbsPath) -> (r: bool)
        ensures
            r == is_path_prefix(self@, p@),
    {
        if self.comps.len() > p.comps.len() {
            return false;
        }
        let mut i: usize = 0;
        while i < self.comps.len()
            invariant
                i <= self.comps.len(),
                self.comps.len() <= p.comps.len(),
                forall|k: int| 0 <= k < i ==> self@[k] == p@[k],
            decreases self.comps.len() - i,
        {
            if !bytes_eq(&self.comps[i], &p.comps[i]) {
                proof {
                    assert(self.comps@[i as int].deep_view() =~= self.comps@[i as int]@);
                    assert(p.comps@[i as int].deep_view() =~= p.comps@[i as int]@);
                    assert(self@[i as int] != p@[i as int]);
                }
                return false;
            }
            proof {
                assert(self.comps@[i as int].deep_view() =~= self.comps@[i as int]@);
                assert(p.comps@[i as int].deep_view() =~= p.comps@[i as int]@);
            }
            i = i + 1;
        }
        proof {
            assert(self@ =~= p@.subrange(0, self@.len() as int));
        }
        true
    }
}

/// Appending one component to a joined path appends a separator and the
/// component's bytes.
pub proof fn lemma_join_push(s: Seq<Seq<u8>>, x: Seq<u8>)
    ensures
        join_comps(s.push(x)) == join_comps(s) + seq![SLASH] + x,
    decreases s.len(),
{
    let sx = s.push(x);
    assert(sx.len() > 0);
    assert(join_comps(sx) == seq![SLASH] + sx[0] + join_comps(sx.skip(1)));
    if s.len() == 0 {
        assert(sx[0] == x);
        assert(sx.skip(1) =~= Seq::<Seq<u8>>::empty());
        assert(join_comps(sx.skip(1)) == Seq::<u8>::empty());
        assert(join_comps(s) == Seq::<u8>::empty());
        assert(join_comps(sx) =~= join_comps(s) + seq![SLASH] + x);
    } else {
        assert(sx[0] == s[0]);
        assert(sx.skip(1) =~= s.skip(1).push(x));
        lemma_join_push(s.skip(1), x);
        assert(join_comps(sx.skip(1)) == join_comps(s.skip(1)) + seq![SLASH] + x);
        assert(join_comps(s) == seq![SLASH] + s[0] + join_comps(s.skip(1)));
        assert(join_comps(sx) =~= join_comps(s) + seq![SLASH] + x);
    }
}

/// Normalization consumes a separator-free chunk by growing the current
/// segment.
proof fn lemma_norm_append_nonslash(x: Seq<u8>, t: Seq<u8>, cur: Seq<u8>, acc: Seq<Seq<u8>>)
    requires
        !x.contains(SLASH),
    ensures
        norm_from(x + t, cur, acc) == norm_from(t, cur + x, acc),
    decreases x.len(),
{
    if x.len() == 0 {
        assert(x + t =~= t);
        assert(cur + x =~= cur);
    } else {
        assert((x + t)[0] == x[0]);
        assert(x[0] != SLASH);
        assert((x + t).skip(1) =~= x.skip(1) + t);
        assert(!x.skip(1).contains(SLASH)) by {
            assert(forall|k: int| 0 <= k < x.skip(1).len() ==> x.skip(1)[k] == x[k + 1]);
        }
        lemma_norm_append_nonslash(x.skip(1), t, cur.push(x[0]), acc);
        assert(cur.push(x[0]) + x.skip(1) =~= cur + x);
    }
}

/// Normalizing the printed form of clean components on top of any
/// accumulator just appends the components.
proof fn lemma_norm_join(c: Seq<Seq<u8>>, acc: Seq<Seq<u8>>)
    requires
        wf_comps(c),
    ensures
        norm_from(join_comps(c), seq![], acc) == acc + c,
    decreases c.len(),
{
    if c.len() == 0 {
        assert(join_comps(c).len() == 0);
        assert(fold_segment(acc, seq![]) == acc);
        assert(acc + c =~= acc);
    } else {
        let j = join_comps(c);
        let rest = join_comps(c.skip(1));
        assert(j == seq![SLASH] + c[0] + rest);
        assert(j[0] == SLASH);
        assert(j.skip(1) =~= c[0] + rest);
        assert(fold_segment(acc, seq![]) == acc);
        assert(is_component(c[0]));
        assert(!c[0].contains(SLASH));
        lemma_norm_append_nonslash(c[0], rest, seq![], acc);
        assert(seq![] + c[0] =~= c[0]);
        assert(norm_from(j, seq![], acc) == norm_from(rest, c[0], acc));
        assert(wf_comps(c.skip(1))) by {
            assert(forall|k: int| 0 <= k < c.skip(1).len() ==> c.skip(1)[k] == c[k + 1]);
        }
        if c.len() == 1 {
            assert(rest.len() == 0);
            assert(norm_from(rest, c[0], acc) == fold_segment(acc, c[0]));
            assert(fold_segment(acc, c[0]) == acc.push(c[0]));
            assert(acc.push(c[0]) =~= acc + c);
        } else {
            assert(rest[0] == SLASH) by {
                assert(rest == seq![SLASH] + c.skip(1)[0] + join_comps(c.skip(1).skip(1)));
            }
            assert(norm_from(rest, c[0], acc) == norm_from(
                rest.skip(1),
                seq![],
                fold_segment(acc, c[0]),
            ));
            assert(fold_segment(acc, c[0]) == acc.push(c[0]));
            lemma_norm_join(c.skip(1), acc.push(c[0]));
            assert(norm_from(rest, seq![], acc.push(c[0])) == norm_from(
                rest.skip(1),
                seq![],
                fold_segment(acc.push(c[0]), seq![]),
            ));
            assert(fold_segment(acc.push(c[0]), seq![]) == acc.push(c[0]));
            assert(acc.push(c[0]) + c.skip(1) =~= acc + c);
        }
    }
}

/// Resolution idempotence, lexical half: normalizing the printed form of an
/// already clean absolute path gives the path back, whatever the working
/// directory.
pub proof fn lemma_normalize_idempotent(c: Seq<Seq<u8>>, cwd: Seq<Seq<u8>>)
    requires
        wf_comps(c),
    ensures
        normalize_spec(path_bytes_spec(c), cwd) == c,
{
    if c.len() == 0 {
        let p = path_bytes_spec(c);
        assert(p == seq![SLASH]);
        assert(is_abs_bytes(p));
        assert(norm_from(p, seq![], Seq::empty()) == norm_from(
            p.skip(1),
            seq![],
            fold_segment(Seq::empty(), seq![]),
        ));
        assert(fold_segment(Seq::<Seq<u8>>::empty(), seq![]) == Seq::<Seq<u8>>::empty());
        assert(p.skip(1) =~= Seq::<u8>::empty());
        assert(norm_from(Seq::<u8>::empty(), seq![], Seq::<Seq<u8>>::empty()) == fold_segment(
            Seq::<Seq<u8>>::empty(),
            seq![],
        ));
        assert(normalize_spec(p, cwd) =~= c);
    } else {
        let p = path_bytes_spec(c);
        assert(p == join_comps(c));
        assert(p == seq![SLASH] + c[0] + join_comps(c.skip(1)));
        assert(is_abs_bytes(p));
        lemma_norm_join(c, Seq::empty());
        assert(Seq::<Seq<u8>>::empty() + c =~= c);
    }
}

} // verus!
