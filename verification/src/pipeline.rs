//! Transfer options, progress counters, and argument parsing helpers.
use vstd::arithmetic::div_mod::lemma_fundamental_div_mod;
use vstd::arithmetic::div_mod::lemma_mod_bound;
use vstd::prelude::*;

use crate::policy::ParsedCfg;

verus! {

/// Where a transfer side reads from or writes to.
pub enum Target {
    /// A filesystem path, as raw bytes.
    Path(Vec<u8>),
    /// The process's standard input.
    StdIn,
    /// The process's standard output.
    StdOut,
}

/// Whether a target is opened for reading or writing.
#[derive(PartialEq, Eq, Structural)]
pub enum IoMode {
    Read,
    Write,
}

/// How much reporting the transfer prints.
#[derive(Clone, Copy, PartialEq, Eq, Structural, Debug)]
pub enum Status {
    /// Errors and final statistics.
    Default,
    /// Errors only: the final statistics are suppressed.
    NoXFer,
    /// Errors, periodic progress, and final statistics.
    Progress,
}

/// Lower-case an ASCII letter; other bytes pass through.
pub open spec fn ascii_lower(b: u8) -> u8 {
    if 65 <= b <= 90 {
        (b + 32) as u8
    } else {
        b
    }
}

/// The byte sequence lower-cased letterwise.
pub open spec fn lower_seq(s: Seq<u8>) -> Seq<u8> {
    s.map_values(|b: u8| ascii_lower(b))
}

/// The bytes of `none`.
pub open spec fn none_bytes() -> Seq<u8> {
    seq![110u8, 111u8, 110u8, 101u8]
}

/// The bytes of `noxfer`.
pub open spec fn noxfer_bytes() -> Seq<u8> {
    seq![110u8, 111u8, 120u8, 102u8, 101u8, 114u8]
}

/// The bytes of `progress`.
pub open spec fn progress_bytes() -> Seq<u8> {
    seq![112u8, 114u8, 111u8, 103u8, 114u8, 101u8, 115u8, 115u8]
}

impl Status {
    /// Parse a status level, ignoring letter case: `none`, `noxfer` or
    /// `progress`; anything else is rejected.
    pub fn try_from(value: &Vec<u8>) -> (r: Result<Status, ()>)
        ensures
            r == if lower_seq(value@) == none_bytes() {
                Result::<Status, ()>::Ok(Status::Default)
            } else if lower_seq(value@) == noxfer_bytes() {
                Result::<Status, ()>::Ok(Status::NoXFer)
            } else if lower_seq(value@) == progress_bytes() {
                Result::<Status, ()>::Ok(Status::Progress)
            } else {
                Result::<Status, ()>::Err(())
            },
    {
        let mut low: Vec<u8> = Vec::new();
        let mut i: usize = 0;
        while i < value.len()
            invariant
                i <= value.len(),
                low@ == lower_seq(value@).take(i as int),
            decreases value.len() - i,
        {
            let b = value[i];
            let lb = if 65 <= b && b <= 90 {
                b + 32
            } else {
                b
            };
            low.push(lb);
            i = i + 1;
            proof {
                assert(low@ =~= lower_seq(value@).take(i as int));
            }
        }
        proof {
            assert(low@ =~= lower_seq(value@));
        }
        let mut none_b: Vec<u8> = Vec::new();
        none_b.push(110);
        none_b.push(111);
        none_b.push(110);
        none_b.push(101);
        proof {
            assert(none_b@ =~= none_bytes());
        }
        if crate::paths::bytes_eq(&low, &none_b) {
            return Ok(Status::Default);
        }
        let mut noxfer_b: Vec<u8> = Vec::new();
        noxfer_b.push(110);
        noxfer_b.push(111);
        noxfer_b.push(120);
        noxfer_b.push(102);
        noxfer_b.push(101);
        noxfer_b.push(114);
        proof {
            assert(noxfer_b@ =~= noxfer_bytes());
        }
        if crate::paths::bytes_eq(&low, &noxfer_b) {
            return Ok(Status::NoXFer);
        }
        let mut progress_b: Vec<u8> = Vec::new();
        progress_b.push(112);
        progress_b.push(114);
        progress_b.push(111);
        progress_b.push(103);
        progress_b.push(114);
        progress_b.push(101);
        progress_b.push(115);
        progress_b.push(115);
        proof {
            assert(progress_b@ =~= progress_bytes());
        }
        if crate::paths::bytes_eq(&low, &progress_b) {
            return Ok(Status::Progress);
        }
        Err(())
    }
}

/// The process-wide transfer counters, mutated by both pipeline roles and
/// read at any time for reporting.
pub struct GlobalState {
    /// Blocks enqueued but not yet written.
    pub queued: usize,
    /// Full-size input blocks read.
    pub read_blk: usize,
    /// A short (end-of-data) read ended the input side.
    pub read_extra: bool,
    /// Full-size output blocks written.
    pub write_blk: usize,
    /// A short block ended the output side.
    pub write_extra: bool,
    /// When the transfer was configured, in caller-chosen ticks.
    pub started: Option<u64>,
    /// Bytes written to the destination.
    pub bytes_written: usize,
}

impl GlobalState {
    /// Fresh counters: everything zero, no start time.
    pub fn new() -> (r: GlobalState)
        ensures
            r.queued == 0,
            r.read_blk == 0,
            r.read_extra == false,
            r.write_blk == 0,
            r.write_extra == false,
            r.started matches Option::<u64>::None,
            r.bytes_written == 0,
    {
        GlobalState {
            queued: 0,
            read_blk: 0,
            read_extra: false,
            write_blk: 0,
            write_extra: false,
            started: None,
            bytes_written: 0,
        }
    }

    /// Record the moment the transfer was configured; the tick value comes
    /// from the caller's clock.
    pub fn cfg_time(&mut self, now: u64)
        ensures
            final(self).started == Some(now),
            final(self).queued == old(self).queued,
            final(self).read_blk == old(self).read_blk,
            final(self).read_extra == old(self).read_extra,
            final(self).write_blk == old(self).write_blk,
            final(self).write_extra == old(self).write_extra,
            final(self).bytes_written == old(self).bytes_written,
    {
        self.started = Some(now);
    }
}

/// The transfer's configuration, assembled by the caller from arguments.
pub struct Options {
    /// The destination.
    pub o_f: Target,
    /// The source.
    pub i_f: Target,
    /// Input block size in bytes.
    pub i_bs: usize,
    /// Output block size in bytes.
    pub o_bs: usize,
    /// Stop after this many full input blocks, if given.
    pub count: Option<usize>,
    /// Skip this many output blocks before the first write, if given.
    pub o_skip: Option<usize>,
    /// Skip this many input blocks before the first read, if given.
    pub i_skip: Option<usize>,
    /// How much reporting to print.
    pub status: Status,
    /// The write/create policy.
    pub cfg: ParsedCfg,
}

impl Options {
    /// The table of size suffixes, as executable values.
    pub fn units_map() -> (r: Vec<(Vec<u8>, u64)>)
        ensures
            r@.len() == units_spec().len(),
            forall|i: int|
                0 <= i < r@.len() ==> (#[trigger] r@[i]).0@ == units_spec()[i].0 && r@[i].1
                    == units_spec()[i].1,
    {
        let mut r: Vec<(Vec<u8>, u64)> = Vec::new();
        r.push((suffix2(107, 66), 1000));
        r.push((suffix1(75), 1024));
        r.push((suffix2(77, 66), 1000000));
        r.push((suffix1(77), 1048576));
        r.push((suffix2(71, 66), 1000000000));
        r.push((suffix1(71), 1073741824));
        r.push((suffix2(84, 66), 1000000000000));
        r.push((suffix1(84), 1099511627776));
        r.push((suffix2(80, 66), 1000000000000));
        r.push((suffix1(80), 1099511627776));
        r
    }

    /// Parse a size argument: digits with an optional suffix (`64K`, `1MB`).
    /// Nothing is returned when the digits are missing or malformed, or the
    /// value does not fit a size.
    pub fn parse_units(src: &Vec<u8>) -> (r: Option<usize>)
        ensures
            r == parse_units_spec(src@),
    {
        let umax: u64 = usize::MAX as u64;
        let units = Options::units_map();
        let mut i: usize = 0;
        while i < units.len()
            invariant
                i <= units@.len(),
                umax == usize::MAX as u64,
                usize::MAX <= u64::MAX,
                units@.len() == units_spec().len(),
                forall|k: int|
                    0 <= k < units@.len() ==> (#[trigger] units@[k]).0@ == units_spec()[k].0
                        && units@[k].1 == units_spec()[k].1,
                forall|k: int| 0 <= k < i ==> !ends_with(src@, units_spec()[k].0),
                find_unit(src@, 0) == find_unit(src@, i as int),
            decreases units@.len() - i,
        {
            let entry = &units[i];
            if ends_with_exec(src, &entry.0) {
                proof {
                    assert(find_unit(src@, 0) == Some(i as int));
                }
                let sl = entry.0.len();
                let body_end = src.len() - sl;
                let parsed = parse_digits(src, body_end);
                match parsed {
                    None => {
                        proof {
                            if dec_val(src@.take(body_end as int)) > usize::MAX {
                                lemma_mult_ge_one(
                                    dec_val(src@.take(body_end as int)),
                                    entry.1 as nat,
                                );
                            }
                        }
                        return None;
                    },
                    Some(v) => {
                        let m = entry.1;
                        match v.checked_mul(m) {
                            None => {
                                proof {
                                    assert(v as nat * m as nat > u64::MAX);
                                }
                                return None;
                            },
                            Some(p) => {
                                if p <= umax {
                                    return Some(p as usize);
                                } else {
                                    return None;
                                }
                            },
                        }
                    },
                }
            }
            i = i + 1;
        }
        proof {
            assert(find_unit(src@, 0) == None::<int>);
        }
        let parsed = parse_digits(src, src.len());
        proof {
            assert(src@.take(src@.len() as int) =~= src@);
        }
        match parsed {
            None => None,
            Some(v) => {
                if v <= umax {
                    Some(v as usize)
                } else {
                    None
                }
            },
        }
    }
}

/// A size suffix is a digit byte.
pub open spec fn is_digit(b: u8) -> bool {
    48 <= b <= 57
}

/// Every byte is a digit, and there is at least one.
pub open spec fn all_digits(s: Seq<u8>) -> bool {
    s.len() > 0 && forall|i: int| 0 <= i < s.len() ==> is_digit(#[trigger] s[i])
}

/// The number the digit bytes denote.
pub open spec fn dec_val(s: Seq<u8>) -> nat
    decreases s.len(),
{
    if s.len() == 0 {
        0
    } else {
        dec_val(s.drop_last()) * 10 + (s.last() - 48) as nat
    }
}

/// `s` ends with `suf`.
pub open spec fn ends_with(s: Seq<u8>, suf: Seq<u8>) -> bool {
    suf.len() <= s.len() && s.skip(s.len() - suf.len()) == suf
}

/// The size suffixes and their multipliers, decimal (`kB`, `MB`, ...)
/// and binary (`K`, `M`, ...), in the order they are tried.
pub open spec fn units_spec() -> Seq<(Seq<u8>, u64)> {
    seq![
        (seq![107u8, 66u8], 1000u64),
        (seq![75u8], 1024u64),
        (seq![77u8, 66u8], 1000000u64),
        (seq![77u8], 1048576u64),
        (seq![71u8, 66u8], 1000000000u64),
        (seq![71u8], 1073741824u64),
        (seq![84u8, 66u8], 1000000000000u64),
        (seq![84u8], 1099511627776u64),
        (seq![80u8, 66u8], 1000000000000u64),
        (seq![80u8], 1099511627776u64),
    ]
}

/// The first suffix of `units_spec` (from `i` on) that `s` ends with.
pub open spec fn find_unit(s: Seq<u8>, i: int) -> Option<int>
    decreases units_spec().len() - i,
{
    if i < 0 || i >= units_spec().len() {
        None
    } else if ends_with(s, units_spec()[i].0) {
        Some(i)
    } else {
        find_unit(s, i + 1)
    }
}

/// What parsing a size argument yields: the digits before the recognized
/// suffix (if any) times the suffix's multiplier, or nothing when the
/// digits are missing, malformed, or the product does not fit.
pub open spec fn parse_units_spec(s: Seq<u8>) -> Option<usize> {
    let picked = find_unit(s, 0);
    let body = match picked {
        Some(i) => s.take(s.len() - units_spec()[i].0.len()),
        None => s,
    };
    let mult = match picked {
        Some(i) => units_spec()[i].1 as nat,
        None => 1,
    };
    if all_digits(body) && dec_val(body) * mult <= usize::MAX {
        Some((dec_val(body) * mult) as usize)
    } else {
        None
    }
}

/// A one-byte suffix.
fn suffix1(a: u8) -> (r: Vec<u8>)
    ensures
        r@ == seq![a],
{
    let mut r: Vec<u8> = Vec::new();
    r.push(a);
    proof {
        assert(r@ =~= seq![a]);
    }
    r
}

/// A two-byte suffix.
fn suffix2(a: u8, b: u8) -> (r: Vec<u8>)
    ensures
        r@ == seq![a, b],
{
    let mut r: Vec<u8> = Vec::new();
    r.push(a);
    r.push(b);
    proof {
        assert(r@ =~= seq![a, b]);
    }
    r
}

/// Does `s` end with `suf`?
fn ends_with_exec(s: &Vec<u8>, suf: &Vec<u8>) -> (r: bool)
    ensures
        r == ends_with(s@, suf@),
{
    if suf.len() > s.len() {
        return false;
    }
    let off = s.len() - suf.len();
    let mut j: usize = 0;
    while j < suf.len()
        invariant
            j <= suf@.len(),
            suf@.len() <= s@.len(),
            s@.len() <= usize::MAX,
            off == s@.len() - suf@.len(),
            forall|k: int| 0 <= k < j ==> s@[off + k] == suf@[k],
        decreases suf.len() - j,
    {
        if s[off + j] != suf[j] {
            proof {
                assert(s@.skip(off as int)[j as int] != suf@[j as int]);
            }
            return false;
        }
        j = j + 1;
    }
    proof {
        assert(s@.skip(off as int) =~= suf@);
    }
    true
}

/// A longer digit string denotes at least as large a number.
proof fn lemma_dec_val_monotone(s: Seq<u8>, j: int)
    requires
        0 <= j <= s.len(),
    ensures
        dec_val(s.take(j)) <= dec_val(s),
    decreases s.len() - j,
{
    if j == s.len() {
        assert(s.take(j) =~= s);
    } else {
        assert(s.take(j + 1).drop_last() =~= s.take(j));
        assert(dec_val(s.take(j + 1)) == dec_val(s.take(j)) * 10 + (s.take(j + 1).last()
            - 48) as nat);
        lemma_dec_val_monotone(s, j + 1);
    }
}

/// Parse the digits in `s[..end]`, bounded by what a size can hold.
fn parse_digits(s: &Vec<u8>, end: usize) -> (r: Option<u64>)
    requires
        end <= s@.len(),
    ensures
        match r {
            Some(v) => all_digits(s@.take(end as int)) && v == dec_val(s@.take(end as int)) && v
                <= usize::MAX,
            None => !all_digits(s@.take(end as int)) || dec_val(s@.take(end as int)) > usize::MAX,
        },
{
    if end == 0 {
        return None;
    }
    let umax: u64 = usize::MAX as u64;
    let mut val: u64 = 0;
    let mut j: usize = 0;
    while j < end
        invariant
            j <= end,
            end <= s@.len(),
            umax == usize::MAX as u64,
            usize::MAX <= u64::MAX,
            forall|k: int| 0 <= k < j ==> is_digit(#[trigger] s@[k]),
            val == dec_val(s@.take(j as int)),
            val <= umax,
        decreases end - j,
    {
        let b = s[j];
        if b < 48 || 57 < b {
            proof {
                assert(!is_digit(s@.take(end as int)[j as int]));
            }
            return None;
        }
        let d: u64 = (b - 48) as u64;
        proof {
            assert(s@.take(j as int + 1).drop_last() =~= s@.take(j as int));
            assert(dec_val(s@.take(j as int + 1)) == dec_val(s@.take(j as int)) * 10 + (s@[j as int]
                - 48) as nat);
            lemma_fundamental_div_mod(umax as int - d as int, 10);
            lemma_mod_bound(umax as int - d as int, 10);
        }
        if val > (umax - d) / 10 {
            proof {
                assert(dec_val(s@.take(j as int + 1)) > usize::MAX);
                lemma_dec_val_monotone(s@.take(end as int), j as int + 1);
                assert(s@.take(end as int).take(j as int + 1) =~= s@.take(j as int + 1));
            }
            return None;
        }
        val = val * 10 + d;
        j = j + 1;
    }
    proof {
        assert(s@.take(end as int) =~= s@.take(j as int));
        assert(all_digits(s@.take(end as int)));
    }
    Some(val)
}

/// A number does not shrink when multiplied by a positive factor.
proof fn lemma_mult_ge_one(a: nat, b: nat)
    requires
        b >= 1,
    ensures
        a * b >= a,
{
    if a > 0 {
        vstd::arithmetic::mul::lemma_mul_inequality(1, b as int, a as int);
        vstd::arithmetic::mul::lemma_mul_is_commutative(a as int, b as int);
    }
}

/// Where the producer's first read starts, given the input skip.
pub open spec fn skip_bytes_spec(src_len: int, i_skip: Option<usize>, i_bs: int) -> int {
    let sk: int = match i_skip {
        Some(s) => s as int,
        None => 0,
    };
    if sk * i_bs > src_len {
        src_len
    } else {
        sk * i_bs
    }
}

/// The bytes available to the producer after the initial skip.
pub open spec fn avail_spec(src: Seq<u8>, i_skip: Option<usize>, i_bs: int) -> Seq<u8> {
    src.skip(skip_bytes_spec(src.len() as int, i_skip, i_bs))
}

/// How many full-size reads the producer performs.
pub open spec fn full_reads_spec(avail_len: int, i_bs: int, count: Option<usize>) -> int {
    match count {
        Some(c) => if c as int <= avail_len / i_bs {
            c as int
        } else {
            avail_len / i_bs
        },
        None => avail_len / i_bs,
    }
}

/// Whether the input side ends with a short (end-of-data) read.
pub open spec fn read_extra_spec(avail_len: int, i_bs: int, count: Option<usize>) -> bool {
    match count {
        Some(c) => c as int > avail_len / i_bs,
        None => true,
    }
}

/// The bytes the producer reads and hands to the rechunker.
pub open spec fn bytes_read_spec(avail: Seq<u8>, i_bs: int, count: Option<usize>) -> Seq<u8> {
    match count {
        Some(c) => if c as int <= avail.len() as int / i_bs {
            avail.take(c as int * i_bs)
        } else {
            avail
        },
        None => avail,
    }
}

/// The blocks the consumer writes: every full output block, then the
/// remainder once, if there is one.
pub open spec fn blocks_out_spec(br: Seq<u8>, o_bs: int) -> Seq<Seq<u8>> {
    if br.len() as int % o_bs != 0 {
        crate::chunk::full_chunks(br, o_bs).push(crate::chunk::chunk_rem(br, o_bs))
    } else {
        crate::chunk::full_chunks(br, o_bs)
    }
}

/// How many of the blocks are full-size.
pub open spec fn count_full(blocks: Seq<Seq<u8>>, o_bs: int) -> int
    decreases blocks.len(),
{
    if blocks.len() == 0 {
        0
    } else {
        count_full(blocks.drop_last(), o_bs) + if blocks.last().len() >= o_bs {
            1int
        } else {
            0int
        }
    }
}

/// Some block is shorter than a full one.
pub open spec fn any_short(blocks: Seq<Seq<u8>>, o_bs: int) -> bool {
    exists|i: int| 0 <= i < blocks.len() && (#[trigger] blocks[i]).len() < o_bs
}

/// No block is empty.
pub open spec fn nonempty_blocks(blocks: Seq<Seq<u8>>) -> bool {
    forall|i: int| 0 <= i < blocks.len() ==> (#[trigger] blocks[i]).len() >= 1
}

/// The write-side counters agree with what was written and what waits in
/// the channel.
pub open spec fn consume_ok(
    stats: GlobalState,
    written: Seq<Seq<u8>>,
    q: Seq<Seq<u8>>,
    o_bs: int,
) -> bool {
    &&& stats.queued == q.len()
    &&& stats.bytes_written == crate::chunk::concat_seqs(written).len()
    &&& stats.write_blk == count_full(written, o_bs)
    &&& stats.write_extra == any_short(written, o_bs)
}

/// Concatenation distributes over appending one block.
proof fn lemma_concat_push(s: Seq<Seq<u8>>, x: Seq<u8>)
    ensures
        crate::chunk::concat_seqs(s.push(x)) == crate::chunk::concat_seqs(s) + x,
{
    assert(s.push(x).drop_last() =~= s);
    assert(s.push(x).last() == x);
}

/// Concatenation peels its first block off the front.
proof fn lemma_concat_first(s: Seq<Seq<u8>>)
    requires
        s.len() > 0,
    ensures
        crate::chunk::concat_seqs(s) == s[0] + crate::chunk::concat_seqs(s.skip(1)),
    decreases s.len(),
{
    if s.len() == 1 {
        assert(s.drop_last() =~= Seq::<Seq<u8>>::empty());
        assert(s.skip(1) =~= Seq::<Seq<u8>>::empty());
        assert(Seq::<u8>::empty() + s[0] =~= s[0]);
        assert(s[0] + Seq::<u8>::empty() =~= s[0]);
    } else {
        let dl = s.drop_last();
        lemma_concat_first(dl);
        assert(s.skip(1).drop_last() =~= dl.skip(1));
        assert(s.skip(1).last() == s.last());
        assert(crate::chunk::concat_seqs(s.skip(1)) == crate::chunk::concat_seqs(dl.skip(1))
            + s.last());
        assert(s[0] == dl[0]);
        assert(s[0] + (crate::chunk::concat_seqs(dl.skip(1)) + s.last()) =~= (s[0]
            + crate::chunk::concat_seqs(dl.skip(1))) + s.last());
    }
}

/// Concatenation distributes over appending block lists.
proof fn lemma_concat_append(a: Seq<Seq<u8>>, b: Seq<Seq<u8>>)
    ensures
        crate::chunk::concat_seqs(a + b) == crate::chunk::concat_seqs(a)
            + crate::chunk::concat_seqs(b),
    decreases b.len(),
{
    if b.len() == 0 {
        assert(a + b =~= a);
        assert(crate::chunk::concat_seqs(a) + Seq::<u8>::empty() =~= crate::chunk::concat_seqs(a));
    } else {
        assert((a + b).drop_last() =~= a + b.drop_last());
        assert((a + b).last() == b.last());
        lemma_concat_append(a, b.drop_last());
        assert(crate::chunk::concat_seqs(a) + (crate::chunk::concat_seqs(b.drop_last())
            + b.last()) =~= (crate::chunk::concat_seqs(a) + crate::chunk::concat_seqs(
            b.drop_last(),
        )) + b.last());
    }
}

/// Non-empty blocks concatenate to at least one byte each.
proof fn lemma_concat_len_ge(s: Seq<Seq<u8>>)
    requires
        nonempty_blocks(s),
    ensures
        crate::chunk::concat_seqs(s).len() >= s.len(),
    decreases s.len(),
{
    if s.len() > 0 {
        assert(nonempty_blocks(s.drop_last())) by {
            assert(forall|i: int| 0 <= i < s.len() - 1 ==> s.drop_last()[i] == s[i]);
        }
        lemma_concat_len_ge(s.drop_last());
        assert(s.last().len() >= 1);
    }
}

/// At most every block is full-size.
proof fn lemma_count_full_le(s: Seq<Seq<u8>>, o_bs: int)
    ensures
        0 <= count_full(s, o_bs) <= s.len(),
    decreases s.len(),
{
    if s.len() > 0 {
        lemma_count_full_le(s.drop_last(), o_bs);
    }
}

/// A list of exactly full-size blocks counts all of them and has no short
/// one.
proof fn lemma_count_full_all(s: Seq<Seq<u8>>, o_bs: int)
    requires
        forall|i: int| 0 <= i < s.len() ==> (#[trigger] s[i]).len() == o_bs,
    ensures
        count_full(s, o_bs) == s.len(),
        !any_short(s, o_bs),
    decreases s.len(),
{
    if s.len() > 0 {
        assert(forall|i: int| 0 <= i < s.len() - 1 ==> s.drop_last()[i] == s[i]);
        lemma_count_full_all(s.drop_last(), o_bs);
    }
}

/// Removing the head of a block vector drops the head of its deep view.
proof fn lemma_deep_skip1(v1: Vec<Vec<u8>>, v2: Vec<Vec<u8>>)
    requires
        v1@.len() > 0,
        v2@ == v1@.remove(0),
    ensures
        v2.deep_view() == v1.deep_view().skip(1),
{
    assert forall|k: int| 0 <= k < v2@.len() implies v2.deep_view()[k] == v1.deep_view().skip(
        1,
    )[k] by {
        assert(v2@[k] == v1@[k + 1]);
    }
    assert(v2.deep_view() =~= v1.deep_view().skip(1));
}

/// Write the channel's front block: move it to the destination, account
/// for it, and flag a short block.
fn consumer_step(q: &mut Vec<Vec<u8>>, written: &mut Vec<Vec<u8>>, stats: &mut GlobalState, o_bs: usize)
    requires
        old(q)@.len() > 0,
        consume_ok(*old(stats), old(written).deep_view(), old(q).deep_view(), o_bs as int),
        nonempty_blocks(old(written).deep_view()),
        nonempty_blocks(old(q).deep_view()),
        old(stats).bytes_written + old(q).deep_view()[0].len() <= usize::MAX,
    ensures
        final(q).deep_view() == old(q).deep_view().skip(1),
        final(written).deep_view() == old(written).deep_view().push(old(q).deep_view()[0]),
        consume_ok(*final(stats), final(written).deep_view(), final(q).deep_view(), o_bs as int),
        nonempty_blocks(final(written).deep_view()),
        nonempty_blocks(final(q).deep_view()),
        final(stats).read_blk == old(stats).read_blk,
        final(stats).read_extra == old(stats).read_extra,
        final(stats).started == old(stats).started,
{
    proof {
        assert(old(q)@[0].deep_view() =~= old(q)@[0]@);
        assert(old(q).deep_view()[0] == old(q)@[0]@);
        lemma_count_full_le(old(written).deep_view(), o_bs as int);
        lemma_concat_len_ge(old(written).deep_view());
        assert(old(q).deep_view()[0].len() >= 1);
    }
    let ghost q0 = q.deep_view()[0];
    let blk = q.remove(0);
    proof {
        lemma_deep_skip1(*old(q), *q);
        assert(blk@ == q0);
    }
    stats.queued = stats.queued - 1;
    let len = blk.len();
    stats.bytes_written = stats.bytes_written + len;
    if len >= o_bs {
        stats.write_blk = stats.write_blk + 1;
    } else {
        stats.write_extra = true;
    }
    let ghost wr_before = *written;
    let ghost blk_ghost = blk;
    written.push(blk);
    proof {
        crate::paths::lemma_comps_deep_push(wr_before, *written, blk_ghost);
        lemma_concat_push(wr_before.deep_view(), q0);
        assert(written.deep_view().drop_last() =~= wr_before.deep_view());
        assert(count_full(written.deep_view(), o_bs as int) == count_full(
            wr_before.deep_view(),
            o_bs as int,
        ) + if q0.len() >= o_bs {
            1int
        } else {
            0int
        });
        if q0.len() < o_bs {
            assert(any_short(written.deep_view(), o_bs as int)) by {
                assert(written.deep_view()[written.deep_view().len() - 1].len() < o_bs);
            }
        } else {
            assert(any_short(written.deep_view(), o_bs as int) == any_short(
                wr_before.deep_view(),
                o_bs as int,
            )) by {
                if any_short(written.deep_view(), o_bs as int) {
                    let i = choose|i: int|
                        0 <= i < written.deep_view().len() && (#[trigger] written.deep_view()[
                            i
                        ]).len() < o_bs;
                    assert(i < wr_before.deep_view().len());
                    assert(wr_before.deep_view()[i].len() < o_bs);
                }
            }
        }
        assert(nonempty_blocks(written.deep_view())) by {
            assert(forall|i: int|
                0 <= i < wr_before.deep_view().len() ==> written.deep_view()[i]
                    == wr_before.deep_view()[i]);
        }
    }
}

/// Enqueue one block behind the channel's depth bound: while the channel
/// is full, the consumer drains it one block at a time.
fn enqueue_block(
    q: &mut Vec<Vec<u8>>,
    written: &mut Vec<Vec<u8>>,
    stats: &mut GlobalState,
    peak: &mut usize,
    b: Vec<u8>,
    o_bs: usize,
    depth: usize,
)
    requires
        depth >= 1,
        b@.len() >= 1,
        consume_ok(*old(stats), old(written).deep_view(), old(q).deep_view(), o_bs as int),
        nonempty_blocks(old(written).deep_view()),
        nonempty_blocks(old(q).deep_view()),
        old(q).deep_view().len() <= depth,
        *old(peak) <= depth,
        old(stats).bytes_written + crate::chunk::concat_seqs(old(q).deep_view()).len() + b@.len()
            <= usize::MAX,
    ensures
        final(written).deep_view() + final(q).deep_view() == old(written).deep_view() + old(
            q,
        ).deep_view().push(b@),
        consume_ok(*final(stats), final(written).deep_view(), final(q).deep_view(), o_bs as int),
        nonempty_blocks(final(written).deep_view()),
        nonempty_blocks(final(q).deep_view()),
        final(q).deep_view().len() <= depth,
        *final(peak) <= depth,
        final(stats).bytes_written + crate::chunk::concat_seqs(final(q).deep_view()).len() == old(
            stats,
        ).bytes_written + crate::chunk::concat_seqs(old(q).deep_view()).len() + b@.len(),
        final(stats).read_blk == old(stats).read_blk,
        final(stats).read_extra == old(stats).read_extra,
        final(stats).started == old(stats).started,
{
    let ghost w0 = written.deep_view();
    let ghost q0 = q.deep_view();
    let ghost bw0 = stats.bytes_written as int;
    while q.len() >= depth
        invariant
            depth >= 1,
            consume_ok(*stats, written.deep_view(), q.deep_view(), o_bs as int),
            nonempty_blocks(written.deep_view()),
            nonempty_blocks(q.deep_view()),
            q.deep_view().len() <= depth,
            written.deep_view() + q.deep_view() == w0 + q0,
            stats.bytes_written + crate::chunk::concat_seqs(q.deep_view()).len() == bw0
                + crate::chunk::concat_seqs(q0).len(),
            bw0 + crate::chunk::concat_seqs(q0).len() + b@.len() <= usize::MAX,
            stats.read_blk == old(stats).read_blk,
            stats.read_extra == old(stats).read_extra,
            stats.started == old(stats).started,
        decreases q@.len(),
    {
        proof {
            assert(q.deep_view().len() > 0);
            lemma_concat_first(q.deep_view());
        }
        let ghost w_before = written.deep_view();
        let ghost q_before = q.deep_view();
        consumer_step(q, written, stats, o_bs);
        proof {
            lemma_concat_push(w_before, q_before[0]);
            lemma_concat_first(q_before);
            assert(written.deep_view() + q.deep_view() =~= w_before + q_before);
        }
    }
    let ghost w1 = written.deep_view();
    let ghost q1 = q.deep_view();
    let ghost bv = b@;
    let ghost b_ghost = b;
    let ghost q_vec_before = *q;
    q.push(b);
    proof {
        crate::paths::lemma_comps_deep_push(q_vec_before, *q, b_ghost);
        assert(written.deep_view() + q.deep_view() =~= w0 + q0.push(bv)) by {
            assert(q.deep_view() =~= q1.push(bv));
            assert(w1 + q1.push(bv) =~= (w1 + q1).push(bv));
            assert(w0 + q0.push(bv) =~= (w0 + q0).push(bv));
        }
        lemma_concat_push(q1, bv);
        assert(nonempty_blocks(q.deep_view())) by {
            assert(forall|i: int| 0 <= i < q1.len() ==> q.deep_view()[i] == q1[i]);
            assert(q.deep_view()[q1.len() as int] == bv);
        }
    }
    stats.queued = stats.queued + 1;
    if q.len() > *peak {
        *peak = q.len();
    }
}

/// What a whole transfer produced: the final counters, every block written
/// to the destination in order, and the channel's high-water mark.
pub struct TransferOutcome {
    /// The final transfer counters.
    pub stats: GlobalState,
    /// The blocks written, in order.
    pub written: Vec<Vec<u8>>,
    /// The most blocks ever enqueued at once.
    pub peak_queued: usize,
}

/// Run a whole transfer over an in-memory source: the producer reads
/// `i_bs`-sized blocks (after skipping `i_skip` of them, stopping after
/// `count` full reads or on the first short read), the rechunker re-cuts
/// them into `o_bs`-sized blocks, and the consumer drains the bounded
/// channel, whose occupancy never exceeds `depth`.
pub fn run_transfer(
    source: &Vec<u8>,
    i_bs: usize,
    o_bs: usize,
    count: Option<usize>,
    i_skip: Option<usize>,
    depth: usize,
) -> (out: TransferOutcome)
    requires
        i_bs >= 1,
        o_bs >= 1,
        depth >= 1,
    ensures
        ({
            let avail = avail_spec(source@, i_skip, i_bs as int);
            let br = bytes_read_spec(avail, i_bs as int, count);
            &&& out.stats.read_blk == full_reads_spec(avail.len() as int, i_bs as int, count)
            &&& out.stats.read_extra == read_extra_spec(avail.len() as int, i_bs as int, count)
            &&& out.written.deep_view() == blocks_out_spec(br, o_bs as int)
            &&& crate::chunk::concat_seqs(out.written.deep_view()) == br
            &&& out.stats.bytes_written == br.len()
            &&& out.stats.write_blk == br.len() as int / o_bs as int
            &&& out.stats.write_extra == (br.len() as int % o_bs as int != 0)
            &&& out.stats.queued == 0
            &&& out.stats.started matches Option::<u64>::None
            &&& out.peak_queued <= depth
        }),
{
    let mut stats = GlobalState::new();
    let mut q: Vec<Vec<u8>> = Vec::new();
    let mut written: Vec<Vec<u8>> = Vec::new();
    let mut peak: usize = 0;
    let mut ioq = crate::chunk::IoQueue::new(o_bs);
    let src_len = source.len();
    let sk: usize = match i_skip {
        Some(s) => s,
        None => 0,
    };
    let start: usize = if sk > src_len / i_bs {
        proof {
            lemma_fundamental_div_mod(src_len as int, i_bs as int);
            lemma_mod_bound(src_len as int, i_bs as int);
            vstd::arithmetic::mul::lemma_mul_inequality(
                src_len as int / i_bs as int + 1,
                sk as int,
                i_bs as int,
            );
            vstd::arithmetic::mul::lemma_mul_is_distributive_add_other_way(
                i_bs as int,
                src_len as int / i_bs as int,
                1,
            );
            vstd::arithmetic::mul::lemma_mul_is_commutative(
                i_bs as int,
                src_len as int / i_bs as int,
            );
            assert(sk as int * i_bs as int > src_len as int);
        }
        src_len
    } else {
        proof {
            lemma_fundamental_div_mod(src_len as int, i_bs as int);
            lemma_mod_bound(src_len as int, i_bs as int);
            vstd::arithmetic::mul::lemma_mul_inequality(
                sk as int,
                src_len as int / i_bs as int,
                i_bs as int,
            );
            vstd::arithmetic::mul::lemma_mul_is_commutative(
                i_bs as int,
                src_len as int / i_bs as int,
            );
            assert(sk as int * i_bs as int <= src_len as int);
        }
        sk * i_bs
    };
    proof {
        assert(start as int == skip_bytes_spec(source@.len() as int, i_skip, i_bs as int));
        assert(written.deep_view() =~= Seq::<Seq<u8>>::empty());
        assert(q.deep_view() =~= Seq::<Seq<u8>>::empty());
        assert(crate::chunk::concat_seqs(Seq::<Seq<u8>>::empty()) == Seq::<u8>::empty());
    }
    let ghost avail = source@.skip(start as int);
    let mut pos: usize = start;
    let mut reads_done: usize = 0;
    proof {
        assert(source@.subrange(start as int, pos as int) =~= Seq::<u8>::empty());
        assert(crate::chunk::full_chunks(Seq::<u8>::empty(), o_bs as int) =~= Seq::<
            Seq<u8>,
        >::empty()) by {
            vstd::arithmetic::div_mod::lemma_basic_div(0, o_bs as int);
        }
        assert(written.deep_view() + q.deep_view() =~= Seq::<Seq<u8>>::empty());
        assert(0 * i_bs as int == 0);
    }
    loop
        invariant_except_break
            stats.read_extra == false,
            reads_done as int * i_bs as int == pos - start,
            count matches Some(c) ==> reads_done <= c,
        invariant
            i_bs >= 1,
            o_bs >= 1,
            depth >= 1,
            src_len == source@.len(),
            avail == source@.skip(start as int),
            start <= pos <= src_len,
            ioq.wf(),
            ioq.bs_spec() == o_bs as int,
            ioq.pending_view() == crate::chunk::chunk_rem(
                source@.subrange(start as int, pos as int),
                o_bs as int,
            ),
            written.deep_view() + q.deep_view() == crate::chunk::full_chunks(
                source@.subrange(start as int, pos as int),
                o_bs as int,
            ),
            consume_ok(stats, written.deep_view(), q.deep_view(), o_bs as int),
            nonempty_blocks(written.deep_view()),
            nonempty_blocks(q.deep_view()),
            q.deep_view().len() <= depth,
            peak <= depth,
            stats.bytes_written + crate::chunk::concat_seqs(q.deep_view()).len()
                + ioq.pending_view().len() == pos - start,
            stats.read_blk == reads_done,
            stats.started matches Option::<u64>::None,
        ensures
            ({
                let br = bytes_read_spec(avail, i_bs as int, count);
                &&& ioq.wf()
                &&& ioq.bs_spec() == o_bs as int
                &&& source@.subrange(start as int, pos as int) == br
                &&& ioq.pending_view() == crate::chunk::chunk_rem(br, o_bs as int)
                &&& written.deep_view() + q.deep_view() == crate::chunk::full_chunks(
                    br,
                    o_bs as int,
                )
                &&& consume_ok(stats, written.deep_view(), q.deep_view(), o_bs as int)
                &&& nonempty_blocks(written.deep_view())
                &&& nonempty_blocks(q.deep_view())
                &&& q.deep_view().len() <= depth
                &&& peak <= depth
                &&& stats.bytes_written + crate::chunk::concat_seqs(q.deep_view()).len()
                    + ioq.pending_view().len() == br.len()
                &&& br.len() <= source@.len()
                &&& src_len == source@.len()
                &&& stats.read_blk == full_reads_spec(avail.len() as int, i_bs as int, count)
                &&& stats.read_extra == read_extra_spec(avail.len() as int, i_bs as int, count)
                &&& stats.started matches Option::<u64>::None
            }),
        decreases src_len - pos,
    {
        match count {
            Some(c) => {
                if reads_done >= c {
                    proof {
                        let al = avail.len() as int;
                        assert(al == src_len - start);
                        assert(c as int * i_bs as int == pos - start);
                        vstd::arithmetic::div_mod::lemma_div_by_multiple(c as int, i_bs as int);
                        vstd::arithmetic::div_mod::lemma_div_is_ordered(
                            c as int * i_bs as int,
                            al,
                            i_bs as int,
                        );
                        assert(c as int <= al / i_bs as int);
                        let br = bytes_read_spec(avail, i_bs as int, count);
                        assert(br == avail.take(c as int * i_bs as int));
                        assert(br =~= source@.subrange(start as int, pos as int));
                    }
                    break ;
                }
            },
            None => {},
        }
        let rem = src_len - pos;
        let rl = if i_bs <= rem {
            i_bs
        } else {
            rem
        };
        let mut buff: Vec<u8> = Vec::new();
        let mut j: usize = 0;
        while j < rl
            invariant
                j <= rl,
                pos + rl <= src_len,
                src_len == source@.len(),
                buff@ == source@.subrange(pos as int, pos as int + j as int),
            decreases rl - j,
        {
            buff.push(source[pos + j]);
            j = j + 1;
            proof {
                assert(buff@ =~= source@.subrange(pos as int, pos as int + j as int));
            }
        }
        let ghost rb_old = source@.subrange(start as int, pos as int);
        let ghost pending_old = ioq.pending_view();
        pos = pos + rl;
        let ghost rb_new = source@.subrange(start as int, pos as int);
        proof {
            assert(rb_new =~= rb_old + buff@);
            crate::chunk::lemma_push_total(rb_old, buff@, o_bs as int);
            crate::chunk::lemma_chunks_concat(pending_old + buff@, o_bs as int);
        }
        let ghost buff_view = buff@;
        let mut blocks = ioq.push(buff);
        proof {
            assert(blocks.deep_view() == crate::chunk::full_chunks(
                pending_old + buff_view,
                o_bs as int,
            ));
            assert(written.deep_view() + q.deep_view() + blocks.deep_view()
                =~= crate::chunk::full_chunks(rb_new, o_bs as int));
            assert(ioq.pending_view() == crate::chunk::chunk_rem(rb_new, o_bs as int));
            assert(nonempty_blocks(blocks.deep_view())) by {
                crate::chunk::lemma_full_chunks_len(pending_old + buff_view, o_bs as int);
            }
            assert(crate::chunk::concat_seqs(blocks.deep_view()).len() + ioq.pending_view().len()
                == pending_old.len() + buff_view.len());
        }
        while blocks.len() > 0
            invariant
                i_bs >= 1,
                o_bs >= 1,
                depth >= 1,
                src_len == source@.len(),
                start <= pos <= src_len,
                rb_new == source@.subrange(start as int, pos as int),
                ioq.wf(),
                ioq.bs_spec() == o_bs as int,
                ioq.pending_view() == crate::chunk::chunk_rem(rb_new, o_bs as int),
                written.deep_view() + q.deep_view() + blocks.deep_view()
                    == crate::chunk::full_chunks(rb_new, o_bs as int),
                consume_ok(stats, written.deep_view(), q.deep_view(), o_bs as int),
                nonempty_blocks(written.deep_view()),
                nonempty_blocks(q.deep_view()),
                nonempty_blocks(blocks.deep_view()),
                q.deep_view().len() <= depth,
                peak <= depth,
                stats.bytes_written + crate::chunk::concat_seqs(q.deep_view()).len()
                    + crate::chunk::concat_seqs(blocks.deep_view()).len()
                    + ioq.pending_view().len() == pos - start,
                stats.read_blk == reads_done,
                stats.started matches Option::<u64>::None,
                stats.read_extra == false,
            decreases blocks@.len(),
        {
            proof {
                assert(blocks.deep_view().len() > 0);
                lemma_concat_first(blocks.deep_view());
            }
            let ghost blocks_before = blocks.deep_view();
            let ghost blocks_vec_before = blocks;
            let ghost w_before = written.deep_view();
            let ghost q_before = q.deep_view();
            let b = blocks.remove(0);
            proof {
                lemma_deep_skip1(blocks_vec_before, blocks);
                assert(blocks_vec_before@[0].deep_view() =~= blocks_vec_before@[0]@);
                assert(b@ == blocks_before[0]);
                assert(blocks.deep_view() =~= blocks_before.skip(1));
            }
            enqueue_block(&mut q, &mut written, &mut stats, &mut peak, b, o_bs, depth);
            proof {
                assert(written.deep_view() + q.deep_view() + blocks.deep_view()
                    =~= crate::chunk::full_chunks(rb_new, o_bs as int)) by {
                    assert(written.deep_view() + q.deep_view() =~= w_before + q_before.push(
                        blocks_before[0],
                    ));
                    assert(w_before + q_before.push(blocks_before[0]) + blocks_before.skip(1)
                        =~= w_before + q_before + blocks_before);
                }
            }
        }
        proof {
            assert(blocks.deep_view() =~= Seq::<Seq<u8>>::empty());
        }
        if rl < i_bs {
            stats.read_extra = true;
            proof {
                assert(pos == src_len);
                let al = avail.len() as int;
                assert(al == reads_done as int * i_bs as int + rl as int);
                vstd::arithmetic::div_mod::lemma_fundamental_div_mod_converse(
                    al,
                    i_bs as int,
                    reads_done as int,
                    rl as int,
                );
                assert(al / i_bs as int == reads_done as int);
                let br = bytes_read_spec(avail, i_bs as int, count);
                assert(br == avail);
                assert(br =~= source@.subrange(start as int, pos as int));
            }
            break ;
        }
        proof {
            vstd::arithmetic::mul::lemma_mul_is_distributive_add_other_way(
                i_bs as int,
                reads_done as int,
                1,
            );
            assert((reads_done as int + 1) * i_bs as int == pos - start);
            vstd::arithmetic::mul::lemma_mul_inequality(
                1,
                i_bs as int,
                reads_done as int + 1,
            );
            vstd::arithmetic::mul::lemma_mul_is_commutative(reads_done as int + 1, i_bs as int);
            assert(reads_done as int + 1 <= pos - start);
        }
        stats.read_blk = stats.read_blk + 1;
        reads_done = reads_done + 1;
        proof {
            match count {
                Some(c) => {
                    assert(reads_done <= c);
                },
                None => {},
            }
        }
    }
    let ghost br = bytes_read_spec(avail, i_bs as int, count);
    let fin = ioq.finalize();
    proof {
        lemma_fundamental_div_mod(br.len() as int, o_bs as int);
        vstd::arithmetic::mul::lemma_mul_is_commutative(
            o_bs as int,
            br.len() as int / o_bs as int,
        );
        crate::chunk::lemma_full_chunks_len(br, o_bs as int);
    }
    match fin {
        Some(b) => {
            proof {
                assert(b@ == crate::chunk::chunk_rem(br, o_bs as int));
                assert(br.len() as int % o_bs as int != 0);
            }
            let ghost b_view = b@;
            let ghost w_before = written.deep_view();
            let ghost q_before = q.deep_view();
            enqueue_block(&mut q, &mut written, &mut stats, &mut peak, b, o_bs, depth);
            proof {
                assert(written.deep_view() + q.deep_view() =~= blocks_out_spec(br, o_bs as int))
                    by {
                    assert(written.deep_view() + q.deep_view() =~= w_before + q_before.push(
                        b_view,
                    ));
                    assert(w_before + q_before.push(b_view) =~= (w_before + q_before).push(
                        b_view,
                    ));
                }
            }
        },
        None => {
            proof {
                assert(br.len() as int % o_bs as int == 0);
                assert(written.deep_view() + q.deep_view() =~= blocks_out_spec(br, o_bs as int));
            }
        },
    }
    proof {
        assert(stats.bytes_written + crate::chunk::concat_seqs(q.deep_view()).len() == br.len());
        assert(nonempty_blocks(blocks_out_spec(br, o_bs as int))) by {
            crate::chunk::lemma_full_chunks_len(br, o_bs as int);
        }
    }
    while q.len() > 0
        invariant
            o_bs >= 1,
            depth >= 1,
            br == bytes_read_spec(avail, i_bs as int, count),
            br.len() <= source@.len(),
            source@.len() <= usize::MAX,
            written.deep_view() + q.deep_view() == blocks_out_spec(br, o_bs as int),
            consume_ok(stats, written.deep_view(), q.deep_view(), o_bs as int),
            nonempty_blocks(written.deep_view()),
            nonempty_blocks(q.deep_view()),
            peak <= depth,
            stats.bytes_written + crate::chunk::concat_seqs(q.deep_view()).len() == br.len(),
            stats.read_blk == full_reads_spec(avail.len() as int, i_bs as int, count),
            stats.read_extra == read_extra_spec(avail.len() as int, i_bs as int, count),
            stats.started matches Option::<u64>::None,
        decreases q@.len(),
    {
        proof {
            assert(q.deep_view().len() > 0);
            lemma_concat_first(q.deep_view());
        }
        let ghost w_before = written.deep_view();
        let ghost q_before = q.deep_view();
        consumer_step(&mut q, &mut written, &mut stats, o_bs);
        proof {
            lemma_concat_push(w_before, q_before[0]);
            lemma_concat_first(q_before);
            assert(written.deep_view() + q.deep_view() =~= w_before + q_before);
        }
    }
    proof {
        assert(q.deep_view() =~= Seq::<Seq<u8>>::empty());
        assert(written.deep_view() =~= blocks_out_spec(br, o_bs as int)) by {
            assert(written.deep_view() + q.deep_view() =~= written.deep_view());
        }
        crate::chunk::lemma_chunks_concat(br, o_bs as int);
        crate::chunk::lemma_full_chunks_len(br, o_bs as int);
        lemma_fundamental_div_mod(br.len() as int, o_bs as int);
        vstd::arithmetic::mul::lemma_mul_is_commutative(
            o_bs as int,
            br.len() as int / o_bs as int,
        );
        let chunks = crate::chunk::full_chunks(br, o_bs as int);
        lemma_count_full_all(chunks, o_bs as int);
        if br.len() as int % o_bs as int != 0 {
            lemma_concat_push(chunks, crate::chunk::chunk_rem(br, o_bs as int));
            assert(count_full(blocks_out_spec(br, o_bs as int), o_bs as int) == count_full(
                chunks,
                o_bs as int,
            )) by {
                assert(blocks_out_spec(br, o_bs as int).drop_last() =~= chunks);
                assert(blocks_out_spec(br, o_bs as int).last() == crate::chunk::chunk_rem(
                    br,
                    o_bs as int,
                ));
            }
            assert(any_short(blocks_out_spec(br, o_bs as int), o_bs as int)) by {
                assert(blocks_out_spec(br, o_bs as int)[chunks.len() as int].len() < o_bs);
            }
        } else {
            assert(crate::chunk::chunk_rem(br, o_bs as int) =~= Seq::<u8>::empty());
            assert(crate::chunk::concat_seqs(chunks) + Seq::<u8>::empty()
                =~= crate::chunk::concat_seqs(chunks));
        }
        assert(crate::chunk::concat_seqs(written.deep_view()) == br);
    }
    TransferOutcome { stats, written, peak_queued: peak }
}

} // verus!
