//! Index range sets: inclusive ranges of normal (non-hardened) BIP32 child
//! indices, written as text like `0,2-4,10`.

use vstd::prelude::*;

use crate::text::{
    chars_of, decimal, lemma_decimal, lemma_parse_decimal, lemma_split_concat,
    lemma_split_no_sep, lemma_trim_end_noop, lemma_trim_start_noop, parse_u32, parse_u32_chars,
    push_decimal, split, split_chars, string_of, trim, trim_chars,
};

verus! {

/// First hardened child index; normal indices lie below it.
pub const HARDENED_INDEX_BOUNDARY: u32 = 0x8000_0000;

/// An inclusive range `lo..=hi` of normal child indices.
#[derive(Clone, Copy, Debug, PartialEq, Eq, Structural)]
pub struct IndexRange {
    pub lo: u32,
    pub hi: u32,
}

impl IndexRange {
    pub open spec fn wf(self) -> bool {
        self.lo <= self.hi && self.hi < HARDENED_INDEX_BOUNDARY
    }

    /// Number of indices in the range.
    pub open spec fn size(self) -> nat {
        (self.hi - self.lo + 1) as nat
    }

    /// A range of normal indices; `None` when `lo > hi` or `hi` is hardened.
    pub fn new(lo: u32, hi: u32) -> (r: Option<IndexRange>)
        ensures
            r is Some <==> (lo <= hi && hi < HARDENED_INDEX_BOUNDARY),
            r matches Some(x) ==> x.lo == lo && x.hi == hi,
    {
        if lo <= hi && hi < HARDENED_INDEX_BOUNDARY {
            Some(IndexRange { lo, hi })
        } else {
            None
        }
    }
}

/// Why a range text was refused.
#[derive(Clone, Debug, PartialEq, Eq)]
pub enum RangeError {
    /// The text holds no range at all.
    RangeNotSpecified,
    /// A bound at the given token position is not a normal index number.
    WrongIndexNumber(String, usize),
    /// The token at the given position is not `n` or `lo-hi` with `lo <= hi`.
    WrongRange(String, usize),
    /// The token at the given position is empty.
    EmptyRange(usize),
}

/// [`RangeError`] with its strings as character sequences.
pub enum RangeFault {
    RangeNotSpecified,
    WrongIndexNumber(Seq<char>, nat),
    WrongRange(Seq<char>, nat),
    EmptyRange(nat),
}

impl RangeError {
    pub open spec fn fault(self) -> RangeFault {
        match self {
            RangeError::RangeNotSpecified => RangeFault::RangeNotSpecified,
            RangeError::WrongIndexNumber(t, p) => RangeFault::WrongIndexNumber(t@, p as nat),
            RangeError::WrongRange(t, p) => RangeFault::WrongRange(t@, p as nat),
            RangeError::EmptyRange(p) => RangeFault::EmptyRange(p as nat),
        }
    }
}

/// A normal child index written in decimal.
pub open spec fn index_of(t: Seq<char>) -> Option<u32> {
    match parse_u32(t) {
        Some(v) => if v < HARDENED_INDEX_BOUNDARY {
            Some(v)
        } else {
            None
        },
        None => None,
    }
}

/// Reading of one comma-separated token found at position `pos`.
pub open spec fn parse_token(e: Seq<char>, pos: nat) -> Result<IndexRange, RangeFault> {
    let t = trim(e);
    let parts = split(t, '-');
    if t.len() == 0 {
        Err(RangeFault::EmptyRange(pos))
    } else if parts.len() == 1 {
        match index_of(parts[0]) {
            Some(v) => Ok(IndexRange { lo: v, hi: v }),
            None => Err(RangeFault::WrongIndexNumber(parts[0], pos)),
        }
    } else if parts.len() == 2 {
        match (index_of(parts[0]), index_of(parts[1])) {
            (None, _) => Err(RangeFault::WrongIndexNumber(parts[0], pos)),
            (Some(_), None) => Err(RangeFault::WrongIndexNumber(parts[1], pos)),
            (Some(a), Some(b)) => if a <= b {
                Ok(IndexRange { lo: a, hi: b })
            } else {
                Err(RangeFault::WrongRange(e, pos))
            },
        }
    } else {
        Err(RangeFault::WrongRange(e, pos))
    }
}

/// Reading of the first `n` tokens: their ranges, or the first fault.
pub open spec fn parse_tokens(toks: Seq<Seq<char>>, n: nat) -> Result<Seq<IndexRange>, RangeFault>
    decreases n,
{
    if n == 0 {
        Ok(Seq::empty())
    } else {
        match parse_tokens(toks, (n - 1) as nat) {
            Ok(rs) => match parse_token(toks[n - 1], (n - 1) as nat) {
                Ok(r) => Ok(rs.push(r)),
                Err(f) => Err(f),
            },
            Err(f) => Err(f),
        }
    }
}

/// Reading of a whole range text.
pub open spec fn parse_ranges(s: Seq<char>) -> Result<Seq<IndexRange>, RangeFault> {
    if trim(s).len() == 0 {
        Err(RangeFault::RangeNotSpecified)
    } else {
        parse_tokens(split(s, ','), split(s, ',').len())
    }
}

/// Text of one range: `n` for a single index, `lo-hi` otherwise.
pub open spec fn range_text(r: IndexRange) -> Seq<char> {
    if r.lo == r.hi {
        decimal(r.lo as nat)
    } else {
        decimal(r.lo as nat) + seq!['-'] + decimal(r.hi as nat)
    }
}

/// Text of a list of ranges, joined by commas.
pub open spec fn ranges_text(rs: Seq<IndexRange>) -> Seq<char>
    decreases rs.len(),
{
    if rs.len() == 0 {
        Seq::empty()
    } else if rs.len() == 1 {
        range_text(rs[0])
    } else {
        ranges_text(rs.drop_last()) + seq![','] + range_text(rs.last())
    }
}

/// Indices of one range, ascending, starting at `from`.
pub open spec fn span_from(r: IndexRange, from: u32) -> Seq<u32> {
    Seq::new((r.hi - from + 1) as nat, |k: int| (from + k) as u32)
}

/// Every index covered, range by range, each range ascending.
pub open spec fn indices(rs: Seq<IndexRange>) -> Seq<u32>
    decreases rs.len(),
{
    if rs.len() == 0 {
        Seq::empty()
    } else {
        span_from(rs[0], rs[0].lo) + indices(rs.drop_first())
    }
}

/// Sum of the sizes of the ranges.
pub open spec fn total_size(rs: Seq<IndexRange>) -> nat
    decreases rs.len(),
{
    if rs.len() == 0 {
        0
    } else {
        rs[0].size() + total_size(rs.drop_first())
    }
}

pub open spec fn min_lo(rs: Seq<IndexRange>) -> u32
    decreases rs.len(),
{
    if rs.len() <= 1 {
        rs[0].lo
    } else if rs[0].lo <= min_lo(rs.drop_first()) {
        rs[0].lo
    } else {
        min_lo(rs.drop_first())
    }
}

pub open spec fn max_hi(rs: Seq<IndexRange>) -> u32
    decreases rs.len(),
{
    if rs.len() <= 1 {
        rs[0].hi
    } else if rs[0].hi >= max_hi(rs.drop_first()) {
        rs[0].hi
    } else {
        max_hi(rs.drop_first())
    }
}

pub open spec fn all_wf(rs: Seq<IndexRange>) -> bool {
    forall|k: int| 0 <= k < rs.len() ==> (#[trigger] rs[k]).wf()
}

/// A non-empty list of index ranges, in the order given.
#[derive(Clone, Debug, PartialEq, Eq)]
pub struct IndexRangeSet {
    ranges: Vec<IndexRange>,
}

impl View for IndexRangeSet {
    type V = Seq<IndexRange>;

    closed spec fn view(&self) -> Seq<IndexRange> {
        self.ranges@
    }
}

impl IndexRangeSet {
    pub open spec fn wf(&self) -> bool {
        self@.len() >= 1 && all_wf(self@)
    }

    /// A set from ranges; `None` when there are none or one is not a range of
    /// normal indices.
    pub fn new(ranges: Vec<IndexRange>) -> (r: Option<IndexRangeSet>)
        ensures
            r is Some <==> (ranges@.len() >= 1 && all_wf(ranges@)),
            r matches Some(s) ==> s@ == ranges@ && s.wf(),
    {
        if ranges.len() == 0 {
            return None;
        }
        let mut i: usize = 0;
        while i < ranges.len()
            invariant
                i <= ranges@.len(),
                forall|k: int| 0 <= k < i ==> (#[trigger] ranges@[k]).wf(),
            decreases ranges@.len() - i,
        {
            let r = ranges[i];
            if !(r.lo <= r.hi && r.hi < HARDENED_INDEX_BOUNDARY) {
                return None;
            }
            i = i + 1;
        }
        Some(IndexRangeSet { ranges })
    }

    pub fn ranges(&self) -> (r: &Vec<IndexRange>)
        ensures
            r@ == self@,
    {
        &self.ranges
    }

    /// Parses a comma-separated list of `n` and `lo-hi` tokens.
    pub fn parse(text: &str) -> (r: Result<IndexRangeSet, RangeError>)
        ensures
            match r {
                Ok(s) => parse_ranges(text@) == Ok::<Seq<IndexRange>, RangeFault>(s@) && s.wf(),
                Err(e) => parse_ranges(text@) == Err::<Seq<IndexRange>, RangeFault>(e.fault()),
            },
    {
        let chars = chars_of(text);
        let whole = trim_chars(&chars);
        if whole.len() == 0 {
            return Err(RangeError::RangeNotSpecified);
        }
        let toks = split_chars(&chars, ',');
        let ghost stoks = split(chars@, ',');
        let mut ranges: Vec<IndexRange> = Vec::new();
        let mut i: usize = 0;
        while i < toks.len()
            invariant
                stoks == split(text@, ','),
                trim(text@).len() != 0,
                i <= toks@.len(),
                toks@.len() == stoks.len(),
                forall|k: int| 0 <= k < toks@.len() ==> (#[trigger] toks@[k])@ == stoks[k],
                parse_tokens(stoks, i as nat) == Ok::<Seq<IndexRange>, RangeFault>(ranges@),
                all_wf(ranges@),
                ranges@.len() == i,
            decreases toks@.len() - i,
        {
            match parse_token_chars(&toks[i], i) {
                Ok(x) => {
                    ranges.push(x);
                },
                Err(e) => {
                    proof {
                        assert(parse_tokens(stoks, (i + 1) as nat) == Err::<
                            Seq<IndexRange>,
                            RangeFault,
                        >(e.fault()));
                        lemma_fault_sticks(stoks, (i + 1) as nat, stoks.len(), e.fault());
                        assert(trim(text@).len() != 0);
                        assert(stoks == split(text@, ','));
                        assert(parse_ranges(text@) == Err::<Seq<IndexRange>, RangeFault>(e.fault()));
                    }
                    return Err(e);
                },
            }
            i = i + 1;
            proof {
                assert forall|k: int| 0 <= k < ranges@.len() implies (#[trigger] ranges@[k]).wf() by {
                    if k < ranges@.len() - 1 {
                        assert(ranges@[k] == ranges@.drop_last()[k]);
                    }
                }
            }
        }
        proof {
            crate::text::lemma_split_nonempty(chars@, ',');
        }
        Ok(IndexRangeSet { ranges })
    }

    /// Writes the set as text that [`IndexRangeSet::parse`] reads back.
    pub fn to_text(&self) -> (r: String)
        ensures
            r@ == ranges_text(self@),
    {
        let mut out: Vec<char> = Vec::new();
        let mut i: usize = 0;
        while i < self.ranges.len()
            invariant
                i <= self@.len(),
                out@ == ranges_text(self@.subrange(0, i as int)),
            decreases self@.len() - i,
        {
            let x = self.ranges[i];
            let ghost pre = self@.subrange(0, i as int);
            if i > 0 {
                out.push(',');
            }
            push_decimal(&mut out, x.lo);
            if x.lo != x.hi {
                out.push('-');
                push_decimal(&mut out, x.hi);
            }
            i = i + 1;
            proof {
                let now = self@.subrange(0, i as int);
                assert(now.drop_last() =~= pre);
                assert(now.last() == x);
                if i == 1 {
                    assert(pre.len() == 0);
                }
                assert(out@ =~= ranges_text(now));
            }
        }
        proof {
            assert(self@.subrange(0, self@.len() as int) =~= self@);
        }
        string_of(&out)
    }

    /// Smallest index of the set.
    pub fn first_index(&self) -> (r: u32)
        requires
            self.wf(),
        ensures
            r == min_lo(self@),
    {
        let n = self.ranges.len();
        let mut i: usize = n - 1;
        let mut m: u32 = self.ranges[i].lo;
        proof {
            assert(self@.subrange(i as int, n as int).len() == 1);
        }
        while i > 0
            invariant
                n == self@.len(),
                i < n,
                m == min_lo(self@.subrange(i as int, n as int)),
            decreases i,
        {
            i = i - 1;
            proof {
                assert(self@.subrange(i as int, n as int).drop_first() =~= self@.subrange(
                    i + 1,
                    n as int,
                ));
            }
            if self.ranges[i].lo <= m {
                m = self.ranges[i].lo;
            }
        }
        proof {
            assert(self@.subrange(0, n as int) =~= self@);
        }
        m
    }

    /// Largest index of the set.
    pub fn last_index(&self) -> (r: u32)
        requires
            self.wf(),
        ensures
            r == max_hi(self@),
    {
        let n = self.ranges.len();
        let mut i: usize = n - 1;
        let mut m: u32 = self.ranges[i].hi;
        proof {
            assert(self@.subrange(i as int, n as int).len() == 1);
        }
        while i > 0
            invariant
                n == self@.len(),
                i < n,
                m == max_hi(self@.subrange(i as int, n as int)),
            decreases i,
        {
            i = i - 1;
            proof {
                assert(self@.subrange(i as int, n as int).drop_first() =~= self@.subrange(
                    i + 1,
                    n as int,
                ));
            }
            if self.ranges[i].hi >= m {
                m = self.ranges[i].hi;
            }
        }
        proof {
            assert(self@.subrange(0, n as int) =~= self@);
        }
        m
    }

    /// Smallest and largest index of the set.
    pub fn bounds(&self) -> (r: (u32, u32))
        requires
            self.wf(),
        ensures
            r == (min_lo(self@), max_hi(self@)),
    {
        (self.first_index(), self.last_index())
    }

    /// Whether some range of the set covers `index`.
    pub fn contains(&self, index: u32) -> (r: bool)
        ensures
            r == exists|k: int| 0 <= k < self@.len() && (#[trigger] self@[k]).lo <= index <= self@[k].hi,
    {
        let mut i: usize = 0;
        while i < self.ranges.len()
            invariant
                i <= self@.len(),
                forall|k: int| 0 <= k < i ==> !((#[trigger] self@[k]).lo <= index <= self@[k].hi),
            decreases self@.len() - i,
        {
            let x = self.ranges[i];
            if x.lo <= index && index <= x.hi {
                return true;
            }
            i = i + 1;
        }
        false
    }

    /// Number of indices that iteration yields, repeats included.
    pub fn count(&self) -> (r: u128)
        requires
            self.wf(),
        ensures
            r == total_size(self@),
    {
        let n = self.ranges.len();
        let mut i: usize = n;
        let mut c: u128 = 0;
        proof {
            assert(self@.subrange(n as int, n as int).len() == 0);
        }
        while i > 0
            invariant
                n == self@.len(),
                i <= n,
                all_wf(self@),
                c == total_size(self@.subrange(i as int, n as int)),
                c <= (n - i) * 0x8000_0000,
            decreases i,
        {
            i = i - 1;
            let x = self.ranges[i];
            proof {
                assert(self@.subrange(i as int, n as int).drop_first() =~= self@.subrange(
                    i + 1,
                    n as int,
                ));
                assert(x.wf());
                assert((n - i) * 0x8000_0000 == (n - i - 1) * 0x8000_0000 + 0x8000_0000)
                    by (nonlinear_arith);
                assert((n - i) * 0x8000_0000 <= 0x1_0000_0000_0000_0000 * 0x8000_0000)
                    by (nonlinear_arith)
                    requires
                        n - i <= 0xffff_ffff_ffff_ffff,
                ;
            }
            c = c + ((x.hi - x.lo) as u128 + 1);
        }
        proof {
            assert(self@.subrange(0, n as int) =~= self@);
        }
        c
    }

    /// Starts a fresh pass over every index, range by range.
    pub fn iter(&self) -> (r: IndexIter)
        requires
            self.wf(),
        ensures
            r.wf(),
            r.remaining() == indices(self@),
    {
        let mut ranges: Vec<IndexRange> = Vec::new();
        let mut i: usize = 0;
        while i < self.ranges.len()
            invariant
                i <= self@.len(),
                ranges@ == self@.subrange(0, i as int),
            decreases self@.len() - i,
        {
            ranges.push(self.ranges[i]);
            i = i + 1;
            assert(ranges@ =~= self@.subrange(0, i as int));
        }
        assert(ranges@ =~= self@);
        let next = ranges[0].lo;
        let it = IndexIter { ranges, pos: 0, next };
        proof {
            assert(it.ranges@.subrange(1, it.ranges@.len() as int) =~= self@.drop_first());
        }
        it
    }
}

/// A pass over the indices of a set.
pub struct IndexIter {
    ranges: Vec<IndexRange>,
    pos: usize,
    next: u32,
}

impl IndexIter {
    pub closed spec fn wf(&self) -> bool {
        &&& all_wf(self.ranges@)
        &&& self.pos <= self.ranges@.len()
        &&& self.pos < self.ranges@.len() ==> self.ranges@[self.pos as int].lo <= self.next
            <= self.ranges@[self.pos as int].hi
    }

    /// Indices still to come, in order.
    pub closed spec fn remaining(&self) -> Seq<u32> {
        if self.pos < self.ranges@.len() {
            span_from(self.ranges@[self.pos as int], self.next) + indices(
                self.ranges@.subrange(self.pos + 1, self.ranges@.len() as int),
            )
        } else {
            Seq::empty()
        }
    }

    /// The next index, or `None` once every index has been given.
    pub fn next(&mut self) -> (r: Option<u32>)
        requires
            old(self).wf(),
        ensures
            final(self).wf(),
            old(self).remaining().len() == 0 ==> r is None && final(self).remaining() == old(
                self,
            ).remaining(),
            old(self).remaining().len() > 0 ==> r == Some(old(self).remaining()[0])
                && final(self).remaining() == old(self).remaining().drop_first(),
    {
        if self.pos >= self.ranges.len() {
            return None;
        }
        let ghost before = self.remaining();
        let v = self.next;
        let x = self.ranges[self.pos];
        proof {
            assert(x.wf());
        }
        if self.next == x.hi {
            self.pos = self.pos + 1;
            if self.pos < self.ranges.len() {
                self.next = self.ranges[self.pos].lo;
                proof {
                    assert(self.ranges@[self.pos as int].wf());
                }
            }
            proof {
                let rest = self.ranges@.subrange(self.pos as int, self.ranges@.len() as int);
                assert(span_from(x, v).len() == 1);
                if self.pos < self.ranges@.len() {
                    assert(rest.drop_first() =~= self.ranges@.subrange(
                        self.pos + 1,
                        self.ranges@.len() as int,
                    ));
                    assert(rest[0] == self.ranges@[self.pos as int]);
                    assert(indices(rest) == span_from(rest[0], rest[0].lo) + indices(
                        rest.drop_first(),
                    ));
                } else {
                    assert(rest.len() == 0);
                }
                assert(self.remaining() =~= before.drop_first());
            }
        } else {
            self.next = self.next + 1;
            proof {
                assert(span_from(x, self.next) =~= span_from(x, v).drop_first());
                assert(self.remaining() =~= before.drop_first());
            }
        }
        Some(v)
    }
}

/// Reads one token found at position `pos`.
fn parse_token_chars(e: &Vec<char>, pos: usize) -> (r: Result<IndexRange, RangeError>)
    ensures
        match r {
            Ok(x) => parse_token(e@, pos as nat) == Ok::<IndexRange, RangeFault>(x) && x.wf(),
            Err(err) => parse_token(e@, pos as nat) == Err::<IndexRange, RangeFault>(err.fault()),
        },
{
    let t = trim_chars(e);
    if t.len() == 0 {
        return Err(RangeError::EmptyRange(pos));
    }
    let parts = split_chars(&t, '-');
    if parts.len() == 1 {
        match parse_index_chars(&parts[0]) {
            Some(v) => Ok(IndexRange { lo: v, hi: v }),
            None => Err(RangeError::WrongIndexNumber(string_of(&parts[0]), pos)),
        }
    } else if parts.len() == 2 {
        let a = match parse_index_chars(&parts[0]) {
            Some(v) => v,
            None => {
                return Err(RangeError::WrongIndexNumber(string_of(&parts[0]), pos));
            },
        };
        let b = match parse_index_chars(&parts[1]) {
            Some(v) => v,
            None => {
                return Err(RangeError::WrongIndexNumber(string_of(&parts[1]), pos));
            },
        };
        if a <= b {
            Ok(IndexRange { lo: a, hi: b })
        } else {
            Err(RangeError::WrongRange(string_of(e), pos))
        }
    } else {
        Err(RangeError::WrongRange(string_of(e), pos))
    }
}

fn parse_index_chars(t: &Vec<char>) -> (r: Option<u32>)
    ensures
        r == index_of(t@),
{
    match parse_u32_chars(t) {
        Some(v) => if v < HARDENED_INDEX_BOUNDARY {
            Some(v)
        } else {
            None
        },
        None => None,
    }
}

proof fn lemma_fault_sticks(toks: Seq<Seq<char>>, n: nat, m: nat, f: RangeFault)
    requires
        n <= m,
        parse_tokens(toks, n) == Err::<Seq<IndexRange>, RangeFault>(f),
    ensures
        parse_tokens(toks, m) == Err::<Seq<IndexRange>, RangeFault>(f),
    decreases m - n,
{
    if n < m {
        lemma_fault_sticks(toks, n + 1, m, f);
    }
}

/// Every index that a pass over a set yields lies between the set's smallest
/// and largest index, and a pass yields exactly as many indices as the sizes
/// of the set's ranges add up to.
pub proof fn lemma_iteration_bounds(s: IndexRangeSet)
    requires
        s.wf(),
    ensures
        indices(s@).len() == total_size(s@),
        forall|i: int|
            0 <= i < indices(s@).len() ==> min_lo(s@) <= #[trigger] indices(s@)[i] <= max_hi(s@),
{
    lemma_indices_bounds(s@);
}

proof fn lemma_indices_bounds(rs: Seq<IndexRange>)
    requires
        rs.len() >= 1,
        all_wf(rs),
    ensures
        indices(rs).len() == total_size(rs),
        forall|i: int| 0 <= i < indices(rs).len() ==> min_lo(rs) <= #[trigger] indices(rs)[i] <= max_hi(rs),
    decreases rs.len(),
{
    let r = rs[0];
    let rest = rs.drop_first();
    assert(r.wf());
    let sp = span_from(r, r.lo);
    if rs.len() == 1 {
        assert(rest.len() == 0);
        assert(indices(rest).len() == 0);
        assert(total_size(rest) == 0);
        assert(indices(rs) =~= sp);
    } else {
        assert(all_wf(rest)) by {
            assert forall|k: int| 0 <= k < rest.len() implies (#[trigger] rest[k]).wf() by {
                assert(rest[k] == rs[k + 1]);
            }
        }
        lemma_indices_bounds(rest);
        assert forall|i: int| 0 <= i < indices(rs).len() implies min_lo(rs) <= #[trigger] indices(
            rs,
        )[i] <= max_hi(rs) by {
            if i < sp.len() {
                assert(indices(rs)[i] == sp[i]);
            } else {
                assert(indices(rs)[i] == indices(rest)[i - sp.len()]);
            }
        }
    }
}

/// Writing a set as text and reading that text back gives the same ranges,
/// in the same order.
pub proof fn lemma_text_round_trip(s: IndexRangeSet)
    requires
        s.wf(),
    ensures
        parse_ranges(ranges_text(s@)) == Ok::<Seq<IndexRange>, RangeFault>(s@),
{
    let rs = s@;
    let t = ranges_text(rs);
    lemma_ranges_text_shape(rs);
    lemma_trim_start_noop(t);
    lemma_trim_end_noop(t);
    let toks = split(t, ',');
    lemma_tokens_parse(rs, toks, rs.len());
    assert(rs.subrange(0, rs.len() as int) =~= rs);
}

proof fn lemma_range_text(r: IndexRange, pos: nat)
    requires
        r.wf(),
    ensures
        range_text(r).len() >= 1,
        !range_text(r).contains(','),
        !crate::text::is_ws(range_text(r)[0]),
        !crate::text::is_ws(range_text(r).last()),
        parse_token(range_text(r), pos) == Ok::<IndexRange, RangeFault>(r),
{
    let a = decimal(r.lo as nat);
    let b = decimal(r.hi as nat);
    lemma_decimal(r.lo as nat);
    lemma_decimal(r.hi as nat);
    lemma_parse_decimal(r.lo);
    lemma_parse_decimal(r.hi);
    let t = range_text(r);
    if r.lo == r.hi {
        lemma_trim_start_noop(t);
        lemma_trim_end_noop(t);
        lemma_split_no_sep(t, '-');
    } else {
        assert(t[0] == a[0]);
        assert(t.last() == b.last());
        lemma_trim_start_noop(t);
        lemma_trim_end_noop(t);
        lemma_split_concat(a, b, '-');
        lemma_split_no_sep(a, '-');
        lemma_split_no_sep(b, '-');
        assert(split(t, '-') =~= seq![a, b]);
        assert(!t.contains(',')) by {
            if t.contains(',') {
                let k = choose|k: int| 0 <= k < t.len() && t[k] == ',';
                if k < a.len() {
                    assert(a[k] == ',');
                } else if k > a.len() {
                    assert(b[k - a.len() - 1] == ',');
                }
            }
        }
    }
}

proof fn lemma_ranges_text_shape(rs: Seq<IndexRange>)
    requires
        rs.len() >= 1,
        all_wf(rs),
    ensures
        ranges_text(rs).len() >= 1,
        ranges_text(rs)[0] == range_text(rs[0])[0],
        ranges_text(rs).last() == range_text(rs.last()).last(),
        !crate::text::is_ws(ranges_text(rs)[0]),
        !crate::text::is_ws(ranges_text(rs).last()),
        split(ranges_text(rs), ',') == Seq::new(rs.len(), |k: int| range_text(rs[k])),
    decreases rs.len(),
{
    assert(rs[0].wf());
    assert(rs.last().wf());
    lemma_range_text(rs[0], 0);
    lemma_range_text(rs.last(), 0);
    if rs.len() == 1 {
        lemma_split_no_sep(range_text(rs[0]), ',');
        assert(split(ranges_text(rs), ',') =~= Seq::new(rs.len(), |k: int| range_text(rs[k])));
    } else {
        let p = rs.drop_last();
        assert(all_wf(p)) by {
            assert forall|k: int| 0 <= k < p.len() implies (#[trigger] p[k]).wf() by {
                assert(p[k] == rs[k]);
            }
        }
        lemma_ranges_text_shape(p);
        let a = ranges_text(p);
        let b = range_text(rs.last());
        assert(ranges_text(rs) == a + seq![','] + b);
        assert(ranges_text(rs)[0] == a[0]);
        assert(p[0] == rs[0]);
        lemma_split_concat(a, b, ',');
        lemma_split_no_sep(b, ',');
        assert(split(ranges_text(rs), ',') =~= Seq::new(rs.len(), |k: int| range_text(rs[k])));
    }
}

proof fn lemma_tokens_parse(rs: Seq<IndexRange>, toks: Seq<Seq<char>>, n: nat)
    requires
        all_wf(rs),
        n <= rs.len(),
        toks == Seq::new(rs.len(), |k: int| range_text(rs[k])),
    ensures
        parse_tokens(toks, n) == Ok::<Seq<IndexRange>, RangeFault>(rs.subrange(0, n as int)),
    decreases n,
{
    if n == 0 {
        assert(rs.subrange(0, 0) =~= Seq::<IndexRange>::empty());
    } else {
        lemma_tokens_parse(rs, toks, (n - 1) as nat);
        assert(rs[n - 1].wf());
        lemma_range_text(rs[n - 1], (n - 1) as nat);
        assert(toks[n - 1] == range_text(rs[n - 1]));
        assert(rs.subrange(0, n - 1).push(rs[n - 1]) =~= rs.subrange(0, n as int));
    }
}

} // verus!
