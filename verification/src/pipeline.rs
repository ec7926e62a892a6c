//! The staged interval-remapping pipeline: translation stages made of
//! disjoint source ranges with identity fall-through, applied to single
//! values or to huge value domains held as compact interval sets.

use vstd::prelude::*;

verus! {

/// A non-empty half-open interval `[start, start + length)` of unsigned
/// 64-bit values.
#[derive(Clone, Copy, Debug)]
pub struct Interval {
    pub start: u64,
    pub length: u64,
}

impl Interval {
    /// Validity: non-empty and contained in the unsigned 64-bit domain.
    pub open spec fn wf(&self) -> bool {
        self.length > 0 && self.start + self.length - 1 <= u64::MAX
    }

    /// One past the largest value of the interval.
    pub open spec fn end_spec(&self) -> int {
        self.start + self.length
    }

    pub open spec fn contains_spec(&self, v: u64) -> bool {
        self.start <= v < self.start + self.length
    }

    /// Builds a checked interval; fails on a zero length or an interval
    /// that would leave the unsigned 64-bit domain.
    pub fn new(start: u64, length: u64) -> (r: Option<Interval>)
        ensures
            match r {
                Some(iv) => iv.wf() && iv.start == start && iv.length == length,
                None => !(Interval { start, length }).wf(),
            },
    {
        if length == 0 {
            return None;
        }
        if start > u64::MAX - (length - 1) {
            return None;
        }
        Some(Interval { start, length })
    }

    /// Whether `v` lies in the interval.
    pub fn contains(&self, v: u64) -> (r: bool)
        ensures
            r == self.contains_spec(v),
    {
        v >= self.start && v - self.start < self.length
    }
}

/// One translation range: the `length` source values starting at
/// `source_start` map, in order, onto the values starting at
/// `destination_start`.
#[derive(Clone, Copy, Debug)]
pub struct Range {
    pub source_start: u64,
    pub destination_start: u64,
    pub length: u64,
}

impl Range {
    /// Validity: non-empty, with both the source and the destination
    /// block contained in the unsigned 64-bit domain.
    pub open spec fn wf(&self) -> bool {
        &&& self.length > 0
        &&& self.source_start + self.length - 1 <= u64::MAX
        &&& self.destination_start + self.length - 1 <= u64::MAX
    }

    /// One past the largest source value of the range.
    pub open spec fn source_end_spec(&self) -> int {
        self.source_start + self.length
    }

    pub open spec fn contains_spec(&self, v: u64) -> bool {
        self.source_start <= v < self.source_start + self.length
    }

    /// Where a covered value goes: shifted by the range's offset.
    pub open spec fn translate_spec(&self, v: u64) -> u64
        recommends
            self.wf(),
            self.contains_spec(v),
    {
        (self.destination_start + (v - self.source_start)) as u64
    }

    /// Single-value translation of the range alone: shift inside the
    /// source block, identity outside.
    pub open spec fn apply_spec(&self, v: u64) -> u64
        recommends
            self.wf(),
    {
        if self.contains_spec(v) {
            self.translate_spec(v)
        } else {
            v
        }
    }

    /// Builds a checked range; fails on a zero length or a block that
    /// would leave the unsigned 64-bit domain.
    pub fn new(destination_start: u64, source_start: u64, length: u64) -> (r: Option<Range>)
        ensures
            match r {
                Some(rg) => rg.wf() && rg.source_start == source_start && rg.destination_start
                    == destination_start && rg.length == length,
                None => !(Range { source_start, destination_start, length }).wf(),
            },
    {
        if length == 0 {
            return None;
        }
        if source_start > u64::MAX - (length - 1) {
            return None;
        }
        if destination_start > u64::MAX - (length - 1) {
            return None;
        }
        Some(Range { source_start, destination_start, length })
    }

    /// Shifts a covered value into the destination block. Callers must
    /// check coverage first.
    pub fn translate(&self, v: u64) -> (r: u64)
        requires
            self.wf(),
            self.contains_spec(v),
        ensures
            r == self.translate_spec(v),
    {
        self.destination_start + (v - self.source_start)
    }

    /// Whether the range's source block covers `number`.
    pub fn in_range(&self, number: u64) -> (r: bool)
        ensures
            r == self.contains_spec(number),
    {
        number >= self.source_start && number - self.source_start < self.length
    }

    /// Translates `number` through this range alone, with identity
    /// fall-through for uncovered values.
    pub fn apply(&self, number: u64) -> (r: u64)
        requires
            self.wf(),
        ensures
            r == self.apply_spec(number),
            !self.contains_spec(number) ==> r == number,
    {
        if !self.in_range(number) {
            return number;
        }
        let offset: u64 = number - self.source_start;
        self.destination_start + offset
    }

    /// The part of `iv` strictly below the source block.
    pub open spec fn before_spec(&self, iv: Interval) -> Option<Interval> {
        if iv.start < self.source_start {
            let cut = if iv.end_spec() <= self.source_start {
                iv.end_spec()
            } else {
                self.source_start as int
            };
            Some(Interval { start: iv.start, length: (cut - iv.start) as u64 })
        } else {
            None
        }
    }

    /// The part of `iv` inside the source block, shifted to the
    /// destination block.
    pub open spec fn translated_spec(&self, iv: Interval) -> Option<Interval> {
        let olo = if iv.start >= self.source_start {
            iv.start as int
        } else {
            self.source_start as int
        };
        let ohi = if iv.end_spec() <= self.source_end_spec() {
            iv.end_spec()
        } else {
            self.source_end_spec()
        };
        if olo < ohi {
            Some(
                Interval {
                    start: (self.destination_start + (olo - self.source_start)) as u64,
                    length: (ohi - olo) as u64,
                },
            )
        } else {
            None
        }
    }

    /// The part of `iv` at or above the end of the source block.
    pub open spec fn after_spec(&self, iv: Interval) -> Option<Interval> {
        if iv.end_spec() > self.source_end_spec() {
            let alo = if iv.start as int >= self.source_end_spec() {
                iv.start as int
            } else {
                self.source_end_spec()
            };
            Some(Interval { start: alo as u64, length: (iv.end_spec() - alo) as u64 })
        } else {
            None
        }
    }

    /// Splits `input` against the source block: the piece below, the
    /// overlapping piece shifted into the destination domain, and the
    /// piece above. Pieces that would be empty are absent.
    pub fn split_against(&self, input: &Interval) -> (r: (
        Option<Interval>,
        Option<Interval>,
        Option<Interval>,
    ))
        requires
            self.wf(),
            input.wf(),
        ensures
            r.0 == self.before_spec(*input),
            r.1 == self.translated_spec(*input),
            r.2 == self.after_spec(*input),
    {
        let iv_last: u64 = input.start + (input.length - 1);
        let src_last: u64 = self.source_start + (self.length - 1);
        let before: Option<Interval> = if input.start < self.source_start {
            let cut: u64 = if iv_last < self.source_start {
                iv_last + 1
            } else {
                self.source_start
            };
            Some(Interval { start: input.start, length: cut - input.start })
        } else {
            None
        };
        let translated: Option<Interval> = {
            let olo: u64 = if input.start >= self.source_start {
                input.start
            } else {
                self.source_start
            };
            let ohi_last: u64 = if iv_last <= src_last {
                iv_last
            } else {
                src_last
            };
            if olo <= ohi_last {
                Some(
                    Interval {
                        start: self.destination_start + (olo - self.source_start),
                        length: ohi_last - olo + 1,
                    },
                )
            } else {
                None
            }
        };
        let after: Option<Interval> = if iv_last > src_last {
            let alo: u64 = if input.start >= src_last + 1 {
                input.start
            } else {
                src_last + 1
            };
            Some(Interval { start: alo, length: iv_last - alo + 1 })
        } else {
            None
        };
        (before, translated, after)
    }
}

/// Whether an optional interval covers `v`.
pub open spec fn opt_contains(o: Option<Interval>, v: u64) -> bool {
    match o {
        Some(iv) => iv.contains_spec(v),
        None => false,
    }
}

/// Length of an optional interval, zero when absent.
pub open spec fn opt_len(o: Option<Interval>) -> int {
    match o {
        Some(iv) => iv.length as int,
        None => 0,
    }
}

/// Splitting an interval against a range partitions it: the piece below,
/// the covered middle, and the piece above are pairwise disjoint, cover
/// exactly the input values, have lengths summing to the input length,
/// and the translated piece holds exactly the images of the covered
/// middle. No value is lost, duplicated, or invented.
pub proof fn lemma_split_partition(r: Range, iv: Interval)
    requires
        r.wf(),
        iv.wf(),
    ensures
        forall|v: u64|
            iv.contains_spec(v) <==> (opt_contains(r.before_spec(iv), v) || (iv.contains_spec(v)
                && r.contains_spec(v)) || opt_contains(r.after_spec(iv), v)),
        forall|v: u64| opt_contains(r.before_spec(iv), v) ==> iv.contains_spec(v)
            && !r.contains_spec(v) && !opt_contains(r.after_spec(iv), v),
        forall|v: u64| opt_contains(r.after_spec(iv), v) ==> iv.contains_spec(v)
            && !r.contains_spec(v),
        forall|w: u64|
            opt_contains(r.translated_spec(iv), w) <==> exists|v: u64|
                iv.contains_spec(v) && r.contains_spec(v) && r.translate_spec(v) == w,
        opt_len(r.before_spec(iv)) + opt_len(r.translated_spec(iv)) + opt_len(r.after_spec(iv))
            == iv.length,
        match r.before_spec(iv) {
            Some(b) => b.wf(),
            None => true,
        },
        match r.translated_spec(iv) {
            Some(m) => m.wf(),
            None => true,
        },
        match r.after_spec(iv) {
            Some(a) => a.wf(),
            None => true,
        },
{
    assert forall|w: u64| opt_contains(r.translated_spec(iv), w) implies exists|v: u64|
        iv.contains_spec(v) && r.contains_spec(v) && r.translate_spec(v) == w by {
        let v = (w - r.destination_start + r.source_start) as u64;
        assert(iv.contains_spec(v) && r.contains_spec(v) && r.translate_spec(v) == w);
    }
}

/// Two ranges whose source blocks do not overlap.
pub open spec fn ranges_disjoint(a: Range, b: Range) -> bool {
    a.source_start + a.length <= b.source_start || b.source_start + b.length <= a.source_start
}

/// A valid list of translation ranges: each valid, sources pairwise
/// disjoint.
pub open spec fn ranges_wf(rs: Seq<Range>) -> bool {
    &&& forall|i: int| 0 <= i < rs.len() ==> (#[trigger] rs[i]).wf()
    &&& forall|i: int, j: int| 0 <= i < j < rs.len() ==> ranges_disjoint(rs[i], rs[j])
}

/// Whether some range's source block covers `v`.
pub open spec fn covered(rs: Seq<Range>, v: u64) -> bool {
    exists|i: int| 0 <= i < rs.len() && (#[trigger] rs[i]).contains_spec(v)
}

/// Translation of `v` through a list of ranges: the first covering
/// range's shift, identity when none covers.
pub open spec fn stage_apply(rs: Seq<Range>, v: u64) -> u64
    decreases rs.len(),
{
    if rs.len() == 0 {
        v
    } else if rs[0].contains_spec(v) {
        rs[0].translate_spec(v)
    } else {
        stage_apply(rs.drop_first(), v)
    }
}

/// A value covered by no range passes through unchanged.
pub proof fn lemma_stage_apply_uncovered(rs: Seq<Range>, v: u64)
    requires
        !covered(rs, v),
    ensures
        stage_apply(rs, v) == v,
    decreases rs.len(),
{
    if rs.len() > 0 {
        assert(!covered(rs.drop_first(), v)) by {
            if covered(rs.drop_first(), v) {
                let i = choose|i: int|
                    0 <= i < rs.drop_first().len() && (#[trigger] rs.drop_first()[i]).contains_spec(
                        v,
                    );
                assert(rs[i + 1].contains_spec(v));
            }
        }
        lemma_stage_apply_uncovered(rs.drop_first(), v);
    }
}

/// With pairwise disjoint sources, a covered value is translated by its
/// covering range, wherever that range stands in the list.
pub proof fn lemma_stage_apply_covered(rs: Seq<Range>, v: u64, i: int)
    requires
        ranges_wf(rs),
        0 <= i < rs.len(),
        rs[i].contains_spec(v),
    ensures
        stage_apply(rs, v) == rs[i].translate_spec(v),
    decreases rs.len(),
{
    if i == 0 {
    } else {
        assert(ranges_disjoint(rs[0], rs[i]));
        assert(!rs[0].contains_spec(v));
        assert(ranges_wf(rs.drop_first())) by {
            assert(forall|k: int| 0 <= k < rs.drop_first().len() ==> rs.drop_first()[k] == rs[k
                + 1]);
        }
        assert(rs.drop_first()[i - 1] == rs[i]);
        lemma_stage_apply_covered(rs.drop_first(), v, i - 1);
    }
}

/// One translation stage: named source and destination domains, and a
/// set of translation ranges with pairwise disjoint source blocks.
#[derive(Debug)]
pub struct Stage {
    pub source: String,
    pub destination: String,
    pub ranges: Vec<Range>,
}

impl Stage {
    pub open spec fn wf(&self) -> bool {
        ranges_wf(self.ranges@)
    }

    /// Builds a checked stage; fails when a range is invalid or two
    /// source blocks overlap.
    pub fn new(source: String, destination: String, ranges: Vec<Range>) -> (r: Option<Stage>)
        ensures
            match r {
                Some(st) => st.wf() && st.source@ == source@ && st.destination@ == destination@
                    && st.ranges@ == ranges@,
                None => !ranges_wf(ranges@),
            },
    {
        let n: usize = ranges.len();
        let mut i: usize = 0;
        while i < n
            invariant
                n == ranges@.len(),
                i <= n,
                forall|k: int| 0 <= k < i ==> (#[trigger] ranges@[k]).wf(),
            decreases n - i,
        {
            let rg = ranges[i];
            if rg.length == 0 || rg.source_start > u64::MAX - (rg.length - 1)
                || rg.destination_start > u64::MAX - (rg.length - 1) {
                return None;
            }
            i = i + 1;
        }
        let mut i: usize = 0;
        while i < n
            invariant
                n == ranges@.len(),
                i <= n,
                forall|k: int| 0 <= k < n ==> (#[trigger] ranges@[k]).wf(),
                forall|a: int, b: int| 0 <= a < b < n && a < i ==> ranges_disjoint(
                    ranges@[a],
                    ranges@[b],
                ),
            decreases n - i,
        {
            let mut j: usize = i + 1;
            while j < n
                invariant
                    n == ranges@.len(),
                    i < j || j == i + 1,
                    i < n,
                    i + 1 <= j <= n,
                    forall|k: int| 0 <= k < n ==> (#[trigger] ranges@[k]).wf(),
                    forall|b: int| i < b < j ==> ranges_disjoint(ranges@[i as int], ranges@[b]),
                decreases n - j,
            {
                let a = ranges[i];
                let b = ranges[j];
                let disjoint = a.source_start + (a.length - 1) < b.source_start
                    || b.source_start + (b.length - 1) < a.source_start;
                if !disjoint {
                    assert(!ranges_disjoint(ranges@[i as int], ranges@[j as int]));
                    return None;
                }
                j = j + 1;
            }
            i = i + 1;
        }
        Some(Stage { source, destination, ranges })
    }

    /// Translates `number` through the stage: the covering range's shift,
    /// the number itself when no range covers it. Total over the whole
    /// unsigned 64-bit domain.
    pub fn apply(&self, number: u64) -> (r: u64)
        requires
            self.wf(),
        ensures
            r == stage_apply(self.ranges@, number),
            !covered(self.ranges@, number) ==> r == number,
    {
        let n: usize = self.ranges.len();
        let mut i: usize = 0;
        proof {
            assert(self.ranges@.skip(0) =~= self.ranges@);
        }
        while i < n
            invariant
                n == self.ranges@.len(),
                i <= n,
                self.wf(),
                stage_apply(self.ranges@, number) == stage_apply(
                    self.ranges@.skip(i as int),
                    number,
                ),
                forall|k: int| 0 <= k < i ==> !(#[trigger] self.ranges@[k]).contains_spec(number),
            decreases n - i,
        {
            let rg = self.ranges[i];
            proof {
                assert(self.ranges@.skip(i as int).len() > 0);
                assert(self.ranges@.skip(i as int)[0] == self.ranges@[i as int]);
                assert(self.ranges@.skip(i as int).drop_first() =~= self.ranges@.skip(i as int
                    + 1));
            }
            if rg.in_range(number) {
                proof {
                    assert(stage_apply(self.ranges@.skip(i as int), number) == rg.translate_spec(
                        number,
                    ));
                }
                let offset: u64 = number - rg.source_start;
                return rg.destination_start + offset;
            }
            i = i + 1;
        }
        proof {
            assert(self.ranges@.skip(n as int) =~= Seq::<Range>::empty());
            if covered(self.ranges@, number) {
                let i = choose|i: int|
                    0 <= i < self.ranges@.len() && (#[trigger] self.ranges@[i]).contains_spec(
                        number,
                    );
            }
        }
        number
    }
}

/// A stage with no ranges is the identity on every value.
pub proof fn lemma_empty_stage_identity(rs: Seq<Range>, v: u64)
    requires
        rs.len() == 0,
    ensures
        stage_apply(rs, v) == v,
{
}

/// All intervals of the list are valid.
pub open spec fn ivs_wf(ivs: Seq<Interval>) -> bool {
    forall|i: int| 0 <= i < ivs.len() ==> (#[trigger] ivs[i]).wf()
}

/// Whether some interval of the list covers `v`.
pub open spec fn ivs_contains(ivs: Seq<Interval>, v: u64) -> bool {
    exists|i: int| 0 <= i < ivs.len() && (#[trigger] ivs[i]).contains_spec(v)
}

/// Total measure of the list: the sum of the interval lengths.
pub open spec fn ivs_measure(ivs: Seq<Interval>) -> int
    decreases ivs.len(),
{
    if ivs.len() == 0 {
        0
    } else {
        ivs[0].length + ivs_measure(ivs.drop_first())
    }
}

pub proof fn lemma_ivs_measure_nonneg(ivs: Seq<Interval>)
    ensures
        ivs_measure(ivs) >= 0,
    decreases ivs.len(),
{
    if ivs.len() > 0 {
        lemma_ivs_measure_nonneg(ivs.drop_first());
    }
}

pub proof fn lemma_ivs_measure_push(ivs: Seq<Interval>, x: Interval)
    ensures
        ivs_measure(ivs.push(x)) == ivs_measure(ivs) + x.length,
    decreases ivs.len(),
{
    reveal_with_fuel(ivs_measure, 3);
    assert(ivs.push(x)[0] == if ivs.len() == 0 {
        x
    } else {
        ivs[0]
    });
    if ivs.len() == 0 {
        assert(ivs.push(x).drop_first() =~= Seq::<Interval>::empty());
    } else {
        assert(ivs.push(x).drop_first() =~= ivs.drop_first().push(x));
        lemma_ivs_measure_push(ivs.drop_first(), x);
    }
}

pub proof fn lemma_ivs_measure_concat(a: Seq<Interval>, b: Seq<Interval>)
    ensures
        ivs_measure(a + b) == ivs_measure(a) + ivs_measure(b),
    decreases a.len(),
{
    if a.len() == 0 {
        assert(a + b =~= b);
    } else {
        assert((a + b).drop_first() =~= a.drop_first() + b);
        lemma_ivs_measure_concat(a.drop_first(), b);
    }
}

pub proof fn lemma_ivs_contains_push(ivs: Seq<Interval>, x: Interval)
    ensures
        forall|v: u64|
            #![trigger ivs_contains(ivs.push(x), v)]
            #![trigger ivs_contains(ivs, v)]
            #![trigger x.contains_spec(v)]
            ivs_contains(ivs.push(x), v) <==> (ivs_contains(ivs, v) || x.contains_spec(v)),
{
    assert forall|v: u64| ivs_contains(ivs.push(x), v) implies (ivs_contains(ivs, v)
        || x.contains_spec(v)) by {
        let i = choose|i: int|
            0 <= i < ivs.push(x).len() && (#[trigger] ivs.push(x)[i]).contains_spec(v);
        if i < ivs.len() {
            assert(ivs[i].contains_spec(v));
        }
    }
    assert forall|v: u64| (ivs_contains(ivs, v) || x.contains_spec(v)) implies ivs_contains(
        ivs.push(x),
        v,
    ) by {
        if ivs_contains(ivs, v) {
            let i = choose|i: int| 0 <= i < ivs.len() && (#[trigger] ivs[i]).contains_spec(v);
            assert(ivs.push(x)[i].contains_spec(v));
        } else {
            assert(ivs.push(x)[ivs.len() as int].contains_spec(v));
        }
    }
}

pub proof fn lemma_ivs_contains_concat(a: Seq<Interval>, b: Seq<Interval>)
    ensures
        forall|v: u64|
            #![trigger ivs_contains(a + b, v)]
            #![trigger ivs_contains(a, v)]
            #![trigger ivs_contains(b, v)]
            ivs_contains(a + b, v) <==> (ivs_contains(a, v) || ivs_contains(b, v)),
{
    assert forall|v: u64| ivs_contains(a + b, v) implies (ivs_contains(a, v) || ivs_contains(
        b,
        v,
    )) by {
        let i = choose|i: int| 0 <= i < (a + b).len() && (#[trigger] (a + b)[i]).contains_spec(v);
        if i < a.len() {
            assert(a[i].contains_spec(v));
        } else {
            assert(b[i - a.len()].contains_spec(v));
        }
    }
    assert forall|v: u64| (ivs_contains(a, v) || ivs_contains(b, v)) implies ivs_contains(
        a + b,
        v,
    ) by {
        if ivs_contains(a, v) {
            let i = choose|i: int| 0 <= i < a.len() && (#[trigger] a[i]).contains_spec(v);
            assert((a + b)[i].contains_spec(v));
        } else {
            let i = choose|i: int| 0 <= i < b.len() && (#[trigger] b[i]).contains_spec(v);
            assert((a + b)[i + a.len()].contains_spec(v));
        }
    }
}

/// Like `covered`, one more range at the end of the list.
pub proof fn lemma_covered_push(rs: Seq<Range>, x: Range)
    ensures
        forall|v: u64|
            #![trigger covered(rs.push(x), v)]
            #![trigger covered(rs, v)]
            #![trigger x.contains_spec(v)]
            covered(rs.push(x), v) <==> (covered(rs, v) || x.contains_spec(v)),
{
    assert forall|v: u64| covered(rs.push(x), v) implies (covered(rs, v) || x.contains_spec(v)) by {
        let i = choose|i: int|
            0 <= i < rs.push(x).len() && (#[trigger] rs.push(x)[i]).contains_spec(v);
        if i < rs.len() {
            assert(rs[i].contains_spec(v));
        }
    }
    assert forall|v: u64| (covered(rs, v) || x.contains_spec(v)) implies covered(rs.push(x), v) by {
        if covered(rs, v) {
            let i = choose|i: int| 0 <= i < rs.len() && (#[trigger] rs[i]).contains_spec(v);
            assert(rs.push(x)[i].contains_spec(v));
        } else {
            assert(rs.push(x)[rs.len() as int].contains_spec(v));
        }
    }
}

/// A possibly enormous set of values, held as a list of non-empty
/// intervals rather than as individual values.
#[derive(Debug)]
pub struct ValueSet {
    pub intervals: Vec<Interval>,
}

impl ValueSet {
    pub open spec fn wf(&self) -> bool {
        ivs_wf(self.intervals@)
    }

    pub open spec fn contains_spec(&self, v: u64) -> bool {
        ivs_contains(self.intervals@, v)
    }

    /// Total number of values represented.
    pub open spec fn measure_spec(&self) -> int {
        ivs_measure(self.intervals@)
    }

    /// Builds a value set from consecutive `(start, length)` pairs.
    /// Construction fails on an odd list, a zero length, or a pair
    /// leaving the unsigned 64-bit domain.
    pub fn from_pairs(pairs: &Vec<u64>) -> (r: Option<ValueSet>)
        ensures
            match r {
                Some(vs) => {
                    &&& vs.wf()
                    &&& pairs@.len() % 2 == 0
                    &&& vs.intervals@.len() * 2 == pairs@.len()
                    &&& forall|k: int|
                        0 <= k < vs.intervals@.len() ==> (#[trigger] vs.intervals@[k]).start
                            == pairs@[2 * k] && vs.intervals@[k].length == pairs@[2 * k + 1]
                },
                None => pairs@.len() % 2 != 0 || exists|k: int|
                    0 <= k && 2 * k + 1 < pairs@.len() && !(Interval {
                        start: #[trigger] pairs@[2 * k],
                        length: pairs@[2 * k + 1],
                    }).wf(),
            },
    {
        if pairs.len() % 2 != 0 {
            return None;
        }
        let mut intervals: Vec<Interval> = Vec::new();
        let mut i: usize = 0;
        while i + 1 < pairs.len()
            invariant
                pairs@.len() % 2 == 0,
                i % 2 == 0,
                i <= pairs@.len(),
                intervals@.len() * 2 == i,
                ivs_wf(intervals@),
                forall|k: int|
                    0 <= k < intervals@.len() ==> (#[trigger] intervals@[k]).start == pairs@[2 * k]
                        && intervals@[k].length == pairs@[2 * k + 1],
            decreases pairs@.len() - i,
        {
            match Interval::new(pairs[i], pairs[i + 1]) {
                Some(iv) => {
                    intervals.push(iv);
                },
                None => {
                    proof {
                        let k = i as int / 2;
                        assert(2 * k == i);
                        assert(!(Interval { start: pairs@[2 * k], length: pairs@[2 * k + 1] }).wf());
                    }
                    return None;
                },
            }
            i = i + 2;
        }
        Some(ValueSet { intervals })
    }
}

/// Appends an optional interval, tracking coverage, measure and validity.
fn push_opt(ivs: &mut Vec<Interval>, o: Option<Interval>)
    requires
        ivs_wf(old(ivs)@),
        match o {
            Some(x) => x.wf(),
            None => true,
        },
    ensures
        ivs_wf(final(ivs)@),
        ivs_measure(final(ivs)@) == ivs_measure(old(ivs)@) + opt_len(o),
        forall|v: u64|
            #![trigger ivs_contains(final(ivs)@, v)]
            #![trigger ivs_contains(old(ivs)@, v)]
            #![trigger opt_contains(o, v)]
            ivs_contains(final(ivs)@, v) <==> (ivs_contains(old(ivs)@, v) || opt_contains(o, v)),
{
    let ghost pre = ivs@;
    match o {
        Some(x) => {
            ivs.push(x);
            proof {
                lemma_ivs_measure_push(pre, x);
                lemma_ivs_contains_push(pre, x);
                assert(forall|i: int|
                    0 <= i < pre.len() ==> final(ivs)@[i] == #[trigger] pre[i]);
            }
        },
        None => {},
    }
}

impl Stage {
    /// Translates every value of `input` through the stage, splitting
    /// each interval against the ranges it overlaps. The result covers
    /// exactly the images of the input values and keeps the total
    /// measure; the work is bounded by ranges times intervals, never by
    /// the number of values represented.
    pub fn apply_to_set(&self, input: &ValueSet) -> (out: ValueSet)
        requires
            self.wf(),
            input.wf(),
        ensures
            out.wf(),
            out.measure_spec() == input.measure_spec(),
            forall|v: u64|
                input.contains_spec(v) ==> out.contains_spec(
                    #[trigger] stage_apply(self.ranges@, v),
                ),
            forall|w: u64|
                #[trigger] out.contains_spec(w) ==> exists|v: u64|
                    input.contains_spec(v) && stage_apply(self.ranges@, v) == w,
            self.ranges@.len() == 0 ==> forall|v: u64|
                out.contains_spec(v) == input.contains_spec(v),
    {
        let ghost inp = input.intervals@;
        let ghost rs = self.ranges@;
        let mut pending: Vec<Interval> = Vec::new();
        let mut idx: usize = 0;
        while idx < input.intervals.len()
            invariant
                idx <= input.intervals@.len(),
                inp == input.intervals@,
                pending@ == inp.take(idx as int),
            decreases input.intervals@.len() - idx,
        {
            pending.push(input.intervals[idx]);
            idx = idx + 1;
            proof {
                assert(pending@ =~= inp.take(idx as int));
            }
        }
        proof {
            assert(inp.take(inp.len() as int) =~= inp);
        }
        let mut translated: Vec<Interval> = Vec::new();
        let nr: usize = self.ranges.len();
        let mut k: usize = 0;
        proof {
            assert(rs.take(0) =~= Seq::<Range>::empty());
        }
        while k < nr
            invariant
                self.wf(),
                rs == self.ranges@,
                nr == rs.len(),
                k <= nr,
                ivs_wf(inp),
                ivs_wf(pending@),
                ivs_wf(translated@),
                ivs_measure(pending@) + ivs_measure(translated@) == ivs_measure(inp),
                forall|v: u64|
                    #[trigger] ivs_contains(pending@, v) <==> (ivs_contains(inp, v) && !covered(
                        rs.take(k as int),
                        v,
                    )),
                forall|w: u64|
                    #[trigger] ivs_contains(translated@, w) <==> exists|v: u64|
                        ivs_contains(inp, v) && covered(rs.take(k as int), v) && stage_apply(rs, v)
                            == w,
            decreases nr - k,
        {
            let rg = self.ranges[k];
            let ghost t0 = translated@;
            let ghost pend0 = pending@;
            let mut next_pending: Vec<Interval> = Vec::new();
            let np: usize = pending.len();
            let mut j: usize = 0;
            proof {
                assert(pend0.take(0) =~= Seq::<Interval>::empty());
            }
            while j < np
                invariant
                    rg.wf(),
                    rg == rs[k as int],
                    np == pend0.len(),
                    j <= np,
                    pend0 == pending@,
                    ivs_wf(pend0),
                    ivs_wf(next_pending@),
                    ivs_wf(translated@),
                    ivs_measure(next_pending@) + ivs_measure(translated@) == ivs_measure(t0)
                        + ivs_measure(pend0.take(j as int)),
                    forall|v: u64|
                        #[trigger] ivs_contains(next_pending@, v) <==> (ivs_contains(
                            pend0.take(j as int),
                            v,
                        ) && !rg.contains_spec(v)),
                    forall|w: u64|
                        #[trigger] ivs_contains(translated@, w) <==> (ivs_contains(t0, w)
                            || exists|v: u64|
                            ivs_contains(pend0.take(j as int), v) && rg.contains_spec(v)
                                && rg.translate_spec(v) == w),
                decreases np - j,
            {
                let piece = pending[j];
                proof {
                    assert(pend0[j as int] == piece);
                    assert(piece.wf());
                    lemma_split_partition(rg, piece);
                    assert(pend0.take(j as int + 1) =~= pend0.take(j as int).push(piece));
                    lemma_ivs_contains_push(pend0.take(j as int), piece);
                    lemma_ivs_measure_push(pend0.take(j as int), piece);
                }
                let ghost old_next = next_pending@;
                let ghost old_tr = translated@;
                let (b, m, a) = rg.split_against(&piece);
                push_opt(&mut next_pending, b);
                push_opt(&mut next_pending, a);
                push_opt(&mut translated, m);
                j = j + 1;
                proof {
                    assert forall|v: u64| #[trigger] ivs_contains(next_pending@, v) implies (
                    ivs_contains(pend0.take(j as int), v) && !rg.contains_spec(v)) by {
                        if !ivs_contains(old_next, v) {
                            assert(opt_contains(b, v) || opt_contains(a, v));
                            assert(piece.contains_spec(v) && !rg.contains_spec(v));
                        }
                    }
                    assert forall|v: u64| (ivs_contains(pend0.take(j as int), v)
                        && !rg.contains_spec(v)) implies #[trigger] ivs_contains(
                        next_pending@,
                        v,
                    ) by {
                        if piece.contains_spec(v) && !rg.contains_spec(v) {
                            assert(opt_contains(b, v) || opt_contains(a, v));
                        }
                    }
                    assert forall|w: u64| #[trigger] ivs_contains(translated@, w) implies (
                    ivs_contains(t0, w) || exists|v: u64|
                        ivs_contains(pend0.take(j as int), v) && rg.contains_spec(v)
                            && rg.translate_spec(v) == w) by {
                        if !ivs_contains(old_tr, w) {
                            assert(opt_contains(m, w));
                            let v = choose|v: u64|
                                piece.contains_spec(v) && rg.contains_spec(v) && rg.translate_spec(
                                    v,
                                ) == w;
                            assert(ivs_contains(pend0.take(j as int), v) && rg.contains_spec(v)
                                && rg.translate_spec(v) == w);
                        } else if !ivs_contains(t0, w) {
                            let v = choose|v: u64|
                                ivs_contains(pend0.take(j as int - 1), v) && rg.contains_spec(v)
                                    && rg.translate_spec(v) == w;
                            assert(ivs_contains(pend0.take(j as int), v));
                        }
                    }
                    assert forall|w: u64| (ivs_contains(t0, w) || exists|v: u64|
                        ivs_contains(pend0.take(j as int), v) && rg.contains_spec(v)
                            && rg.translate_spec(v) == w) implies #[trigger] ivs_contains(
                        translated@,
                        w,
                    ) by {
                        if ivs_contains(t0, w) {
                            assert(ivs_contains(old_tr, w));
                            assert(ivs_contains(translated@, w));
                        } else {
                            let v = choose|v: u64|
                                ivs_contains(pend0.take(j as int), v) && rg.contains_spec(v)
                                    && rg.translate_spec(v) == w;
                            assert(ivs_contains(pend0.take(j as int - 1).push(piece), v));
                            if ivs_contains(pend0.take(j as int - 1), v) {
                                assert(exists|u: u64|
                                    ivs_contains(pend0.take(j as int - 1), u) && rg.contains_spec(
                                        u,
                                    ) && rg.translate_spec(u) == w);
                                assert(ivs_contains(old_tr, w));
                                assert(ivs_contains(translated@, w));
                            } else {
                                assert(piece.contains_spec(v));
                                assert(exists|u: u64|
                                    piece.contains_spec(u) && rg.contains_spec(u)
                                        && rg.translate_spec(u) == w);
                                assert(opt_contains(m, w));
                                assert(ivs_contains(translated@, w));
                            }
                        }
                    }
                }
            }
            proof {
                assert(pend0.take(np as int) =~= pend0);
                assert(rs.take(k as int + 1) =~= rs.take(k as int).push(rg));
                lemma_covered_push(rs.take(k as int), rg);
            }
            pending = next_pending;
            k = k + 1;
            proof {
                let ghost kk = k as int - 1;
                assert forall|v: u64| #[trigger] ivs_contains(pending@, v) implies (ivs_contains(
                    inp,
                    v,
                ) && !covered(rs.take(k as int), v)) by {}
                assert forall|v: u64| (ivs_contains(inp, v) && !covered(rs.take(k as int), v))
                    implies #[trigger] ivs_contains(pending@, v) by {}
                assert forall|w: u64| #[trigger] ivs_contains(translated@, w) implies exists|
                    v: u64,
                |
                    ivs_contains(inp, v) && covered(rs.take(k as int), v) && stage_apply(rs, v)
                        == w by {
                    if ivs_contains(t0, w) {
                        let v = choose|v: u64|
                            ivs_contains(inp, v) && covered(rs.take(kk), v) && stage_apply(rs, v)
                                == w;
                        assert(covered(rs.take(k as int), v));
                        assert(ivs_contains(inp, v) && covered(rs.take(k as int), v)
                            && stage_apply(rs, v) == w);
                    } else {
                        let v = choose|v: u64|
                            ivs_contains(pend0, v) && rg.contains_spec(v) && rg.translate_spec(v)
                                == w;
                        lemma_stage_apply_covered(rs, v, kk);
                        assert(ivs_contains(inp, v) && covered(rs.take(k as int), v)
                            && stage_apply(rs, v) == w);
                    }
                }
                assert forall|v: u64| ivs_contains(inp, v) && covered(rs.take(k as int), v)
                    implies ivs_contains(translated@, stage_apply(rs, v)) by {
                    if covered(rs.take(kk), v) {
                        assert(ivs_contains(t0, stage_apply(rs, v)));
                        assert(ivs_contains(translated@, stage_apply(rs, v)));
                    } else {
                        assert(rg.contains_spec(v));
                        assert(ivs_contains(pend0, v));
                        lemma_stage_apply_covered(rs, v, kk);
                        assert(ivs_contains(translated@, rg.translate_spec(v)));
                    }
                }
                assert(forall|w: u64|
                    #[trigger] ivs_contains(translated@, w) <==> exists|v: u64|
                        ivs_contains(inp, v) && covered(rs.take(k as int), v) && stage_apply(rs, v)
                            == w);
            }
        }
        proof {
            assert(rs.take(nr as int) =~= rs);
        }
        let mut out_ivs = translated;
        let ghost tfin = out_ivs@;
        let ghost pfin = pending@;
        out_ivs.append(&mut pending);
        proof {
            assert(out_ivs@ == tfin + pfin);
            lemma_ivs_measure_concat(tfin, pfin);
            lemma_ivs_contains_concat(tfin, pfin);
            assert(ivs_wf(out_ivs@)) by {
                assert(forall|i: int|
                    0 <= i < tfin.len() ==> out_ivs@[i] == #[trigger] tfin[i]);
                assert(forall|i: int|
                    0 <= i < pfin.len() ==> out_ivs@[tfin.len() + i] == #[trigger] pfin[i]);
                assert forall|i: int| 0 <= i < out_ivs@.len() implies (
                #[trigger] out_ivs@[i]).wf() by {
                    if i < tfin.len() {
                        assert(out_ivs@[i] == tfin[i]);
                    } else {
                        assert(out_ivs@[i] == pfin[i - tfin.len()]);
                    }
                }
            }
            assert forall|v: u64| ivs_contains(inp, v) implies ivs_contains(
                out_ivs@,
                #[trigger] stage_apply(rs, v),
            ) by {
                if covered(rs, v) {
                    assert(ivs_contains(tfin, stage_apply(rs, v)));
                } else {
                    lemma_stage_apply_uncovered(rs, v);
                    assert(ivs_contains(pfin, v));
                }
            }
            assert forall|w: u64| #[trigger] ivs_contains(out_ivs@, w) implies exists|v: u64|
                ivs_contains(inp, v) && stage_apply(rs, v) == w by {
                if ivs_contains(tfin, w) {
                    let v = choose|v: u64|
                        ivs_contains(inp, v) && covered(rs.take(nr as int), v) && stage_apply(
                            rs,
                            v,
                        ) == w;
                    assert(ivs_contains(inp, v) && stage_apply(rs, v) == w);
                } else {
                    assert(ivs_contains(pfin, w));
                    lemma_stage_apply_uncovered(rs, w);
                    assert(ivs_contains(inp, w) && stage_apply(rs, w) == w);
                }
            }
        }
        let out = ValueSet { intervals: out_ivs };
        proof {
            assert forall|w: u64| #[trigger] out.contains_spec(w) implies exists|v: u64|
                input.contains_spec(v) && stage_apply(self.ranges@, v) == w by {
                assert(ivs_contains(out.intervals@, w));
                let v = choose|v: u64| ivs_contains(inp, v) && stage_apply(rs, v) == w;
                assert(input.contains_spec(v) && stage_apply(self.ranges@, v) == w);
            }
            if rs.len() == 0 {
                assert forall|v: u64| out.contains_spec(v) == input.contains_spec(v) by {
                    if ivs_contains(inp, v) {
                        lemma_stage_apply_uncovered(rs, v);
                        assert(ivs_contains(out.intervals@, stage_apply(rs, v)));
                    }
                    if ivs_contains(out.intervals@, v) {
                        let w0 = choose|w0: u64|
                            ivs_contains(inp, w0) && stage_apply(rs, w0) == v;
                        lemma_stage_apply_uncovered(rs, w0);
                    }
                }
            }
        }
        out
    }
}

/// All stages of the list are valid.
pub open spec fn stages_wf(ss: Seq<Stage>) -> bool {
    forall|i: int| 0 <= i < ss.len() ==> (#[trigger] ss[i]).wf()
}

/// Translation of `v` through the stages in order.
pub open spec fn pipeline_apply(ss: Seq<Stage>, v: u64) -> u64
    decreases ss.len(),
{
    if ss.len() == 0 {
        v
    } else {
        pipeline_apply(ss.drop_first(), stage_apply(ss[0].ranges@, v))
    }
}

/// Appending a stage applies it after the existing ones.
pub proof fn lemma_pipeline_apply_push(ss: Seq<Stage>, st: Stage, v: u64)
    ensures
        pipeline_apply(ss.push(st), v) == stage_apply(st.ranges@, pipeline_apply(ss, v)),
    decreases ss.len(),
{
    reveal_with_fuel(pipeline_apply, 3);
    if ss.len() == 0 {
        assert(ss.push(st)[0] == st);
        assert(ss.push(st).drop_first() =~= Seq::<Stage>::empty());
    } else {
        assert(ss.push(st)[0] == ss[0]);
        assert(ss.push(st).drop_first() =~= ss.drop_first().push(st));
        lemma_pipeline_apply_push(ss.drop_first(), st, stage_apply(ss[0].ranges@, v));
    }
}

/// The values of `v`, in order.
fn copy_intervals(v: &Vec<Interval>) -> (r: Vec<Interval>)
    ensures
        r@ == v@,
{
    let mut r: Vec<Interval> = Vec::new();
    let mut i: usize = 0;
    while i < v.len()
        invariant
            i <= v@.len(),
            r@ == v@.take(i as int),
        decreases v@.len() - i,
    {
        r.push(v[i]);
        i = i + 1;
        proof {
            assert(r@ =~= v@.take(i as int));
        }
    }
    proof {
        assert(v@.take(v@.len() as int) =~= v@);
    }
    r
}

/// An ordered sequence of translation stages from an initial domain to a
/// final one.
#[derive(Debug)]
pub struct Pipeline {
    pub stages: Vec<Stage>,
}

impl Pipeline {
    pub open spec fn wf(&self) -> bool {
        stages_wf(self.stages@)
    }

    /// Folds a single value through every stage in order.
    pub fn translate_value(&self, v: u64) -> (r: u64)
        requires
            self.wf(),
        ensures
            r == pipeline_apply(self.stages@, v),
    {
        let mut number: u64 = v;
        let mut i: usize = 0;
        proof {
            assert(self.stages@.skip(0) =~= self.stages@);
        }
        while i < self.stages.len()
            invariant
                i <= self.stages@.len(),
                self.wf(),
                pipeline_apply(self.stages@, v) == pipeline_apply(
                    self.stages@.skip(i as int),
                    number,
                ),
            decreases self.stages@.len() - i,
        {
            proof {
                assert(self.stages@.skip(i as int)[0] == self.stages@[i as int]);
                assert(self.stages@.skip(i as int).drop_first() =~= self.stages@.skip(i as int
                    + 1));
                assert(self.stages@[i as int].wf());
            }
            number = self.stages[i].apply(number);
            i = i + 1;
        }
        proof {
            assert(self.stages@.skip(self.stages@.len() as int) =~= Seq::<Stage>::empty());
        }
        number
    }

    /// Folds a whole value set through every stage in order. The work is
    /// proportional to stages, ranges and intervals, never to the number
    /// of values represented. Every input value's image appears in the
    /// result, nothing else does, and the total measure is kept.
    pub fn translate_set(&self, input: &ValueSet) -> (out: ValueSet)
        requires
            self.wf(),
            input.wf(),
        ensures
            out.wf(),
            out.measure_spec() == input.measure_spec(),
            forall|v: u64|
                input.contains_spec(v) ==> out.contains_spec(
                    #[trigger] pipeline_apply(self.stages@, v),
                ),
            forall|w: u64|
                #[trigger] out.contains_spec(w) ==> exists|v: u64|
                    input.contains_spec(v) && pipeline_apply(self.stages@, v) == w,
    {
        let ghost ss = self.stages@;
        let ghost inp = input.intervals@;
        let mut cur = ValueSet { intervals: copy_intervals(&input.intervals) };
        let mut k: usize = 0;
        proof {
            assert(ss.take(0) =~= Seq::<Stage>::empty());
            assert(cur.intervals@ =~= inp);
        }
        while k < self.stages.len()
            invariant
                self.wf(),
                ss == self.stages@,
                k <= ss.len(),
                ivs_wf(inp),
                cur.wf(),
                cur.measure_spec() == ivs_measure(inp),
                forall|v: u64|
                    ivs_contains(inp, v) ==> cur.contains_spec(
                        #[trigger] pipeline_apply(ss.take(k as int), v),
                    ),
                forall|w: u64|
                    #[trigger] cur.contains_spec(w) ==> exists|v: u64|
                        ivs_contains(inp, v) && pipeline_apply(ss.take(k as int), v) == w,
            decreases ss.len() - k,
        {
            let ghost stk = ss[k as int];
            proof {
                assert(stk.wf());
            }
            let next = self.stages[k].apply_to_set(&cur);
            proof {
                assert(ss.take(k as int + 1) =~= ss.take(k as int).push(stk));
                assert forall|v: u64| ivs_contains(inp, v) implies next.contains_spec(
                    #[trigger] pipeline_apply(ss.take(k as int + 1), v),
                ) by {
                    lemma_pipeline_apply_push(ss.take(k as int), stk, v);
                    assert(cur.contains_spec(pipeline_apply(ss.take(k as int), v)));
                    assert(next.contains_spec(
                        stage_apply(stk.ranges@, pipeline_apply(ss.take(k as int), v)),
                    ));
                }
                assert forall|w: u64| #[trigger] next.contains_spec(w) implies exists|v: u64|
                    ivs_contains(inp, v) && pipeline_apply(ss.take(k as int + 1), v) == w by {
                    let u = choose|u: u64| cur.contains_spec(u) && stage_apply(stk.ranges@, u)
                        == w;
                    let v = choose|v: u64|
                        ivs_contains(inp, v) && pipeline_apply(ss.take(k as int), v) == u;
                    lemma_pipeline_apply_push(ss.take(k as int), stk, v);
                    assert(ivs_contains(inp, v) && pipeline_apply(ss.take(k as int + 1), v) == w);
                }
            }
            cur = next;
            k = k + 1;
        }
        proof {
            assert(ss.take(ss.len() as int) =~= ss);
            assert forall|w: u64| #[trigger] cur.contains_spec(w) implies exists|v: u64|
                input.contains_spec(v) && pipeline_apply(self.stages@, v) == w by {
                let v = choose|v: u64|
                    ivs_contains(inp, v) && pipeline_apply(ss.take(ss.len() as int), v) == w;
                assert(input.contains_spec(v) && pipeline_apply(self.stages@, v) == w);
            }
        }
        cur
    }

    /// The least translated value over the whole described domain,
    /// computed by interval propagation: the minimum of the resulting
    /// intervals' starts. The largest unsigned 64-bit value on an empty
    /// domain.
    pub fn minimum_over_set(&self, input: &ValueSet) -> (r: u64)
        requires
            self.wf(),
            input.wf(),
        ensures
            input.intervals@.len() == 0 ==> r == u64::MAX,
            input.intervals@.len() > 0 ==> exists|v: u64|
                input.contains_spec(v) && pipeline_apply(self.stages@, v) == r,
            forall|v: u64|
                input.contains_spec(v) ==> r <= #[trigger] pipeline_apply(self.stages@, v),
    {
        if input.intervals.len() == 0 {
            proof {
                assert forall|v: u64| !input.contains_spec(v) by {}
            }
            return u64::MAX;
        }
        let out = self.translate_set(input);
        proof {
            lemma_ivs_measure_nonneg(input.intervals@.drop_first());
            assert(ivs_measure(input.intervals@) > 0);
            if out.intervals@.len() == 0 {
                assert(ivs_measure(out.intervals@) == 0);
            }
        }
        let mut m: u64 = u64::MAX;
        let mut seen = false;
        let mut i: usize = 0;
        while i < out.intervals.len()
            invariant
                i <= out.intervals@.len(),
                out.intervals@.len() > 0,
                forall|j: int| 0 <= j < i ==> m <= (#[trigger] out.intervals@[j]).start,
                seen ==> exists|j: int| 0 <= j < i && m == (#[trigger] out.intervals@[j]).start,
                !seen ==> i == 0 && m == u64::MAX,
            decreases out.intervals@.len() - i,
        {
            let iv = out.intervals[i];
            if !seen || iv.start < m {
                m = iv.start;
                seen = true;
            }
            i = i + 1;
        }
        proof {
            let j0 = choose|j: int| 0 <= j < out.intervals@.len() && m == (
            #[trigger] out.intervals@[j]).start;
            assert(out.intervals@[j0].wf());
            assert(out.intervals@[j0].contains_spec(m));
            assert(out.contains_spec(m));
            assert(exists|v: u64| input.contains_spec(v) && pipeline_apply(self.stages@, v) == m);
            assert forall|v: u64| input.contains_spec(v) implies m <= #[trigger] pipeline_apply(
                self.stages@,
                v,
            ) by {
                let w = pipeline_apply(self.stages@, v);
                assert(out.contains_spec(w));
                let jw = choose|j: int|
                    0 <= j < out.intervals@.len() && (#[trigger] out.intervals@[j]).contains_spec(
                        w,
                    );
                assert(m <= out.intervals@[jw].start);
            }
        }
        m
    }

    /// The least translated value over an explicit list of values; meant
    /// for small lists, the compact-domain path being `minimum_over_set`.
    /// The largest unsigned 64-bit value on an empty list.
    pub fn minimum_over_values(&self, values: &Vec<u64>) -> (r: u64)
        requires
            self.wf(),
        ensures
            values@.len() == 0 ==> r == u64::MAX,
            forall|i: int|
                0 <= i < values@.len() ==> r <= pipeline_apply(
                    self.stages@,
                    #[trigger] values@[i],
                ),
            values@.len() > 0 ==> exists|i: int|
                0 <= i < values@.len() && r == pipeline_apply(self.stages@, values@[i]),
    {
        let mut m: u64 = u64::MAX;
        let mut seen = false;
        let mut i: usize = 0;
        while i < values.len()
            invariant
                i <= values@.len(),
                self.wf(),
                forall|j: int|
                    0 <= j < i ==> m <= pipeline_apply(self.stages@, #[trigger] values@[j]),
                seen ==> exists|j: int|
                    0 <= j < i && m == pipeline_apply(self.stages@, values@[j]),
                !seen ==> i == 0 && m == u64::MAX,
            decreases values@.len() - i,
        {
            let w = self.translate_value(values[i]);
            if !seen || w < m {
                m = w;
                seen = true;
            }
            i = i + 1;
        }
        m
    }
}

/// Translation of `v` through a list of stages given by their ranges.
pub open spec fn pipeline_apply_ranges(rss: Seq<Seq<Range>>, v: u64) -> u64
    decreases rss.len(),
{
    if rss.len() == 0 {
        v
    } else {
        pipeline_apply_ranges(rss.drop_first(), stage_apply(rss[0], v))
    }
}

/// The ranges of each stage, in order.
pub open spec fn stage_ranges(ss: Seq<Stage>) -> Seq<Seq<Range>> {
    ss.map_values(|st: Stage| st.ranges@)
}

/// The names and ranges of each stage, in order.
pub open spec fn stage_tuples(ss: Seq<Stage>) -> Seq<(Seq<char>, Seq<char>, Seq<Range>)> {
    ss.map_values(|st: Stage| (st.source@, st.destination@, st.ranges@))
}

pub proof fn lemma_pipeline_apply_ranges(ss: Seq<Stage>, v: u64)
    ensures
        pipeline_apply(ss, v) == pipeline_apply_ranges(stage_ranges(ss), v),
    decreases ss.len(),
{
    if ss.len() > 0 {
        assert(stage_ranges(ss)[0] == ss[0].ranges@);
        assert(stage_ranges(ss).drop_first() =~= stage_ranges(ss.drop_first()));
        lemma_pipeline_apply_ranges(ss.drop_first(), stage_apply(ss[0].ranges@, v));
    }
}

/// The values of the half-open interval starting at `start`.
pub open spec fn interval_values(start: u64, length: u64) -> Seq<u64> {
    Seq::new(length as nat, |i: int| (start + i) as u64)
}

/// The discrete values described by consecutive `(start, length)` pairs.
pub open spec fn expand_pairs(s: Seq<u64>) -> Seq<u64>
    decreases s.len(),
{
    if s.len() < 2 {
        Seq::empty()
    } else {
        interval_values(s[0], s[1]) + expand_pairs(s.skip(2))
    }
}

/// The values that the tokens contribute to the seed list: each token
/// parsing as a positive number is kept, anything else is dropped.
pub open spec fn keep_positive(tokens: Seq<Seq<char>>) -> Seq<u64>
    decreases tokens.len(),
{
    if tokens.len() == 0 {
        Seq::empty()
    } else {
        let rest = keep_positive(tokens.drop_first());
        match crate::text::parse_u64_spec(tokens[0]) {
            Some(v) => if v > 0 {
                seq![v] + rest
            } else {
                rest
            },
            None => rest,
        }
    }
}

/// What parsing a seed entry yields: the entry must open with the
/// literal `seeds: `; the kept tokens after it are the seeds.
pub open spec fn seeds_of(s: Seq<char>) -> Option<Seq<u64>> {
    let p = "seeds: "@;
    if p.len() <= s.len() && s.take(p.len() as int) == p {
        Some(keep_positive(crate::text::tokens_of(s.skip(p.len() as int))))
    } else {
        None
    }
}

/// A non-empty word of lower-case letters.
pub open spec fn lc_word(w: Seq<char>) -> bool {
    w.len() > 0 && forall|i: int|
        0 <= i < w.len() ==> ('a' as u32) <= (#[trigger] w[i]) as u32 && w[i] as u32 <= ('z'
            as u32)
}

/// What parsing one range line yields: three numbers, in the order
/// destination start, source start, length, making a valid range.
pub open spec fn range_of_line(l: Seq<char>) -> Option<Range> {
    let toks = crate::text::tokens_of(l);
    if toks.len() != 3 {
        None
    } else {
        match crate::text::parse_u64_spec(toks[0]) {
            Some(d) => match crate::text::parse_u64_spec(toks[1]) {
                Some(s0) => match crate::text::parse_u64_spec(toks[2]) {
                    Some(ln) => {
                        let rg = Range { source_start: s0, destination_start: d, length: ln };
                        if rg.wf() {
                            Some(rg)
                        } else {
                            None
                        }
                    },
                    None => None,
                },
                None => None,
            },
            None => None,
        }
    }
}

/// What parsing the range lines of a stage entry yields.
pub open spec fn ranges_of_lines(ls: Seq<Seq<char>>) -> Option<Seq<Range>>
    decreases ls.len(),
{
    if ls.len() == 0 {
        Some(Seq::empty())
    } else {
        match range_of_line(ls[0]) {
            Some(rg) => match ranges_of_lines(ls.drop_first()) {
                Some(rest) => Some(seq![rg] + rest),
                None => None,
            },
            None => None,
        }
    }
}

/// What parsing one stage entry yields: a header line naming the source
/// and destination domains, then one line per range; the ranges must be
/// valid and pairwise disjoint.
pub open spec fn stage_of(s: Seq<char>) -> Option<(Seq<char>, Seq<char>, Seq<Range>)> {
    let ls = crate::text::lines_of(s);
    if ls.len() == 0 {
        None
    } else {
        let toks = crate::text::tokens_of(ls[0]);
        if toks.len() != 2 || toks[1] != "map:"@ {
            None
        } else {
            let names = crate::text::split_on(toks[0], '-');
            if names.len() != 3 || names[1] != "to"@ || !lc_word(names[0]) || !lc_word(names[2]) {
                None
            } else {
                match ranges_of_lines(ls.drop_first()) {
                    Some(rs) => if ranges_wf(rs) {
                        Some((names[0], names[2], rs))
                    } else {
                        None
                    },
                    None => None,
                }
            }
        }
    }
}

/// What parsing the stage entries yields, one tuple per entry.
pub open spec fn stages_of_blocks(bs: Seq<Seq<char>>) -> Option<
    Seq<(Seq<char>, Seq<char>, Seq<Range>)>,
>
    decreases bs.len(),
{
    if bs.len() == 0 {
        Some(Seq::empty())
    } else {
        match stage_of(bs[0]) {
            Some(t) => match stages_of_blocks(bs.drop_first()) {
                Some(rest) => Some(seq![t] + rest),
                None => None,
            },
            None => None,
        }
    }
}

/// What parsing a whole input yields: blank-line-separated entries, the
/// first holding the seeds, each further one holding a stage.
pub open spec fn almanac_of(s: Seq<char>) -> Option<
    (Seq<u64>, Seq<(Seq<char>, Seq<char>, Seq<Range>)>),
> {
    let blocks = crate::text::split_on2(s, '\n');
    match seeds_of(blocks[0]) {
        Some(sd) => match stages_of_blocks(blocks.drop_first()) {
            Some(sts) => Some((sd, sts)),
            None => None,
        },
        None => None,
    }
}

/// The seed list: the discrete values the pipeline is queried on.
#[derive(Debug)]
pub struct Seeds {
    pub seeds: Vec<u64>,
}

fn is_lc_word(w: &Vec<char>) -> (r: bool)
    ensures
        r == lc_word(w@),
{
    if w.len() == 0 {
        return false;
    }
    let mut i: usize = 0;
    while i < w.len()
        invariant
            i <= w@.len(),
            forall|k: int|
                0 <= k < i ==> ('a' as u32) <= (#[trigger] w@[k]) as u32 && w@[k] as u32 <= ('z'
                    as u32),
        decreases w@.len() - i,
    {
        let c: u32 = w[i] as u32;
        if c < 'a' as u32 || c > 'z' as u32 {
            return false;
        }
        i = i + 1;
    }
    true
}

impl Seeds {
    /// Parses the seed entry of an input.
    pub fn from_entry(entry: &str) -> (r: Option<Seeds>)
        ensures
            match (r, seeds_of(entry@)) {
                (Some(sd), Some(vals)) => sd.seeds@ == vals,
                (None, None) => true,
                _ => false,
            },
    {
        let chars = crate::text::chars_of(entry);
        seeds_from_chars(&chars)
    }

    /// Folds one seed through every stage in order.
    pub fn location_number(seed: u64, maps: &Vec<Stage>) -> (r: u64)
        requires
            stages_wf(maps@),
        ensures
            r == pipeline_apply(maps@, seed),
    {
        let mut number: u64 = seed;
        let mut i: usize = 0;
        proof {
            assert(maps@.skip(0) =~= maps@);
        }
        while i < maps.len()
            invariant
                i <= maps@.len(),
                stages_wf(maps@),
                pipeline_apply(maps@, seed) == pipeline_apply(maps@.skip(i as int), number),
            decreases maps@.len() - i,
        {
            proof {
                assert(maps@.skip(i as int)[0] == maps@[i as int]);
                assert(maps@.skip(i as int).drop_first() =~= maps@.skip(i as int + 1));
                assert(maps@[i as int].wf());
            }
            number = maps[i].apply(number);
            i = i + 1;
        }
        proof {
            assert(maps@.skip(maps@.len() as int) =~= Seq::<Stage>::empty());
        }
        number
    }

    /// The least final value over the seeds, the largest unsigned 64-bit
    /// value when there are none.
    pub fn min_location_number(&self, maps: &Vec<Stage>) -> (r: u64)
        requires
            stages_wf(maps@),
        ensures
            self.seeds@.len() == 0 ==> r == u64::MAX,
            forall|i: int|
                0 <= i < self.seeds@.len() ==> r <= pipeline_apply(
                    maps@,
                    #[trigger] self.seeds@[i],
                ),
            self.seeds@.len() > 0 ==> exists|i: int|
                0 <= i < self.seeds@.len() && r == pipeline_apply(maps@, self.seeds@[i]),
    {
        let mut m: u64 = u64::MAX;
        let mut seen = false;
        let mut i: usize = 0;
        while i < self.seeds.len()
            invariant
                i <= self.seeds@.len(),
                stages_wf(maps@),
                forall|j: int|
                    0 <= j < i ==> m <= pipeline_apply(maps@, #[trigger] self.seeds@[j]),
                seen ==> exists|j: int|
                    0 <= j < i && m == pipeline_apply(maps@, self.seeds@[j]),
                !seen ==> i == 0 && m == u64::MAX,
            decreases self.seeds@.len() - i,
        {
            let w = Seeds::location_number(self.seeds[i], maps);
            if !seen || w < m {
                m = w;
                seen = true;
            }
            i = i + 1;
        }
        m
    }

    /// Expands the `(start, length)` pairs of the seed list into the
    /// discrete values they describe: the brute-force form of the
    /// domain, kept as a cross-check for small inputs.
    #[verifier::rlimit(50)]
    pub fn expand_ranges(self) -> (r: Seeds)
        requires
            self.seeds@.len() % 2 == 0,
            forall|k: int|
                0 <= k && k + 1 < self.seeds@.len() && k % 2 == 0 ==> (#[trigger] self.seeds@[k])
                    + self.seeds@[k + 1] <= u64::MAX + 1,
            expand_pairs(self.seeds@).len() <= usize::MAX,
        ensures
            r.seeds@ == expand_pairs(self.seeds@),
    {
        let ghost sd = self.seeds@;
        let mut out: Vec<u64> = Vec::new();
        let mut i: usize = 0;
        proof {
            assert(sd.skip(0) =~= sd);
            assert(out@ + expand_pairs(sd) =~= expand_pairs(sd));
        }
        while i + 1 < self.seeds.len()
            invariant
                i <= sd.len(),
                i % 2 == 0,
                sd.len() % 2 == 0,
                sd == self.seeds@,
                forall|k: int|
                    0 <= k && k + 1 < sd.len() && k % 2 == 0 ==> (#[trigger] sd[k]) + sd[k + 1]
                        <= u64::MAX + 1,
                out@ + expand_pairs(sd.skip(i as int)) == expand_pairs(sd),
            decreases sd.len() - i,
        {
            let start = self.seeds[i];
            let length = self.seeds[i + 1];
            proof {
                assert(sd.skip(i as int)[0] == start);
                assert(sd.skip(i as int)[1] == length);
                assert(sd.skip(i as int).skip(2) =~= sd.skip(i as int + 2));
                assert(start + length <= u64::MAX + 1);
            }
            let ghost out0 = out@;
            let mut c: u64 = 0;
            while c < length
                invariant
                    c <= length,
                    start + length <= u64::MAX + 1,
                    out@ == out0 + interval_values(start, length).take(c as int),
                decreases length - c,
            {
                out.push(start + c);
                c = c + 1;
                proof {
                    assert(out@ =~= out0 + interval_values(start, length).take(c as int));
                }
            }
            proof {
                assert(interval_values(start, length).take(length as int) =~= interval_values(
                    start,
                    length,
                ));
                assert(out@ + expand_pairs(sd.skip(i as int + 2)) =~= out0 + (interval_values(
                    start,
                    length,
                ) + expand_pairs(sd.skip(i as int + 2))));
            }
            i = i + 2;
        }
        proof {
            assert(i == sd.len());
            assert(sd.skip(sd.len() as int) =~= Seq::<u64>::empty());
            assert(out@ + expand_pairs(sd.skip(sd.len() as int)) =~= out@);
        }
        Seeds { seeds: out }
    }
}

fn seeds_from_chars(chars: &Vec<char>) -> (r: Option<Seeds>)
    ensures
        match (r, seeds_of(chars@)) {
            (Some(sd), Some(vals)) => sd.seeds@ == vals,
            (None, None) => true,
            _ => false,
        },
{
    if !crate::text::has_prefix(chars, "seeds: ") {
        return None;
    }
    let np: usize = "seeds: ".unicode_len();
    let rest = crate::text::slice_chars(chars, np, chars.len());
    proof {
        assert(rest@ =~= chars@.skip(np as int));
    }
    let toks = crate::text::tokens_of_chars(&rest);
    let ghost tks = crate::text::tokens_of(chars@.skip(np as int));
    let mut vals: Vec<u64> = Vec::new();
    let mut j: usize = 0;
    proof {
        assert(tks.skip(0) =~= tks);
        assert(vals@ + keep_positive(tks) =~= keep_positive(tks));
    }
    while j < toks.len()
        invariant
            toks.deep_view() == tks,
            toks@.len() == tks.len(),
            j <= tks.len(),
            keep_positive(tks) == vals@ + keep_positive(tks.skip(j as int)),
        decreases tks.len() - j,
    {
        proof {
            assert(tks.skip(j as int)[0] == tks[j as int]);
            assert(tks.skip(j as int).drop_first() =~= tks.skip(j as int + 1));
            assert(toks@[j as int]@ =~= toks.deep_view()[j as int]);
        }
        let ghost vals0 = vals@;
        match crate::text::parse_u64(&toks[j]) {
            Some(v) => {
                if v > 0 {
                    vals.push(v);
                    proof {
                        assert(vals0 + (seq![v] + keep_positive(tks.skip(j as int + 1))) =~= vals@
                            + keep_positive(tks.skip(j as int + 1)));
                    }
                }
            },
            None => {},
        }
        j = j + 1;
    }
    proof {
        assert(tks.skip(tks.len() as int) =~= Seq::<Seq<char>>::empty());
        assert(vals@ + keep_positive(tks.skip(tks.len() as int)) =~= vals@);
    }
    Some(Seeds { seeds: vals })
}

#[verifier::loop_isolation(false)]
fn stage_from_chars(chars: &Vec<char>) -> (r: Option<Stage>)
    ensures
        match (r, stage_of(chars@)) {
            (Some(st), Some(t)) => st.source@ == t.0 && st.destination@ == t.1 && st.ranges@
                == t.2 && st.wf(),
            (None, None) => true,
            _ => false,
        },
{
    let lines = crate::text::lines_of_chars(chars);
    let ghost ls = crate::text::lines_of(chars@);
    if lines.len() == 0 {
        return None;
    }
    proof {
        assert(lines@[0]@ =~= lines.deep_view()[0]);
    }
    let head_toks = crate::text::tokens_of_chars(&lines[0]);
    let ghost toks = crate::text::tokens_of(ls[0]);
    if head_toks.len() != 2 {
        return None;
    }
    proof {
        assert(head_toks@[1]@ =~= head_toks.deep_view()[1]);
        assert(head_toks@[0]@ =~= head_toks.deep_view()[0]);
    }
    if !crate::text::chars_eq(&head_toks[1], "map:") {
        return None;
    }
    let names = crate::text::split_on_chars(&head_toks[0], '-');
    let ghost nms = crate::text::split_on(toks[0], '-');
    if names.len() != 3 {
        return None;
    }
    proof {
        assert(names@[0]@ =~= names.deep_view()[0]);
        assert(names@[1]@ =~= names.deep_view()[1]);
        assert(names@[2]@ =~= names.deep_view()[2]);
    }
    if !crate::text::chars_eq(&names[1], "to") {
        return None;
    }
    if !is_lc_word(&names[0]) {
        return None;
    }
    if !is_lc_word(&names[2]) {
        return None;
    }
    let mut ranges: Vec<Range> = Vec::new();
    let mut j: usize = 1;
    proof {
        assert(ls.skip(1) =~= ls.drop_first());
    }
    while j < lines.len()
        invariant
            lines.deep_view() == ls,
            lines@.len() == ls.len(),
            1 <= j <= ls.len(),
            match ranges_of_lines(ls.skip(j as int)) {
                Some(rest) => ranges_of_lines(ls.drop_first()) == Some(ranges@ + rest),
                None => ranges_of_lines(ls.drop_first()) is None,
            },
        decreases ls.len() - j,
    {
        proof {
            assert(ls.skip(j as int)[0] == ls[j as int]);
            assert(ls.skip(j as int).drop_first() =~= ls.skip(j as int + 1));
            assert(lines@[j as int]@ =~= lines.deep_view()[j as int]);
        }
        let lt = crate::text::tokens_of_chars(&lines[j]);
        let ghost ltk = crate::text::tokens_of(ls[j as int]);
        if lt.len() != 3 {
            return None;
        }
        proof {
            assert(lt@[0]@ =~= lt.deep_view()[0]);
            assert(lt@[1]@ =~= lt.deep_view()[1]);
            assert(lt@[2]@ =~= lt.deep_view()[2]);
        }
        let d = match crate::text::parse_u64(&lt[0]) {
            Some(v) => v,
            None => {
                return None;
            },
        };
        let s0 = match crate::text::parse_u64(&lt[1]) {
            Some(v) => v,
            None => {
                return None;
            },
        };
        let ln = match crate::text::parse_u64(&lt[2]) {
            Some(v) => v,
            None => {
                return None;
            },
        };
        let ghost ranges0 = ranges@;
        match Range::new(d, s0, ln) {
            Some(rg) => {
                ranges.push(rg);
                proof {
                    assert(range_of_line(ls[j as int]) == Some(rg));
                    match ranges_of_lines(ls.skip(j as int + 1)) {
                        Some(rest) => {
                            assert(ranges0 + (seq![rg] + rest) =~= ranges@ + rest);
                        },
                        None => {},
                    }
                }
            },
            None => {
                proof {
                    assert(range_of_line(ls[j as int]) is None);
                }
                return None;
            },
        }
        j = j + 1;
    }
    proof {
        assert(ls.skip(ls.len() as int) =~= Seq::<Seq<char>>::empty());
        assert(ranges@ + Seq::<Range>::empty() =~= ranges@);
        assert(ranges_of_lines(ls.drop_first()) == Some(ranges@));
    }
    let source = crate::text::string_from_chars(&names[0]);
    let destination = crate::text::string_from_chars(&names[2]);
    match Stage::new(source, destination, ranges) {
        Some(st) => Some(st),
        None => None,
    }
}

impl Stage {
    /// Parses one stage entry of an input.
    pub fn from_entry(entry: &str) -> (r: Option<Stage>)
        ensures
            match (r, stage_of(entry@)) {
                (Some(st), Some(t)) => st.source@ == t.0 && st.destination@ == t.1 && st.ranges@
                    == t.2 && st.wf(),
                (None, None) => true,
                _ => false,
            },
    {
        let chars = crate::text::chars_of(entry);
        stage_from_chars(&chars)
    }
}

/// Parses a whole input: the seed entry, then one stage entry per
/// blank-line-separated block. Construction fails on any malformed
/// entry, zero-length range, overflowing block, or overlapping sources.
#[verifier::loop_isolation(false)]
pub fn parse_input(input: &str) -> (r: Option<(Seeds, Vec<Stage>)>)
    ensures
        match (r, almanac_of(input@)) {
            (Some(p), Some(t)) => {
                &&& p.0.seeds@ == t.0
                &&& stage_tuples(p.1@) == t.1
                &&& stages_wf(p.1@)
            },
            (None, None) => true,
            _ => false,
        },
{
    let chars = crate::text::chars_of(input);
    let blocks = crate::text::split_on2_chars(&chars, '\n');
    let ghost bs = crate::text::split_on2(input@, '\n');
    proof {
        crate::text::lemma_split_on2_len(input@, '\n');
        assert(blocks@[0]@ =~= blocks.deep_view()[0]);
    }
    let sd = match seeds_from_chars(&blocks[0]) {
        Some(sd) => sd,
        None => {
            return None;
        },
    };
    let mut stages: Vec<Stage> = Vec::new();
    let mut j: usize = 1;
    proof {
        assert(bs.skip(1) =~= bs.drop_first());
        assert(stage_tuples(stages@) =~= Seq::<(Seq<char>, Seq<char>, Seq<Range>)>::empty());
    }
    while j < blocks.len()
        invariant
            blocks.deep_view() == bs,
            blocks@.len() == bs.len(),
            1 <= j <= bs.len(),
            stages_wf(stages@),
            match stages_of_blocks(bs.skip(j as int)) {
                Some(rest) => stages_of_blocks(bs.drop_first()) == Some(
                    stage_tuples(stages@) + rest,
                ),
                None => stages_of_blocks(bs.drop_first()) is None,
            },
        decreases bs.len() - j,
    {
        proof {
            assert(bs.skip(j as int)[0] == bs[j as int]);
            assert(bs.skip(j as int).drop_first() =~= bs.skip(j as int + 1));
            assert(blocks@[j as int]@ =~= blocks.deep_view()[j as int]);
        }
        let ghost tuples0 = stage_tuples(stages@);
        match stage_from_chars(&blocks[j]) {
            Some(st) => {
                proof {
                    assert(stage_of(bs[j as int]) is Some);
                }
                let ghost tup = stage_of(bs[j as int])->Some_0;
                stages.push(st);
                proof {
                    assert(stage_tuples(stages@) =~= tuples0.push(tup));
                    match stages_of_blocks(bs.skip(j as int + 1)) {
                        Some(rest) => {
                            assert(tuples0 + (seq![tup] + rest) =~= stage_tuples(stages@) + rest);
                        },
                        None => {},
                    }
                }
            },
            None => {
                return None;
            },
        }
        j = j + 1;
    }
    proof {
        assert(bs.skip(bs.len() as int) =~= Seq::<Seq<char>>::empty());
        assert(stage_tuples(stages@) + Seq::<(Seq<char>, Seq<char>, Seq<Range>)>::empty() =~=
        stage_tuples(stages@));
    }
    Some((sd, stages))
}

/// The ranges of each parsed stage tuple, in order.
pub open spec fn tuple_ranges(ts: Seq<(Seq<char>, Seq<char>, Seq<Range>)>) -> Seq<Seq<Range>> {
    ts.map_values(|t: (Seq<char>, Seq<char>, Seq<Range>)| t.2)
}

/// The least final value over the input's discrete seeds, by folding
/// each seed through the parsed stages; nothing when the input is
/// malformed.
pub fn solve(input: &str) -> (r: Option<u64>)
    ensures
        match almanac_of(input@) {
            Some(t) => {
                &&& r is Some
                &&& (t.0.len() == 0 ==> r->Some_0 == u64::MAX)
                &&& forall|i: int|
                    0 <= i < t.0.len() ==> r->Some_0 <= pipeline_apply_ranges(
                        tuple_ranges(t.1),
                        #[trigger] t.0[i],
                    )
                &&& (t.0.len() > 0 ==> exists|i: int|
                    0 <= i < t.0.len() && r->Some_0 == pipeline_apply_ranges(
                        tuple_ranges(t.1),
                        t.0[i],
                    ))
            },
            None => r is None,
        },
{
    match parse_input(input) {
        Some((seeds, maps)) => {
            let m = seeds.min_location_number(&maps);
            proof {
                let t = almanac_of(input@)->Some_0;
                assert(stage_ranges(maps@) =~= tuple_ranges(t.1));
                assert forall|i: int| 0 <= i < seeds.seeds@.len() implies pipeline_apply(
                    maps@,
                    #[trigger] seeds.seeds@[i],
                ) == pipeline_apply_ranges(tuple_ranges(t.1), seeds.seeds@[i]) by {
                    lemma_pipeline_apply_ranges(maps@, seeds.seeds@[i]);
                }
            }
            Some(m)
        },
        None => None,
    }
}

/// Whether consecutive `(start, length)` pairs all describe valid
/// intervals.
pub open spec fn pairs_ok(sd: Seq<u64>) -> bool {
    sd.len() % 2 == 0 && forall|k: int|
        0 <= k && 2 * k + 1 < sd.len() ==> (Interval {
            start: #[trigger] sd[2 * k],
            length: sd[2 * k + 1],
        }).wf()
}

/// Whether `v` lies in some interval described by the pairs.
pub open spec fn pairs_contains(sd: Seq<u64>, v: u64) -> bool {
    exists|k: int| 0 <= k && 2 * k + 1 < sd.len() && (#[trigger] sd[2 * k]) <= v < sd[2 * k] + sd[2
        * k + 1]
}

/// The least final value over the huge domain that the seed pairs
/// describe, found by interval propagation rather than by enumerating
/// values; nothing when the input is malformed or a pair is invalid.
pub fn solve_star2(input: &str) -> (r: Option<u64>)
    ensures
        match almanac_of(input@) {
            Some(t) => {
                &&& (r is Some <==> pairs_ok(t.0))
                &&& (r is Some ==> (t.0.len() == 0 ==> r->Some_0 == u64::MAX))
                &&& (r is Some ==> forall|v: u64|
                    pairs_contains(t.0, v) ==> r->Some_0 <= #[trigger] pipeline_apply_ranges(
                        tuple_ranges(t.1),
                        v,
                    ))
                &&& (r is Some && t.0.len() > 0 ==> exists|v: u64|
                    pairs_contains(t.0, v) && r->Some_0 == pipeline_apply_ranges(
                        tuple_ranges(t.1),
                        v,
                    ))
            },
            None => r is None,
        },
{
    match parse_input(input) {
        Some((seeds, maps)) => {
            let ghost t = almanac_of(input@)->Some_0;
            match ValueSet::from_pairs(&seeds.seeds) {
                Some(vs) => {
                    let p = Pipeline { stages: maps };
                    let m = p.minimum_over_set(&vs);
                    proof {
                        assert forall|k: int| 0 <= k && 2 * k + 1 < t.0.len() implies (Interval {
                            start: #[trigger] t.0[2 * k],
                            length: t.0[2 * k + 1],
                        }).wf() by {
                            assert(0 <= k < vs.intervals@.len());
                            assert(vs.intervals@[k].wf());
                            assert(vs.intervals@[k].start == t.0[2 * k] && vs.intervals@[k].length
                                == t.0[2 * k + 1]);
                        }
                        assert(pairs_ok(t.0));
                        assert(stage_ranges(p.stages@) =~= tuple_ranges(t.1));
                        assert forall|v: u64| pairs_contains(t.0, v) implies m <= #[trigger]
                        pipeline_apply_ranges(tuple_ranges(t.1), v) by {
                            let k = choose|k: int|
                                0 <= k && 2 * k + 1 < t.0.len() && (#[trigger] t.0[2 * k]) <= v
                                    < t.0[2 * k] + t.0[2 * k + 1];
                            assert(vs.intervals@[k].contains_spec(v));
                            assert(vs.contains_spec(v));
                            lemma_pipeline_apply_ranges(p.stages@, v);
                        }
                        if t.0.len() > 0 {
                            assert(vs.intervals@.len() > 0);
                            let v0 = choose|v0: u64|
                                vs.contains_spec(v0) && pipeline_apply(p.stages@, v0) == m;
                            let k0 = choose|k0: int|
                                0 <= k0 < vs.intervals@.len() && (
                                #[trigger] vs.intervals@[k0]).contains_spec(v0);
                            assert(t.0[2 * k0] <= v0 < t.0[2 * k0] + t.0[2 * k0 + 1]);
                            assert(pairs_contains(t.0, v0));
                            lemma_pipeline_apply_ranges(p.stages@, v0);
                            assert(pairs_contains(t.0, v0) && m == pipeline_apply_ranges(
                                tuple_ranges(t.1),
                                v0,
                            ));
                        }
                    }
                    Some(m)
                },
                None => {
                    proof {
                        assert(!pairs_ok(t.0));
                    }
                    None
                },
            }
        },
        None => None,
    }
}

} // verus!

