//! The decisions of the frame loop: which frames are analysed, when the
//! progress line is due, the running count of objects per colour, and which
//! keys end the run.

use vstd::prelude::*;

verus! {

/// The sum of the counts `s`.
pub open spec fn sum(s: Seq<usize>) -> nat
    decreases s.len(),
{
    if s.len() == 0 {
        0
    } else {
        sum(s.drop_last()) + s.last() as nat
    }
}

/// The sum over a prefix never exceeds the sum over the whole.
pub proof fn lemma_sum_prefix(s: Seq<usize>, i: int)
    requires
        0 <= i <= s.len(),
    ensures
        sum(s.subrange(0, i)) <= sum(s),
        i < s.len() ==> sum(s.subrange(0, i + 1)) == sum(s.subrange(0, i)) + s[i],
    decreases s.len(),
{
    if i < s.len() {
        assert(s.subrange(0, i + 1).drop_last() =~= s.subrange(0, i));
        assert(s.drop_last() =~= s.subrange(0, s.len() - 1));
        if i < s.len() - 1 {
            assert(s.drop_last().subrange(0, i) =~= s.subrange(0, i));
            lemma_sum_prefix(s.drop_last(), i);
            lemma_sum_prefix(s.drop_last(), i + 1);
            assert(s.drop_last().subrange(0, i + 1) =~= s.subrange(0, i + 1));
        }
    } else {
        assert(s.subrange(0, i) =~= s);
    }
}

/// No count exceeds the sum of all counts.
pub proof fn lemma_count_le_sum(s: Seq<usize>, c: int)
    requires
        0 <= c < s.len(),
    ensures
        s[c] <= sum(s),
{
    lemma_sum_prefix(s, c);
    lemma_sum_prefix(s, c + 1);
}

/// The count of one colour in a map of counts (an entry per colour of the
/// table, `None` where the colour has no entry): 0 when it has none.
pub open spec fn count_of(e: Option<usize>) -> usize {
    match e {
        Some(n) => n,
        None => 0,
    }
}

/// The counts of a map of counts, colours without an entry counted as 0.
pub open spec fn counts_of(m: Seq<Option<usize>>) -> Seq<usize> {
    Seq::new(m.len(), |i: int| count_of(m[i]))
}

/// The count of colour `c` in the map `m`: 0 when it has no entry.
pub fn count_at(m: &Vec<Option<usize>>, c: usize) -> (n: usize)
    requires
        c < m.len(),
    ensures
        n == count_of(m@[c as int]),
{
    match m[c] {
        Some(n) => n,
        None => 0,
    }
}

/// The sum of the counts of the map `m`, the total number of objects.
pub fn total_objects(m: &Vec<Option<usize>>) -> (t: usize)
    requires
        sum(counts_of(m@)) <= usize::MAX,
    ensures
        t == sum(counts_of(m@)),
{
    let ghost counts = counts_of(m@);
    let mut t: usize = 0;
    let mut i: usize = 0;
    while i < m.len()
        invariant
            i <= m.len(),
            counts == counts_of(m@),
            sum(counts) <= usize::MAX,
            t == sum(counts.subrange(0, i as int)),
        decreases m.len() - i,
    {
        proof {
            lemma_sum_prefix(counts, i as int);
            lemma_sum_prefix(counts, i as int + 1);
        }
        t = t + count_at(m, i);
        i = i + 1;
    }
    assert(counts.subrange(0, i as int) =~= counts);
    t
}

/// The share of `count` in `total`, in whole percent rounded down; 0 when
/// there is nothing at all.
pub open spec fn percent(count: nat, total: nat) -> nat {
    if total > 0 {
        count * 100 / total
    } else {
        0
    }
}

/// The share of `count` in `total`, in whole percent rounded down.
pub fn percent_of(count: usize, total: usize) -> (p: usize)
    requires
        count <= total,
        count * 100 <= usize::MAX,
    ensures
        p == percent(count as nat, total as nat),
        p <= 100,
{
    if total > 0 {
        proof {
            assert((count as int) * 100 / (total as int) <= 100) by (nonlinear_arith)
                requires
                    count <= total,
                    total > 0,
            ;
        }
        count * 100 / total
    } else {
        0
    }
}

/// What to do with a frame that was just read.
#[derive(Clone, Copy, Debug, PartialEq, Eq, Structural)]
pub enum FrameStep {
    /// Pass over it.
    Skip,
    /// Analyse it; in headless mode, also print the progress line when
    /// `report_progress` holds.
    Process { report_progress: bool },
}

/// The state of a run: the settings it was started with, the frames read
/// and analysed so far, and the map of the objects counted so far: an entry
/// per colour of the table, by the colour's place in it, `None` while the
/// colour has never been detected.
pub struct Tally {
    skip: usize,
    headless: bool,
    frame_count: usize,
    processed: usize,
    totals: Vec<Option<usize>>,
}

/// What a run's state stands for.
pub struct TallyView {
    pub skip: nat,
    pub headless: bool,
    pub frame_count: nat,
    pub processed: nat,
    pub totals: Seq<Option<usize>>,
}

impl View for Tally {
    type V = TallyView;

    closed spec fn view(&self) -> TallyView {
        TallyView {
            skip: self.skip as nat,
            headless: self.headless,
            frame_count: self.frame_count as nat,
            processed: self.processed as nat,
            totals: self.totals@,
        }
    }
}

impl Tally {
    /// One frame in every `skip` is analysed, and the analysed frames are
    /// exactly the frames read so far whose number is a multiple of `skip`.
    pub closed spec fn wf(&self) -> bool {
        &&& self.skip > 0
        &&& self.processed == self.frame_count / self.skip
    }

    /// A run that has read nothing yet, for `n_colors` colours.
    pub fn new(skip: usize, headless: bool, n_colors: usize) -> (t: Tally)
        requires
            skip > 0,
        ensures
            t.wf(),
            t@.skip == skip,
            t@.headless == headless,
            t@.frame_count == 0,
            t@.processed == 0,
            t@.totals == Seq::new(n_colors as nat, |i: int| None::<usize>),
    {
        let mut totals: Vec<Option<usize>> = Vec::new();
        let mut i: usize = 0;
        while i < n_colors
            invariant
                i <= n_colors,
                totals@ == Seq::new(i as nat, |j: int| None::<usize>),
            decreases n_colors - i,
        {
            totals.push(None);
            i = i + 1;
            assert(totals@ =~= Seq::new(i as nat, |j: int| None::<usize>));
        }
        Tally { skip, headless, frame_count: 0, processed: 0, totals }
    }

    /// The number of frames read.
    pub fn frame_count(&self) -> (n: usize)
        ensures
            n == self@.frame_count,
    {
        self.frame_count
    }

    /// The number of frames analysed.
    pub fn processed(&self) -> (n: usize)
        ensures
            n == self@.processed,
    {
        self.processed
    }

    /// The map of the objects counted so far.
    pub fn totals(&self) -> (t: &Vec<Option<usize>>)
        ensures
            t@ == self@.totals,
    {
        &self.totals
    }

    /// Takes note of one more frame read and says what to do with it: it is
    /// analysed when its number (counting from 1) is a multiple of `skip`,
    /// and in headless mode the progress line is due on every hundredth
    /// analysed frame.
    pub fn on_frame(&mut self) -> (step: FrameStep)
        requires
            old(self).wf(),
            old(self)@.frame_count < usize::MAX,
        ensures
            final(self).wf(),
            final(self)@.skip == old(self)@.skip,
            final(self)@.headless == old(self)@.headless,
            final(self)@.totals == old(self)@.totals,
            final(self)@.frame_count == old(self)@.frame_count + 1,
            final(self)@.processed == if final(self)@.frame_count % old(self)@.skip == 0 {
                old(self)@.processed + 1
            } else {
                old(self)@.processed
            },
            step == if final(self)@.frame_count % old(self)@.skip != 0 {
                FrameStep::Skip
            } else {
                FrameStep::Process {
                    report_progress: old(self)@.headless && final(self)@.processed % 100 == 0,
                }
            },
    {
        proof {
            lemma_div_step(self.frame_count as nat, self.skip as nat);
        }
        self.frame_count = self.frame_count + 1;
        if self.frame_count % self.skip != 0 {
            return FrameStep::Skip;
        }
        self.processed = self.processed + 1;
        FrameStep::Process { report_progress: self.headless && self.processed % 100 == 0 }
    }

    /// Adds the objects counted in one analysed frame, colour by colour
    /// (`counts`, by place in the table), and gives the frame's own map of
    /// counts: a colour gets an entry, or has its entry raised, only when
    /// it was detected in the frame.
    pub fn record(&mut self, counts: &Vec<usize>) -> (frame: Vec<Option<usize>>)
        requires
            counts.len() == old(self)@.totals.len(),
            forall|c: int|
                0 <= c < counts.len() ==> count_of(old(self)@.totals[c]) + #[trigger] counts@[c]
                    <= usize::MAX,
        ensures
            final(self)@.skip == old(self)@.skip,
            final(self)@.headless == old(self)@.headless,
            final(self)@.frame_count == old(self)@.frame_count,
            final(self)@.processed == old(self)@.processed,
            final(self).wf() == old(self).wf(),
            final(self)@.totals.len() == old(self)@.totals.len(),
            frame.len() == counts.len(),
            forall|c: int|
                0 <= c < counts.len() ==> #[trigger] final(self)@.totals[c] == if counts@[c] > 0 {
                    Some((count_of(old(self)@.totals[c]) + counts@[c]) as usize)
                } else {
                    old(self)@.totals[c]
                },
            forall|c: int|
                0 <= c < counts.len() ==> #[trigger] frame@[c] == if counts@[c] > 0 {
                    Some(counts@[c])
                } else {
                    None
                },
    {
        let ghost start = self.totals@;
        let ghost skip = self.skip;
        let ghost headless = self.headless;
        let ghost frame_count = self.frame_count;
        let ghost processed = self.processed;
        let mut frame: Vec<Option<usize>> = Vec::new();
        let mut c: usize = 0;
        while c < counts.len()
            invariant
                c <= counts.len(),
                self.skip == skip,
                self.headless == headless,
                self.frame_count == frame_count,
                self.processed == processed,
                counts.len() == start.len(),
                self.totals@.len() == start.len(),
                frame.len() == c,
                forall|j: int|
                    0 <= j < counts.len() ==> count_of(start[j]) + #[trigger] counts@[j]
                        <= usize::MAX,
                forall|j: int|
                    0 <= j < c ==> #[trigger] self.totals@[j] == if counts@[j] > 0 {
                        Some((count_of(start[j]) + counts@[j]) as usize)
                    } else {
                        start[j]
                    },
                forall|j: int| c <= j < counts.len() ==> #[trigger] self.totals@[j] == start[j],
                forall|j: int|
                    0 <= j < c ==> #[trigger] frame@[j] == if counts@[j] > 0 {
                        Some(counts@[j])
                    } else {
                        None
                    },
            decreases counts.len() - c,
        {
            let n = counts[c];
            if n > 0 {
                let t = count_at(&self.totals, c) + n;
                self.totals.set(c, Some(t));
                frame.push(Some(n));
            } else {
                frame.push(None);
            }
            c = c + 1;
        }
        frame
    }
}

/// Reading one more frame raises the number of multiples of `skip` seen by
/// one exactly when the new frame number is such a multiple.
proof fn lemma_div_step(n: nat, skip: nat)
    requires
        skip > 0,
    ensures
        (n + 1) / skip == if (n + 1) % skip == 0 {
            n / skip + 1
        } else {
            n / skip
        },
{
    vstd::arithmetic::div_mod::lemma_fundamental_div_mod(n as int, skip as int);
    vstd::arithmetic::div_mod::lemma_fundamental_div_mod((n + 1) as int, skip as int);
    vstd::arithmetic::div_mod::lemma_mod_bound(n as int, skip as int);
    vstd::arithmetic::div_mod::lemma_mod_bound((n + 1) as int, skip as int);
    if (n + 1) % skip == 0 {
        assert((n + 1) / skip == n / skip + 1) by (nonlinear_arith)
            requires
                n == skip * (n / skip) + n % skip,
                n + 1 == skip * ((n + 1) / skip),
                0 <= n % skip < skip,
        ;
    } else {
        assert((n + 1) / skip == n / skip) by (nonlinear_arith)
            requires
                n == skip * (n / skip) + n % skip,
                n + 1 == skip * ((n + 1) / skip) + (n + 1) % skip,
                0 <= n % skip < skip,
                0 < (n + 1) % skip < skip,
        ;
    }
}

/// Adding counts position by position adds their sums.
proof fn lemma_sum_pointwise(before: Seq<usize>, counts: Seq<usize>, after: Seq<usize>)
    requires
        before.len() == counts.len(),
        after.len() == counts.len(),
        forall|c: int| 0 <= c < counts.len() ==> #[trigger] after[c] == before[c] + counts[c],
    ensures
        sum(after) == sum(before) + sum(counts),
    decreases counts.len(),
{
    if counts.len() > 0 {
        let n = counts.len() - 1;
        assert forall|c: int| 0 <= c < n implies #[trigger] after.drop_last()[c]
            == before.drop_last()[c] + counts.drop_last()[c] by {
            assert(after[c] == before[c] + counts[c]);
        }
        lemma_sum_pointwise(before.drop_last(), counts.drop_last(), after.drop_last());
        assert(after[n] == before[n] + counts[n]);
    }
}

/// After `record`, the total number of objects has grown by exactly the
/// objects of the frame.
pub proof fn lemma_record_adds_frame_total(
    before: Seq<Option<usize>>,
    counts: Seq<usize>,
    after: Seq<Option<usize>>,
)
    requires
        before.len() == counts.len(),
        after.len() == counts.len(),
        forall|c: int|
            0 <= c < counts.len() ==> count_of(before[c]) + #[trigger] counts[c] <= usize::MAX,
        forall|c: int|
            0 <= c < counts.len() ==> #[trigger] after[c] == if counts[c] > 0 {
                Some((count_of(before[c]) + counts[c]) as usize)
            } else {
                before[c]
            },
    ensures
        sum(counts_of(after)) == sum(counts_of(before)) + sum(counts),
{
    assert forall|c: int| 0 <= c < counts.len() implies #[trigger] counts_of(after)[c]
        == counts_of(before)[c] + counts[c] by {
        assert(after[c] == if counts[c] > 0 {
            Some((count_of(before[c]) + counts[c]) as usize)
        } else {
            before[c]
        });
    }
    lemma_sum_pointwise(counts_of(before), counts, counts_of(after));
}

/// The shares of the colours, each rounded down, never add up to more than
/// the whole: the shares shown in the panel and in the report fit in 100%.
pub proof fn lemma_percents_fit(t: Seq<usize>)
    ensures
        percent_sum(t, sum(t), t.len()) <= 100,
{
    if sum(t) > 0 {
        lemma_percent_sum_bound(t, sum(t), t.len());
        assert(t.subrange(0, t.len() as int) =~= t);
        let p = percent_sum(t, sum(t), t.len());
        let total = sum(t) as int;
        assert(p <= 100) by (nonlinear_arith)
            requires
                p * total <= 100 * total,
                total > 0,
        ;
    } else {
        lemma_percent_sum_of_nothing(t, t.len());
    }
}

/// Against a whole of nothing every share is 0.
proof fn lemma_percent_sum_of_nothing(t: Seq<usize>, k: nat)
    ensures
        percent_sum(t, 0, k) == 0,
    decreases k,
{
    if k > 0 {
        lemma_percent_sum_of_nothing(t, (k - 1) as nat);
    }
}

/// The sum of the shares of the first `k` colours of `t` in `total`.
pub open spec fn percent_sum(t: Seq<usize>, total: nat, k: nat) -> nat
    decreases k,
{
    if k == 0 || k > t.len() {
        0
    } else {
        percent_sum(t, total, (k - 1) as nat) + percent(t[k - 1] as nat, total)
    }
}

/// Each share, times the whole, is at most its count times 100.
proof fn lemma_percent_sum_bound(t: Seq<usize>, total: nat, k: nat)
    requires
        total > 0,
        k <= t.len(),
    ensures
        percent_sum(t, total, k) * total <= 100 * sum(t.subrange(0, k as int)),
    decreases k,
{
    if k > 0 {
        lemma_percent_sum_bound(t, total, (k - 1) as nat);
        lemma_sum_prefix(t, k - 1);
        let c = t[k - 1] as int;
        let q = percent(t[k - 1] as nat, total) as int;
        let tot = total as int;
        vstd::arithmetic::div_mod::lemma_fundamental_div_mod(c * 100, tot);
        vstd::arithmetic::div_mod::lemma_mod_bound(c * 100, tot);
        assert(q * tot <= c * 100) by (nonlinear_arith)
            requires
                c * 100 == tot * ((c * 100) / tot) + (c * 100) % tot,
                0 <= (c * 100) % tot,
                q == (c * 100) / tot,
        ;
        let prev = percent_sum(t, total, (k - 1) as nat) as int;
        assert(q == (c * 100) / tot);
        assert(percent_sum(t, total, k) == prev + q);
        assert((prev + q) * tot == prev * tot + q * tot) by (nonlinear_arith);
        assert(sum(t.subrange(0, k as int)) == sum(t.subrange(0, k - 1)) + c);
        assert(prev * tot <= 100 * sum(t.subrange(0, k - 1)));
        let ps = percent_sum(t, total, k) as int;
        assert(ps * tot == (prev + q) * tot) by (nonlinear_arith)
            requires
                ps == prev + q,
        ;
        assert(ps * tot <= 100 * sum(t.subrange(0, k as int)));
        assert(percent_sum(t, total, k) * total == ps * tot);
    } else {
        assert(t.subrange(0, 0).len() == 0);
        assert(percent_sum(t, total, k) == 0);
    }
}

/// The keys that end the run: `q` and Escape.
pub fn should_quit(key: i32) -> (quit: bool)
    ensures
        quit == (key == 113 || key == 27),
{
    key == 113 || key == 27
}

/// The analysed frames are exactly the frames read whose number is a
/// multiple of `skip`: after `n` frames, `n / skip` of them.
pub proof fn lemma_processed_frames(t: &Tally)
    requires
        t.wf(),
    ensures
        t@.skip > 0,
        t@.processed == t@.frame_count / t@.skip,
{
}

} // verus!
