//! The layout of the statistics panel drawn over each analysed frame: one
//! row per colour seen so far, with its share of all objects as a bar.

use vstd::prelude::*;
use vstd::string::*;
use crate::colors::ColorRange;
use crate::geometry::Rect;
use crate::tally::{
    count_at, count_of, counts_of, lemma_count_le_sum, percent, percent_of, sum, total_objects,
};
use crate::text::{decimal, pad_right, push_decimal, push_padded_right};

verus! {

/// The panel's width in pixels.
pub const PANEL_WIDTH: i32 = 290;

/// The row of one colour in the panel.
#[derive(Debug)]
pub struct DashboardRow {
    /// The colour's place in the table.
    pub color: usize,
    /// The baseline of the row's text.
    pub y: i32,
    /// The colour's name, left-aligned in 10 characters.
    pub name_text: String,
    /// The colour's share of all objects, in percent.
    pub pct: usize,
    /// The bar's length in pixels: 160 pixels stand for 100%.
    pub bar_len: i32,
    /// The bar, when it has any length.
    pub bar: Option<Rect>,
    /// `"<total> (<in this frame> ahora)"`.
    pub counts_text: String,
    /// Where `counts_text` starts, just right of the bar.
    pub counts_x: i32,
}

/// The panel: its size, its rows, the baseline of the footer line and the
/// total number of objects.
#[derive(Debug)]
pub struct Dashboard {
    pub panel_w: i32,
    pub panel_h: i32,
    pub rows: Vec<DashboardRow>,
    pub footer_y: i32,
    pub total: usize,
}

/// The colours, among the first `n`, that have a row: those with objects
/// counted so far or in this frame, in table order.
pub open spec fn shown(totals: Seq<usize>, in_frame: Seq<usize>, n: nat) -> Seq<int>
    decreases n,
{
    if n == 0 {
        Seq::empty()
    } else {
        let c = n - 1;
        let rest = shown(totals, in_frame, c as nat);
        if totals[c] > 0 || in_frame[c] > 0 {
            rest.push(c)
        } else {
            rest
        }
    }
}

/// The text after the bar of a row.
pub open spec fn counts_text(total: nat, in_frame: nat) -> Seq<char> {
    decimal(total) + " ("@ + decimal(in_frame) + " ahora)"@
}

/// `row` is the `k`-th row of the panel, for colour `c`.
pub open spec fn is_row(
    row: DashboardRow,
    k: int,
    c: int,
    name: Seq<char>,
    totals: Seq<usize>,
    in_frame: Seq<usize>,
) -> bool {
    let pct = percent(totals[c] as nat, sum(totals));
    let bar_len = 160 * pct / 100;
    &&& row.color == c
    &&& row.y == 54 + 24 * k
    &&& row.name_text@ == pad_right(name, 10)
    &&& row.pct == pct
    &&& row.bar_len == bar_len
    &&& row.bar == if bar_len > 0 {
        Some(Rect { x: 110, y: (row.y - 10) as i32, width: bar_len as i32, height: 10 })
    } else {
        None
    }
    &&& row.counts_text@ == counts_text(totals[c] as nat, in_frame[c] as nat)
    &&& row.counts_x == 110 + bar_len + 4
}

/// Which colours have a row: among the first `n`, exactly those with a
/// count so far or in this frame, each once, in table order.
pub proof fn lemma_shown_colours(totals: Seq<usize>, in_frame: Seq<usize>, n: nat)
    requires
        n <= totals.len(),
        n <= in_frame.len(),
    ensures
        forall|k: int|
            0 <= k < shown(totals, in_frame, n).len() ==> 0 <= #[trigger] shown(totals, in_frame, n)[k]
                < n,
        forall|a: int, b: int|
            0 <= a < b < shown(totals, in_frame, n).len() ==> #[trigger] shown(totals, in_frame, n)[a]
                < #[trigger] shown(totals, in_frame, n)[b],
        forall|c: int|
            0 <= c < n ==> (shown(totals, in_frame, n).contains(c) <==> (totals[c] > 0
                || in_frame[c] > 0)),
    decreases n,
{
    if n > 0 {
        let m = (n - 1) as nat;
        lemma_shown_colours(totals, in_frame, m);
        let rest = shown(totals, in_frame, m);
        let all = shown(totals, in_frame, n);
        assert forall|c: int| 0 <= c < n implies (all.contains(c) <==> (totals[c] > 0
            || in_frame[c] > 0)) by {
            if c < m {
                if rest.contains(c) {
                    let q = choose|q: int| 0 <= q < rest.len() && rest[q] == c;
                    assert(all[q] == c);
                }
                if all.contains(c) {
                    let q = choose|q: int| 0 <= q < all.len() && all[q] == c;
                    if q < rest.len() {
                        assert(rest[q] == c);
                    }
                }
            } else {
                if totals[c] > 0 || in_frame[c] > 0 {
                    assert(all[rest.len() as int] == c);
                } else {
                    if all.contains(c) {
                        let q = choose|q: int| 0 <= q < all.len() && all[q] == c;
                        assert(rest[q] == c);
                    }
                }
            }
        }
    }
}

/// The number of colours among the first `n` that have a row.
pub open spec fn seen_count(totals: Seq<usize>, in_frame: Seq<usize>, n: nat) -> nat {
    Seq::new(n, |c: int| c).filter(|c: int| totals[c] > 0 || in_frame[c] > 0).len()
}

/// The panel has one row per colour with a count so far or in this frame,
/// however many there are.
pub proof fn lemma_row_count(totals: Seq<usize>, in_frame: Seq<usize>, n: nat)
    requires
        n <= totals.len(),
        n <= in_frame.len(),
    ensures
        shown(totals, in_frame, n).len() == seen_count(totals, in_frame, n),
    decreases n,
{
    reveal_with_fuel(Seq::<_>::filter, 1);
    let f = |c: int| totals[c] > 0 || in_frame[c] > 0;
    let idx = Seq::new(n, |c: int| c);
    if n > 0 {
        lemma_row_count(totals, in_frame, (n - 1) as nat);
        assert(idx.drop_last() =~= Seq::new((n - 1) as nat, |c: int| c));
        assert(idx.last() == n - 1);
    } else {
        assert(idx.len() == 0);
    }
}

/// Lays out the panel for the colours `colors`, with the maps of the
/// objects counted so far `totals` and in this frame `in_frame` (an entry
/// per colour, by place in the table; a colour without an entry counts 0).
pub fn dashboard_layout(
    colors: &Vec<ColorRange>,
    totals: &Vec<Option<usize>>,
    in_frame: &Vec<Option<usize>>,
) -> (d: Dashboard)
    requires
        totals.len() == colors.len(),
        in_frame.len() == colors.len(),
        70 + 24 * colors.len() <= i32::MAX,
        sum(counts_of(totals@)) <= usize::MAX,
        forall|c: int| 0 <= c < totals.len() ==> #[trigger] counts_of(totals@)[c] * 100 <= usize::MAX,
    ensures
        d.panel_w == PANEL_WIDTH,
        d.panel_h == 40 + 24 * colors.len() + 30,
        d.total == sum(counts_of(totals@)),
        d.rows.len() == shown(counts_of(totals@), counts_of(in_frame@), colors.len() as nat).len(),
        forall|k: int|
            0 <= k < d.rows.len() ==> {
                let c = #[trigger] shown(counts_of(totals@), counts_of(in_frame@), colors.len() as nat)[k];
                is_row(d.rows[k], k, c, colors@[c].name@, counts_of(totals@), counts_of(in_frame@))
            },
        d.footer_y == 54 + 24 * d.rows.len() + 14,
        d.rows.len() == seen_count(counts_of(totals@), counts_of(in_frame@), colors.len() as nat),
        forall|c: int|
            0 <= c < colors.len() ==> ((exists|k: int|
                0 <= k < d.rows.len() && #[trigger] d.rows[k].color == c) <==> (count_of(
                totals@[c],
            ) > 0 || count_of(in_frame@[c]) > 0)),
        forall|a: int, b: int|
            0 <= a < b < d.rows.len() ==> #[trigger] d.rows[a].color < #[trigger] d.rows[b].color,
{
    let n = colors.len();
    let total = total_objects(totals);
    let mut rows: Vec<DashboardRow> = Vec::new();
    let mut y: i32 = 54;
    let mut c: usize = 0;
    while c < n
        invariant
            n == colors.len(),
            totals.len() == n,
            in_frame.len() == n,
            c <= n,
            70 + 24 * n <= i32::MAX,
            total == sum(counts_of(totals@)),
            forall|j: int| 0 <= j < totals.len() ==> #[trigger] counts_of(totals@)[j] * 100 <= usize::MAX,
            rows.len() <= c,
            y == 54 + 24 * rows.len(),
            rows.len() == shown(counts_of(totals@), counts_of(in_frame@), c as nat).len(),
            forall|k: int|
                0 <= k < rows.len() ==> {
                    let cc = #[trigger] shown(counts_of(totals@), counts_of(in_frame@), c as nat)[k];
                    is_row(rows[k], k, cc, colors@[cc].name@, counts_of(totals@), counts_of(in_frame@))
                },
        decreases n - c,
    {
        let ghost before = shown(counts_of(totals@), counts_of(in_frame@), c as nat);
        let t = count_at(totals, c);
        let f = count_at(in_frame, c);
        if t > 0 || f > 0 {
            proof {
                lemma_count_le_sum(counts_of(totals@), c as int);
            }
            let pct = percent_of(t, total);
            let bar_len: i32 = 160 * (pct as i32) / 100;
            let mut name_text = String::new();
            push_padded_right(&mut name_text, colors[c].name, 10);
            let mut counts = String::new();
            push_decimal(&mut counts, t);
            counts.append(" (");
            push_decimal(&mut counts, f);
            counts.append(" ahora)");
            let bar = if bar_len > 0 {
                Some(Rect { x: 110, y: y - 10, width: bar_len, height: 10 })
            } else {
                None
            };
            let row = DashboardRow {
                color: c,
                y,
                name_text,
                pct,
                bar_len,
                bar,
                counts_text: counts,
                counts_x: 110 + bar_len + 4,
            };
            assert(row.name_text@ =~= pad_right(colors@[c as int].name@, 10));
            assert(row.counts_text@ =~= counts_text(t as nat, f as nat));
            rows.push(row);
            y = y + 24;
        }
        c = c + 1;
        assert forall|k: int| 0 <= k < rows.len() implies {
            let cc = #[trigger] shown(counts_of(totals@), counts_of(in_frame@), c as nat)[k];
            is_row(rows[k], k, cc, colors@[cc].name@, counts_of(totals@), counts_of(in_frame@))
        } by {
            if k < before.len() {
                assert(shown(counts_of(totals@), counts_of(in_frame@), c as nat)[k] == before[k]);
            }
        }
    }
    let d = Dashboard {
        panel_w: PANEL_WIDTH,
        panel_h: 40 + (n as i32) * 24 + 30,
        rows,
        footer_y: y + 14,
        total,
    };
    proof {
        let ts = counts_of(totals@);
        let fs = counts_of(in_frame@);
        let sh = shown(ts, fs, n as nat);
        lemma_shown_colours(ts, fs, n as nat);
        lemma_row_count(ts, fs, n as nat);
        assert forall|k: int| 0 <= k < d.rows.len() implies d.rows[k].color == sh[k] by {
            assert(is_row(d.rows[k], k, sh[k], colors@[sh[k]].name@, ts, fs));
        }
        assert forall|c: int| 0 <= c < n implies ((exists|k: int|
            0 <= k < d.rows.len() && #[trigger] d.rows[k].color == c) <==> (count_of(
            totals@[c],
        ) > 0 || count_of(in_frame@[c]) > 0)) by {
            assert(ts[c] == count_of(totals@[c]));
            assert(fs[c] == count_of(in_frame@[c]));
            if ts[c] > 0 || fs[c] > 0 {
                assert(sh.contains(c));
                let q = choose|q: int| 0 <= q < sh.len() && sh[q] == c;
                assert(d.rows[q].color == c);
            }
            if exists|k: int| 0 <= k < d.rows.len() && #[trigger] d.rows[k].color == c {
                let q = choose|k: int| 0 <= k < d.rows.len() && #[trigger] d.rows[k].color == c;
                assert(sh[q] == c);
                assert(sh.contains(c));
            }
        }
        assert forall|a: int, b: int| 0 <= a < b < d.rows.len() implies #[trigger] d.rows[a].color
            < #[trigger] d.rows[b].color by {
            assert(d.rows[a].color == sh[a]);
            assert(d.rows[b].color == sh[b]);
        }
    }
    d
}

} // verus!
