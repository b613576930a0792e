//! The final report: the colours of the map of counts, from the most to the
//! least counted, each with its number of detections and its share.

use vstd::prelude::*;
use vstd::string::*;
use crate::colors::ColorRange;
use crate::tally::{
    count_at, count_of, counts_of, lemma_count_le_sum, percent, percent_of, sum, total_objects,
};
use crate::text::{
    decimal, is_ascii_text, pad_left, pad_right, push_decimal, push_padded_left, push_padded_right,
    push_repeated, repeat,
};

verus! {

/// Colour `i` ranks before colour `j`: it has more detections, or as many
/// and an earlier place in the table.
pub open spec fn ranks_before(t: Seq<usize>, i: int, j: int) -> bool {
    t[i] > t[j] || (t[i] == t[j] && i < j)
}

/// `o` lists colours strictly in rank order.
pub open spec fn in_rank_order(t: Seq<usize>, o: Seq<usize>) -> bool {
    forall|a: int, b: int|
        0 <= a < b < o.len() ==> ranks_before(t, #[trigger] o[a] as int, #[trigger] o[b] as int)
}

/// `o` is the order of the report's lines for the map of counts `m`: every
/// colour that has an entry (whatever its count, 0 included), once, from
/// the most counted to the least, colours with as many detections in table
/// order.
pub open spec fn is_report_order(m: Seq<Option<usize>>, o: Seq<usize>) -> bool {
    &&& forall|k: int| 0 <= k < o.len() ==> #[trigger] o[k] < m.len() && m[o[k] as int] is Some
    &&& forall|c: int| 0 <= c < m.len() && m[c] is Some ==> o.contains(c as usize)
    &&& in_rank_order(counts_of(m), o)
}

/// The report order of the map of counts `m` (unique: see
/// `lemma_report_order_unique`).
pub open spec fn ranked(m: Seq<Option<usize>>) -> Seq<usize> {
    choose|o: Seq<usize>| is_report_order(m, o)
}

/// The colours that have an entry in the map of counts, in report order.
pub fn report_order(totals: &Vec<Option<usize>>) -> (o: Vec<usize>)
    ensures
        is_report_order(totals@, o@),
        o@ == ranked(totals@),
{
    let ghost m = totals@;
    let ghost t = counts_of(m);
    let mut o: Vec<usize> = Vec::new();
    let mut c: usize = 0;
    while c < totals.len()
        invariant
            m == totals@,
            t == counts_of(m),
            c <= t.len(),
            forall|k: int| 0 <= k < o.len() ==> #[trigger] o@[k] < c && m[o@[k] as int] is Some,
            forall|j: int| 0 <= j < c && m[j] is Some ==> o@.contains(j as usize),
            in_rank_order(t, o@),
        decreases t.len() - c,
    {
        if totals[c].is_some() {
            let n = count_at(totals, c);
            let mut p: usize = 0;
            while p < o.len() && count_at(totals, o[p]) >= n
                invariant
                    m == totals@,
                    t == counts_of(m),
                    n == t[c as int],
                    c < t.len(),
                    p <= o.len(),
                    forall|k: int| 0 <= k < o.len() ==> #[trigger] o@[k] < c && m[o@[k] as int] is Some,
                    forall|k: int| 0 <= k < p ==> t[#[trigger] o@[k] as int] >= t[c as int],
                decreases o.len() - p,
            {
                p = p + 1;
            }
            let ghost old_o = o@;
            o.insert(p, c);
            proof {
                assert(o@ == old_o.insert(p as int, c));
                assert forall|a: int, b: int| 0 <= a < b < o@.len() implies ranks_before(
                    t,
                    #[trigger] o@[a] as int,
                    #[trigger] o@[b] as int,
                ) by {
                    if b < p {
                        assert(o@[a] == old_o[a] && o@[b] == old_o[b]);
                    } else if b == p {
                        assert(o@[a] == old_o[a]);
                    } else if a == p {
                        assert(o@[b] == old_o[b - 1]);
                        assert(t[old_o[p as int] as int] < t[c as int]);
                        if b - 1 > p {
                            assert(ranks_before(t, old_o[p as int] as int, old_o[b - 1] as int));
                        }
                    } else if a < p {
                        assert(o@[a] == old_o[a] && o@[b] == old_o[b - 1]);
                    } else {
                        assert(o@[a] == old_o[a - 1] && o@[b] == old_o[b - 1]);
                    }
                }
                assert forall|j: int| 0 <= j < c + 1 && m[j] is Some implies o@.contains(
                    j as usize,
                ) by {
                    if j < c {
                        let k = choose|k: int| 0 <= k < old_o.len() && old_o[k] == j as usize;
                        if k < p {
                            assert(o@[k] == j as usize);
                        } else {
                            assert(o@[k + 1] == j as usize);
                        }
                    } else {
                        assert(o@[p as int] == c);
                    }
                }
            }
        }
        c = c + 1;
    }
    proof {
        assert(is_report_order(m, o@));
        let r = ranked(m);
        assert(is_report_order(m, r));
        lemma_report_order_unique(m, o@, r);
    }
    o
}

/// Two lists in strict rank order that hold the same colours are the same.
proof fn lemma_rank_order_unique(t: Seq<usize>, o1: Seq<usize>, o2: Seq<usize>)
    requires
        forall|k: int| 0 <= k < o1.len() ==> #[trigger] o1[k] < t.len(),
        forall|k: int| 0 <= k < o2.len() ==> #[trigger] o2[k] < t.len(),
        in_rank_order(t, o1),
        in_rank_order(t, o2),
        forall|x: usize| o1.contains(x) <==> o2.contains(x),
    ensures
        o1 == o2,
    decreases o1.len(),
{
    if o1.len() == 0 {
        if o2.len() > 0 {
            assert(o2.contains(o2[0]));
        }
        assert(o1 =~= o2);
    } else {
        assert(o1.contains(o1[0]));
        assert(o2.len() > 0);
        assert(o2.contains(o2[0]));
        if o1[0] != o2[0] {
            let q2 = choose|q: int| 0 <= q < o2.len() && o2[q] == o1[0];
            let q1 = choose|q: int| 0 <= q < o1.len() && o1[q] == o2[0];
            assert(ranks_before(t, o2[0] as int, o2[q2] as int));
            assert(ranks_before(t, o1[0] as int, o1[q1] as int));
        }
        let r1 = o1.drop_first();
        let r2 = o2.drop_first();
        assert forall|x: usize| r1.contains(x) implies r2.contains(x) by {
            let q = choose|q: int| 0 <= q < r1.len() && r1[q] == x;
            assert(o1[q + 1] == x);
            assert(ranks_before(t, o1[0] as int, o1[q + 1] as int));
            assert(o2.contains(x));
            let q2 = choose|q2: int| 0 <= q2 < o2.len() && o2[q2] == x;
            assert(q2 != 0);
            assert(r2[q2 - 1] == x);
        }
        assert forall|x: usize| r2.contains(x) implies r1.contains(x) by {
            let q = choose|q: int| 0 <= q < r2.len() && r2[q] == x;
            assert(o2[q + 1] == x);
            assert(ranks_before(t, o2[0] as int, o2[q + 1] as int));
            assert(o1.contains(x));
            let q1 = choose|q1: int| 0 <= q1 < o1.len() && o1[q1] == x;
            assert(q1 != 0);
            assert(r1[q1 - 1] == x);
        }
        assert forall|a: int, b: int| 0 <= a < b < r1.len() implies ranks_before(
            t,
            #[trigger] r1[a] as int,
            #[trigger] r1[b] as int,
        ) by {
            assert(r1[a] == o1[a + 1] && r1[b] == o1[b + 1]);
        }
        assert forall|a: int, b: int| 0 <= a < b < r2.len() implies ranks_before(
            t,
            #[trigger] r2[a] as int,
            #[trigger] r2[b] as int,
        ) by {
            assert(r2[a] == o2[a + 1] && r2[b] == o2[b + 1]);
        }
        assert forall|k: int| 0 <= k < r1.len() implies #[trigger] r1[k] < t.len() by {
            assert(r1[k] == o1[k + 1]);
        }
        assert forall|k: int| 0 <= k < r2.len() implies #[trigger] r2[k] < t.len() by {
            assert(r2[k] == o2[k + 1]);
        }
        lemma_rank_order_unique(t, r1, r2);
        assert(o1[0] == o2[0]);
        assert(o1.len() == o2.len());
        assert forall|k: int| 0 <= k < o1.len() implies o1[k] == o2[k] by {
            if k > 0 {
                assert(o1[k] == r1[k - 1]);
                assert(o2[k] == r2[k - 1]);
            }
        }
        assert(o1 =~= o2);
    }
}

/// The counts decide the report order: there is only one order that meets
/// `is_report_order`, so ties never leave the order of the lines open.
pub proof fn lemma_report_order_unique(m: Seq<Option<usize>>, o1: Seq<usize>, o2: Seq<usize>)
    requires
        is_report_order(m, o1),
        is_report_order(m, o2),
    ensures
        o1 == o2,
{
    assert forall|x: usize| o1.contains(x) implies o2.contains(x) by {
        let q = choose|q: int| 0 <= q < o1.len() && o1[q] == x;
        assert(o1[q] < m.len() && m[o1[q] as int] is Some);
    }
    assert forall|x: usize| o2.contains(x) implies o1.contains(x) by {
        let q = choose|q: int| 0 <= q < o2.len() && o2[q] == x;
        assert(o2[q] < m.len() && m[o2[q] as int] is Some);
    }
    lemma_rank_order_unique(counts_of(m), o1, o2);
}

/// The report names a most frequent colour exactly when the map of counts
/// has an entry; that colour has an entry, at least as many detections as
/// any colour, and strictly more than every colour with an entry before it
/// in the table.
pub proof fn lemma_most_frequent_first(m: Seq<Option<usize>>, o: Seq<usize>)
    requires
        m.len() <= usize::MAX,
        is_report_order(m, o),
    ensures
        o.len() > 0 <==> exists|c: int| 0 <= c < m.len() && m[c] is Some,
        o.len() > 0 ==> {
            let f = o[0] as int;
            &&& 0 <= f < m.len()
            &&& m[f] is Some
            &&& forall|c: int|
                0 <= c < m.len() ==> #[trigger] count_of(m[c]) <= count_of(m[f])
            &&& forall|c: int|
                0 <= c < f && m[c] is Some ==> #[trigger] count_of(m[c]) < count_of(m[f])
        },
{
    let t = counts_of(m);
    if exists|c: int| 0 <= c < m.len() && m[c] is Some {
        let c = choose|c: int| 0 <= c < m.len() && m[c] is Some;
        assert(o.contains(c as usize));
    }
    if o.len() > 0 {
        let f = o[0] as int;
        assert(f < m.len() && m[f] is Some);
        assert forall|c: int| 0 <= c < m.len() implies #[trigger] count_of(m[c]) <= count_of(
            m[f],
        ) by {
            if m[c] is Some {
                assert(o.contains(c as usize));
                let q = choose|q: int| 0 <= q < o.len() && o[q] == c as usize;
                if q > 0 {
                    assert(ranks_before(t, o[0] as int, o[q] as int));
                }
            }
        }
        assert forall|c: int| 0 <= c < f && m[c] is Some implies #[trigger] count_of(m[c])
            < count_of(m[f]) by {
            assert(o.contains(c as usize));
            let q = choose|q: int| 0 <= q < o.len() && o[q] == c as usize;
            if q > 0 {
                assert(ranks_before(t, o[0] as int, o[q] as int));
            }
        }
    }
}

/// What `str::to_uppercase` gives for the text `s` (Unicode upper case).
pub uninterp spec fn uppercase(s: Seq<char>) -> Seq<char>;

/// `s` with the ASCII letters `a`..`z` replaced by `A`..`Z`.
pub open spec fn ascii_upper(s: Seq<char>) -> Seq<char> {
    Seq::new(
        s.len(),
        |i: int|
            if 'a' <= s[i] && s[i] <= 'z' {
                ((s[i] as int) - 32) as char
            } else {
                s[i]
            },
    )
}

/// `str::to_uppercase`: the upper-case form of `s`. Its result is named
/// `uppercase`, a function of the text alone; on ASCII text it turns the
/// letters `a`..`z` into `A`..`Z` and keeps every other character, as the
/// Unicode case mapping does there. What it does beyond ASCII (case
/// mappings that change the length, such as `ß` to `SS`) is left unsaid.
#[verifier::external_body]
fn to_uppercase(s: &str) -> (r: String)
    ensures
        r@ == uppercase(s@),
        is_ascii_text(s@) ==> r@ == ascii_upper(s@),
{
    s.to_uppercase()
}

/// The names of the colours of `colors`, in table order.
pub open spec fn names_of(colors: Seq<ColorRange>) -> Seq<Seq<char>> {
    Seq::new(colors.len(), |i: int| colors[i].name@)
}

/// A line of `n` copies of `piece`.
pub open spec fn rule(piece: Seq<char>, n: nat) -> Seq<char> {
    repeat(piece, n) + "\n"@
}

/// The report up to its first colour line: title, frames analysed, time
/// taken (as already written out) and the heading of the list.
pub open spec fn report_head(frames: nat, elapsed: Seq<char>) -> Seq<char> {
    rule("═"@, 52) + "      REPORTE FINAL — CONTADOR DE COLORES\n"@ + rule("═"@, 52)
        + "  Frames procesados : "@ + decimal(frames) + "\n"@ + "  Tiempo total      : "@
        + elapsed + " segundos\n\n"@ + "  OBJETOS DETECTADOS POR COLOR:\n"@ + "  "@ + rule(
        "─"@,
        40,
    )
}

/// The report line of one colour: its name left-aligned in 12 characters,
/// its count right-aligned in 5, and its share of all detections in whole
/// percent, right-aligned in 3.
pub open spec fn report_line(name: Seq<char>, count: nat, total: nat) -> Seq<char> {
    "  "@ + pad_right(name, 12) + " "@ + pad_left(decimal(count), 5) + " detecciones "@ + pad_left(
        decimal(percent(count, total)),
        3,
    ) + "%\n"@
}

/// The lines of the first `k` colours of the order `o`, for the map of
/// counts `m`.
pub open spec fn report_lines(
    names: Seq<Seq<char>>,
    m: Seq<Option<usize>>,
    o: Seq<usize>,
    k: nat,
) -> Seq<char>
    decreases k,
{
    if k == 0 {
        Seq::empty()
    } else {
        report_lines(names, m, o, (k - 1) as nat) + report_line(
            names[o[k - 1] as int],
            count_of(m[o[k - 1] as int]) as nat,
            sum(counts_of(m)),
        )
    }
}

/// The upper-case form of a colour name as the report writes it: on ASCII
/// names, the letters `a`..`z` turned into `A`..`Z`.
pub open spec fn upper_name(name: Seq<char>) -> Seq<char> {
    if is_ascii_text(name) {
        ascii_upper(name)
    } else {
        uppercase(name)
    }
}

/// The end of the report: the first colour of the order in upper case, when
/// the map has any entry, and the closing rule.
pub open spec fn report_tail(names: Seq<Seq<char>>, o: Seq<usize>) -> Seq<char> {
    (if o.len() > 0 {
        "\n  COLOR MÁS FRECUENTE: "@ + upper_name(names[o[0] as int]) + "\n"@
    } else {
        Seq::empty()
    }) + rule("═"@, 52)
}

/// The whole report.
pub open spec fn report_text(
    names: Seq<Seq<char>>,
    m: Seq<Option<usize>>,
    frames: nat,
    elapsed: Seq<char>,
) -> Seq<char> {
    let o = ranked(m);
    report_head(frames, elapsed) + report_lines(names, m, o, o.len()) + report_tail(names, o)
}

/// The report depends on the colours only through their names: two tables
/// with the same names, read with the same map of counts, frames and time,
/// give the same report, whatever their HSV boxes and display colours.
pub proof fn lemma_report_depends_on_names(
    a: Seq<ColorRange>,
    b: Seq<ColorRange>,
    m: Seq<Option<usize>>,
    frames: nat,
    elapsed: Seq<char>,
)
    requires
        a.len() == b.len(),
        forall|i: int| 0 <= i < a.len() ==> #[trigger] a[i].name@ == b[i].name@,
    ensures
        report_text(names_of(a), m, frames, elapsed) == report_text(names_of(b), m, frames, elapsed),
{
    assert(names_of(a) =~= names_of(b));
}

/// Appends a line of `n` copies of `piece`.
fn push_rule(s: &mut String, piece: &str, n: usize)
    ensures
        final(s)@ == old(s)@ + rule(piece@, n as nat),
{
    push_repeated(s, piece, n);
    s.append("\n");
    assert(s@ =~= old(s)@ + rule(piece@, n as nat));
}

/// Appends the report line of one colour.
fn push_report_line(s: &mut String, name: &str, count: usize, total: usize)
    requires
        count <= total,
        count * 100 <= usize::MAX,
    ensures
        final(s)@ == old(s)@ + report_line(name@, count as nat, total as nat),
{
    let pct = percent_of(count, total);
    let count_text = crate::text::decimal_string(count);
    s.append("  ");
    push_padded_right(s, name, 12);
    s.append(" ");
    push_padded_left(s, count_text.as_str(), 5);
    s.append(" detecciones ");
    let pct_text = crate::text::decimal_string(pct);
    push_padded_left(s, pct_text.as_str(), 3);
    s.append("%\n");
    assert(s@ =~= old(s)@ + report_line(name@, count as nat, total as nat));
}

/// The final report for the colours `colors` with the map of detections
/// `totals` (an entry per colour, by place in the table, `None` for a
/// colour without an entry), `total_frames` frames analysed and the time
/// taken already written out as `elapsed` (in seconds, one decimal).
pub fn build_report(
    colors: &Vec<ColorRange>,
    totals: &Vec<Option<usize>>,
    total_frames: usize,
    elapsed: &str,
) -> (r: String)
    requires
        totals.len() == colors.len(),
        sum(counts_of(totals@)) <= usize::MAX,
        forall|c: int|
            0 <= c < totals.len() ==> #[trigger] counts_of(totals@)[c] * 100 <= usize::MAX,
    ensures
        r@ == report_text(names_of(colors@), totals@, total_frames as nat, elapsed@),
{
    let ghost names = names_of(colors@);
    let total = total_objects(totals);
    let order = report_order(totals);
    let mut s = String::new();
    push_rule(&mut s, "═", 52);
    s.append("      REPORTE FINAL — CONTADOR DE COLORES\n");
    push_rule(&mut s, "═", 52);
    s.append("  Frames procesados : ");
    push_decimal(&mut s, total_frames);
    s.append("\n");
    s.append("  Tiempo total      : ");
    s.append(elapsed);
    s.append(" segundos\n\n");
    s.append("  OBJETOS DETECTADOS POR COLOR:\n");
    s.append("  ");
    push_rule(&mut s, "─", 40);
    let ghost head = s@;
    assert(head =~= report_head(total_frames as nat, elapsed@));
    let mut k: usize = 0;
    while k < order.len()
        invariant
            k <= order.len(),
            totals.len() == colors.len(),
            names == names_of(colors@),
            is_report_order(totals@, order@),
            total == sum(counts_of(totals@)),
            forall|c: int|
                0 <= c < totals.len() ==> #[trigger] counts_of(totals@)[c] * 100 <= usize::MAX,
            s@ == head + report_lines(names, totals@, order@, k as nat),
        decreases order.len() - k,
    {
        let c = order[k];
        proof {
            lemma_count_le_sum(counts_of(totals@), c as int);
        }
        push_report_line(&mut s, colors[c].name, count_at(totals, c), total);
        k = k + 1;
        assert(s@ =~= head + report_lines(names, totals@, order@, k as nat));
    }
    let ghost lines = s@;
    if order.len() > 0 {
        let upper = to_uppercase(colors[order[0]].name);
        assert(upper@ == upper_name(names[order@[0] as int]));
        s.append("\n  COLOR MÁS FRECUENTE: ");
        s.append(upper.as_str());
        s.append("\n");
    }
    push_rule(&mut s, "═", 52);
    assert(s@ =~= lines + report_tail(names, order@));
    s
}

} // verus!
