//! Report rendering: rows sorted by descending byte count with percentages
//! of the grand total, between fixed separators, or a "no files" message for
//! an empty tally.

use vstd::prelude::*;
use vstd::seq_lib::*;
use vstd::string::*;

use crate::aggregate::Aggregate;
use crate::aggregate::lemma_sum_concat;
use crate::aggregate::lemma_sum_row_le;
use crate::aggregate::rows_view;
use crate::aggregate::sum_bytes;
use crate::numfmt::format_size;
use crate::numfmt::pad_left;
use crate::numfmt::pad_left_chars;
use crate::numfmt::pad_right;
use crate::numfmt::pad_right_chars;
use crate::numfmt::percent_string;
use crate::numfmt::spec_format_size;
use crate::numfmt::spec_percent;

verus! {

/// `r` inserted into the descending-sorted `s`, after every row whose count
/// is at least `r`'s: a later-seen row never overtakes an earlier-seen row
/// of equal count.
pub open spec fn insert_desc(r: (Seq<char>, nat), s: Seq<(Seq<char>, nat)>) -> Seq<
    (Seq<char>, nat),
>
    decreases s.len(),
{
    if s.len() == 0 {
        seq![r]
    } else if s[0].1 >= r.1 {
        seq![s[0]] + insert_desc(r, s.drop_first())
    } else {
        seq![r] + s
    }
}

/// The rows sorted by byte count, largest first; rows of equal count keep
/// the relative order in which they stand in `v`, that is, the order in
/// which their labels were first seen.
pub open spec fn sort_rows(v: Seq<(Seq<char>, nat)>) -> Seq<(Seq<char>, nat)>
    decreases v.len(),
{
    if v.len() == 0 {
        Seq::empty()
    } else {
        insert_desc(v.last(), sort_rows(v.drop_last()))
    }
}

/// Byte counts never increase from one row to the next.
pub open spec fn sorted_desc(s: Seq<(Seq<char>, nat)>) -> bool {
    forall|i: int, j: int| 0 <= i <= j < s.len() ==> (#[trigger] s[i]).1 >= (#[trigger] s[j]).1
}

/// In a descending-sorted sequence there is a first index whose count is
/// below `r`'s (possibly the end); `insert_desc` puts `r` exactly there.
proof fn first_smaller_index(r: (Seq<char>, nat), s: Seq<(Seq<char>, nat)>) -> (j: int)
    requires
        sorted_desc(s),
    ensures
        0 <= j <= s.len(),
        forall|k: int| 0 <= k < j ==> (#[trigger] s[k]).1 >= r.1,
        j == s.len() || s[j].1 < r.1,
    decreases s.len(),
{
    if s.len() == 0 {
        0
    } else if s[0].1 < r.1 {
        0
    } else {
        let rest = first_smaller_index(r, s.drop_first());
        assert forall|k: int| 0 <= k < rest + 1 implies (#[trigger] s[k]).1 >= r.1 by {
            if k > 0 {
                assert(s.drop_first()[k - 1] == s[k]);
            }
        }
        if rest < s.drop_first().len() {
            assert(s.drop_first()[rest] == s[rest + 1]);
        }
        rest + 1
    }
}

proof fn lemma_insert_desc_at(r: (Seq<char>, nat), s: Seq<(Seq<char>, nat)>, j: int)
    requires
        0 <= j <= s.len(),
        forall|k: int| 0 <= k < j ==> (#[trigger] s[k]).1 >= r.1,
        j == s.len() || s[j].1 < r.1,
    ensures
        insert_desc(r, s) == s.insert(j, r),
    decreases s.len(),
{
    if s.len() == 0 {
        assert(insert_desc(r, s) =~= s.insert(0, r));
    } else if s[0].1 >= r.1 {
        assert(j >= 1) by {
            if j == 0 {
                assert(s[0].1 < r.1);
            }
        }
        assert forall|k: int| 0 <= k < j - 1 implies (#[trigger] s.drop_first()[k]).1 >= r.1 by {
            assert(s.drop_first()[k] == s[k + 1]);
        }
        if j - 1 < s.drop_first().len() {
            assert(s.drop_first()[j - 1] == s[j]);
        }
        lemma_insert_desc_at(r, s.drop_first(), j - 1);
        assert(seq![s[0]] + s.drop_first().insert(j - 1, r) =~= s.insert(j, r));
    } else {
        assert(j == 0);
        assert(seq![r] + s =~= s.insert(0, r));
    }
}

/// Inserting a row into a descending-sorted sequence keeps it sorted, adds
/// exactly that row (as a multiset), and raises the total by its count.
pub proof fn lemma_insert_desc_props(r: (Seq<char>, nat), s: Seq<(Seq<char>, nat)>)
    requires
        sorted_desc(s),
    ensures
        sorted_desc(insert_desc(r, s)),
        insert_desc(r, s).to_multiset() == s.to_multiset().insert(r),
        insert_desc(r, s).len() == s.len() + 1,
        sum_bytes(insert_desc(r, s)) == sum_bytes(s) + r.1,
{
    let j = first_smaller_index(r, s);
    lemma_insert_desc_at(r, s, j);
    let w = s.insert(j, r);
    s.insert_ensures(j, r);
    to_multiset_insert(s, j, r);
    assert forall|p: int, q: int|
        0 <= p <= q < w.len() implies (#[trigger] w[p]).1 >= (#[trigger] w[q]).1 by {
        if p < j {
            assert(w[p] == s[p]);
        }
        if q < j {
            assert(w[q] == s[q]);
        }
        if p > j {
            assert(w[p] == s[p - 1]);
        }
        if q > j {
            assert(w[q] == s[q - 1]);
        }
    }
    let front = s.subrange(0, j);
    let back = s.subrange(j, s.len() as int);
    assert(w =~= front.push(r) + back);
    lemma_sum_concat(front.push(r), back);
    assert(front.push(r).drop_last() =~= front);
    assert(s =~= front + back);
    lemma_sum_concat(front, back);
}

/// Sorting neither invents, drops nor alters a row: the result is sorted by
/// descending count, is the same collection of rows, and keeps the total.
pub proof fn lemma_sort_rows_props(v: Seq<(Seq<char>, nat)>)
    ensures
        sorted_desc(sort_rows(v)),
        sort_rows(v).to_multiset() == v.to_multiset(),
        sort_rows(v).len() == v.len(),
        sum_bytes(sort_rows(v)) == sum_bytes(v),
    decreases v.len(),
{
    broadcast use vstd::seq_lib::group_to_multiset_ensures;

    if v.len() > 0 {
        lemma_sort_rows_props(v.drop_last());
        lemma_insert_desc_props(v.last(), sort_rows(v.drop_last()));
        assert(v.drop_last().push(v.last()) =~= v);
    }
}

/// The predicate selecting rows of byte count `c`.
pub open spec fn has_count(c: nat) -> spec_fn((Seq<char>, nat)) -> bool {
    |r: (Seq<char>, nat)| r.1 == c
}

proof fn lemma_filter_none(s: Seq<(Seq<char>, nat)>, pred: spec_fn((Seq<char>, nat)) -> bool)
    requires
        forall|k: int| 0 <= k < s.len() ==> !pred(#[trigger] s[k]),
    ensures
        s.filter(pred) == Seq::<(Seq<char>, nat)>::empty(),
    decreases s.len(),
{
    reveal(Seq::filter);
    if s.len() > 0 {
        lemma_filter_none(s.drop_last(), pred);
    }
}

proof fn lemma_insert_desc_filter(r: (Seq<char>, nat), s: Seq<(Seq<char>, nat)>, c: nat)
    requires
        sorted_desc(s),
    ensures
        r.1 == c ==> insert_desc(r, s).filter(has_count(c)) == s.filter(has_count(c)).push(r),
        r.1 != c ==> insert_desc(r, s).filter(has_count(c)) == s.filter(has_count(c)),
{
    reveal(Seq::filter);
    let pred = has_count(c);
    let j = first_smaller_index(r, s);
    lemma_insert_desc_at(r, s, j);
    let front = s.subrange(0, j);
    let back = s.subrange(j, s.len() as int);
    assert(s.insert(j, r) =~= front + (seq![r] + back));
    Seq::filter_distributes_over_add(front, seq![r] + back, pred);
    Seq::filter_distributes_over_add(seq![r], back, pred);
    assert(s =~= front + back);
    Seq::filter_distributes_over_add(front, back, pred);
    assert(seq![r].drop_last() =~= Seq::<(Seq<char>, nat)>::empty());
    if r.1 == c {
        assert(seq![r].filter(pred) =~= seq![r]);
        assert forall|k: int| 0 <= k < back.len() implies !pred(#[trigger] back[k]) by {
            assert(back[k] == s[j + k]);
            assert(s[j + k].1 <= s[j].1);
        }
        lemma_filter_none(back, pred);
        assert(insert_desc(r, s).filter(pred) =~= s.filter(pred).push(r));
    } else {
        assert forall|k: int| 0 <= k < seq![r].len() implies !pred(#[trigger] seq![r][k]) by {
            assert(seq![r][k] == r);
        }
        lemma_filter_none(seq![r], pred);
        assert(insert_desc(r, s).filter(pred) =~= s.filter(pred));
    }
}

/// The sort's tie-break is stable: for any byte count, the rows carrying
/// exactly that count stand in the sorted result in the very order they
/// stand in `v` — the order in which their labels were first seen.
pub proof fn lemma_sort_rows_stable(v: Seq<(Seq<char>, nat)>, c: nat)
    ensures
        sort_rows(v).filter(has_count(c)) == v.filter(has_count(c)),
    decreases v.len(),
{
    reveal(Seq::filter);
    if v.len() > 0 {
        lemma_sort_rows_stable(v.drop_last(), c);
        lemma_sort_rows_props(v.drop_last());
        lemma_insert_desc_filter(v.last(), sort_rows(v.drop_last()), c);
    }
}

/// The sum of the full-precision percentage numerators of all rows: each
/// row's count scaled by 100.
pub open spec fn percent_numerator_sum(v: Seq<(Seq<char>, nat)>) -> nat
    decreases v.len(),
{
    if v.len() == 0 {
        0
    } else {
        100 * v.last().1 + percent_numerator_sum(v.drop_last())
    }
}

/// At full precision the row percentages sum to exactly 100. Each row's
/// exact percentage is `100 * count / total`; over a common denominator the
/// numerators sum to `100 * total`, so dividing by a positive total gives
/// exactly 100 — the rendered footer's `100.00%` up to display rounding.
pub proof fn lemma_percentages_sum(v: Seq<(Seq<char>, nat)>)
    ensures
        percent_numerator_sum(v) == 100 * sum_bytes(v),
        sum_bytes(v) > 0 ==> percent_numerator_sum(v) / sum_bytes(v) == 100,
    decreases v.len(),
{
    if v.len() > 0 {
        lemma_percentages_sum(v.drop_last());
    }
    if sum_bytes(v) > 0 {
        vstd::arithmetic::div_mod::lemma_div_by_multiple(100, sum_bytes(v) as int);
    }
}

/// The fixed message for a scan that found no classifiable files.
pub open spec fn no_files_message() -> Seq<char> {
    "No files found.\n"@
}

/// The run of 70 `'='` characters that separates the table's sections.
pub open spec fn eq_run(n: nat) -> Seq<char>
    decreases n,
{
    if n == 0 {
        Seq::empty()
    } else {
        eq_run((n - 1) as nat).push('=')
    }
}

pub open spec fn separator_line() -> Seq<char> {
    eq_run(70) + "\n"@
}

pub open spec fn header_line() -> Seq<char> {
    pad_right_chars("File Type"@, 30) + " "@ + pad_right_chars("Size"@, 20) + " "@
        + pad_left_chars("Percentage"@, 10) + "\n"@
}

/// One table row: the label, the human-scaled size and the percentage of
/// the grand total, in fixed-width columns.
pub open spec fn row_line(label: Seq<char>, bytes: nat, total: nat) -> Seq<char> {
    pad_right_chars(label, 30) + " "@ + pad_right_chars(spec_format_size(bytes), 20) + " "@
        + pad_left_chars(spec_percent(bytes, total), 9) + "%\n"@
}

/// The footer row: the literal label `Total`, the grand total human-scaled,
/// and the fixed `100.00%`.
pub open spec fn footer_line(total: nat) -> Seq<char> {
    pad_right_chars("Total"@, 30) + " "@ + pad_right_chars(spec_format_size(total), 20) + " "@
        + pad_left_chars("100.00"@, 9) + "%\n"@
}

/// All table rows in order, one line each.
pub open spec fn rows_lines(s: Seq<(Seq<char>, nat)>, total: nat) -> Seq<char>
    decreases s.len(),
{
    if s.len() == 0 {
        Seq::empty()
    } else {
        rows_lines(s.drop_last(), total) + row_line(s.last().0, s.last().1, total)
    }
}

/// The whole report: the fixed "no files" message for an empty tally, else
/// the table — blank line, separator, header, separator, one line per row
/// sorted by descending count, separator, footer, separator, blank line.
pub open spec fn spec_render(v: Seq<(Seq<char>, nat)>) -> Seq<char> {
    if v.len() == 0 {
        no_files_message()
    } else {
        "\n"@ + separator_line() + header_line() + separator_line() + rows_lines(
            sort_rows(v),
            sum_bytes(v),
        ) + separator_line() + footer_line(sum_bytes(v)) + separator_line() + "\n"@
    }
}

/// The tally's rows sorted by byte count, largest first; equal counts keep
/// first-seen order.
pub fn sorted_rows(agg: &Aggregate) -> (r: Vec<(String, u64)>)
    ensures
        rows_view(r@) == sort_rows(agg@),
{
    let ghost v = agg@;
    let n = agg.len();
    let mut out: Vec<(String, u64)> = Vec::new();
    proof {
        assert(rows_view(out@) =~= sort_rows(v.take(0)));
    }
    let mut i: usize = 0;
    while i < n
        invariant
            v == agg@,
            n == v.len(),
            i <= n,
            out@.len() == i,
            rows_view(out@) == sort_rows(v.take(i as int)),
            sorted_desc(rows_view(out@)),
        decreases n - i,
    {
        let row = agg.row_at(i);
        let ghost rv = (row.0@, row.1 as nat);
        let ghost before = rows_view(out@);
        proof {
            assert(rv == v[i as int]);
        }
        let mut j: usize = 0;
        while j < out.len() && out[j].1 >= row.1
            invariant
                out@.len() == before.len(),
                before == rows_view(out@),
                j <= out@.len(),
                forall|k: int| 0 <= k < j ==> (#[trigger] before[k]).1 >= rv.1,
                rv.1 == row.1,
            decreases out@.len() - j,
        {
            proof {
                assert(before[j as int].1 == out@[j as int].1 as nat);
            }
            j += 1;
        }
        proof {
            if (j as int) < before.len() {
                assert(before[j as int].1 == out@[j as int].1 as nat);
            }
            lemma_insert_desc_at(rv, before, j as int);
            lemma_insert_desc_props(rv, before);
        }
        out.insert(j, row);
        proof {
            assert(rows_view(out@) =~= before.insert(j as int, rv));
            assert(v.take(i as int + 1).drop_last() =~= v.take(i as int));
            assert(v.take(i as int + 1).last() == v[i as int]);
            assert(rows_view(out@) == sort_rows(v.take(i as int + 1)));
        }
        i += 1;
    }
    proof {
        assert(v.take(n as int) =~= v);
    }
    out
}

fn append_separator(out: &mut String)
    ensures
        final(out)@ == old(out)@ + separator_line(),
{
    let mut i: usize = 0;
    proof {
        reveal_strlit("=");
        assert(old(out)@ + eq_run(0) =~= old(out)@);
    }
    while i < 70
        invariant
            i <= 70,
            out@ == old(out)@ + eq_run(i as nat),
            "="@ =~= seq!['='],
        decreases 70 - i,
    {
        out.append("=");
        proof {
            assert(out@ =~= old(out)@ + eq_run((i + 1) as nat));
        }
        i += 1;
    }
    out.append("\n");
    proof {
        assert(out@ =~= old(out)@ + separator_line());
    }
}

fn append_header_line(out: &mut String)
    ensures
        final(out)@ == old(out)@ + header_line(),
{
    let p1 = pad_right("File Type", 30);
    out.append(p1.as_str());
    out.append(" ");
    let p2 = pad_right("Size", 20);
    out.append(p2.as_str());
    out.append(" ");
    let p3 = pad_left("Percentage", 10);
    out.append(p3.as_str());
    out.append("\n");
    proof {
        assert(out@ =~= old(out)@ + header_line());
    }
}

fn append_row_line(out: &mut String, label: &str, bytes: u64, total: u64)
    requires
        bytes <= total,
    ensures
        final(out)@ == old(out)@ + row_line(label@, bytes as nat, total as nat),
{
    let p1 = pad_right(label, 30);
    out.append(p1.as_str());
    out.append(" ");
    let fs = format_size(bytes);
    let p2 = pad_right(fs.as_str(), 20);
    out.append(p2.as_str());
    out.append(" ");
    let pc = percent_string(bytes, total);
    let p3 = pad_left(pc.as_str(), 9);
    out.append(p3.as_str());
    out.append("%\n");
    proof {
        assert(out@ =~= old(out)@ + row_line(label@, bytes as nat, total as nat));
    }
}

fn append_footer_line(out: &mut String, total: u64)
    ensures
        final(out)@ == old(out)@ + footer_line(total as nat),
{
    let p1 = pad_right("Total", 30);
    out.append(p1.as_str());
    out.append(" ");
    let fs = format_size(total);
    let p2 = pad_right(fs.as_str(), 20);
    out.append(p2.as_str());
    out.append(" ");
    let p3 = pad_left("100.00", 9);
    out.append(p3.as_str());
    out.append("%\n");
    proof {
        assert(out@ =~= old(out)@ + footer_line(total as nat));
    }
}

/// Renders the finished tally as text: the fixed "no files" message when the
/// tally is empty (never a zero-row table), else the full table with one row
/// per label, sorted by descending byte count, each with its share of the
/// grand total, and a footer carrying the grand total and `100.00%`.
pub fn render_report(agg: &Aggregate) -> (r: String)
    requires
        agg.wf(),
    ensures
        r@ == spec_render(agg@),
{
    let ghost v = agg@;
    if agg.is_empty() {
        return "No files found.\n".to_owned();
    }
    let total = agg.total();
    let sorted = sorted_rows(agg);
    let ghost sv = rows_view(sorted@);
    proof {
        lemma_sort_rows_props(v);
    }
    let mut out = String::new();
    out.append("\n");
    append_separator(&mut out);
    append_header_line(&mut out);
    append_separator(&mut out);
    let ghost prefix = "\n"@ + separator_line() + header_line() + separator_line();
    proof {
        assert(out@ =~= prefix);
        assert(out@ =~= prefix + rows_lines(sv.take(0), total as nat));
    }
    let n = sorted.len();
    let mut i: usize = 0;
    while i < n
        invariant
            agg.wf(),
            v == agg@,
            total as nat == sum_bytes(v),
            n == sorted@.len(),
            sv == rows_view(sorted@),
            sv == sort_rows(v),
            sum_bytes(sv) == sum_bytes(v),
            i <= n,
            prefix == "\n"@ + separator_line() + header_line() + separator_line(),
            out@ == prefix + rows_lines(sv.take(i as int), total as nat),
        decreases n - i,
    {
        proof {
            lemma_sum_row_le(sv, i as int);
            assert(sv[i as int].1 == sorted@[i as int].1 as nat);
        }
        append_row_line(&mut out, sorted[i].0.as_str(), sorted[i].1, total);
        proof {
            assert(sv.take(i as int + 1).drop_last() =~= sv.take(i as int));
            assert(sv.take(i as int + 1).last() == sv[i as int]);
            assert(sv[i as int].0 == sorted@[i as int].0@);
            assert(out@ =~= prefix + rows_lines(sv.take(i as int + 1), total as nat));
        }
        i += 1;
    }
    proof {
        assert(sv.take(n as int) =~= sv);
    }
    let ghost mid = prefix + rows_lines(sv, total as nat);
    proof {
        assert(out@ == mid);
    }
    append_separator(&mut out);
    append_footer_line(&mut out, total);
    append_separator(&mut out);
    out.append("\n");
    proof {
        assert(out@ =~= spec_render(v));
    }
    out
}

} // verus!
