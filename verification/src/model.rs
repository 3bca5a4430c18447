//! Mathematical model of line-oriented byte datasets.
//!
//! A dataset is an ordered list of files, each a byte sequence that is
//! non-empty and newline-terminated. The model describes the logical
//! concatenation of the files, its division into lines, the division of a
//! line into separator-delimited fields, and the bytewise lexicographic
//! order on keys.

use vstd::prelude::*;

verus! {

/// Window size, in bytes, used when inspecting the tail of a byte range.
pub const BUFFER_SIZE: usize = 16384;

/// The line terminator byte.
pub const NL: u8 = 10;

/// The bytes of the logical concatenation of an ordered list of files.
pub open spec fn concat_all(files: Seq<Seq<u8>>) -> Seq<u8>
    decreases files.len(),
{
    if files.len() == 0 {
        Seq::empty()
    } else {
        concat_all(files.drop_last()) + files.last()
    }
}

/// Sum of the lengths of an ordered list of files.
pub open spec fn total_len(files: Seq<Seq<u8>>) -> int
    decreases files.len(),
{
    if files.len() == 0 {
        0
    } else {
        total_len(files.drop_last()) + files.last().len()
    }
}

/// Global offset at which file `i` starts in the concatenation.
pub open spec fn start_of(files: Seq<Seq<u8>>, i: int) -> int {
    total_len(files.take(i))
}

/// Every file is non-empty and newline-terminated, and the concatenation
/// fits in a machine word.
pub open spec fn files_wf(files: Seq<Seq<u8>>) -> bool {
    &&& forall|i: int|
        0 <= i < files.len() ==> #[trigger] files[i].len() > 0 && files[i].last() == NL
    &&& total_len(files) <= usize::MAX
}

/// A byte stream is well formed when it is empty or newline-terminated.
pub open spec fn wf_data(data: Seq<u8>) -> bool {
    data.len() > 0 ==> data.last() == NL
}

/// Index one past the newline that ends the line containing `pos`
/// (`data.len()` when no newline follows `pos`).
pub open spec fn line_end(data: Seq<u8>, pos: int) -> int
    decreases data.len() - pos,
{
    if pos < 0 || pos >= data.len() {
        data.len() as int
    } else if data[pos] == NL {
        pos + 1
    } else {
        line_end(data, pos + 1)
    }
}

/// `pos` begins a line of `data`: it sits right after a newline, or at 0.
pub open spec fn is_line_start(data: Seq<u8>, p: int) -> bool {
    0 <= p < data.len() && (p == 0 || data[p - 1] == NL)
}

/// The line containing `pos`, from `pos` through its newline.
pub open spec fn line_at(data: Seq<u8>, pos: int) -> Seq<u8> {
    data.subrange(pos, line_end(data, pos))
}

/// A line without its trailing newline, if it has one.
pub open spec fn strip_nl(line: Seq<u8>) -> Seq<u8> {
    if line.len() > 0 && line.last() == NL {
        line.drop_last()
    } else {
        line
    }
}

pub proof fn lemma_line_end_lb(data: Seq<u8>, pos: int)
    requires
        0 <= pos < data.len(),
    ensures
        pos < line_end(data, pos) <= data.len(),
    decreases data.len() - pos,
{
    if data[pos] == NL {
    } else if pos + 1 < data.len() {
        lemma_line_end_lb(data, pos + 1);
    } else {
        assert(line_end(data, pos + 1) == data.len());
    }
}

/// Inside a line no byte is a newline, and the line's final byte is one
/// (given that the stream is newline-terminated).
pub proof fn lemma_line_end_props(data: Seq<u8>, pos: int)
    requires
        0 <= pos < data.len(),
        wf_data(data),
    ensures
        pos < line_end(data, pos) <= data.len(),
        data[line_end(data, pos) - 1] == NL,
        forall|k: int| pos <= k < line_end(data, pos) - 1 ==> data[k] != NL,
    decreases data.len() - pos,
{
    if data[pos] == NL {
    } else {
        lemma_line_end_props(data, pos + 1);
    }
}

/// `line_end` is pinned by its characteristic properties.
pub proof fn lemma_line_end_char(data: Seq<u8>, pos: int, e: int)
    requires
        0 <= pos < e <= data.len(),
        data[e - 1] == NL,
        forall|k: int| pos <= k < e - 1 ==> data[k] != NL,
    ensures
        line_end(data, pos) == e,
    decreases data.len() - pos,
{
    if data[pos] == NL {
        assert(e == pos + 1) by {
            if e > pos + 1 {
                assert(data[pos] != NL);
            }
        }
    } else {
        lemma_line_end_char(data, pos + 1, e);
    }
}

/// A line never runs past a later line start.
pub proof fn lemma_line_end_le(data: Seq<u8>, pos: int, s: int)
    requires
        0 <= pos < s <= data.len(),
        data[s - 1] == NL,
    ensures
        line_end(data, pos) <= s,
    decreases data.len() - pos,
{
    if data[pos] == NL {
    } else {
        assert(pos + 1 < s || pos + 1 == s);
        if pos + 1 == s {
            assert(data[s - 1] != NL);
        } else {
            lemma_line_end_le(data, pos + 1, s);
        }
    }
}

/// A line start strictly inside a line coincides with the line's end.
pub proof fn lemma_start_in_line(data: Seq<u8>, pos: int, s: int)
    requires
        wf_data(data),
        0 <= pos < data.len(),
        is_line_start(data, s),
        pos < s <= line_end(data, pos),
    ensures
        s == line_end(data, pos),
{
    lemma_line_end_props(data, pos);
    if s < line_end(data, pos) {
        assert(data[s - 1] != NL);
    }
}

/// Index of the first separator byte in `s` (`s.len()` if none occurs).
pub open spec fn first_sep(s: Seq<u8>, sep: u8) -> int
    decreases s.len(),
{
    if s.len() == 0 {
        0
    } else if s[0] == sep {
        0
    } else {
        1 + first_sep(s.skip(1), sep)
    }
}

pub proof fn lemma_first_sep_bounds(s: Seq<u8>, sep: u8)
    ensures
        0 <= first_sep(s, sep) <= s.len(),
        first_sep(s, sep) < s.len() ==> s[first_sep(s, sep)] == sep,
        forall|k: int| 0 <= k < first_sep(s, sep) ==> s[k] != sep,
    decreases s.len(),
{
    if s.len() > 0 && s[0] != sep {
        lemma_first_sep_bounds(s.skip(1), sep);
        let i = first_sep(s, sep);
        if i < s.len() {
            assert(s[i] == s.skip(1)[i - 1]);
        }
        assert forall|k: int| 0 <= k < i implies s[k] != sep by {
            if k >= 1 {
                assert(s[k] == s.skip(1)[k - 1]);
            }
        }
    }
}

/// `first_sep` is pinned by its characteristic properties.
pub proof fn lemma_first_sep_char(s: Seq<u8>, sep: u8, i: int)
    requires
        0 <= i <= s.len(),
        i < s.len() ==> s[i] == sep,
        forall|k: int| 0 <= k < i ==> s[k] != sep,
    ensures
        first_sep(s, sep) == i,
    decreases s.len(),
{
    if s.len() == 0 {
    } else if s[0] == sep {
        assert(i == 0) by {
            if i > 0 {
                assert(s[0] != sep);
            }
        }
    } else {
        assert(i >= 1);
        lemma_first_sep_char(s.skip(1), sep, i - 1);
    }
}

/// Number of separator-delimited fields of `s`: one more than the number
/// of separator bytes.
pub open spec fn num_fields(s: Seq<u8>, sep: u8) -> int
    decreases s.len(),
    via num_fields_decreases
{
    if first_sep(s, sep) == s.len() {
        1
    } else {
        1 + num_fields(s.skip(first_sep(s, sep) + 1), sep)
    }
}

#[via_fn]
proof fn num_fields_decreases(s: Seq<u8>, sep: u8) {
    lemma_first_sep_bounds(s, sep);
}

/// Field `k` of `s` when split by the separator (field 0 if `k` is out of
/// range below, the final piece if above).
pub open spec fn field_of(s: Seq<u8>, sep: u8, k: int) -> Seq<u8>
    decreases k,
{
    if k <= 0 || first_sep(s, sep) >= s.len() {
        s.take(first_sep(s, sep))
    } else {
        field_of(s.skip(first_sep(s, sep) + 1), sep, k - 1)
    }
}

pub proof fn lemma_num_fields_pos(s: Seq<u8>, sep: u8)
    ensures
        num_fields(s, sep) >= 1,
    decreases s.len(),
{
    lemma_first_sep_bounds(s, sep);
    if first_sep(s, sep) < s.len() {
        lemma_num_fields_pos(s.skip(first_sep(s, sep) + 1), sep);
    }
}

/// Stepping over a leading separator drops one field.
pub proof fn lemma_field_step_sep(s: Seq<u8>, sep: u8, k: int)
    requires
        s.len() > 0,
        s[0] == sep,
        k >= 1,
    ensures
        num_fields(s, sep) == 1 + num_fields(s.skip(1), sep),
        field_of(s, sep, k) == field_of(s.skip(1), sep, k - 1),
{
    assert(first_sep(s, sep) == 0);
    lemma_num_fields_pos(s.skip(1), sep);
}

/// Stepping over a non-separator byte keeps the field structure, beyond
/// field zero.
pub proof fn lemma_field_step_nonsep(s: Seq<u8>, sep: u8, k: int)
    requires
        s.len() > 0,
        s[0] != sep,
        k >= 1,
    ensures
        num_fields(s, sep) == num_fields(s.skip(1), sep),
        num_fields(s, sep) > 1 ==> field_of(s, sep, k) == field_of(s.skip(1), sep, k),
{
    let i = first_sep(s, sep);
    lemma_first_sep_bounds(s, sep);
    lemma_first_sep_bounds(s.skip(1), sep);
    assert(i == 1 + first_sep(s.skip(1), sep));
    if i < s.len() {
        assert(s.skip(i + 1) =~= s.skip(1).skip(i - 1 + 1));
    } else {
        assert(first_sep(s.skip(1), sep) == s.skip(1).len());
    }
}

/// All fields of `s`, split by the separator.
pub open spec fn split_fields(s: Seq<u8>, sep: u8) -> Seq<Seq<u8>>
    decreases s.len(),
    via split_fields_decreases
{
    if first_sep(s, sep) == s.len() {
        seq![s]
    } else {
        seq![s.take(first_sep(s, sep))] + split_fields(s.skip(first_sep(s, sep) + 1), sep)
    }
}

#[via_fn]
proof fn split_fields_decreases(s: Seq<u8>, sep: u8) {
    lemma_first_sep_bounds(s, sep);
}

/// The field list and the field selector agree.
pub proof fn lemma_split_fields_index(s: Seq<u8>, sep: u8)
    ensures
        split_fields(s, sep).len() == num_fields(s, sep),
        forall|k: int|
            0 <= k < num_fields(s, sep) ==> #[trigger] split_fields(s, sep)[k] == field_of(
                s,
                sep,
                k,
            ),
    decreases s.len(),
{
    let i = first_sep(s, sep);
    lemma_first_sep_bounds(s, sep);
    if i < s.len() {
        lemma_split_fields_index(s.skip(i + 1), sep);
        assert forall|k: int| 0 <= k < num_fields(s, sep) implies #[trigger] split_fields(
            s,
            sep,
        )[k] == field_of(s, sep, k) by {
            if k >= 1 {
                assert(split_fields(s, sep)[k] == split_fields(s.skip(i + 1), sep)[k - 1]);
            }
        }
    }
}

/// A separator-free sequence is one single field.
pub proof fn lemma_split_no_sep(cur: Seq<u8>, sep: u8)
    requires
        forall|k: int| 0 <= k < cur.len() ==> cur[k] != sep,
    ensures
        split_fields(cur, sep) == seq![cur],
{
    lemma_first_sep_char(cur, sep, cur.len() as int);
    assert(cur.take(cur.len() as int) =~= cur);
    if first_sep(cur, sep) == cur.len() {
    }
}

/// Splitting at the first separator peels off the first field.
pub proof fn lemma_split_at_sep(cur: Seq<u8>, sep: u8, rest: Seq<u8>)
    requires
        forall|k: int| 0 <= k < cur.len() ==> cur[k] != sep,
    ensures
        split_fields(cur + seq![sep] + rest, sep) == seq![cur] + split_fields(rest, sep),
{
    let s = cur + seq![sep] + rest;
    assert(s[cur.len() as int] == sep);
    assert forall|k: int| 0 <= k < cur.len() implies s[k] != sep by {
        assert(s[k] == cur[k]);
    }
    lemma_first_sep_char(s, sep, cur.len() as int);
    assert(s.take(cur.len() as int) =~= cur);
    assert(s.skip(cur.len() as int + 1) =~= rest);
}

/// A line parsed into its fields: the newline removed, the rest split by
/// the separator.
pub open spec fn row_of(line: Seq<u8>, sep: u8) -> Seq<Seq<u8>> {
    split_fields(strip_nl(line), sep)
}

/// The rows a range reader delivers: its lines, parsed.
pub open spec fn range_rows(data: Seq<u8>, from: int, end: int, sep: u8) -> Seq<Seq<Seq<u8>>> {
    range_lines(data, from, end).map_values(|l: Seq<u8>| row_of(l, sep))
}

/// The chosen fields of a matched pair of rows, joined by the separator.
pub open spec fn emit_fields(
    rowa: Seq<Seq<u8>>,
    rowb: Seq<Seq<u8>>,
    outspec: Seq<(bool, int)>,
    sep: u8,
) -> Seq<u8>
    decreases outspec.len(),
{
    if outspec.len() == 0 {
        Seq::empty()
    } else {
        let v = if outspec[0].0 {
            rowa[outspec[0].1]
        } else {
            rowb[outspec[0].1]
        };
        if outspec.len() == 1 {
            v
        } else {
            v + seq![sep] + emit_fields(rowa, rowb, outspec.drop_first(), sep)
        }
    }
}

/// The output line of one match, newline-terminated.
pub open spec fn emit_row(
    rowa: Seq<Seq<u8>>,
    rowb: Seq<Seq<u8>>,
    outspec: Seq<(bool, int)>,
    sep: u8,
) -> Seq<u8> {
    emit_fields(rowa, rowb, outspec, sep) + seq![NL]
}

/// The output of a two-pointer merge-join of two key-sorted row
/// sequences: one output line per pair of rows with equal keys.
pub open spec fn merge_join_rows(
    ra: Seq<Seq<Seq<u8>>>,
    rb: Seq<Seq<Seq<u8>>>,
    kf1: int,
    kf2: int,
    outspec: Seq<(bool, int)>,
    sep: u8,
) -> Seq<u8>
    decreases ra.len() + rb.len(),
{
    if ra.len() == 0 || rb.len() == 0 {
        Seq::empty()
    } else if lex_lt(ra[0][kf1], rb[0][kf2]) {
        merge_join_rows(ra.drop_first(), rb, kf1, kf2, outspec, sep)
    } else if lex_lt(rb[0][kf2], ra[0][kf1]) {
        merge_join_rows(ra, rb.drop_first(), kf1, kf2, outspec, sep)
    } else {
        emit_row(ra[0], rb[0], outspec, sep) + merge_join_rows(
            ra.drop_first(),
            rb.drop_first(),
            kf1,
            kf2,
            outspec,
            sep,
        )
    }
}

/// Building the emitted fields left to right: appending one selector
/// appends its field, preceded by a separator unless it is the first.
pub proof fn lemma_emit_snoc(
    rowa: Seq<Seq<u8>>,
    rowb: Seq<Seq<u8>>,
    outspec: Seq<(bool, int)>,
    sep: u8,
)
    requires
        outspec.len() >= 1,
    ensures
        emit_fields(rowa, rowb, outspec, sep) == if outspec.len() == 1 {
            if outspec.last().0 {
                rowa[outspec.last().1]
            } else {
                rowb[outspec.last().1]
            }
        } else {
            emit_fields(rowa, rowb, outspec.drop_last(), sep) + seq![sep] + (if outspec.last().0 {
                rowa[outspec.last().1]
            } else {
                rowb[outspec.last().1]
            })
        },
    decreases outspec.len(),
{
    let v0 = if outspec[0].0 {
        rowa[outspec[0].1]
    } else {
        rowb[outspec[0].1]
    };
    let vl = if outspec.last().0 {
        rowa[outspec.last().1]
    } else {
        rowb[outspec.last().1]
    };
    if outspec.len() == 1 {
    } else {
        lemma_emit_snoc(rowa, rowb, outspec.drop_first(), sep);
        assert(outspec.drop_first().last() == outspec.last());
        if outspec.len() == 2 {
            assert(outspec.drop_last().len() == 1);
            assert(outspec.drop_last()[0] == outspec[0]);
            assert(emit_fields(rowa, rowb, outspec.drop_last(), sep) == v0);
            assert(emit_fields(rowa, rowb, outspec.drop_first(), sep) == vl);
        } else {
            assert(outspec.drop_first().drop_last() =~= outspec.drop_last().drop_first());
            assert(outspec.drop_last()[0] == outspec[0]);
            assert(outspec.drop_last().len() >= 2);
            assert(emit_fields(rowa, rowb, outspec.drop_last(), sep) == v0 + seq![sep]
                + emit_fields(rowa, rowb, outspec.drop_last().drop_first(), sep));
            assert(emit_fields(rowa, rowb, outspec, sep) == v0 + seq![sep] + (emit_fields(
                rowa,
                rowb,
                outspec.drop_first().drop_last(),
                sep,
            ) + seq![sep] + vl));
            assert(v0 + seq![sep] + (emit_fields(rowa, rowb, outspec.drop_first().drop_last(), sep)
                + seq![sep] + vl) =~= (v0 + seq![sep] + emit_fields(
                rowa,
                rowb,
                outspec.drop_last().drop_first(),
                sep,
            )) + seq![sep] + vl);
        }
    }
}

/// The line is the same from every position inside it.
pub proof fn lemma_line_end_same(data: Seq<u8>, p: int, c: int)
    requires
        0 <= p < data.len(),
        p <= c < line_end(data, p),
    ensures
        line_end(data, c) == line_end(data, p),
    decreases c - p,
{
    if c > p {
        assert(data[p] != NL);
        assert(line_end(data, p) == line_end(data, p + 1));
        lemma_line_end_same(data, p + 1, c);
    }
}

/// A range whose end reaches the last byte delivers all lines from its
/// start.
pub proof fn lemma_range_to_end(data: Seq<u8>, from: int, e: int)
    requires
        e >= data.len() - 1,
    ensures
        range_lines(data, from, e) == lines_from(data, from),
    decreases data.len() - from,
{
    if !(from < 0 || from >= data.len() || from > e) {
        lemma_line_end_lb(data, from);
        lemma_range_to_end(data, line_end(data, from), e);
    }
}

/// Cutting a range at `c` splits its lines in two: those starting at or
/// before `c`, then those starting after the (possibly cut) line
/// containing `c` — exactly how successive partitions divide the stream.
pub proof fn lemma_range_split(data: Seq<u8>, from: int, c: int, big: int)
    requires
        wf_data(data),
        0 <= from <= c,
        big >= data.len() - 1,
        c <= big,
    ensures
        range_lines(data, from, big) == range_lines(data, from, c) + range_lines(
            data,
            if c >= data.len() {
                c
            } else {
                line_end(data, c)
            },
            big,
        ),
    decreases data.len() - from,
{
    let nf = if c >= data.len() {
        c
    } else {
        line_end(data, c)
    };
    if from >= data.len() {
        assert(c >= data.len());
        assert(range_lines(data, from, big) =~= range_lines(data, from, c) + range_lines(
            data,
            nf,
            big,
        ));
    } else {
        let le = line_end(data, from);
        lemma_line_end_props(data, from);
        if le <= c {
            lemma_range_split(data, le, c, big);
            assert(range_lines(data, from, big) =~= range_lines(data, from, c) + range_lines(
                data,
                nf,
                big,
            ));
        } else {
            lemma_line_end_same(data, from, c);
            assert(c < data.len());
            assert(nf == le);
            assert(range_lines(data, le, c) =~= Seq::<Seq<u8>>::empty());
            assert(range_lines(data, from, c) =~= seq![line_at(data, from)]);
            assert(range_lines(data, from, big) =~= range_lines(data, from, c) + range_lines(
                data,
                nf,
                big,
            ));
        }
    }
}

/// Every row of `rows` is some line of `data`, parsed.
pub open spec fn rows_from_lines(data: Seq<u8>, sep: u8, rows: Seq<Seq<Seq<u8>>>) -> bool {
    forall|j: int|
        0 <= j < rows.len() ==> exists|s: int|
            is_line_start(data, s) && #[trigger] rows[j] == row_of(line_at(data, s), sep)
}

/// Every field selector of `ospec` aimed at this side (`first`) stays
/// within the fields of every line of `data`.
pub open spec fn outspec_fits(data: Seq<u8>, sep: u8, ospec: Seq<(bool, int)>, first: bool) -> bool {
    forall|s: int, k: int|
        #[trigger] is_line_start(data, s) && 0 <= k < ospec.len() && (#[trigger] ospec[k]).0
            == first ==> 0 <= ospec[k].1 < num_fields(strip_nl(line_at(data, s)), sep)
}

/// The rows a range delivers all come from lines of the stream.
pub proof fn lemma_range_rows_from_lines(data: Seq<u8>, from: int, end: int, sep: u8)
    requires
        wf_data(data),
        is_line_start(data, from) || from >= data.len() || from > end,
    ensures
        rows_from_lines(data, sep, range_rows(data, from, end, sep)),
    decreases data.len() - from,
{
    if from < 0 || from >= data.len() || from > end {
        assert(range_lines(data, from, end) =~= Seq::<Seq<u8>>::empty());
    } else {
        let nxt = line_end(data, from);
        lemma_line_end_props(data, from);
        assert(nxt >= data.len() || is_line_start(data, nxt));
        lemma_range_rows_from_lines(data, nxt, end, sep);
        let rows = range_rows(data, from, end, sep);
        let rest = range_rows(data, nxt, end, sep);
        assert(range_lines(data, from, end) == seq![line_at(data, from)] + range_lines(
            data,
            nxt,
            end,
        ));
        assert(rows =~= seq![row_of(line_at(data, from), sep)] + rest);
        assert forall|j: int| 0 <= j < rows.len() implies exists|s: int|
            is_line_start(data, s) && #[trigger] rows[j] == row_of(line_at(data, s), sep) by {
            if j == 0 {
                assert(is_line_start(data, from) && rows[0] == row_of(line_at(data, from), sep));
            } else {
                assert(rows[j] == rest[j - 1]);
            }
        }
    }
}

/// The rows a range delivers, tied to their starting offsets.
pub proof fn lemma_range_rows_at(data: Seq<u8>, from: int, end: int, sep: u8)
    requires
        wf_data(data),
    ensures
        range_starts(data, from, end).len() == range_rows(data, from, end, sep).len(),
        forall|j: int|
            0 <= j < range_starts(data, from, end).len() ==> #[trigger] range_rows(
                data,
                from,
                end,
                sep,
            )[j] == row_of(line_at(data, range_starts(data, from, end)[j]), sep),
        forall|j: int|
            0 <= j < range_starts(data, from, end).len() ==> from <= #[trigger] range_starts(
                data,
                from,
                end,
            )[j] < data.len() && range_starts(data, from, end)[j] <= end,
        forall|j: int|
            0 <= j < range_starts(data, from, end).len() && (is_line_start(data, from) || j > 0)
                ==> is_line_start(data, #[trigger] range_starts(data, from, end)[j]),
    decreases data.len() - from,
{
    if !(from < 0 || from >= data.len() || from > end) {
        lemma_line_end_lb(data, from);
        let nxt = line_end(data, from);
        lemma_range_rows_at(data, nxt, end, sep);
        let starts = range_starts(data, from, end);
        let rows = range_rows(data, from, end, sep);
        assert(rows =~= seq![row_of(line_at(data, from), sep)] + range_rows(data, nxt, end, sep));
        assert(starts == seq![from] + range_starts(data, nxt, end));
        assert forall|j: int| 0 <= j < starts.len() implies (from <= #[trigger] starts[j]
            < data.len() && starts[j] <= end && rows[j] == row_of(line_at(data, starts[j]), sep)
            && ((is_line_start(data, from) || j > 0) ==> is_line_start(data, starts[j]))) by {
            if j > 0 {
                assert(starts[j] == range_starts(data, nxt, end)[j - 1]);
                assert(rows[j] == range_rows(data, nxt, end, sep)[j - 1]);
                if range_starts(data, nxt, end).len() > 0 {
                    lemma_line_end_props(data, from);
                    assert(is_line_start(data, nxt) || nxt >= data.len());
                }
            }
        }
    }
}

/// Rows whose keys all sit below every key on the first side never
/// match: the merge discards them from the second side's front.
pub proof fn lemma_merge_right_drop(
    ra: Seq<Seq<Seq<u8>>>,
    p: Seq<Seq<Seq<u8>>>,
    rb: Seq<Seq<Seq<u8>>>,
    kf1: int,
    kf2: int,
    ospec: Seq<(bool, int)>,
    sep: u8,
)
    requires
        forall|j: int, l: int|
            0 <= j < ra.len() && 0 <= l < p.len() ==> lex_lt(
                #[trigger] p[l][kf2],
                #[trigger] ra[j][kf1],
            ),
    ensures
        merge_join_rows(ra, p + rb, kf1, kf2, ospec, sep) == merge_join_rows(
            ra,
            rb,
            kf1,
            kf2,
            ospec,
            sep,
        ),
    decreases p.len(),
{
    if p.len() == 0 {
        assert(p + rb =~= rb);
    } else if ra.len() == 0 {
    } else {
        assert((p + rb)[0] == p[0]);
        assert(lex_lt(p[0][kf2], ra[0][kf1]));
        lemma_lex_trichotomy(p[0][kf2], ra[0][kf1]);
        assert((p + rb).drop_first() =~= p.drop_first() + rb);
        assert forall|j: int, l: int|
            0 <= j < ra.len() && 0 <= l < p.drop_first().len() implies lex_lt(
            #[trigger] p.drop_first()[l][kf2],
            #[trigger] ra[j][kf1],
        ) by {
            assert(p.drop_first()[l] == p[l + 1]);
        }
        lemma_merge_right_drop(ra, p.drop_first(), rb, kf1, kf2, ospec, sep);
    }
}

/// With every key of `x` below every key of `y`, the merge splits on the
/// first side: `y`'s rows match only rows past those `x` matched.
pub proof fn lemma_merge_split_a(
    x: Seq<Seq<Seq<u8>>>,
    y: Seq<Seq<Seq<u8>>>,
    rb: Seq<Seq<Seq<u8>>>,
    kf1: int,
    kf2: int,
    ospec: Seq<(bool, int)>,
    sep: u8,
)
    requires
        forall|j: int, l: int|
            0 <= j < x.len() && 0 <= l < y.len() ==> lex_lt(
                #[trigger] x[j][kf1],
                #[trigger] y[l][kf1],
            ),
    ensures
        merge_join_rows(x + y, rb, kf1, kf2, ospec, sep) == merge_join_rows(
            x,
            rb,
            kf1,
            kf2,
            ospec,
            sep,
        ) + merge_join_rows(y, rb, kf1, kf2, ospec, sep),
    decreases x.len() + rb.len(),
{
    if x.len() == 0 {
        assert(x + y =~= y);
        assert(Seq::<u8>::empty() + merge_join_rows(y, rb, kf1, kf2, ospec, sep)
            =~= merge_join_rows(y, rb, kf1, kf2, ospec, sep));
    } else if rb.len() == 0 {
        lemma_merge_empty(x + y, kf1, kf2, ospec, sep);
        lemma_merge_empty(x, kf1, kf2, ospec, sep);
        lemma_merge_empty(y, kf1, kf2, ospec, sep);
        assert(Seq::<u8>::empty() + Seq::<u8>::empty() =~= Seq::<u8>::empty());
    } else {
        assert((x + y)[0] == x[0]);
        assert forall|j: int, l: int|
            0 <= j < x.drop_first().len() && 0 <= l < y.len() implies lex_lt(
            #[trigger] x.drop_first()[j][kf1],
            #[trigger] y[l][kf1],
        ) by {
            assert(x.drop_first()[j] == x[j + 1]);
        }
        if lex_lt(x[0][kf1], rb[0][kf2]) {
            assert((x + y).drop_first() =~= x.drop_first() + y);
            lemma_merge_split_a(x.drop_first(), y, rb, kf1, kf2, ospec, sep);
        } else if lex_lt(rb[0][kf2], x[0][kf1]) {
            lemma_merge_split_a(x, y, rb.drop_first(), kf1, kf2, ospec, sep);
            if y.len() > 0 {
                lemma_lex_trans(rb[0][kf2], x[0][kf1], y[0][kf1]);
                lemma_lex_trichotomy(rb[0][kf2], y[0][kf1]);
                assert(merge_join_rows(y, rb, kf1, kf2, ospec, sep) == merge_join_rows(
                    y,
                    rb.drop_first(),
                    kf1,
                    kf2,
                    ospec,
                    sep,
                ));
            }
        } else {
            assert((x + y).drop_first() =~= x.drop_first() + y);
            lemma_merge_split_a(x.drop_first(), y, rb.drop_first(), kf1, kf2, ospec, sep);
            if y.len() > 0 {
                lemma_lex_trichotomy(x[0][kf1], rb[0][kf2]);
                assert(x[0][kf1] == rb[0][kf2]);
                assert(lex_lt(x[0][kf1], y[0][kf1]));
                assert(lex_lt(rb[0][kf2], y[0][kf1]));
                lemma_lex_trichotomy(rb[0][kf2], y[0][kf1]);
                assert(merge_join_rows(y, rb, kf1, kf2, ospec, sep) == merge_join_rows(
                    y,
                    rb.drop_first(),
                    kf1,
                    kf2,
                    ospec,
                    sep,
                ));
            }
            let em = emit_row(x[0], rb[0], ospec, sep);
            assert(em + (merge_join_rows(x.drop_first(), rb.drop_first(), kf1, kf2, ospec, sep)
                + merge_join_rows(y, rb.drop_first(), kf1, kf2, ospec, sep)) =~= (em
                + merge_join_rows(x.drop_first(), rb.drop_first(), kf1, kf2, ospec, sep))
                + merge_join_rows(y, rb.drop_first(), kf1, kf2, ospec, sep));
        }
    }
}

/// The merge of anything against no rows is empty.
pub proof fn lemma_merge_empty(ra: Seq<Seq<Seq<u8>>>, kf1: int, kf2: int, ospec: Seq<(bool, int)>, sep: u8)
    ensures
        merge_join_rows(ra, Seq::empty(), kf1, kf2, ospec, sep) == Seq::<u8>::empty(),
{
}

/// Rows whose keys all sit above every key on the other side never
/// match: appending them after the second side changes nothing.
pub proof fn lemma_merge_tail_absorb(
    ra: Seq<Seq<Seq<u8>>>,
    rb: Seq<Seq<Seq<u8>>>,
    t: Seq<Seq<Seq<u8>>>,
    kf1: int,
    kf2: int,
    ospec: Seq<(bool, int)>,
    sep: u8,
)
    requires
        forall|j: int, l: int|
            0 <= j < ra.len() && 0 <= l < t.len() ==> lex_lt(
                #[trigger] ra[j][kf1],
                #[trigger] t[l][kf2],
            ),
    ensures
        merge_join_rows(ra, rb + t, kf1, kf2, ospec, sep) == merge_join_rows(
            ra,
            rb,
            kf1,
            kf2,
            ospec,
            sep,
        ),
    decreases ra.len() + rb.len(),
{
    if ra.len() == 0 {
    } else if rb.len() == 0 {
        assert(rb + t =~= t);
        lemma_merge_empty(ra, kf1, kf2, ospec, sep);
        if t.len() == 0 {
        } else {
            assert(lex_lt(ra[0][kf1], t[0][kf2]));
            lemma_lex_trichotomy(ra[0][kf1], t[0][kf2]);
            assert forall|j: int, l: int|
                0 <= j < ra.drop_first().len() && 0 <= l < t.len() implies lex_lt(
                #[trigger] ra.drop_first()[j][kf1],
                #[trigger] t[l][kf2],
            ) by {
                assert(ra.drop_first()[j] == ra[j + 1]);
            }
            lemma_merge_tail_absorb(ra.drop_first(), rb, t, kf1, kf2, ospec, sep);
            assert(rb + t =~= t);
        }
    } else {
        assert((rb + t)[0] == rb[0]);
        assert forall|j: int, l: int|
            0 <= j < ra.drop_first().len() && 0 <= l < t.len() implies lex_lt(
            #[trigger] ra.drop_first()[j][kf1],
            #[trigger] t[l][kf2],
        ) by {
            assert(ra.drop_first()[j] == ra[j + 1]);
        }
        if lex_lt(ra[0][kf1], rb[0][kf2]) {
            lemma_merge_tail_absorb(ra.drop_first(), rb, t, kf1, kf2, ospec, sep);
        } else if lex_lt(rb[0][kf2], ra[0][kf1]) {
            assert((rb + t).drop_first() =~= rb.drop_first() + t);
            lemma_merge_tail_absorb(ra, rb.drop_first(), t, kf1, kf2, ospec, sep);
        } else {
            assert((rb + t).drop_first() =~= rb.drop_first() + t);
            lemma_merge_tail_absorb(ra.drop_first(), rb.drop_first(), t, kf1, kf2, ospec, sep);
        }
    }
}

/// Bytewise lexicographic strict order.
pub open spec fn lex_lt(a: Seq<u8>, b: Seq<u8>) -> bool
    decreases a.len(),
{
    if b.len() == 0 {
        false
    } else if a.len() == 0 {
        true
    } else if a[0] < b[0] {
        true
    } else if a[0] > b[0] {
        false
    } else {
        lex_lt(a.skip(1), b.skip(1))
    }
}

/// Bytewise lexicographic order.
pub open spec fn lex_le(a: Seq<u8>, b: Seq<u8>) -> bool {
    lex_lt(a, b) || a == b
}

/// Exactly one of `a < b`, `a == b`, `b < a` holds.
pub proof fn lemma_lex_trichotomy(a: Seq<u8>, b: Seq<u8>)
    ensures
        lex_lt(a, b) || a == b || lex_lt(b, a),
        lex_lt(a, b) ==> a != b,
        lex_lt(a, b) ==> !lex_lt(b, a),
    decreases a.len(),
{
    if a.len() == 0 && b.len() == 0 {
        assert(a =~= b);
    } else if a.len() > 0 && b.len() > 0 && a[0] == b[0] {
        lemma_lex_trichotomy(a.skip(1), b.skip(1));
        if a.skip(1) == b.skip(1) {
            assert(a =~= b) by {
                assert forall|k: int| 0 <= k < a.len() implies a[k] == b[k] by {
                    if k >= 1 {
                        assert(a[k] == a.skip(1)[k - 1]);
                        assert(b[k] == b.skip(1)[k - 1]);
                    }
                }
            }
        }
        if a == b {
            assert(a.skip(1) =~= b.skip(1));
        }
    } else if a == b {
        assert(a.len() == b.len());
    }
}

pub proof fn lemma_lex_trans(a: Seq<u8>, b: Seq<u8>, c: Seq<u8>)
    requires
        lex_lt(a, b),
        lex_lt(b, c),
    ensures
        lex_lt(a, c),
    decreases a.len() + b.len() + c.len(),
{
    if a.len() == 0 {
    } else if a[0] == b[0] && b[0] == c[0] {
        lemma_lex_trans(a.skip(1), b.skip(1), c.skip(1));
    }
}

/// The last line start at or before `p`.
pub open spec fn last_start_at_or_before(data: Seq<u8>, p: int) -> int
    decreases p,
{
    if p <= 0 {
        0
    } else if is_line_start(data, p) {
        p
    } else {
        last_start_at_or_before(data, p - 1)
    }
}

pub proof fn lemma_last_start_props(data: Seq<u8>, p: int)
    requires
        0 <= p < data.len(),
    ensures
        is_line_start(data, last_start_at_or_before(data, p)),
        last_start_at_or_before(data, p) <= p,
        forall|t: int|
            #[trigger] is_line_start(data, t) && t <= p ==> t <= last_start_at_or_before(data, p),
    decreases p,
{
    if p > 0 && !is_line_start(data, p) {
        lemma_last_start_props(data, p - 1);
    }
}

/// The line found by `last_start_at_or_before` contains `p`.
pub proof fn lemma_last_start_contains(data: Seq<u8>, p: int)
    requires
        wf_data(data),
        0 <= p < data.len(),
    ensures
        p < line_end(data, last_start_at_or_before(data, p)),
{
    let s = last_start_at_or_before(data, p);
    lemma_last_start_props(data, p);
    lemma_line_end_props(data, s);
    if line_end(data, s) <= p {
        assert(is_line_start(data, line_end(data, s)));
    }
}

/// The last line start moves forward with the position.
pub proof fn lemma_last_start_monotone(data: Seq<u8>, p: int, q: int)
    requires
        0 <= p <= q < data.len(),
    ensures
        last_start_at_or_before(data, p) <= last_start_at_or_before(data, q),
{
    lemma_last_start_props(data, p);
    lemma_last_start_props(data, q);
}

/// The key of a line: field `kf` of the line without its newline.
pub open spec fn line_key(line: Seq<u8>, sep: u8, kf: int) -> Seq<u8> {
    field_of(strip_nl(line), sep, kf)
}

/// The key of the line starting at `s` in `data`.
pub open spec fn key_at(data: Seq<u8>, sep: u8, kf: int, s: int) -> Seq<u8> {
    line_key(line_at(data, s), sep, kf)
}

/// Any two adjacent lines are ordered by key.
pub open spec fn sorted_by_key(data: Seq<u8>, sep: u8, kf: int) -> bool {
    forall|s: int|
        #[trigger] is_line_start(data, s) && line_end(data, s) < data.len() ==> lex_le(
            key_at(data, sep, kf, s),
            key_at(data, sep, kf, line_end(data, s)),
        )
}

/// Any two adjacent lines are strictly ordered by key: no key repeats.
pub open spec fn strictly_sorted_by_key(data: Seq<u8>, sep: u8, kf: int) -> bool {
    forall|s: int|
        #[trigger] is_line_start(data, s) && line_end(data, s) < data.len() ==> lex_lt(
            key_at(data, sep, kf, s),
            key_at(data, sep, kf, line_end(data, s)),
        )
}

/// Every line of `data` has a field at index `kf`.
pub open spec fn all_keyed(data: Seq<u8>, sep: u8, kf: int) -> bool {
    forall|s: int|
        #[trigger] is_line_start(data, s) ==> kf < num_fields(strip_nl(line_at(data, s)), sep)
}

/// With equal heads the lexicographic comparison reduces to the tails.
pub proof fn lemma_lex_step(a: Seq<u8>, b: Seq<u8>)
    requires
        a.len() > 0,
        b.len() > 0,
        a[0] == b[0],
    ensures
        lex_lt(a, b) == lex_lt(a.skip(1), b.skip(1)),
        (a == b) == (a.skip(1) == b.skip(1)),
{
    if a.skip(1) == b.skip(1) {
        assert(a =~= b) by {
            assert forall|k: int| 0 <= k < a.len() implies a[k] == b[k] by {
                if k >= 1 {
                    assert(a[k] == a.skip(1)[k - 1]);
                    assert(b[k] == b.skip(1)[k - 1]);
                }
            }
        }
    }
    if a == b {
        assert(a.skip(1) =~= b.skip(1));
    }
}

/// Some line of `data` carries the key `key`.
pub open spec fn has_key(data: Seq<u8>, sep: u8, kf: int, key: Seq<u8>) -> bool {
    exists|s: int| #[trigger] is_line_start(data, s) && key_at(data, sep, kf, s) == key
}

pub proof fn lemma_lex_le_trans(a: Seq<u8>, b: Seq<u8>, c: Seq<u8>)
    requires
        lex_le(a, b),
        lex_le(b, c),
    ensures
        lex_le(a, c),
{
    if a != b && b != c {
        lemma_lex_trans(a, b, c);
    }
}

pub proof fn lemma_lex_le_lt_trans(a: Seq<u8>, b: Seq<u8>, c: Seq<u8>)
    requires
        lex_le(a, b),
        lex_lt(b, c),
    ensures
        lex_lt(a, c),
{
    if a != b {
        lemma_lex_trans(a, b, c);
    }
}

pub proof fn lemma_lex_lt_le_trans(a: Seq<u8>, b: Seq<u8>, c: Seq<u8>)
    requires
        lex_lt(a, b),
        lex_le(b, c),
    ensures
        lex_lt(a, c),
{
    if b != c {
        lemma_lex_trans(a, b, c);
    }
}

/// In a sorted stream keys grow with the line start offset.
pub proof fn lemma_sorted_monotone(data: Seq<u8>, sep: u8, kf: int, s1: int, s2: int)
    requires
        wf_data(data),
        sorted_by_key(data, sep, kf),
        is_line_start(data, s1),
        is_line_start(data, s2),
        s1 <= s2,
    ensures
        lex_le(key_at(data, sep, kf, s1), key_at(data, sep, kf, s2)),
    decreases s2 - s1,
{
    if s1 < s2 {
        let nxt = line_end(data, s1);
        lemma_line_end_props(data, s1);
        lemma_line_end_le(data, s1, s2);
        assert(is_line_start(data, nxt));
        lemma_sorted_monotone(data, sep, kf, nxt, s2);
        lemma_lex_le_trans(key_at(data, sep, kf, s1), key_at(data, sep, kf, nxt), key_at(data, sep, kf, s2));
    }
}

/// In a strictly sorted stream keys grow strictly with the line start.
pub proof fn lemma_strictly_sorted_monotone(data: Seq<u8>, sep: u8, kf: int, s1: int, s2: int)
    requires
        wf_data(data),
        strictly_sorted_by_key(data, sep, kf),
        is_line_start(data, s1),
        is_line_start(data, s2),
        s1 < s2,
    ensures
        lex_lt(key_at(data, sep, kf, s1), key_at(data, sep, kf, s2)),
    decreases s2 - s1,
{
    let nxt = line_end(data, s1);
    lemma_line_end_props(data, s1);
    lemma_line_end_le(data, s1, s2);
    assert(is_line_start(data, nxt));
    if nxt < s2 {
        lemma_strictly_sorted_monotone(data, sep, kf, nxt, s2);
        lemma_lex_trans(
            key_at(data, sep, kf, s1),
            key_at(data, sep, kf, nxt),
            key_at(data, sep, kf, s2),
        );
    }
}

/// A key below the first line's key occurs on no line at all.
pub proof fn lemma_no_key_below(data: Seq<u8>, sep: u8, kf: int, key: Seq<u8>)
    requires
        wf_data(data),
        sorted_by_key(data, sep, kf),
        data.len() > 0,
        lex_lt(key, key_at(data, sep, kf, 0)),
    ensures
        !has_key(data, sep, kf, key),
{
    assert forall|s: int| #[trigger] is_line_start(data, s) implies key_at(data, sep, kf, s)
        != key by {
        lemma_sorted_monotone(data, sep, kf, 0, s);
        if key_at(data, sep, kf, s) == key {
            lemma_lex_le_lt_trans(key_at(data, sep, kf, 0), key, key_at(data, sep, kf, 0));
            lemma_lex_trichotomy(key_at(data, sep, kf, 0), key_at(data, sep, kf, 0));
        }
    }
}

/// When the final line's key is below `key`, no line carries `key`, and
/// the final line is the floor of every key above it.
pub proof fn lemma_above_all(data: Seq<u8>, sep: u8, kf: int, key: Seq<u8>, last: int)
    requires
        wf_data(data),
        sorted_by_key(data, sep, kf),
        is_line_start(data, last),
        line_end(data, last) == data.len(),
        lex_lt(key_at(data, sep, kf, last), key),
    ensures
        !has_key(data, sep, kf, key),
        forall|s: int| #[trigger] is_line_start(data, s) ==> s <= last,
{
    assert forall|s: int| #[trigger] is_line_start(data, s) implies s <= last by {
        if s > last {
            lemma_start_in_line(data, last, s);
        }
    }
    assert forall|s: int| #[trigger] is_line_start(data, s) implies key_at(data, sep, kf, s)
        != key by {
        lemma_sorted_monotone(data, sep, kf, s, last);
        if key_at(data, sep, kf, s) == key {
            lemma_lex_trichotomy(key, key_at(data, sep, kf, last));
        }
    }
}

/// When two adjacent lines bracket `key` strictly, no line carries `key`,
/// and the lower line is the greatest one whose key is below `key`.
pub proof fn lemma_adjacent_floor(data: Seq<u8>, sep: u8, kf: int, key: Seq<u8>, bottom: int, top: int)
    requires
        wf_data(data),
        sorted_by_key(data, sep, kf),
        is_line_start(data, bottom),
        is_line_start(data, top),
        line_end(data, bottom) == top,
        lex_lt(key_at(data, sep, kf, bottom), key),
        lex_lt(key, key_at(data, sep, kf, top)),
    ensures
        !has_key(data, sep, kf, key),
        forall|s: int|
            #[trigger] is_line_start(data, s) && lex_lt(key_at(data, sep, kf, s), key) ==> s
                <= bottom,
{
    assert forall|s: int| #[trigger] is_line_start(data, s) implies (key_at(data, sep, kf, s)
        != key && (lex_lt(key_at(data, sep, kf, s), key) ==> s <= bottom)) by {
        if s <= bottom {
            lemma_sorted_monotone(data, sep, kf, s, bottom);
            lemma_lex_le_lt_trans(
                key_at(data, sep, kf, s),
                key_at(data, sep, kf, bottom),
                key,
            );
            lemma_lex_trichotomy(key_at(data, sep, kf, s), key);
        } else {
            if s < top {
                lemma_start_in_line(data, bottom, s);
            }
            lemma_sorted_monotone(data, sep, kf, top, s);
            lemma_lex_lt_le_trans(key, key_at(data, sep, kf, top), key_at(data, sep, kf, s));
            lemma_lex_trichotomy(key, key_at(data, sep, kf, s));
        }
    }
}

/// What the key locator promises of its answer `e` for a queried `key`:
/// `e` begins a line; the line's key equals `key` when some line carries
/// it; otherwise `e` is 0 when `key` is below every key, and else the
/// greatest line whose key is below `key`.
pub open spec fn floor_ok(data: Seq<u8>, sep: u8, kf: int, key: Seq<u8>, e: int) -> bool {
    &&& is_line_start(data, e)
    &&& has_key(data, sep, kf, key) ==> key_at(data, sep, kf, e) == key
    &&& (!has_key(data, sep, kf, key) && lex_lt(key, key_at(data, sep, kf, 0))) ==> e == 0
    &&& (!has_key(data, sep, kf, key) && !lex_lt(key, key_at(data, sep, kf, 0))) ==> lex_lt(
        key_at(data, sep, kf, e),
        key,
    ) && (forall|s: int|
        #[trigger] is_line_start(data, s) && lex_lt(key_at(data, sep, kf, s), key) ==> s <= e)
}

/// Past the locator's answer every key exceeds the queried key, when no
/// key repeats.
pub proof fn lemma_floor_tail_keys(data: Seq<u8>, sep: u8, kf: int, key: Seq<u8>, e: int, s: int)
    requires
        wf_data(data),
        data.len() > 0,
        strictly_sorted_by_key(data, sep, kf),
        floor_ok(data, sep, kf, key, e),
        is_line_start(data, s),
        s > e,
    ensures
        lex_lt(key, key_at(data, sep, kf, s)),
{
    if has_key(data, sep, kf, key) {
        lemma_strictly_sorted_monotone(data, sep, kf, e, s);
    } else if lex_lt(key, key_at(data, sep, kf, 0)) {
        assert(e == 0);
        lemma_strictly_sorted_monotone(data, sep, kf, 0, s);
        lemma_lex_trans(key, key_at(data, sep, kf, 0), key_at(data, sep, kf, s));
    } else {
        assert(!(lex_lt(key_at(data, sep, kf, s), key)));
        assert(key_at(data, sep, kf, s) != key);
        lemma_lex_trichotomy(key_at(data, sep, kf, s), key);
    }
}

/// At the locator's answer the key never exceeds the queried key, unless
/// the answer is the very first line.
pub proof fn lemma_floor_at_most(data: Seq<u8>, sep: u8, kf: int, key: Seq<u8>, e: int)
    requires
        wf_data(data),
        data.len() > 0,
        strictly_sorted_by_key(data, sep, kf),
        floor_ok(data, sep, kf, key, e),
    ensures
        e == 0 || lex_le(key_at(data, sep, kf, e), key),
{
}

/// The locator's answers move forward with the queried key.
pub proof fn lemma_floor_monotone(
    data: Seq<u8>,
    sep: u8,
    kf: int,
    k1: Seq<u8>,
    k2: Seq<u8>,
    e1: int,
    e2: int,
)
    requires
        wf_data(data),
        data.len() > 0,
        strictly_sorted_by_key(data, sep, kf),
        floor_ok(data, sep, kf, k1, e1),
        floor_ok(data, sep, kf, k2, e2),
        lex_le(k1, k2),
    ensures
        e1 <= e2,
{
    if e1 > e2 {
        let ka1 = key_at(data, sep, kf, e1);
        let ka2 = key_at(data, sep, kf, e2);
        lemma_floor_at_most(data, sep, kf, k1, e1);
        assert(e1 > 0);
        assert(lex_le(ka1, k1));
        lemma_lex_le_trans(ka1, k1, k2);
        if has_key(data, sep, kf, k2) {
            assert(ka2 == k2);
            lemma_strictly_sorted_monotone(data, sep, kf, e2, e1);
            lemma_lex_lt_le_trans(ka2, ka1, k2);
            lemma_lex_trichotomy(k2, k2);
        } else if lex_lt(k2, key_at(data, sep, kf, 0)) {
            lemma_strictly_sorted_monotone(data, sep, kf, 0, e1);
            lemma_lex_le_lt_trans(ka1, k2, key_at(data, sep, kf, 0));
            lemma_lex_trans(key_at(data, sep, kf, 0), ka1, key_at(data, sep, kf, 0));
            lemma_lex_trichotomy(key_at(data, sep, kf, 0), key_at(data, sep, kf, 0));
        } else {
            assert(is_line_start(data, e1) && ka1 != k2);
            assert(lex_lt(ka1, k2));
            assert(e1 <= e2);
        }
    }
}

/// All lines of `data` from position `pos` on.
pub open spec fn lines_from(data: Seq<u8>, pos: int) -> Seq<Seq<u8>>
    decreases data.len() - pos,
    via lines_from_decreases
{
    if pos < 0 || pos >= data.len() {
        Seq::empty()
    } else {
        seq![line_at(data, pos)] + lines_from(data, line_end(data, pos))
    }
}

#[via_fn]
proof fn lines_from_decreases(data: Seq<u8>, pos: int) {
    if 0 <= pos < data.len() {
        lemma_line_end_lb(data, pos);
    }
}

/// The lines a bounded reader at `from` with limit `end` still delivers:
/// those whose starting offset lies in `[from, end]`.
pub open spec fn range_lines(data: Seq<u8>, from: int, end: int) -> Seq<Seq<u8>>
    decreases data.len() - from,
    via range_lines_decreases
{
    if from < 0 || from >= data.len() || from > end {
        Seq::empty()
    } else {
        seq![line_at(data, from)] + range_lines(data, line_end(data, from), end)
    }
}

#[via_fn]
proof fn range_lines_decreases(data: Seq<u8>, from: int, end: int) {
    if 0 <= from < data.len() {
        lemma_line_end_lb(data, from);
    }
}

/// Every line of `data` is at most `w` bytes long.
pub open spec fn lines_bounded(data: Seq<u8>, w: int) -> bool {
    forall|s: int| #[trigger] is_line_start(data, s) ==> line_end(data, s) - s <= w
}

/// The last complete line a range reader bounded by `end` delivers: the
/// line starting at the greatest line start at or before `end` (clamped to
/// the stream), without its newline.
pub open spec fn peek_spec(data: Seq<u8>, end: int) -> Seq<u8> {
    strip_nl(
        line_at(
            data,
            last_start_at_or_before(
                data,
                if end < data.len() {
                    end
                } else {
                    data.len() - 1
                },
            ),
        ),
    )
}

/// The starting offsets of the lines `range_lines` delivers.
pub open spec fn range_starts(data: Seq<u8>, from: int, end: int) -> Seq<int>
    decreases data.len() - from,
    via range_starts_decreases
{
    if from < 0 || from >= data.len() || from > end {
        Seq::empty()
    } else {
        seq![from] + range_starts(data, line_end(data, from), end)
    }
}

#[via_fn]
proof fn range_starts_decreases(data: Seq<u8>, from: int, end: int) {
    if 0 <= from < data.len() {
        lemma_line_end_lb(data, from);
    }
}

/// A line delivered at or past the range's end is the last one delivered:
/// a range reader overruns its end by at most one line.
pub proof fn lemma_range_overrun(data: Seq<u8>, from: int, end: int, i: int)
    requires
        0 <= i < range_starts(data, from, end).len(),
        range_starts(data, from, end)[i] >= end,
    ensures
        i == range_starts(data, from, end).len() - 1,
    decreases data.len() - from,
{
    lemma_line_end_lb(data, from);
    let nxt = line_end(data, from);
    if i == 0 {
        assert(from >= end);
        assert(nxt > end);
        assert(range_starts(data, nxt, end) =~= Seq::<int>::empty());
    } else {
        lemma_range_overrun(data, nxt, end, i - 1);
    }
}

/// The delivered lines and their starting offsets stay in step.
pub proof fn lemma_range_shapes(data: Seq<u8>, from: int, end: int)
    ensures
        range_starts(data, from, end).len() == range_lines(data, from, end).len(),
    decreases data.len() - from,
{
    if !(from < 0 || from >= data.len() || from > end) {
        lemma_line_end_lb(data, from);
        lemma_range_shapes(data, line_end(data, from), end);
    }
}

/// Size of each byte range when a stream of `total` bytes is cut into `n`
/// roughly equal parts: the ceiling of `total / n`.
pub open spec fn range_size_of(total: int, n: int) -> int {
    total / n + if total % n == 0 {
        0int
    } else {
        1int
    }
}

/// Where partition `i` of range size `rs` begins delivering lines: at 0
/// for the first partition; after the (possibly cut) line containing the
/// raw cut offset `i * rs` for the others.
pub open spec fn partition_start(data: Seq<u8>, i: int, rs: int) -> int {
    if i == 0 {
        0
    } else if i * rs >= data.len() {
        i * rs
    } else {
        line_end(data, i * rs)
    }
}

pub proof fn lemma_range_size(total: int, n: int)
    requires
        0 <= total,
        1 <= n,
    ensures
        range_size_of(total, n) >= 0,
        n * range_size_of(total, n) >= total,
        n * range_size_of(total, n) <= total + n,
        total >= 1 ==> range_size_of(total, n) >= 1,
{
    vstd::arithmetic::div_mod::lemma_fundamental_div_mod(total, n);
    let q = total / n;
    let rem = total % n;
    vstd::arithmetic::div_mod::lemma_mod_bound(total, n);
    vstd::arithmetic::div_mod::lemma_div_pos_is_pos(total, n);
    if rem == 0 {
        assert(n * range_size_of(total, n) == n * q);
    } else {
        assert(n * (q + 1) == n * q + n) by (nonlinear_arith);
    }
    if total >= 1 && q == 0 {
        assert(n * 0 == 0) by (nonlinear_arith);
        assert(n * q == n * 0);
    }
}

pub proof fn lemma_mul_mono(a: int, b: int, c: int)
    requires
        0 <= a <= b,
        0 <= c,
    ensures
        a * c <= b * c,
{
    vstd::arithmetic::mul::lemma_mul_inequality(a, b, c);
}

pub proof fn lemma_concat_len(files: Seq<Seq<u8>>)
    ensures
        concat_all(files).len() == total_len(files),
        total_len(files) >= 0,
    decreases files.len(),
{
    if files.len() > 0 {
        lemma_concat_len(files.drop_last());
    }
}

/// The start offsets of successive files are contiguous.
pub proof fn lemma_start_of_step(files: Seq<Seq<u8>>, i: int)
    requires
        0 <= i < files.len(),
    ensures
        start_of(files, i + 1) == start_of(files, i) + files[i].len(),
{
    assert(files.take(i + 1).drop_last() =~= files.take(i));
    assert(files.take(i + 1).last() == files[i]);
}

pub proof fn lemma_start_of_all(files: Seq<Seq<u8>>)
    ensures
        start_of(files, 0) == 0,
        start_of(files, files.len() as int) == total_len(files),
        forall|i: int|
            0 <= i < files.len() ==> #[trigger] start_of(files, i + 1) == start_of(files, i)
                + files[i].len(),
        forall|i: int| 0 <= i <= files.len() ==> 0 <= #[trigger] start_of(files, i) <= total_len(files),
{
    assert(files.take(0) =~= Seq::<Seq<u8>>::empty());
    assert(files.take(files.len() as int) =~= files);
    assert forall|i: int| 0 <= i < files.len() implies #[trigger] start_of(files, i + 1)
        == start_of(files, i) + files[i].len() by {
        lemma_start_of_step(files, i);
    }
    assert forall|i: int| 0 <= i <= files.len() implies 0 <= #[trigger] start_of(files, i)
        <= total_len(files) by {
        lemma_start_of_bounds(files, i);
    }
}

proof fn lemma_start_of_bounds(files: Seq<Seq<u8>>, i: int)
    requires
        0 <= i <= files.len(),
    ensures
        0 <= start_of(files, i) <= total_len(files),
    decreases files.len() - i,
{
    lemma_concat_len(files.take(i));
    if i < files.len() {
        lemma_start_of_step(files, i);
        lemma_start_of_bounds(files, i + 1);
    } else {
        assert(files.take(i) =~= files);
    }
}

/// A byte of the concatenation is the corresponding byte of its file.
pub proof fn lemma_concat_index(files: Seq<Seq<u8>>, i: int, q: int)
    requires
        0 <= i < files.len(),
        0 <= q < files[i].len(),
    ensures
        0 <= start_of(files, i) + q < total_len(files),
        concat_all(files)[start_of(files, i) + q] == files[i][q],
    decreases files.len(),
{
    lemma_concat_len(files);
    lemma_start_of_bounds(files, i);
    lemma_start_of_step(files, i);
    lemma_start_of_bounds(files, i + 1);
    if i == files.len() - 1 {
        lemma_concat_len(files.drop_last());
        assert(files.take(i) =~= files.drop_last());
        assert(concat_all(files)[start_of(files, i) + q] == files[i][q]);
    } else {
        let fd = files.drop_last();
        lemma_concat_index(fd, i, q);
        assert(fd.take(i) =~= files.take(i));
        lemma_concat_len(fd);
    }
}

/// A whole file is a segment of the concatenation.
pub proof fn lemma_concat_segment(files: Seq<Seq<u8>>, i: int)
    requires
        0 <= i < files.len(),
    ensures
        start_of(files, i) + files[i].len() <= total_len(files),
        concat_all(files).subrange(
            start_of(files, i),
            start_of(files, i) + files[i].len(),
        ) =~= files[i],
{
    lemma_concat_len(files);
    lemma_start_of_step(files, i);
    lemma_start_of_bounds(files, i + 1);
    lemma_start_of_bounds(files, i);
    assert forall|q: int| 0 <= q < files[i].len() implies concat_all(files)[start_of(files, i) + q]
        == files[i][q] by {
        lemma_concat_index(files, i, q);
    }
}

/// The concatenation of well-formed files is newline-terminated.
pub proof fn lemma_concat_wf(files: Seq<Seq<u8>>)
    requires
        files_wf(files),
    ensures
        wf_data(concat_all(files)),
        concat_all(files).len() == total_len(files),
    decreases files.len(),
{
    lemma_concat_len(files);
    if files.len() > 0 {
        let i = files.len() - 1;
        lemma_concat_index(files, i, files[i].len() - 1);
        lemma_start_of_step(files, i);
        assert(files.take(i as int + 1) =~= files);
        assert(concat_all(files).last() == files[i].last());
    }
}

/// A line of a well-formed file, read inside the concatenation, ends where
/// it ends in the file itself: lines never cross file boundaries.
pub proof fn lemma_line_end_in_file(files: Seq<Seq<u8>>, i: int, q: int)
    requires
        files_wf(files),
        0 <= i < files.len(),
        0 <= q < files[i].len(),
    ensures
        line_end(concat_all(files), start_of(files, i) + q) == start_of(files, i) + line_end(
            files[i],
            q,
        ),
        line_at(concat_all(files), start_of(files, i) + q) == line_at(files[i], q),
{
    let data = concat_all(files);
    let base = start_of(files, i);
    let e = line_end(files[i], q);
    lemma_line_end_props(files[i], q);
    lemma_concat_len(files);
    lemma_start_of_step(files, i);
    lemma_start_of_bounds(files, i);
    lemma_start_of_bounds(files, i + 1);
    assert forall|k: int| base + q <= k < base + e - 1 implies data[k] != NL by {
        lemma_concat_index(files, i, k - base);
    }
    lemma_concat_index(files, i, e - 1);
    lemma_line_end_char(data, base + q, base + e);
    assert(line_at(data, base + q) =~= line_at(files[i], q)) by {
        assert forall|k: int| 0 <= k < e - q implies data.subrange(base + q, base + e)[k]
            == files[i].subrange(q, e)[k] by {
            lemma_concat_index(files, i, q + k);
        }
    }
}

} // verus!
