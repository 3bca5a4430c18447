//! The partitioned merge-join: cut the first dataset into byte ranges,
//! derive each range's counterpart in the second dataset through the key
//! locator, and merge-join every pair of ranges into its own output
//! buffer.

use vstd::prelude::*;

use crate::byte_range_line_reader::ByteRangeLineReader;
use crate::model::{
    all_keyed, field_of, files_wf, floor_ok, is_line_start, key_at, last_start_at_or_before, lemma_lex_le_lt_trans, lemma_lex_trans, lemma_merge_tail_absorb,
    lemma_range_rows_at, lemma_strictly_sorted_monotone, range_starts,
    strictly_sorted_by_key, lemma_last_start_monotone, lex_le, lemma_floor_monotone,
    lemma_floor_tail_keys, lemma_floor_at_most, lemma_merge_right_drop, lemma_merge_split_a,
    lemma_lex_lt_le_trans, NL,
    lemma_concat_wf, lemma_last_start_props, lemma_lex_trichotomy, lemma_line_end_props,
    lemma_range_rows_from_lines, lemma_split_fields_index, lemma_start_of_all, lemma_start_of_step,
    lemma_line_end_same, lemma_mul_mono, lemma_range_size, lemma_range_split, lemma_range_to_end,
    line_end,
    lex_lt, line_at, lines_bounded, lines_from, merge_join_rows, num_fields, outspec_fits,
    partition_start, range_lines,
    peek_spec, range_rows, range_size_of, row_of, rows_from_lines, sorted_by_key, strip_nl,
    total_len, wf_data, BUFFER_SIZE,
};
use crate::multi_file_reader::{copy_bytes, data_of, lex_cmp, views_of};
use crate::output_file::{pair_wf, pairs_of, OutputFile};

verus! {

/// What the partitioned join guarantees of its per-worker outputs: some
/// chain of range ends in the second dataset starts at offset 0, each end
/// is the key locator's answer for the key of the last line of the
/// worker's first-dataset range, and each worker's output is the
/// merge-join of its two ranges' rows.
pub open spec fn worker_outputs_ok(
    data_a: Seq<u8>,
    data_b: Seq<u8>,
    sep: u8,
    kf1: int,
    kf2: int,
    ospec: Seq<(bool, int)>,
    njobs: int,
    outs: Seq<Seq<u8>>,
    ends: Seq<int>,
) -> bool {
    let rs = range_size_of(data_a.len() as int, njobs);
    &&& ends.len() == njobs + 1
    &&& ends[0] == 0
    &&& forall|i: int|
        0 <= i < njobs ==> {
            &&& 0 <= #[trigger] ends[i + 1] <= data_b.len()
            &&& floor_ok(
                data_b,
                sep,
                kf2,
                field_of(peek_spec(data_a, (i + 1) * rs), sep, kf1),
                ends[i + 1],
            )
            &&& outs[i] == merge_join_rows(
                range_rows(data_a, partition_start(data_a, i, rs), (i + 1) * rs, sep),
                range_rows(data_b, ends[i], ends[i + 1], sep),
                kf1,
                kf2,
                ospec,
                sep,
            )
        }
}

/// The lines partition `i` delivers.
pub open spec fn partition_lines(data: Seq<u8>, i: int, rs: int) -> Seq<Seq<u8>> {
    range_lines(data, partition_start(data, i, rs), (i + 1) * rs)
}

/// The lines of partitions 0 through `i - 1`, in order.
pub open spec fn partitions_up_to(data: Seq<u8>, rs: int, i: int) -> Seq<Seq<u8>>
    decreases i,
{
    if i <= 0 {
        Seq::empty()
    } else {
        partitions_up_to(data, rs, i - 1) + partition_lines(data, i - 1, rs)
    }
}

proof fn lemma_partition_prefix(data: Seq<u8>, n: int, rs: int, i: int)
    requires
        wf_data(data),
        data.len() > 0,
        n >= 1,
        0 <= i <= n,
        rs == range_size_of(data.len() as int, n),
    ensures
        partitions_up_to(data, rs, i) + range_lines(
            data,
            partition_start(data, i, rs),
            data.len() as int,
        ) == lines_from(data, 0),
    decreases i,
{
    let big = data.len() as int;
    lemma_range_size(data.len() as int, n);
    if i == 0 {
        lemma_range_to_end(data, 0, big);
        assert(Seq::<Seq<u8>>::empty() + lines_from(data, 0) =~= lines_from(data, 0));
    } else {
        lemma_partition_prefix(data, n, rs, i - 1);
        let p_prev = partition_start(data, i - 1, rs);
        let c = i * rs;
        let p_next = partition_start(data, i, rs);
        lemma_mul_mono(0, i - 1, rs);
        assert(0 * rs == 0) by (nonlinear_arith);
        lemma_mul_mono(i - 1, i, rs);
        assert(i * rs == (i - 1) * rs + rs) by (nonlinear_arith);
        if i - 1 >= 1 && (i - 1) * rs < data.len() {
            lemma_line_end_props(data, (i - 1) * rs);
        }
        if c >= data.len() {
            lemma_range_to_end(data, p_prev, c);
            lemma_range_to_end(data, p_prev, big);
            assert(p_next == c);
            assert(range_lines(data, p_next, big) =~= Seq::<Seq<u8>>::empty());
            assert(partitions_up_to(data, rs, i) + range_lines(data, p_next, big)
                =~= partitions_up_to(data, rs, i - 1) + range_lines(data, p_prev, big));
        } else {
            assert(p_next == line_end(data, c));
            if p_prev <= c {
                lemma_range_split(data, p_prev, c, big);
                assert(partitions_up_to(data, rs, i) + range_lines(data, p_next, big)
                    =~= partitions_up_to(data, rs, i - 1) + (range_lines(data, p_prev, c)
                    + range_lines(data, p_next, big)));
            } else {
                assert(i - 1 >= 1 || p_prev == 0);
                assert(i - 1 >= 1);
                assert((i - 1) * rs < data.len());
                assert(p_prev == line_end(data, (i - 1) * rs));
                lemma_line_end_props(data, (i - 1) * rs);
                lemma_line_end_same(data, (i - 1) * rs, c);
                assert(p_next == p_prev);
                assert(range_lines(data, p_prev, c) =~= Seq::<Seq<u8>>::empty());
                assert(partitions_up_to(data, rs, i) + range_lines(data, p_next, big)
                    =~= partitions_up_to(data, rs, i - 1) + range_lines(data, p_prev, big));
            }
        }
    }
}

/// Partition completeness: when a newline-terminated stream is cut into
/// `n` ranges of the computed size, the partitions together deliver every
/// line of the stream exactly once and in order — each partition's first
/// line is the line immediately after the previous partition's last.
pub proof fn lemma_partition_completeness(data: Seq<u8>, n: int)
    requires
        wf_data(data),
        data.len() > 0,
        n >= 1,
    ensures
        partitions_up_to(data, range_size_of(data.len() as int, n), n) == lines_from(data, 0),
{
    let rs = range_size_of(data.len() as int, n);
    lemma_range_size(data.len() as int, n);
    lemma_partition_prefix(data, n, rs, n);
    assert(n * rs >= data.len());
    assert(partition_start(data, n, rs) == n * rs);
    assert(range_lines(data, n * rs, data.len() as int) =~= Seq::<Seq<u8>>::empty());
    assert(partitions_up_to(data, rs, n) + Seq::<Seq<u8>>::empty() =~= partitions_up_to(
        data,
        rs,
        n,
    ));
}

/// The locator's query for the range ending at `c` is the key of the
/// line at the last line start at or before `c`, clamped to the stream.
proof fn lemma_peek_key(data: Seq<u8>, sep: u8, kf: int, c: int)
    requires
        data.len() > 0,
        0 <= c,
    ensures
        field_of(peek_spec(data, c), sep, kf) == key_at(
            data,
            sep,
            kf,
            last_start_at_or_before(
                data,
                if c < data.len() {
                    c
                } else {
                    data.len() - 1
                },
            ),
        ),
{
}

/// Query keys move forward with the cut.
proof fn lemma_peek_key_monotone(data_a: Seq<u8>, sep: u8, kf1: int, c1: int, c2: int)
    requires
        wf_data(data_a),
        data_a.len() > 0,
        strictly_sorted_by_key(data_a, sep, kf1),
        0 <= c1 <= c2,
    ensures
        lex_le(field_of(peek_spec(data_a, c1), sep, kf1), field_of(peek_spec(data_a, c2), sep, kf1)),
{
    let la = data_a.len() as int;
    let a1 = if c1 < la {
        c1
    } else {
        la - 1
    };
    let a2 = if c2 < la {
        c2
    } else {
        la - 1
    };
    lemma_peek_key(data_a, sep, kf1, c1);
    lemma_peek_key(data_a, sep, kf1, c2);
    lemma_last_start_props(data_a, a1);
    lemma_last_start_props(data_a, a2);
    lemma_last_start_monotone(data_a, a1, a2);
    let s1 = last_start_at_or_before(data_a, a1);
    let s2 = last_start_at_or_before(data_a, a2);
    if s1 < s2 {
        lemma_strictly_sorted_monotone(data_a, sep, kf1, s1, s2);
    }
}

proof fn lemma_chain_prefix(
    data_a: Seq<u8>,
    data_b: Seq<u8>,
    sep: u8,
    kf1: int,
    kf2: int,
    ospec: Seq<(bool, int)>,
    njobs: int,
    outs: Seq<Seq<u8>>,
    ends: Seq<int>,
    i: int,
)
    requires
        wf_data(data_a),
        wf_data(data_b),
        data_a.len() > 0,
        data_b.len() > 0,
        all_keyed(data_a, sep, kf1),
        all_keyed(data_b, sep, kf2),
        0 <= kf1,
        0 <= kf2,
        strictly_sorted_by_key(data_a, sep, kf1),
        strictly_sorted_by_key(data_b, sep, kf2),
        njobs >= 1,
        outs.len() == njobs,
        worker_outputs_ok(data_a, data_b, sep, kf1, kf2, ospec, njobs, outs, ends),
        0 <= i <= njobs,
    ensures
        crate::model::concat_all(outs.take(i)) + merge_join_rows(
            range_rows(
                data_a,
                partition_start(data_a, i, range_size_of(data_a.len() as int, njobs)),
                data_a.len() as int,
                sep,
            ),
            range_rows(data_b, ends[i], data_b.len() as int, sep),
            kf1,
            kf2,
            ospec,
            sep,
        ) == merge_join_rows(
            range_rows(data_a, 0, data_a.len() as int, sep),
            range_rows(data_b, 0, data_b.len() as int, sep),
            kf1,
            kf2,
            ospec,
            sep,
        ),
    decreases i,
{
    let la = data_a.len() as int;
    let lb = data_b.len() as int;
    let rs = range_size_of(la, njobs);
    lemma_range_size(la, njobs);
    if i == 0 {
        assert(outs.take(0) =~= Seq::<Seq<u8>>::empty());
        assert(crate::model::concat_all(Seq::<Seq<u8>>::empty()) == Seq::<u8>::empty());
        assert(Seq::<u8>::empty() + merge_join_rows(
            range_rows(data_a, 0, la, sep),
            range_rows(data_b, 0, lb, sep),
            kf1,
            kf2,
            ospec,
            sep,
        ) =~= merge_join_rows(
            range_rows(data_a, 0, la, sep),
            range_rows(data_b, 0, lb, sep),
            kf1,
            kf2,
            ospec,
            sep,
        ));
    } else {
        lemma_chain_prefix(data_a, data_b, sep, kf1, kf2, ospec, njobs, outs, ends, i - 1);
        let ip = i - 1;
        assert(0 <= ends[ip + 1] <= lb);
        let c = i * rs;
        let p_prev = partition_start(data_a, ip, rs);
        let p_next = partition_start(data_a, i, rs);
        let e_prev = ends[ip];
        let e_cur = ends[ip + 1];
        let kq = field_of(peek_spec(data_a, (ip + 1) * rs), sep, kf1);
        assert(floor_ok(data_b, sep, kf2, kq, e_cur));
        assert((ip + 1) * rs == c);
        lemma_mul_mono(0, ip, rs);
        assert(0 * rs == 0) by (nonlinear_arith);
        lemma_mul_mono(ip, i, rs);
        assert(i * rs == (i - 1) * rs + rs) by (nonlinear_arith);
        assert(c == ip * rs + rs);
        if ip >= 1 && ip * rs < la {
            lemma_line_end_props(data_a, ip * rs);
        }
        lemma_peek_key(data_a, sep, kf1, c);
        let anchor = if c < la {
            c
        } else {
            la - 1
        };
        let star = last_start_at_or_before(data_a, anchor);
        lemma_last_start_props(data_a, anchor);
        assert(kq == key_at(data_a, sep, kf1, star));

        // e_prev <= e_cur, and e_prev is a line start or 0.
        if ip == 0 {
            assert(e_prev == 0);
        } else {
            let ipp = ip - 1;
            assert(0 <= ends[ipp + 1] <= lb);
            let kq_prev = field_of(peek_spec(data_a, (ipp + 1) * rs), sep, kf1);
            assert(floor_ok(data_b, sep, kf2, kq_prev, e_prev));
            lemma_mul_mono(ipp + 1, ip + 1, rs);
            lemma_mul_mono(0, ipp + 1, rs);
            lemma_peek_key_monotone(data_a, sep, kf1, (ipp + 1) * rs, (ip + 1) * rs);
            lemma_floor_monotone(data_b, sep, kf2, kq_prev, kq, e_prev, e_cur);
        }
        assert(0 <= e_prev <= e_cur);

        let rest_a_prev = range_rows(data_a, p_prev, la, sep);
        let rest_a_next = range_rows(data_a, p_next, la, sep);
        let rest_b_prev = range_rows(data_b, e_prev, lb, sep);
        let rest_b_next = range_rows(data_b, e_cur, lb, sep);
        let x = range_rows(data_a, p_prev, c, sep);
        let y = rest_a_next;
        let b1 = range_rows(data_b, e_prev, e_cur, sep);

        // The first dataset's remainder splits at the cut.
        if c >= la {
            lemma_range_to_end(data_a, p_prev, c);
            lemma_range_to_end(data_a, p_prev, la);
            assert(p_next == c);
            assert(y =~= Seq::<Seq<Seq<u8>>>::empty());
            assert(rest_a_prev =~= x + y);
        } else if p_prev <= c {
            lemma_range_split(data_a, p_prev, c, la);
            assert(p_next == line_end(data_a, c));
            assert(rest_a_prev =~= x + y);
        } else {
            assert(ip >= 1);
            assert(ip * rs < la);
            assert(p_prev == line_end(data_a, ip * rs));
            lemma_line_end_same(data_a, ip * rs, c);
            assert(p_next == p_prev);
            assert(x =~= Seq::<Seq<Seq<u8>>>::empty());
            assert(rest_a_prev =~= x + y);
        }

        // Row-to-start correspondences and key bounds.
        lemma_range_rows_at(data_a, p_prev, c, sep);
        lemma_range_rows_at(data_a, p_next, la, sep);
        lemma_last_start_props(data_a, la - 1);
        if x.len() > 0 {
            assert(range_lines(data_a, p_prev, c).len() > 0);
            assert(p_prev < la);
            if ip == 0 {
                assert(p_prev == 0);
                assert(is_line_start(data_a, 0));
            } else {
                assert(ip * rs < la);
                assert(p_prev == line_end(data_a, ip * rs));
                assert(data_a[p_prev - 1] == NL);
                assert(is_line_start(data_a, p_prev));
            }
        }
        if y.len() > 0 {
            assert(p_next < la);
            assert(c < la);
            lemma_line_end_props(data_a, c);
            assert(p_next == line_end(data_a, c));
            assert(data_a[p_next - 1] == NL);
            assert(is_line_start(data_a, p_next));
        }
        assert forall|j: int, l: int| 0 <= j < x.len() && 0 <= l < y.len() implies lex_lt(
            #[trigger] x[j][kf1],
            #[trigger] y[l][kf1],
        ) by {
            let sx = range_starts(data_a, p_prev, c)[j];
            let sy = range_starts(data_a, p_next, la)[l];
            assert(x[j] == row_of(line_at(data_a, sx), sep));
            assert(y[l] == row_of(line_at(data_a, sy), sep));
            assert(is_line_start(data_a, sx) && is_line_start(data_a, sy));
            lemma_split_fields_index(strip_nl(line_at(data_a, sx)), sep);
            lemma_split_fields_index(strip_nl(line_at(data_a, sy)), sep);
            assert(sx <= c);
            assert(p_next > c);
            assert(sx < sy);
            lemma_strictly_sorted_monotone(data_a, sep, kf1, sx, sy);
        }
        assert forall|j: int| 0 <= j < x.len() implies lex_le(#[trigger] x[j][kf1], kq) by {
            let sx = range_starts(data_a, p_prev, c)[j];
            assert(x[j] == row_of(line_at(data_a, sx), sep));
            assert(is_line_start(data_a, sx));
            lemma_split_fields_index(strip_nl(line_at(data_a, sx)), sep);
            assert(sx < la);
            assert(sx <= anchor);
            assert(sx <= star);
            if sx < star {
                lemma_strictly_sorted_monotone(data_a, sep, kf1, sx, star);
            }
        }
        assert forall|l: int| 0 <= l < y.len() implies lex_lt(kq, #[trigger] y[l][kf1]) by {
            let sy = range_starts(data_a, p_next, la)[l];
            assert(y[l] == row_of(line_at(data_a, sy), sep));
            assert(is_line_start(data_a, sy));
            lemma_split_fields_index(strip_nl(line_at(data_a, sy)), sep);
            assert(star <= anchor);
            assert(anchor <= c);
            assert(sy >= p_next > c);
            lemma_strictly_sorted_monotone(data_a, sep, kf1, star, sy);
        }

        // The second dataset's remainder splits at the locator's answer.
        assert(is_line_start(data_b, e_cur));
        lemma_line_end_props(data_b, e_cur);
        let nf = line_end(data_b, e_cur);
        lemma_range_split(data_b, e_prev, e_cur, lb);
        let t = range_rows(data_b, nf, lb, sep);
        assert(rest_b_prev =~= b1 + t);
        lemma_range_rows_at(data_b, nf, lb, sep);
        if t.len() > 0 {
            assert(nf < lb);
            assert(is_line_start(data_b, nf));
        }
        assert forall|l: int| 0 <= l < t.len() implies lex_lt(kq, #[trigger] t[l][kf2]) by {
            let sb = range_starts(data_b, nf, lb)[l];
            assert(t[l] == row_of(line_at(data_b, sb), sep));
            assert(is_line_start(data_b, sb));
            lemma_split_fields_index(strip_nl(line_at(data_b, sb)), sep);
            assert(sb >= nf > e_cur);
            lemma_floor_tail_keys(data_b, sep, kf2, kq, e_cur, sb);
        }

        // Worker `ip` consumed exactly its window.
        assert forall|j: int, l: int| 0 <= j < x.len() && 0 <= l < t.len() implies lex_lt(
            #[trigger] x[j][kf1],
            #[trigger] t[l][kf2],
        ) by {
            lemma_lex_le_lt_trans(x[j][kf1], kq, t[l][kf2]);
        }
        lemma_merge_tail_absorb(x, b1, t, kf1, kf2, ospec, sep);
        assert(merge_join_rows(x, rest_b_prev, kf1, kf2, ospec, sep) == outs[ip]);

        // The next worker starts exactly at the window's end.
        if e_prev < e_cur {
            assert(e_cur >= 1);
            assert(data_b[e_cur - 1] == NL);
            assert(line_end(data_b, e_cur - 1) == e_cur);
            lemma_range_split(data_b, e_prev, e_cur - 1, lb);
            let p = range_rows(data_b, e_prev, e_cur - 1, sep);
            assert(rest_b_prev =~= p + rest_b_next);
            lemma_range_rows_at(data_b, e_prev, e_cur - 1, sep);
            if p.len() > 0 {
                assert(e_prev < lb);
                assert(is_line_start(data_b, e_prev) || ip == 0);
                assert(is_line_start(data_b, e_prev));
            }
            lemma_floor_at_most(data_b, sep, kf2, kq, e_cur);
            assert forall|j: int, l: int| 0 <= j < y.len() && 0 <= l < p.len() implies lex_lt(
                #[trigger] p[l][kf2],
                #[trigger] y[j][kf1],
            ) by {
                let sp = range_starts(data_b, e_prev, e_cur - 1)[l];
                assert(p[l] == row_of(line_at(data_b, sp), sep));
                assert(is_line_start(data_b, sp));
                lemma_split_fields_index(strip_nl(line_at(data_b, sp)), sep);
                assert(sp <= e_cur - 1 < e_cur);
                lemma_strictly_sorted_monotone(data_b, sep, kf2, sp, e_cur);
                assert(lex_le(key_at(data_b, sep, kf2, e_cur), kq));
                lemma_lex_lt_le_trans(p[l][kf2], key_at(data_b, sep, kf2, e_cur), kq);
                lemma_lex_trans(p[l][kf2], kq, y[j][kf1]);
            }
            lemma_merge_right_drop(y, p, rest_b_next, kf1, kf2, ospec, sep);
            assert(merge_join_rows(y, rest_b_prev, kf1, kf2, ospec, sep) == merge_join_rows(
                y,
                rest_b_next,
                kf1,
                kf2,
                ospec,
                sep,
            ));
        } else {
            assert(e_prev == e_cur);
            assert(rest_b_prev == rest_b_next);
        }

        // Assemble the step.
        lemma_merge_split_a(x, y, rest_b_prev, kf1, kf2, ospec, sep);
        assert(merge_join_rows(rest_a_prev, rest_b_prev, kf1, kf2, ospec, sep) == outs[ip]
            + merge_join_rows(rest_a_next, rest_b_next, kf1, kf2, ospec, sep));
        assert(outs.take(i).drop_last() =~= outs.take(ip));
        assert(outs.take(i).last() == outs[ip]);
        assert(crate::model::concat_all(outs.take(i)) == crate::model::concat_all(outs.take(ip))
            + outs[ip]);
        assert((crate::model::concat_all(outs.take(ip)) + outs[ip]) + merge_join_rows(
            rest_a_next,
            rest_b_next,
            kf1,
            kf2,
            ospec,
            sep,
        ) =~= crate::model::concat_all(outs.take(ip)) + (outs[ip] + merge_join_rows(
            rest_a_next,
            rest_b_next,
            kf1,
            kf2,
            ospec,
            sep,
        )));
    }
}

/// Merge equivalence: however many ranges the first dataset is cut into,
/// the per-worker outputs concatenate, in worker order, to exactly the
/// two-pointer merge-join of the two complete datasets. It asks that no
/// key repeat within either dataset: with a key on both sides of a cut,
/// which worker sees its matches is not pinned down.
pub proof fn lemma_merge_equivalence(
    data_a: Seq<u8>,
    data_b: Seq<u8>,
    sep: u8,
    kf1: int,
    kf2: int,
    ospec: Seq<(bool, int)>,
    njobs: int,
    outs: Seq<Seq<u8>>,
    ends: Seq<int>,
)
    requires
        wf_data(data_a),
        wf_data(data_b),
        data_a.len() > 0,
        data_b.len() > 0,
        all_keyed(data_a, sep, kf1),
        all_keyed(data_b, sep, kf2),
        0 <= kf1,
        0 <= kf2,
        strictly_sorted_by_key(data_a, sep, kf1),
        strictly_sorted_by_key(data_b, sep, kf2),
        njobs >= 1,
        outs.len() == njobs,
        worker_outputs_ok(data_a, data_b, sep, kf1, kf2, ospec, njobs, outs, ends),
    ensures
        crate::model::concat_all(outs) == merge_join_rows(
            range_rows(data_a, 0, data_a.len() as int, sep),
            range_rows(data_b, 0, data_b.len() as int, sep),
            kf1,
            kf2,
            ospec,
            sep,
        ),
{
    let la = data_a.len() as int;
    let lb = data_b.len() as int;
    let rs = range_size_of(la, njobs);
    lemma_chain_prefix(data_a, data_b, sep, kf1, kf2, ospec, njobs, outs, ends, njobs);
    lemma_range_size(la, njobs);
    assert(njobs * rs >= la);
    assert(partition_start(data_a, njobs, rs) == njobs * rs);
    assert(range_rows(data_a, njobs * rs, la, sep) =~= Seq::<Seq<Seq<u8>>>::empty());
    let ghost final_ends = ends[njobs as int];
    assert(merge_join_rows(
        Seq::<Seq<Seq<u8>>>::empty(),
        range_rows(data_b, final_ends, lb, sep),
        kf1,
        kf2,
        ospec,
        sep,
    ) == Seq::<u8>::empty());
    assert(outs.take(njobs as int) =~= outs);
    assert(crate::model::concat_all(outs) + Seq::<u8>::empty() =~= crate::model::concat_all(outs));
}

/// Joins the two sorted datasets on their key fields, one output buffer
/// per worker: the first dataset is cut into `njobs` byte ranges, each
/// worker's second-dataset range runs from its left neighbour's end to
/// the key locator's answer for its own last key, and each worker
/// merge-joins its pair of ranges.
pub fn execute_parallel_join(
    file1_str_list: &Vec<Vec<u8>>,
    file2_str_list: &Vec<Vec<u8>>,
    separator: u8,
    field1: u32,
    field2: u32,
    output_fields_str_list: &Vec<Vec<u8>>,
    njobs: usize,
) -> (r: Vec<Vec<u8>>)
    requires
        files_wf(views_of(file1_str_list@)),
        file1_str_list@.len() > 0,
        files_wf(views_of(file2_str_list@)),
        file2_str_list@.len() > 0,
        njobs >= 1,
        total_len(views_of(file1_str_list@)) + njobs <= usize::MAX,
        lines_bounded(data_of(file1_str_list@), BUFFER_SIZE as int),
        all_keyed(data_of(file1_str_list@), separator, field1 as int),
        sorted_by_key(data_of(file2_str_list@), separator, field2 as int),
        all_keyed(data_of(file2_str_list@), separator, field2 as int),
        forall|i: int|
            0 <= i < output_fields_str_list@.len() ==> pair_wf(
                #[trigger] output_fields_str_list@[i]@,
            ),
        outspec_fits(
            data_of(file1_str_list@),
            separator,
            pairs_of(output_fields_str_list@),
            true,
        ),
        outspec_fits(
            data_of(file2_str_list@),
            separator,
            pairs_of(output_fields_str_list@),
            false,
        ),
    ensures
        r@.len() == njobs,
        exists|ends: Seq<int>|
            worker_outputs_ok(
                data_of(file1_str_list@),
                data_of(file2_str_list@),
                separator,
                field1 as int,
                field2 as int,
                pairs_of(output_fields_str_list@),
                njobs as int,
                views_of(r@),
                ends,
            ),
{
    let ghost data_a = data_of(file1_str_list@);
    let ghost data_b = data_of(file2_str_list@);
    let ghost kf1 = field1 as int;
    let ghost kf2 = field2 as int;
    let ghost ospec = pairs_of(output_fields_str_list@);
    let ghost rs = range_size_of(data_a.len() as int, njobs as int);
    proof {
        lemma_concat_wf(views_of(file1_str_list@));
        lemma_concat_wf(views_of(file2_str_list@));
        lemma_start_of_all(views_of(file1_str_list@));
        lemma_start_of_step(views_of(file1_str_list@), 0);
        lemma_start_of_all(views_of(file2_str_list@));
        lemma_start_of_step(views_of(file2_str_list@), 0);
        assert(data_a.len() > 0);
        assert(data_b.len() > 0);
    }
    let a_ranges = ByteRangeLineReader::open(file1_str_list, njobs);
    let mut outputs: Vec<Vec<u8>> = Vec::new();
    let mut start_pos: usize = 0;
    let ghost mut ends: Seq<int> = seq![0int];
    let mut t: usize = 0;
    while t < njobs
        invariant
            files_wf(views_of(file1_str_list@)),
            file1_str_list@.len() > 0,
            files_wf(views_of(file2_str_list@)),
            file2_str_list@.len() > 0,
            njobs >= 1,
            lines_bounded(data_a, BUFFER_SIZE as int),
            all_keyed(data_a, separator, kf1),
            sorted_by_key(data_b, separator, kf2),
            all_keyed(data_b, separator, kf2),
            forall|i: int|
                0 <= i < output_fields_str_list@.len() ==> pair_wf(
                    #[trigger] output_fields_str_list@[i]@,
                ),
            outspec_fits(data_a, separator, ospec, true),
            outspec_fits(data_b, separator, ospec, false),
            data_a == data_of(file1_str_list@),
            data_b == data_of(file2_str_list@),
            kf1 == field1 as int,
            kf2 == field2 as int,
            ospec == pairs_of(output_fields_str_list@),
            rs == range_size_of(data_a.len() as int, njobs as int),
            wf_data(data_a),
            wf_data(data_b),
            data_a.len() > 0,
            data_b.len() > 0,
            data_a.len() == total_len(views_of(file1_str_list@)),
            data_b.len() == total_len(views_of(file2_str_list@)),
            a_ranges@.len() == njobs,
            forall|i: int|
                0 <= i < njobs ==> {
                    &&& (#[trigger] a_ranges@[i]).wf()
                    &&& a_ranges@[i].data() == data_a
                    &&& a_ranges@[i].lim() == (i + 1) * rs
                    &&& a_ranges@[i].cur() == partition_start(data_a, i, rs)
                },
            t <= njobs,
            outputs@.len() == t,
            ends.len() == t + 1,
            ends[0] == 0,
            start_pos as int == ends[t as int],
            0 <= ends[t as int] <= data_b.len(),
            forall|i: int|
                0 <= i < t ==> {
                    &&& 0 <= #[trigger] ends[i + 1] <= data_b.len()
                    &&& floor_ok(
                        data_b,
                        separator,
                        kf2,
                        field_of(peek_spec(data_a, (i + 1) * rs), separator, kf1),
                        ends[i + 1],
                    )
                    &&& views_of(outputs@)[i] == merge_join_rows(
                        range_rows(data_a, partition_start(data_a, i, rs), (i + 1) * rs, separator),
                        range_rows(data_b, ends[i], ends[i + 1], separator),
                        kf1,
                        kf2,
                        ospec,
                        separator,
                    )
                },
        decreases njobs - t,
    {
        let ghost lim1 = (t + 1) as int * rs;
        proof {
            assert(a_ranges@[t as int].lim() == lim1);
            let e = if lim1 < data_a.len() {
                lim1
            } else {
                data_a.len() - 1
            };
            lemma_last_start_props(data_a, e);
            let star = last_start_at_or_before(data_a, e);
            assert(is_line_start(data_a, star));
            assert((field1 as int) < num_fields(strip_nl(line_at(data_a, star)), separator));
            assert(peek_spec(data_a, lim1) == strip_nl(line_at(data_a, star)));
        }
        let a_range = a_ranges[t].clone();
        let mut out = OutputFile::new(
            separator,
            output_fields_str_list,
            field1,
            file2_str_list,
            field2,
            a_range,
            start_pos,
        );
        let bend = out.file2_end();
        let ghost bstart = start_pos as int;
        start_pos = bend;
        proof {
            ends = ends.push(bend as int);
        }
        let ghost pstart = partition_start(data_a, t as int, rs);
        let ghost ra0 = range_rows(data_a, pstart, lim1, separator);
        let ghost rb0 = range_rows(data_b, bstart, bend as int, separator);
        let ghost f1fresh = out.f1().rows_left();
        let ghost f2fresh = out.f2().rows_left();
        proof {
            assert(f1fresh =~= seq![seq![Seq::<u8>::empty()]] + ra0);
            assert(f2fresh =~= seq![seq![Seq::<u8>::empty()]] + rb0);
        }
        out.file1_read_next();
        out.file2_read_next();
        proof {
            assert(out.f1().rows_left() == f1fresh.drop_first());
            assert(out.f2().rows_left() == f2fresh.drop_first());
            assert(out.f1().rows_left() =~= ra0);
            assert(out.f2().rows_left() =~= rb0);
            if t == 0 {
                assert(is_line_start(data_a, pstart));
            } else if (t as int) * rs < data_a.len() {
                lemma_line_end_props(data_a, (t as int) * rs);
            }
            lemma_range_rows_from_lines(data_a, pstart, lim1, separator);
            if t == 0 {
                assert(is_line_start(data_b, bstart));
            } else {
                let iprev = t as int - 1;
                assert(0 <= ends[iprev + 1] <= data_b.len());
                assert(is_line_start(data_b, ends[iprev + 1]));
                assert(bstart == ends[iprev + 1]);
            }
            lemma_range_rows_from_lines(data_b, bstart, bend as int, separator);
            assert(Seq::<u8>::empty() + merge_join_rows(ra0, rb0, kf1, kf2, ospec, separator)
                =~= merge_join_rows(ra0, rb0, kf1, kf2, ospec, separator));
        }
        while out.file1_has_current() && out.file2_has_current()
            invariant
                out.wf(),
                out.sep() == separator,
                out.outspec() == ospec,
                out.f1().kf() == kf1,
                out.f2().kf() == kf2,
                out.f1().sep() == separator,
                out.f2().sep() == separator,
                !out.f1().finished() ==> out.f1().fields() == out.f1().rows_left()[0],
                !out.f2().finished() ==> out.f2().fields() == out.f2().rows_left()[0],
                rows_from_lines(data_a, separator, out.f1().rows_left()),
                rows_from_lines(data_b, separator, out.f2().rows_left()),
                all_keyed(data_a, separator, kf1),
                all_keyed(data_b, separator, kf2),
                outspec_fits(data_a, separator, ospec, true),
                outspec_fits(data_b, separator, ospec, false),
                merge_join_rows(ra0, rb0, kf1, kf2, ospec, separator) == out.out()
                    + merge_join_rows(
                    out.f1().rows_left(),
                    out.f2().rows_left(),
                    kf1,
                    kf2,
                    ospec,
                    separator,
                ),
            decreases out.f1().rows_left().len() + out.f2().rows_left().len(),
        {
            let ghost ra = out.f1().rows_left();
            let ghost rb = out.f2().rows_left();
            let ghost out_pre = out.out();
            proof {
                let s1 = choose|s: int|
                    is_line_start(data_a, s) && #[trigger] ra[0] == row_of(
                        line_at(data_a, s),
                        separator,
                    );
                lemma_split_fields_index(strip_nl(line_at(data_a, s1)), separator);
                let s2 = choose|s: int|
                    is_line_start(data_b, s) && #[trigger] rb[0] == row_of(
                        line_at(data_b, s),
                        separator,
                    );
                lemma_split_fields_index(strip_nl(line_at(data_b, s2)), separator);
                assert(kf1 < ra[0].len());
                assert(kf2 < rb[0].len());
                assert forall|k: int| 0 <= k < ospec.len() implies (if (#[trigger] ospec[k]).0 {
                    ospec[k].1 < ra[0].len()
                } else {
                    ospec[k].1 < rb[0].len()
                }) by {
                    if ospec[k].0 {
                        assert(is_line_start(data_a, s1) && 0 <= k < ospec.len() && ospec[k].0
                            == true);
                    } else {
                        assert(is_line_start(data_b, s2) && 0 <= k < ospec.len() && ospec[k].0
                            == false);
                    }
                }
            }
            let key1 = out.file1_key();
            let key2 = out.file2_key();
            let c = lex_cmp(&key1, &key2);
            if c == -1 {
                proof {
                    assert(lex_lt(ra[0][kf1], rb[0][kf2]));
                }
                out.file1_read_next();
                proof {
                    assert forall|j: int| 0 <= j < out.f1().rows_left().len() implies exists|s: int|
                        is_line_start(data_a, s) && #[trigger] out.f1().rows_left()[j] == row_of(
                            line_at(data_a, s),
                            separator,
                        ) by {
                        assert(out.f1().rows_left()[j] == ra[j + 1]);
                    }
                }
            } else if c == 1 {
                proof {
                    lemma_lex_trichotomy(ra[0][kf1], rb[0][kf2]);
                    assert(lex_lt(rb[0][kf2], ra[0][kf1]));
                }
                out.file2_read_next();
                proof {
                    assert forall|j: int| 0 <= j < out.f2().rows_left().len() implies exists|s: int|
                        is_line_start(data_b, s) && #[trigger] out.f2().rows_left()[j] == row_of(
                            line_at(data_b, s),
                            separator,
                        ) by {
                        assert(out.f2().rows_left()[j] == rb[j + 1]);
                    }
                }
            } else {
                proof {
                    lemma_lex_trichotomy(key1@, key2@);
                    assert(key1@ == key2@);
                    assert(ra[0][kf1] == rb[0][kf2]);
                    lemma_lex_trichotomy(ra[0][kf1], rb[0][kf2]);
                    lemma_lex_trichotomy(rb[0][kf2], ra[0][kf1]);
                }
                out.add_match();
                out.file1_read_next();
                out.file2_read_next();
                proof {
                    assert forall|j: int| 0 <= j < out.f1().rows_left().len() implies exists|s: int|
                        is_line_start(data_a, s) && #[trigger] out.f1().rows_left()[j] == row_of(
                            line_at(data_a, s),
                            separator,
                        ) by {
                        assert(out.f1().rows_left()[j] == ra[j + 1]);
                    }
                    assert forall|j: int| 0 <= j < out.f2().rows_left().len() implies exists|s: int|
                        is_line_start(data_b, s) && #[trigger] out.f2().rows_left()[j] == row_of(
                            line_at(data_b, s),
                            separator,
                        ) by {
                        assert(out.f2().rows_left()[j] == rb[j + 1]);
                    }
                    assert(merge_join_rows(ra, rb, kf1, kf2, ospec, separator) == crate::model::emit_row(
                        ra[0],
                        rb[0],
                        ospec,
                        separator,
                    ) + merge_join_rows(
                        ra.drop_first(),
                        rb.drop_first(),
                        kf1,
                        kf2,
                        ospec,
                        separator,
                    ));
                    assert(out_pre + (crate::model::emit_row(ra[0], rb[0], ospec, separator)
                        + merge_join_rows(
                        ra.drop_first(),
                        rb.drop_first(),
                        kf1,
                        kf2,
                        ospec,
                        separator,
                    )) =~= (out_pre + crate::model::emit_row(ra[0], rb[0], ospec, separator))
                        + merge_join_rows(
                        ra.drop_first(),
                        rb.drop_first(),
                        kf1,
                        kf2,
                        ospec,
                        separator,
                    ));
                }
            }
        }
        proof {
            assert(merge_join_rows(
                out.f1().rows_left(),
                out.f2().rows_left(),
                kf1,
                kf2,
                ospec,
                separator,
            ) == Seq::<u8>::empty());
            assert(out.out() + Seq::<u8>::empty() =~= out.out());
            assert(out.out() == merge_join_rows(ra0, rb0, kf1, kf2, ospec, separator));
        }
        let result_bytes = copy_bytes(out.output());
        outputs.push(result_bytes);
        t += 1;
        proof {
            assert forall|i: int| 0 <= i < t implies {
                &&& 0 <= #[trigger] ends[i + 1] <= data_b.len()
                &&& floor_ok(
                    data_b,
                    separator,
                    kf2,
                    field_of(peek_spec(data_a, (i + 1) * rs), separator, kf1),
                    ends[i + 1],
                )
                &&& views_of(outputs@)[i] == merge_join_rows(
                    range_rows(data_a, partition_start(data_a, i, rs), (i + 1) * rs, separator),
                    range_rows(data_b, ends[i], ends[i + 1], separator),
                    kf1,
                    kf2,
                    ospec,
                    separator,
                )
            } by {
                if i < t - 1 {
                    assert(views_of(outputs@)[i] == views_of(outputs@.drop_last())[i]);
                } else {
                    assert(views_of(outputs@)[i] == outputs@[i]@);
                }
            }
        }
    }
    proof {
        assert(worker_outputs_ok(
            data_a,
            data_b,
            separator,
            kf1,
            kf2,
            ospec,
            njobs as int,
            views_of(outputs@),
            ends,
        ));
    }
    outputs
}

} // verus!
