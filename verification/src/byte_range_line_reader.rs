//! A line reader over a byte-range slice of a multi-file stream.
//!
//! The range's end is orientative: a line straddling it is delivered
//! whole, and only the following call reports the end of the range.

use vstd::prelude::*;

use crate::model::{
    files_wf, is_line_start, last_start_at_or_before, lemma_concat_wf, lemma_last_start_contains,
    lemma_last_start_props, lemma_line_end_lb, lemma_line_end_props, lemma_mul_mono,
    lemma_range_overrun, lemma_range_shapes, lemma_range_size, line_at, line_end, lines_bounded,
    partition_start, peek_spec, range_lines,
    range_size_of, range_starts, strip_nl, total_len, wf_data, BUFFER_SIZE, NL,
};
use crate::multi_file_reader::{data_of, views_of, MultiFileReader};

verus! {

/// Reads, line by line, the slice of a multi-file stream that runs from
/// the current position to a fixed end offset, delivering whole lines.
pub struct ByteRangeLineReader {
    reader: MultiFileReader,
    end: usize,
    current: usize,
}

impl ByteRangeLineReader {
    /// The byte stream the range is cut from.
    pub closed spec fn data(&self) -> Seq<u8> {
        self.reader.data()
    }

    /// The reader's current global offset.
    pub closed spec fn cur(&self) -> int {
        self.current as int
    }

    /// The range's end offset.
    pub closed spec fn lim(&self) -> int {
        self.end as int
    }

    /// The underlying reader sits at the current offset, clamped to the
    /// stream's end.
    pub closed spec fn wf(&self) -> bool {
        &&& self.reader.wf()
        &&& self.reader.pos() == if self.current as int <= self.reader.data().len() {
            self.current as int
        } else {
            self.reader.data().len() as int
        }
    }

    /// The lines the reader still delivers: those starting in
    /// `[cur, lim]`.
    pub open spec fn lines_left(&self) -> Seq<Seq<u8>> {
        range_lines(self.data(), self.cur(), self.lim())
    }

    pub proof fn lemma_wf_facts(&self)
        requires
            self.wf(),
        ensures
            wf_data(self.data()),
            self.data().len() <= usize::MAX,
            0 <= self.cur(),
    {
        self.reader.lemma_wf_pos();
        lemma_concat_wf(self.reader.files_view());
    }

    /// An independent reader over the same stream, range and position.
    pub fn clone(&self) -> (r: ByteRangeLineReader)
        requires
            self.wf(),
        ensures
            r.wf(),
            r.data() == self.data(),
            r.cur() == self.cur(),
            r.lim() == self.lim(),
    {
        ByteRangeLineReader { reader: self.reader.clone(), end: self.end, current: self.current }
    }

    /// The current global offset.
    pub fn pos(&self) -> (r: usize)
        ensures
            r == self.cur(),
    {
        self.current
    }

    /// The range's end offset.
    pub fn end(&self) -> (r: usize)
        ensures
            r == self.lim(),
    {
        self.end
    }

    /// A reader over `file_list` delivering the lines that start in
    /// `[start_pos, end_pos]`.
    pub fn open_range(file_list: &Vec<Vec<u8>>, start_pos: usize, end_pos: usize) -> (r:
        ByteRangeLineReader)
        requires
            files_wf(views_of(file_list@)),
            file_list@.len() > 0,
            start_pos <= total_len(views_of(file_list@)),
        ensures
            r.wf(),
            r.data() == data_of(file_list@),
            r.cur() == start_pos,
            r.lim() == end_pos,
    {
        let reader = MultiFileReader::open(file_list, start_pos);
        proof {
            reader.lemma_wf_pos();
        }
        ByteRangeLineReader { reader, end: end_pos, current: start_pos }
    }

    /// Appends one whole line to `buf` and returns its length, or returns
    /// 0 once the current position has passed the range's end or the
    /// stream is exhausted. A line straddling the end is delivered whole.
    pub fn read_line(&mut self, buf: &mut Vec<u8>) -> (n: usize)
        requires
            old(self).wf(),
        ensures
            final(self).wf(),
            final(self).data() == old(self).data(),
            final(self).lim() == old(self).lim(),
            (old(self).cur() <= old(self).lim() && old(self).cur() < old(self).data().len()) ==> {
                &&& n == line_end(old(self).data(), old(self).cur()) - old(self).cur()
                &&& n > 0
                &&& final(buf)@ == old(buf)@ + line_at(old(self).data(), old(self).cur())
                &&& final(self).cur() == line_end(old(self).data(), old(self).cur())
            },
            !(old(self).cur() <= old(self).lim() && old(self).cur() < old(self).data().len())
                ==> (n == 0 && final(buf)@ == old(buf)@ && final(self).cur() == old(self).cur()),
    {
        proof {
            self.reader.lemma_wf_pos();
            lemma_concat_wf(self.reader.files_view());
            if (self.current as int) < self.reader.data().len() {
                lemma_line_end_lb(self.reader.data(), self.current as int);
            }
        }
        if self.current <= self.end {
            let n = self.reader.read_line(buf);
            self.current = self.current + n;
            n
        } else {
            0
        }
    }

    /// The last complete line of the range, without its newline and
    /// without moving the reader: the line starting at the greatest line
    /// start at or before the range's end (clamped to the stream). It is
    /// read through an independent clone of the underlying stream, from a
    /// window of at most two buffers around the range's end; every line
    /// must therefore fit in one buffer.
    pub fn last_line(&self) -> (r: Vec<u8>)
        requires
            self.wf(),
            self.data().len() > 0,
            lines_bounded(self.data(), BUFFER_SIZE as int),
        ensures
            r@ == peek_spec(self.data(), self.lim()),
    {
        let ghost data = self.data();
        proof {
            self.lemma_wf_facts();
        }
        let mut rdr = self.reader.clone();
        let total = rdr.own_len();
        let e = if self.end < total {
            self.end
        } else {
            total - 1
        };
        let ghost star = last_start_at_or_before(data, e as int);
        proof {
            lemma_last_start_props(data, e as int);
            lemma_last_start_contains(data, e as int);
            lemma_line_end_props(data, star);
            assert(line_end(data, star) - star <= BUFFER_SIZE as int);
        }
        let seek_pos = if e >= BUFFER_SIZE {
            e - BUFFER_SIZE + 1
        } else {
            0
        };
        let hi = if total - e > BUFFER_SIZE {
            e + BUFFER_SIZE
        } else {
            total
        };
        proof {
            assert(seek_pos <= star);
            assert(line_end(data, star) <= hi);
            assert(hi <= data.len());
        }
        rdr.seek(seek_pos);
        let buf = rdr.read(hi - seek_pos);
        proof {
            assert(buf@ == data.subrange(seek_pos as int, hi as int));
        }
        let mut s = e - seek_pos;
        while s > 0 && buf[s - 1] != NL
            invariant
                buf@ == data.subrange(seek_pos as int, hi as int),
                data.len() > 0,
                seek_pos as int + e - seek_pos < hi <= data.len(),
                star == last_start_at_or_before(data, e as int),
                is_line_start(data, star),
                seek_pos <= star,
                s <= e - seek_pos,
                star <= seek_pos + s,
                forall|t: int| seek_pos + s < t <= e ==> !is_line_start(data, t),
            decreases s,
        {
            proof {
                assert(buf@[s - 1] == data[seek_pos + s - 1]);
                assert(!is_line_start(data, seek_pos as int + s as int));
            }
            s -= 1;
        }
        proof {
            if s > 0 {
                assert(buf@[s - 1] == data[seek_pos + s - 1]);
                assert(is_line_start(data, seek_pos as int + s as int));
                assert(seek_pos + s <= star);
            } else {
                if seek_pos == 0 {
                    assert(is_line_start(data, 0));
                    assert(0 <= star);
                } else {
                    assert(star >= e - BUFFER_SIZE + 1) by {
                        assert(e < line_end(data, star));
                    }
                }
            }
            assert(seek_pos as int + s as int == star);
        }
        let ghost fin = line_end(data, star);
        let mut out: Vec<u8> = Vec::new();
        let mut k = s;
        proof {
            assert(seek_pos + k == star);
            assert(star <= fin - 1);
        }
        while buf[k] != NL
            invariant
                buf@ == data.subrange(seek_pos as int, hi as int),
                star == seek_pos + s,
                fin == line_end(data, star),
                is_line_start(data, star),
                seek_pos as int <= star,
                fin <= hi <= data.len(),
                data[fin - 1] == NL,
                forall|t: int| star <= t < fin - 1 ==> data[t] != NL,
                s <= k,
                star <= seek_pos + k <= fin - 1,
                out@ == data.subrange(star, seek_pos + k),
            decreases fin - k,
        {
            proof {
                assert(buf@[k as int] == data[seek_pos + k]);
                assert(data[seek_pos + k] != NL);
                assert(seek_pos + k < fin - 1);
            }
            out.push(buf[k]);
            k += 1;
            proof {
                assert(out@ =~= data.subrange(star, seek_pos + k));
            }
        }
        proof {
            assert(buf@[k as int] == data[seek_pos + k]);
            assert(seek_pos + k == fin - 1);
            assert(line_at(data, star) == data.subrange(star, fin));
            assert(line_at(data, star).last() == data[fin - 1]);
            assert(peek_spec(data, self.lim()) == strip_nl(line_at(data, star)));
            assert(out@ =~= strip_nl(line_at(data, star)));
        }
        out
    }

    /// Cuts the stream into `num_readers` ranges of roughly equal byte
    /// size, on whole lines: every range but the first immediately
    /// discards the (possibly cut) line containing its raw start offset,
    /// which the previous range delivers in full.
    pub fn open(file_list: &Vec<Vec<u8>>, num_readers: usize) -> (r: Vec<ByteRangeLineReader>)
        requires
            files_wf(views_of(file_list@)),
            file_list@.len() > 0,
            num_readers >= 1,
            total_len(views_of(file_list@)) + num_readers <= usize::MAX,
        ensures
            r@.len() == num_readers,
            forall|i: int|
                0 <= i < num_readers ==> {
                    &&& (#[trigger] r@[i]).wf()
                    &&& r@[i].data() == data_of(file_list@)
                    &&& r@[i].lim() == (i + 1) * range_size_of(
                        total_len(views_of(file_list@)),
                        num_readers as int,
                    )
                    &&& r@[i].cur() == partition_start(
                        data_of(file_list@),
                        i,
                        range_size_of(total_len(views_of(file_list@)), num_readers as int),
                    )
                },
    {
        let ghost fv = views_of(file_list@);
        let ghost data = data_of(file_list@);
        let total = MultiFileReader::len(file_list);
        proof {
            lemma_range_size(total as int, num_readers as int);
            lemma_concat_wf(fv);
        }
        let range_size = total / num_readers + if total % num_readers == 0 {
            0
        } else {
            1
        };
        let mut r: Vec<ByteRangeLineReader> = Vec::new();
        let mut i: usize = 0;
        while i < num_readers
            invariant
                i <= num_readers,
                num_readers >= 1,
                r@.len() == i,
                fv == views_of(file_list@),
                data == data_of(file_list@),
                files_wf(fv),
                fv.len() > 0,
                wf_data(data),
                data.len() == total,
                total == total_len(fv),
                total + num_readers <= usize::MAX,
                range_size == range_size_of(total as int, num_readers as int),
                range_size >= 0,
                num_readers * range_size <= total + num_readers,
                forall|j: int|
                    0 <= j < i ==> {
                        &&& (#[trigger] r@[j]).wf()
                        &&& r@[j].data() == data
                        &&& r@[j].lim() == (j + 1) * range_size
                        &&& r@[j].cur() == partition_start(data, j, range_size as int)
                    },
            decreases num_readers - i,
        {
            proof {
                lemma_mul_mono(i as int + 1, num_readers as int, range_size as int);
                assert((i as int) * range_size <= (i as int + 1) * range_size) by {
                    lemma_mul_mono(i as int, i as int + 1, range_size as int);
                }
                assert((i as int + 1) * range_size == (i as int) * range_size + range_size)
                    by (nonlinear_arith);
            }
            let start = i * range_size;
            let end = start + range_size;
            let open_at = if start <= total {
                start
            } else {
                total
            };
            let reader = MultiFileReader::open(file_list, open_at);
            proof {
                reader.lemma_wf_pos();
            }
            let mut ret = ByteRangeLineReader { reader, end, current: start };
            if i > 0 {
                let mut s: Vec<u8> = Vec::new();
                ret.read_line(&mut s);
            }
            r.push(ret);
            i += 1;
        }
        r
    }
}

/// Peeking at the last line of a range is idempotent: it reads only the
/// stream and the range's end, so two readers over the same stream with
/// the same end report the same last line, however many lines either has
/// already consumed.
pub proof fn lemma_peek_position_independent(r1: ByteRangeLineReader, r2: ByteRangeLineReader)
    requires
        r1.wf(),
        r2.wf(),
        r1.data() == r2.data(),
        r1.lim() == r2.lim(),
    ensures
        peek_spec(r1.data(), r1.lim()) == peek_spec(r2.data(), r2.lim()),
{
}

/// A range reader delivers at most one line whose starting offset is at
/// or past its end: such a line is the last one it delivers, and the
/// following read reports the end of the range.
pub proof fn lemma_overrun_bound(r: ByteRangeLineReader, i: int)
    requires
        r.wf(),
        0 <= i < range_starts(r.data(), r.cur(), r.lim()).len(),
        range_starts(r.data(), r.cur(), r.lim())[i] >= r.lim(),
    ensures
        i == range_starts(r.data(), r.cur(), r.lim()).len() - 1,
        i == range_lines(r.data(), r.cur(), r.lim()).len() - 1,
{
    lemma_range_overrun(r.data(), r.cur(), r.lim(), i);
    lemma_range_shapes(r.data(), r.cur(), r.lim());
}

} // verus!
