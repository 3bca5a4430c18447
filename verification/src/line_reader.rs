//! Iterative line parsing over a byte-range reader: reads one line at a
//! time and keeps its separator-split fields at hand.

use vstd::prelude::*;

use crate::byte_range_line_reader::ByteRangeLineReader;
use crate::model::{
    lemma_split_at_sep, lemma_split_no_sep, line_at, range_rows, row_of, split_fields, strip_nl,
};
use crate::multi_file_reader::views_of;

verus! {

/// Splits a line, already stripped of its newline, into its fields.
pub fn split_line(s: &Vec<u8>, sep: u8) -> (r: Vec<Vec<u8>>)
    ensures
        views_of(r@) == split_fields(s@, sep),
{
    let mut done: Vec<Vec<u8>> = Vec::new();
    let mut cur: Vec<u8> = Vec::new();
    let mut j: usize = 0;
    proof {
        assert(cur@ + s@.skip(0) =~= s@);
    }
    while j < s.len()
        invariant
            j <= s.len(),
            forall|k: int| 0 <= k < cur@.len() ==> cur@[k] != sep,
            views_of(done@) + split_fields(cur@ + s@.skip(j as int), sep) == split_fields(
                s@,
                sep,
            ),
        decreases s.len() - j,
    {
        let b = s[j];
        let ghost donev = done@;
        let ghost curv = cur@;
        if b == sep {
            proof {
                lemma_split_at_sep(curv, sep, s@.skip(j as int + 1));
                assert(curv + seq![sep] + s@.skip(j as int + 1) =~= curv + s@.skip(j as int));
            }
            done.push(cur);
            cur = Vec::new();
            proof {
                assert(views_of(done@) =~= views_of(donev) + seq![curv]);
                assert(cur@ + s@.skip(j as int + 1) =~= s@.skip(j as int + 1));
                assert(views_of(done@) + split_fields(s@.skip(j as int + 1), sep) =~= views_of(
                    donev,
                ) + (seq![curv] + split_fields(s@.skip(j as int + 1), sep)));
            }
        } else {
            cur.push(b);
            proof {
                assert(cur@ + s@.skip(j as int + 1) =~= curv + s@.skip(j as int));
            }
        }
        j += 1;
    }
    proof {
        assert(cur@ + s@.skip(s@.len() as int) =~= cur@);
        lemma_split_no_sep(cur@, sep);
    }
    let ghost donev = done@;
    let ghost curv = cur@;
    done.push(cur);
    proof {
        assert(views_of(done@) =~= views_of(donev) + seq![curv]);
    }
    done
}

/// Reads lines from a byte-range reader and keeps the fields of the last
/// line read; after the source is exhausted it holds one empty field.
pub struct LineReader {
    reader: ByteRangeLineReader,
    separator: u8,
    key_field: usize,
    last_parsed_line: Vec<Vec<u8>>,
    finished: bool,
}

impl LineReader {
    /// The underlying byte-range reader.
    pub closed spec fn src(&self) -> ByteRangeLineReader {
        self.reader
    }

    /// The field separator.
    pub closed spec fn sep(&self) -> u8 {
        self.separator
    }

    /// The key field index.
    pub closed spec fn kf(&self) -> int {
        self.key_field as int
    }

    /// Whether the source has reported its end.
    pub closed spec fn finished(&self) -> bool {
        self.finished
    }

    /// The fields of the last line read.
    pub closed spec fn fields(&self) -> Seq<Seq<u8>> {
        views_of(self.last_parsed_line@)
    }

    /// Once the parser is finished, the source truly has nothing more to
    /// deliver.
    pub closed spec fn wf(&self) -> bool {
        &&& self.reader.wf()
        &&& self.finished ==> (self.reader.cur() > self.reader.lim() || self.reader.cur()
            >= self.reader.data().len())
    }

    /// The rows still to be processed: the stored current row, then the
    /// parsed remaining lines of the source.
    pub open spec fn rows_left(&self) -> Seq<Seq<Seq<u8>>> {
        if self.finished() {
            Seq::empty()
        } else {
            seq![self.fields()] + range_rows(
                self.src().data(),
                self.src().cur(),
                self.src().lim(),
                self.sep(),
            )
        }
    }

    /// A parser over `reader`, with one empty field stored and the source
    /// not yet read.
    pub fn new(reader: ByteRangeLineReader, separator: u8, key_field: u32) -> (r: LineReader)
        requires
            reader.wf(),
        ensures
            r.wf(),
            r.src() == reader,
            r.sep() == separator,
            r.kf() == key_field as int,
            !r.finished(),
            r.fields() == seq![Seq::<u8>::empty()],
    {
        let mut first: Vec<Vec<u8>> = Vec::new();
        first.push(Vec::new());
        let r = LineReader {
            reader,
            separator,
            key_field: key_field as usize,
            last_parsed_line: first,
            finished: false,
        };
        proof {
            assert(r.fields() =~= seq![Seq::<u8>::empty()]);
        }
        r
    }

    /// Whether a line is available: false once the source has ended.
    pub fn has_current(&self) -> (r: bool)
        ensures
            r == !self.finished(),
    {
        !self.finished
    }

    /// Reads the next line and stores its fields; at the source's end,
    /// marks the parser finished and stores one empty field.
    pub fn read_next(&mut self)
        requires
            old(self).wf(),
        ensures
            final(self).wf(),
            final(self).src().data() == old(self).src().data(),
            final(self).src().lim() == old(self).src().lim(),
            final(self).sep() == old(self).sep(),
            final(self).kf() == old(self).kf(),
            !old(self).finished() ==> final(self).rows_left() == old(self).rows_left().drop_first(),
            !old(self).finished() ==> final(self).finished() == (old(self).rows_left().len()
                == 1),
            old(self).finished() ==> final(self).finished() && final(self).rows_left()
                == old(self).rows_left(),
            !final(self).finished() ==> final(self).fields() == final(self).rows_left()[0],
            final(self).finished() ==> final(self).fields() == seq![Seq::<u8>::empty()],
    {
        let ghost data = self.reader.data();
        let ghost cur0 = self.reader.cur();
        let ghost lim = self.reader.lim();
        proof {
            self.reader.lemma_wf_facts();
        }
        let mut line1: Vec<u8> = Vec::new();
        let n = self.reader.read_line(&mut line1);
        self.finished = n == 0;
        if n > 0 {
            proof {
                crate::model::lemma_line_end_props(data, cur0);
                assert(line1@ == line_at(data, cur0));
                assert(line_at(data, cur0).last() == data[crate::model::line_end(data, cur0)
                    - 1]);
            }
            line1.pop();
            proof {
                assert(line1@ =~= strip_nl(line_at(data, cur0)));
            }
        }
        self.last_parsed_line = split_line(&line1, self.separator);
        proof {
            if n > 0 {
                assert(self.fields() == row_of(line_at(data, cur0), self.separator));
                assert(range_rows(data, cur0, lim, self.separator) =~= seq![
                    row_of(line_at(data, cur0), self.separator),
                ] + range_rows(data, crate::model::line_end(data, cur0), lim, self.separator));
            } else {
                assert(range_rows(data, cur0, lim, self.separator) =~= Seq::<
                    Seq<Seq<u8>>,
                >::empty());
                assert(crate::model::split_fields(line1@, self.separator) =~= seq![
                    Seq::<u8>::empty(),
                ]);
                assert(self.fields() =~= seq![Seq::<u8>::empty()]);
            }
        }
    }

    /// The key field index the parser was built with.
    pub fn key_field(&self) -> (r: usize)
        ensures
            r == self.kf(),
    {
        self.key_field
    }

    /// The key of the current line: its field at the key index.
    pub fn key(&self) -> (r: Vec<u8>)
        requires
            self.kf() < self.fields().len(),
        ensures
            r@ == self.fields()[self.kf()],
    {
        crate::multi_file_reader::copy_bytes(&self.last_parsed_line[self.key_field])
    }

    /// The current line's field at index `i`.
    pub fn field(&self, i: usize) -> (r: Vec<u8>)
        requires
            i < self.fields().len(),
        ensures
            r@ == self.fields()[i as int],
    {
        crate::multi_file_reader::copy_bytes(&self.last_parsed_line[i])
    }

    /// The underlying byte-range reader, read-only.
    pub fn reader(&self) -> (r: &ByteRangeLineReader)
        ensures
            *r == self.src(),
    {
        &self.reader
    }
}

} // verus!
