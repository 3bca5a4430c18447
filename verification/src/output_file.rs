//! One worker's merge state: two parsers over sorted byte ranges and the
//! output buffer their matches are written to.

use vstd::prelude::*;

use crate::byte_range_line_reader::ByteRangeLineReader;
use crate::line_reader::{split_line, LineReader};
use crate::model::{
    all_keyed, emit_fields, emit_row, field_of, files_wf, floor_ok, lemma_emit_snoc,
    lemma_split_fields_index, lines_bounded, num_fields, peek_spec, sorted_by_key, total_len,
    BUFFER_SIZE, NL,
};
use crate::multi_file_reader::{data_of, get_key, lex_cmp, views_of, MultiFileReader};

verus! {

/// The byte that separates the file tag from the field index in an
/// output-field selector such as `1.0`.
pub const DOT: u8 = 46;

/// The numeric value of a string of decimal digits.
pub open spec fn dec_value(d: Seq<u8>) -> int
    decreases d.len(),
{
    if d.len() == 0 {
        0
    } else {
        dec_value(d.drop_last()) * 10 + (d.last() - 48)
    }
}

/// A non-empty, all-digit byte sequence.
pub open spec fn dec_valid(d: Seq<u8>) -> bool {
    d.len() > 0 && forall|k: int| 0 <= k < d.len() ==> 48 <= #[trigger] d[k] <= 57
}

/// A well-formed output-field selector: a file tag, a dot, then a decimal
/// field index that fits in 32 bits.
pub open spec fn pair_wf(s: Seq<u8>) -> bool {
    &&& num_fields(s, DOT) == 2
    &&& dec_valid(field_of(s, DOT, 1))
    &&& dec_value(field_of(s, DOT, 1)) <= u32::MAX
}

/// A selector's meaning: whether it names the first file (tag `1`), and
/// the field index it selects.
pub open spec fn pair_spec(s: Seq<u8>) -> (bool, int) {
    (field_of(s, DOT, 0) == seq![49u8], dec_value(field_of(s, DOT, 1)))
}

/// The meanings of a list of selectors.
pub open spec fn pairs_of(list: Seq<Vec<u8>>) -> Seq<(bool, int)> {
    list.map_values(|v: Vec<u8>| pair_spec(v@))
}

/// The meaning of an already-parsed selector list.
pub open spec fn outspec_of(v: Seq<(bool, usize)>) -> Seq<(bool, int)> {
    v.map_values(|p: (bool, usize)| (p.0, p.1 as int))
}

proof fn lemma_dec_take_step(d: Seq<u8>, i: int)
    requires
        0 <= i < d.len(),
    ensures
        dec_value(d.take(i + 1)) == dec_value(d.take(i)) * 10 + (d[i] - 48),
{
    assert(d.take(i + 1).drop_last() =~= d.take(i));
    assert(d.take(i + 1).last() == d[i]);
}

proof fn lemma_dec_nonneg(d: Seq<u8>)
    requires
        forall|k: int| 0 <= k < d.len() ==> 48 <= #[trigger] d[k] <= 57,
    ensures
        dec_value(d) >= 0,
    decreases d.len(),
{
    if d.len() > 0 {
        assert forall|k: int| 0 <= k < d.drop_last().len() implies 48 <= #[trigger] d.drop_last()[k]
            <= 57 by {
            assert(d.drop_last()[k] == d[k]);
        }
        lemma_dec_nonneg(d.drop_last());
    }
}

proof fn lemma_dec_prefix(d: Seq<u8>, i: int)
    requires
        forall|k: int| 0 <= k < d.len() ==> 48 <= #[trigger] d[k] <= 57,
        0 <= i <= d.len(),
    ensures
        0 <= dec_value(d.take(i)),
        dec_value(d.take(i)) <= dec_value(d),
    decreases d.len() - i,
{
    assert forall|k: int| 0 <= k < d.take(i).len() implies 48 <= #[trigger] d.take(i)[k] <= 57 by {
        assert(d.take(i)[k] == d[k]);
    }
    lemma_dec_nonneg(d.take(i));
    if i == d.len() {
        assert(d.take(i) =~= d);
    } else {
        lemma_dec_take_step(d, i);
        lemma_dec_prefix(d, i + 1);
    }
}

/// The field index named by a digit string.
fn parse_index(d: &Vec<u8>) -> (r: u32)
    requires
        dec_valid(d@),
        dec_value(d@) <= u32::MAX,
    ensures
        r == dec_value(d@),
{
    let mut v: u32 = 0;
    let mut i: usize = 0;
    proof {
        assert(d@.take(0) =~= Seq::<u8>::empty());
    }
    while i < d.len()
        invariant
            i <= d.len(),
            dec_valid(d@),
            dec_value(d@) <= u32::MAX,
            v == dec_value(d@.take(i as int)),
        decreases d.len() - i,
    {
        proof {
            lemma_dec_take_step(d@, i as int);
            lemma_dec_prefix(d@, i as int);
            lemma_dec_prefix(d@, i + 1);
        }
        let dig = d[i];
        v = v * 10 + (dig - 48) as u32;
        i += 1;
    }
    proof {
        assert(d@.take(d@.len() as int) =~= d@);
    }
    v
}

/// Parses an output-field selector `tag.index` into whether the tag is
/// `1` and the field index.
pub fn pair_split(s: &Vec<u8>) -> (r: (bool, usize))
    requires
        pair_wf(s@),
    ensures
        (r.0, r.1 as int) == pair_spec(s@),
{
    proof {
        lemma_split_fields_index(s@, DOT);
    }
    let parts = split_line(s, DOT);
    let mut one: Vec<u8> = Vec::new();
    one.push(49);
    let is_file1 = lex_cmp(&parts[0], &one) == 0;
    proof {
        assert(one@ =~= seq![49u8]);
        assert(views_of(parts@).len() == 2);
        assert(views_of(parts@)[0] == parts@[0]@);
        assert(views_of(parts@)[1] == parts@[1]@);
        assert(parts@[0]@ == field_of(s@, DOT, 0));
        assert(parts@[1]@ == field_of(s@, DOT, 1));
    }
    let value = parse_index(&parts[1]);
    (is_file1, value as usize)
}

/// Copies the bytes of `src` onto the end of `dst`.
fn append_bytes(dst: &mut Vec<u8>, src: &Vec<u8>)
    ensures
        final(dst)@ == old(dst)@ + src@,
{
    let ghost d0 = dst@;
    let mut i: usize = 0;
    while i < src.len()
        invariant
            i <= src.len(),
            dst@ == d0 + src@.subrange(0, i as int),
        decreases src.len() - i,
    {
        dst.push(src[i]);
        proof {
            assert(dst@ =~= d0 + src@.subrange(0, i + 1));
        }
        i += 1;
    }
    proof {
        assert(d0 + src@.subrange(0, src@.len() as int) =~= d0 + src@);
    }
}

/// Merges two sorted byte ranges: parsers over a first-file range and the
/// matching second-file range, and the buffer their matches are written
/// to, one output line per matched pair of rows.
pub struct OutputFile {
    separator: u8,
    output: Vec<u8>,
    output_fields: Vec<(bool, usize)>,
    file1: LineReader,
    file2: LineReader,
}

impl OutputFile {
    /// The field and output separator.
    pub closed spec fn sep(&self) -> u8 {
        self.separator
    }

    /// The bytes written so far.
    pub closed spec fn out(&self) -> Seq<u8> {
        self.output@
    }

    /// The output-field selectors.
    pub closed spec fn outspec(&self) -> Seq<(bool, int)> {
        outspec_of(self.output_fields@)
    }

    /// The parser over the first file's range.
    pub closed spec fn f1(&self) -> LineReader {
        self.file1
    }

    /// The parser over the second file's range.
    pub closed spec fn f2(&self) -> LineReader {
        self.file2
    }

    pub closed spec fn wf(&self) -> bool {
        &&& self.file1.wf()
        &&& self.file2.wf()
        &&& self.file1.sep() == self.separator
        &&& self.file2.sep() == self.separator
    }

    /// A worker's merge state. The second file's range is derived here:
    /// it ends at the offset the key locator reports for the key of the
    /// last line of the first file's range, and begins at `start_pos`,
    /// handed over by the worker to the left.
    pub fn new(
        separator: u8,
        output_fields_list: &Vec<Vec<u8>>,
        field1: u32,
        file2_list: &Vec<Vec<u8>>,
        field2: u32,
        file1_range: ByteRangeLineReader,
        start_pos: usize,
    ) -> (r: OutputFile)
        requires
            file1_range.wf(),
            file1_range.data().len() > 0,
            lines_bounded(file1_range.data(), BUFFER_SIZE as int),
            (field1 as int) < num_fields(
                peek_spec(file1_range.data(), file1_range.lim()),
                separator,
            ),
            files_wf(views_of(file2_list@)),
            file2_list@.len() > 0,
            sorted_by_key(data_of(file2_list@), separator, field2 as int),
            all_keyed(data_of(file2_list@), separator, field2 as int),
            start_pos <= total_len(views_of(file2_list@)),
            forall|i: int|
                0 <= i < output_fields_list@.len() ==> pair_wf(#[trigger] output_fields_list@[i]@),
        ensures
            r.wf(),
            r.sep() == separator,
            r.out() == Seq::<u8>::empty(),
            r.outspec() == pairs_of(output_fields_list@),
            r.f1().src() == file1_range,
            r.f1().sep() == separator,
            r.f2().sep() == separator,
            r.f1().kf() == field1 as int,
            !r.f1().finished(),
            r.f1().fields() == seq![Seq::<u8>::empty()],
            r.f2().kf() == field2 as int,
            !r.f2().finished(),
            r.f2().fields() == seq![Seq::<u8>::empty()],
            r.f2().src().data() == data_of(file2_list@),
            r.f2().src().cur() == start_pos,
            r.f2().src().lim() <= data_of(file2_list@).len(),
            floor_ok(
                data_of(file2_list@),
                separator,
                field2 as int,
                field_of(peek_spec(file1_range.data(), file1_range.lim()), separator, field1 as int),
                r.f2().src().lim(),
            ),
    {
        let last = file1_range.last_line();
        let last_key = get_key(&last, separator, field1 as usize);
        let end_pos = MultiFileReader::find_key_pos(
            &last_key,
            file2_list,
            separator,
            field2 as usize,
        ).unwrap();
        let file2_range = ByteRangeLineReader::open_range(file2_list, start_pos, end_pos);
        let mut output_fields: Vec<(bool, usize)> = Vec::new();
        let mut i: usize = 0;
        while i < output_fields_list.len()
            invariant
                i <= output_fields_list.len(),
                forall|j: int|
                    0 <= j < output_fields_list@.len() ==> pair_wf(
                        #[trigger] output_fields_list@[j]@,
                    ),
                output_fields@.len() == i,
                forall|j: int|
                    0 <= j < i ==> (#[trigger] output_fields@[j].0, output_fields@[j].1 as int)
                        == pair_spec(output_fields_list@[j]@),
            decreases output_fields_list.len() - i,
        {
            let p = pair_split(&output_fields_list[i]);
            output_fields.push(p);
            i += 1;
        }
        let r = OutputFile {
            separator,
            output: Vec::new(),
            output_fields,
            file1: LineReader::new(file1_range, separator, field1),
            file2: LineReader::new(file2_range, separator, field2),
        };
        proof {
            assert(r.outspec() =~= pairs_of(output_fields_list@));
        }
        r
    }

    /// The end offset of the second file's range.
    pub fn file2_end(&self) -> (r: usize)
        ensures
            r as int == self.f2().src().lim(),
    {
        self.file2.reader().end()
    }

    /// Writes one match: the selected fields of the two current rows,
    /// joined by the separator, as one output line.
    pub fn add_match(&mut self)
        requires
            old(self).wf(),
            forall|k: int|
                0 <= k < old(self).outspec().len() ==> (if (#[trigger] old(self).outspec()[k]).0 {
                    old(self).outspec()[k].1 < old(self).f1().fields().len()
                } else {
                    old(self).outspec()[k].1 < old(self).f2().fields().len()
                }),
        ensures
            final(self).wf(),
            final(self).sep() == old(self).sep(),
            final(self).outspec() == old(self).outspec(),
            final(self).f1() == old(self).f1(),
            final(self).f2() == old(self).f2(),
            final(self).out() == old(self).out() + emit_row(
                old(self).f1().fields(),
                old(self).f2().fields(),
                old(self).outspec(),
                old(self).sep(),
            ),
    {
        let ghost out0 = self.output@;
        let ghost ra = self.f1().fields();
        let ghost rb = self.f2().fields();
        let ghost ospec = self.outspec();
        let ghost f1z = self.file1;
        let ghost f2z = self.file2;
        let ghost sepz = self.separator;
        let ghost ofz = self.output_fields@;
        proof {
            assert(ospec.take(0) =~= Seq::<(bool, int)>::empty());
        }
        let n = self.output_fields.len();
        let mut k: usize = 0;
        while k < n
            invariant
                k <= n,
                n == self.output_fields@.len(),
                self.wf(),
                self.file1 == f1z,
                self.file2 == f2z,
                self.separator == sepz,
                self.output_fields@ == ofz,
                ra == self.f1().fields(),
                rb == self.f2().fields(),
                ospec == self.outspec(),
                forall|j: int|
                    0 <= j < ospec.len() ==> (if (#[trigger] ospec[j]).0 {
                        ospec[j].1 < ra.len()
                    } else {
                        ospec[j].1 < rb.len()
                    }),
                self.output@ == out0 + emit_fields(ra, rb, ospec.take(k as int), self.sep()),
            decreases n - k,
        {
            let (is_file1, idx) = self.output_fields[k];
            proof {
                assert(ospec[k as int] == (is_file1, idx as int));
            }
            if k > 0 {
                let sep = self.separator;
                self.output.push(sep);
            }
            let v = if is_file1 {
                self.file1.field(idx)
            } else {
                self.file2.field(idx)
            };
            append_bytes(&mut self.output, &v);
            proof {
                lemma_emit_snoc(ra, rb, ospec.take(k + 1), self.sep());
                assert(ospec.take(k + 1).drop_last() =~= ospec.take(k as int));
                assert(ospec.take(k + 1).last() == ospec[k as int]);
                if k == 0 {
                    assert(self.output@ =~= out0 + emit_fields(ra, rb, ospec.take(1), self.sep()));
                } else {
                    assert(self.output@ =~= out0 + (emit_fields(
                        ra,
                        rb,
                        ospec.take(k as int),
                        self.sep(),
                    ) + seq![self.sep()] + v@));
                }
            }
            k += 1;
        }
        self.output.push(NL);
        proof {
            assert(ospec.take(ospec.len() as int) =~= ospec);
            assert(self.output@ =~= out0 + emit_row(ra, rb, ospec, self.sep()));
        }
    }

    /// The output produced so far.
    pub fn output(&self) -> (r: &Vec<u8>)
        ensures
            r@ == self.out(),
    {
        &self.output
    }

    /// Whether the first file's range still has a line to process.
    pub fn file1_has_current(&self) -> (r: bool)
        ensures
            r == !self.f1().finished(),
    {
        self.file1.has_current()
    }

    /// Whether the second file's range still has a line to process.
    pub fn file2_has_current(&self) -> (r: bool)
        ensures
            r == !self.f2().finished(),
    {
        self.file2.has_current()
    }

    /// Advances the first file's parser to its next line.
    pub fn file1_read_next(&mut self)
        requires
            old(self).wf(),
        ensures
            final(self).wf(),
            final(self).sep() == old(self).sep(),
            final(self).outspec() == old(self).outspec(),
            final(self).out() == old(self).out(),
            final(self).f2() == old(self).f2(),
            final(self).f1().kf() == old(self).f1().kf(),
            final(self).f1().sep() == old(self).f1().sep(),
            !old(self).f1().finished() ==> final(self).f1().rows_left() == old(self).f1().rows_left().drop_first(),
            !old(self).f1().finished() ==> final(self).f1().finished() == (old(self).f1().rows_left().len() == 1),
            old(self).f1().finished() ==> final(self).f1().finished() && final(self).f1().rows_left() == old(self).f1().rows_left(),
            !final(self).f1().finished() ==> final(self).f1().fields() == final(self).f1().rows_left()[0],
            final(self).f1().finished() ==> final(self).f1().fields() == seq![Seq::<u8>::empty()],
    {
        self.file1.read_next()
    }

    /// Advances the second file's parser to its next line.
    pub fn file2_read_next(&mut self)
        requires
            old(self).wf(),
        ensures
            final(self).wf(),
            final(self).sep() == old(self).sep(),
            final(self).outspec() == old(self).outspec(),
            final(self).out() == old(self).out(),
            final(self).f1() == old(self).f1(),
            final(self).f2().kf() == old(self).f2().kf(),
            final(self).f2().sep() == old(self).f2().sep(),
            !old(self).f2().finished() ==> final(self).f2().rows_left() == old(self).f2().rows_left().drop_first(),
            !old(self).f2().finished() ==> final(self).f2().finished() == (old(self).f2().rows_left().len() == 1),
            old(self).f2().finished() ==> final(self).f2().finished() && final(self).f2().rows_left() == old(self).f2().rows_left(),
            !final(self).f2().finished() ==> final(self).f2().fields() == final(self).f2().rows_left()[0],
            final(self).f2().finished() ==> final(self).f2().fields() == seq![Seq::<u8>::empty()],
    {
        self.file2.read_next()
    }

    /// The key of the first file's current line.
    pub fn file1_key(&self) -> (r: Vec<u8>)
        requires
            self.f1().kf() < self.f1().fields().len(),
        ensures
            r@ == self.f1().fields()[self.f1().kf()],
    {
        self.file1.key()
    }

    /// The key of the second file's current line.
    pub fn file2_key(&self) -> (r: Vec<u8>)
        requires
            self.f2().kf() < self.f2().fields().len(),
        ensures
            r@ == self.f2().fields()[self.f2().kf()],
    {
        self.file2.key()
    }

    /// Field `i` of the first file's current line.
    pub fn file1_field(&self, i: usize) -> (r: Vec<u8>)
        requires
            i < self.f1().fields().len(),
        ensures
            r@ == self.f1().fields()[i as int],
    {
        self.file1.field(i)
    }

    /// Field `i` of the second file's current line.
    pub fn file2_field(&self, i: usize) -> (r: Vec<u8>)
        requires
            i < self.f2().fields().len(),
        ensures
            r@ == self.f2().fields()[i as int],
    {
        self.file2.field(i)
    }
}

} // verus!
