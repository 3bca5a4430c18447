//! A seekable, line-oriented reader over the logical concatenation of an
//! ordered list of byte files.

use vstd::prelude::*;

use crate::model::{
    concat_all, field_of, files_wf, is_line_start, last_start_at_or_before, lemma_concat_index,
    lemma_concat_len, lemma_concat_wf, lemma_field_step_nonsep, lemma_field_step_sep,
    lemma_first_sep_bounds, lemma_first_sep_char, lemma_last_start_props, lemma_line_end_char,
    lemma_line_end_in_file, lemma_line_end_props, lemma_num_fields_pos, lemma_start_of_all,
    lemma_start_of_step, lemma_lex_step, lemma_lex_trichotomy, lemma_lex_trans,
    lemma_line_end_le, lemma_no_key_below, lemma_above_all, lemma_adjacent_floor,
    lemma_sorted_monotone, lemma_lex_le_lt_trans, lex_lt, floor_ok, line_at,
    line_end, line_key, lines_from, key_at, has_key, sorted_by_key, all_keyed, num_fields, start_of, strip_nl,
    total_len, wf_data, NL,
};

verus! {

/// Start and end offsets of one file inside the logical concatenation of a
/// file list: `end - start` is the file's length, and successive entries
/// are contiguous.
#[derive(Clone, Copy)]
pub struct FileInfo {
    pub start: usize,
    pub end: usize,
}

/// The contents of a list of files, as mathematical sequences.
pub open spec fn views_of(files: Seq<Vec<u8>>) -> Seq<Seq<u8>> {
    files.map_values(|f: Vec<u8>| f@)
}

/// The offset table `infos` describes the file list `fv`.
pub open spec fn infos_match(infos: Seq<FileInfo>, fv: Seq<Seq<u8>>) -> bool {
    &&& infos.len() == fv.len()
    &&& forall|i: int| 0 <= i < infos.len() ==> #[trigger] infos[i].start as int == start_of(fv, i)
    &&& forall|i: int|
        0 <= i < infos.len() ==> #[trigger] infos[i].end as int == start_of(fv, i) + fv[i].len()
}

/// Structural facts of a matching offset table: it starts at zero, its
/// spans are contiguous and ordered, and it ends at the total length.
pub proof fn lemma_infos_facts(infos: Seq<FileInfo>, fv: Seq<Seq<u8>>)
    requires
        infos_match(infos, fv),
        fv.len() > 0,
    ensures
        infos[0].start == 0,
        forall|i: int|
            0 <= i < infos.len() - 1 ==> #[trigger] infos[i].end as int == infos[i + 1].start as int,
        forall|i: int| 0 <= i < infos.len() ==> #[trigger] infos[i].start as int <= infos[i].end as int,
        infos[infos.len() - 1].end as int == total_len(fv),
        infos.last().end as int == total_len(fv),
{
    lemma_start_of_all(fv);
    assert forall|i: int| 0 <= i < infos.len() - 1 implies #[trigger] infos[i].end as int
        == infos[i + 1].start as int by {
        lemma_start_of_step(fv, i);
    }
    lemma_start_of_step(fv, fv.len() - 1);
    assert(fv.take(fv.len() as int) =~= fv);
}

/// Reads the files of an ordered list line by line, as if they were one
/// file. Positions are global: offsets into the logical concatenation.
pub struct MultiFileReader {
    files: Vec<Vec<u8>>,
    files_info: Vec<FileInfo>,
    current_file_index: usize,
    current_file_pos: usize,
}

impl MultiFileReader {
    /// The file contents the reader was opened over.
    pub closed spec fn files_view(&self) -> Seq<Seq<u8>> {
        views_of(self.files@)
    }

    /// The logical byte stream the reader delivers.
    pub open spec fn data(&self) -> Seq<u8> {
        concat_all(self.files_view())
    }

    /// The reader's global position.
    pub closed spec fn pos(&self) -> int {
        if self.current_file_index >= self.files.len() {
            total_len(self.files_view())
        } else {
            start_of(self.files_view(), self.current_file_index as int)
                + self.current_file_pos
        }
    }

    /// The reader's internal invariant: the offset table matches the file
    /// contents and the cursor sits inside the current file.
    pub closed spec fn wf(&self) -> bool {
        &&& files_wf(self.files_view())
        &&& self.files.len() > 0
        &&& infos_match(self.files_info@, self.files_view())
        &&& self.current_file_index <= self.files.len()
        &&& if self.current_file_index < self.files.len() {
            self.current_file_pos <= self.files_view()[self.current_file_index as int].len()
        } else {
            self.current_file_pos == 0
        }
    }

    /// A well-formed reader's position lies within the stream.
    pub proof fn lemma_wf_pos(&self)
        requires
            self.wf(),
        ensures
            0 <= self.pos() <= self.data().len(),
            self.data().len() == total_len(self.files_view()),
            files_wf(self.files_view()),
            self.files_view().len() > 0,
        decreases 0int,
    {
        lemma_concat_len(self.files_view());
        lemma_start_of_all(self.files_view());
        if self.current_file_index < self.files.len() {
            let i = self.current_file_index as int;
            lemma_start_of_step(self.files_view(), i);
        }
    }
}

/// An owned copy of a byte vector.
pub(crate) fn copy_bytes(v: &Vec<u8>) -> (r: Vec<u8>)
    ensures
        r@ == v@,
{
    let mut r: Vec<u8> = Vec::new();
    let mut i: usize = 0;
    while i < v.len()
        invariant
            i <= v.len(),
            r@ == v@.subrange(0, i as int),
        decreases v.len() - i,
    {
        r.push(v[i]);
        i += 1;
    }
    assert(r@ =~= v@);
    r
}

/// An owned copy of a list of byte files.
fn copy_files(files: &Vec<Vec<u8>>) -> (r: Vec<Vec<u8>>)
    ensures
        views_of(r@) == views_of(files@),
{
    let mut r: Vec<Vec<u8>> = Vec::new();
    let mut i: usize = 0;
    while i < files.len()
        invariant
            i <= files.len(),
            r@.len() == i,
            forall|j: int| 0 <= j < i ==> #[trigger] r@[j]@ == files@[j]@,
        decreases files.len() - i,
    {
        r.push(copy_bytes(&files[i]));
        i += 1;
    }
    assert(views_of(r@) =~= views_of(files@));
    r
}

impl MultiFileReader {
    /// Sum of the lengths of the given files.
    pub fn len(file_list: &Vec<Vec<u8>>) -> (r: usize)
        requires
            total_len(views_of(file_list@)) <= usize::MAX,
        ensures
            r == total_len(views_of(file_list@)),
    {
        let ghost fv = views_of(file_list@);
        proof {
            lemma_start_of_all(fv);
        }
        let mut acc: usize = 0;
        let mut i: usize = 0;
        while i < file_list.len()
            invariant
                i <= file_list.len(),
                acc == start_of(fv, i as int),
                fv == views_of(file_list@),
                total_len(fv) <= usize::MAX,
                forall|j: int|
                    0 <= j <= fv.len() ==> 0 <= #[trigger] start_of(fv, j) <= total_len(fv),
                forall|j: int|
                    0 <= j < fv.len() ==> #[trigger] start_of(fv, j + 1) == start_of(fv, j)
                        + fv[j].len(),
            decreases file_list.len() - i,
        {
            assert(start_of(fv, i + 1) == start_of(fv, i as int) + fv[i as int].len());
            acc = acc + file_list[i].len();
            i += 1;
        }
        proof {
            assert(views_of(file_list@).take(file_list@.len() as int) =~= views_of(file_list@));
        }
        acc
    }

    /// The offset table of a list of files: where each starts and ends in
    /// the logical concatenation.
    pub fn get_files_info(file_list: &Vec<Vec<u8>>) -> (r: Vec<FileInfo>)
        requires
            total_len(views_of(file_list@)) <= usize::MAX,
        ensures
            infos_match(r@, views_of(file_list@)),
    {
        let ghost fv = views_of(file_list@);
        proof {
            lemma_start_of_all(fv);
        }
        let mut r: Vec<FileInfo> = Vec::new();
        let mut last_end: usize = 0;
        let mut i: usize = 0;
        while i < file_list.len()
            invariant
                i <= file_list.len(),
                r@.len() == i,
                last_end == start_of(fv, i as int),
                fv == views_of(file_list@),
                total_len(fv) <= usize::MAX,
                forall|j: int|
                    0 <= j <= fv.len() ==> 0 <= #[trigger] start_of(fv, j) <= total_len(fv),
                forall|j: int|
                    0 <= j < fv.len() ==> #[trigger] start_of(fv, j + 1) == start_of(fv, j)
                        + fv[j].len(),
                forall|j: int| 0 <= j < i ==> #[trigger] r@[j].start as int == start_of(fv, j),
                forall|j: int|
                    0 <= j < i ==> #[trigger] r@[j].end as int == start_of(fv, j) + fv[j].len(),
            decreases file_list.len() - i,
        {
            assert(start_of(fv, i + 1) == start_of(fv, i as int) + fv[i as int].len());
            let fsize = file_list[i].len();
            r.push(FileInfo { start: last_end, end: last_end + fsize });
            last_end = last_end + fsize;
            i += 1;
        }
        r
    }

    /// Index of the table entry whose span contains `pos`; the last index
    /// when `pos` lies at or past the end of the final file.
    pub fn find_file_info(files_info: &Vec<FileInfo>, pos: usize) -> (r: usize)
        requires
            files_info@.len() > 0,
            files_info@[0].start == 0,
            forall|i: int|
                0 <= i < files_info@.len() - 1 ==> #[trigger] files_info@[i].end as int
                    == files_info@[i + 1].start as int,
            forall|i: int|
                0 <= i < files_info@.len() ==> #[trigger] files_info@[i].start as int
                    <= files_info@[i].end as int,
        ensures
            r < files_info@.len(),
            pos < files_info@.last().end ==> files_info@[r as int].start <= pos
                < files_info@[r as int].end,
            pos >= files_info@.last().end ==> r == files_info@.len() - 1,
    {
        let n = files_info.len();
        let mut i: usize = 0;
        while i < n
            invariant
                n == files_info@.len(),
                n > 0,
                i <= n,
                forall|j: int|
                    0 <= j < files_info@.len() - 1 ==> #[trigger] files_info@[j].end as int
                        == files_info@[j + 1].start as int,
                forall|j: int|
                    0 <= j < files_info@.len() ==> #[trigger] files_info@[j].start as int
                        <= files_info@[j].end as int,
                i < n ==> files_info@[i as int].start <= pos,
                i == n ==> pos >= files_info@.last().end,
                files_info@[0].start == 0,
            decreases n - i,
        {
            if files_info[i].start <= pos && files_info[i].end > pos {
                proof {
                    lemma_info_end_monotone(files_info@, i as int, files_info@.len() - 1);
                }
                return i;
            }
            i += 1;
        }
        n - 1
    }
}

impl MultiFileReader {
    /// A reader over `file_list`, positioned at global offset `pos`.
    pub fn open(file_list: &Vec<Vec<u8>>, pos: usize) -> (r: MultiFileReader)
        requires
            files_wf(views_of(file_list@)),
            file_list@.len() > 0,
            pos <= total_len(views_of(file_list@)),
        ensures
            r.wf(),
            r.files_view() == views_of(file_list@),
            r.pos() == pos,
    {
        let ghost fv = views_of(file_list@);
        proof {
            lemma_start_of_all(fv);
        }
        let files = copy_files(file_list);
        let files_info = MultiFileReader::get_files_info(&files);
        proof {
            lemma_infos_facts(files_info@, fv);
        }
        let file_index = MultiFileReader::find_file_info(&files_info, pos);
        let current_file_pos = pos - files_info[file_index].start;
        MultiFileReader { files, files_info, current_file_index: file_index, current_file_pos }
    }

    /// The length of the logical byte stream.
    pub fn own_len(&self) -> (r: usize)
        requires
            self.wf(),
        ensures
            r == self.data().len(),
            r == total_len(self.files_view()),
    {
        proof {
            lemma_concat_len(self.files_view());
            lemma_infos_facts(self.files_info@, self.files_view());
        }
        self.files_info[self.files_info.len() - 1].end
    }

    /// The reader's offset table.
    pub fn get_own_files_info(&self) -> (r: &Vec<FileInfo>)
        requires
            self.wf(),
        ensures
            infos_match(r@, self.files_view()),
    {
        &self.files_info
    }

    /// An independent reader over the same files at the same position.
    pub fn clone(&self) -> (r: MultiFileReader)
        requires
            self.wf(),
        ensures
            r.wf(),
            r.files_view() == self.files_view(),
            r.pos() == self.pos(),
    {
        let files = copy_files(&self.files);
        let files_info = MultiFileReader::get_files_info(&files);
        MultiFileReader {
            files,
            files_info,
            current_file_index: self.current_file_index,
            current_file_pos: self.current_file_pos,
        }
    }

    /// Repositions the reader at global offset `pos`.
    pub fn seek(&mut self, pos: usize)
        requires
            old(self).wf(),
            pos <= old(self).data().len(),
        ensures
            final(self).wf(),
            final(self).files_view() == old(self).files_view(),
            final(self).pos() == pos,
    {
        let ghost fv = self.files_view();
        proof {
            lemma_concat_len(fv);
            lemma_start_of_all(fv);
            lemma_infos_facts(self.files_info@, fv);
        }
        let file_index = MultiFileReader::find_file_info(&self.files_info, pos);
        self.current_file_index = file_index;
        self.current_file_pos = pos - self.files_info[file_index].start;
    }
}

impl MultiFileReader {
    /// Appends to `buf` the line that starts at the reader's position,
    /// newline included, moving transparently into the next file when the
    /// current one is exhausted. Returns the line's length in bytes, or 0
    /// at the end of the stream.
    pub fn read_line(&mut self, buf: &mut Vec<u8>) -> (n: usize)
        requires
            old(self).wf(),
        ensures
            final(self).wf(),
            final(self).files_view() == old(self).files_view(),
            old(self).pos() < old(self).data().len() ==> {
                &&& n == line_end(old(self).data(), old(self).pos()) - old(self).pos()
                &&& n > 0
                &&& final(buf)@ == old(buf)@ + line_at(old(self).data(), old(self).pos())
                &&& final(self).pos() == line_end(old(self).data(), old(self).pos())
            },
            old(self).pos() == old(self).data().len() ==> {
                &&& n == 0
                &&& final(buf)@ == old(buf)@
                &&& final(self).pos() == old(self).pos()
            },
    {
        let ghost fv = self.files_view();
        let ghost data = self.data();
        let ghost pos0 = self.pos();
        proof {
            self.lemma_wf_pos();
            lemma_start_of_all(fv);
        }
        if self.current_file_index >= self.files.len() {
            return 0;
        }
        if self.current_file_pos == self.files[self.current_file_index].len() {
            proof {
                lemma_start_of_step(fv, self.current_file_index as int);
            }
            self.current_file_index = self.current_file_index + 1;
            self.current_file_pos = 0;
            if self.current_file_index >= self.files.len() {
                proof {
                    assert(fv.take(fv.len() as int) =~= fv);
                }
                return 0;
            }
        }
        let idx = self.current_file_index;
        let q0 = self.current_file_pos;
        let ghost file = fv[idx as int];
        let ghost base = start_of(fv, idx as int);
        let ghost buf0 = buf@;
        let flen = self.files[idx].len();
        proof {
            assert(pos0 == base + q0);
            assert(file == self.files@[idx as int]@);
            assert(q0 < file.len());
        }
        let mut q = q0;
        while self.files[idx][q] != NL
            invariant
                self.wf(),
                fv == self.files_view(),
                idx == self.current_file_index,
                q0 == self.current_file_pos,
                idx < self.files.len(),
                file == fv[idx as int],
                flen == file.len(),
                q0 <= q < flen,
                forall|k: int| q0 <= k < q ==> file[k] != NL,
                buf@ == buf0 + file.subrange(q0 as int, q as int),
            decreases file.len() - q,
        {
            let b = self.files[idx][q];
            buf.push(b);
            proof {
                assert(buf@ =~= buf0 + file.subrange(q0 as int, q + 1));
            }
            q += 1;
            proof {
                if q == file.len() {
                    assert(file.last() == NL);
                    assert(file[q - 1] != NL);
                }
            }
        }
        let b = self.files[idx][q];
        buf.push(b);
        self.current_file_pos = q + 1;
        proof {
            assert(buf@ =~= buf0 + file.subrange(q0 as int, q + 1));
            lemma_line_end_props(file, q0 as int);
            lemma_line_end_char(file, q0 as int, q + 1);
            lemma_line_end_in_file(fv, idx as int, q0 as int);
            assert(line_at(file, q0 as int) == file.subrange(q0 as int, q + 1));
            lemma_start_of_step(fv, idx as int);
            lemma_concat_len(fv);
            if idx as int + 1 < fv.len() as int {
                lemma_start_of_all(fv);
            }
        }
        q + 1 - q0
    }

    /// Reads up to `n` bytes starting at the reader's position, across
    /// file boundaries; fewer only when the stream ends first.
    pub fn read(&mut self, n: usize) -> (r: Vec<u8>)
        requires
            old(self).wf(),
        ensures
            final(self).wf(),
            final(self).files_view() == old(self).files_view(),
            r@.len() == if old(self).pos() + n <= old(self).data().len() {
                n as int
            } else {
                old(self).data().len() - old(self).pos()
            },
            r@ == old(self).data().subrange(old(self).pos(), old(self).pos() + r@.len()),
            final(self).pos() == old(self).pos() + r@.len(),
    {
        let ghost fv = self.files_view();
        let ghost data = self.data();
        let ghost pos0 = self.pos();
        proof {
            self.lemma_wf_pos();
            lemma_start_of_all(fv);
            lemma_concat_len(fv);
        }
        let mut out: Vec<u8> = Vec::new();
        let mut i: usize = 0;
        while i < n
            invariant
                self.wf(),
                fv == self.files_view(),
                data == concat_all(fv),
                data.len() == total_len(fv),
                i <= n,
                out@.len() == i,
                self.pos() == pos0 + i,
                0 <= pos0,
                pos0 + i <= data.len(),
                out@ == data.subrange(pos0, pos0 + i),
            ensures
                self.wf(),
                fv == self.files_view(),
                out@.len() == i,
                i <= n,
                self.pos() == pos0 + i,
                out@ == data.subrange(pos0, pos0 + i),
                i == n || self.pos() == data.len(),
            decreases n - i,
        {
            if self.current_file_index >= self.files.len() {
                break;
            }
            if self.current_file_pos == self.files[self.current_file_index].len() {
                proof {
                    lemma_start_of_step(fv, self.current_file_index as int);
                }
                self.current_file_index = self.current_file_index + 1;
                self.current_file_pos = 0;
                if self.current_file_index >= self.files.len() {
                    proof {
                        assert(fv.take(fv.len() as int) =~= fv);
                    }
                    break;
                }
            }
            let idx = self.current_file_index;
            let q = self.current_file_pos;
            proof {
                if q == fv[idx as int].len() {
                    assert(self.pos() == start_of(fv, idx as int) + fv[idx as int].len());
                }
            }
            let b = self.files[idx][q];
            let ghost prev = out@;
            proof {
                assert(fv[idx as int] == self.files@[idx as int]@);
                lemma_concat_index(fv, idx as int, q as int);
                assert(b == data[pos0 + i]);
            }
            out.push(b);
            self.current_file_pos = q + 1;
            i += 1;
            proof {
                self.lemma_wf_pos();
                assert(out@ == prev.push(b));
                assert forall|k: int| 0 <= k < i implies out@[k] == data.subrange(
                    pos0,
                    pos0 + i,
                )[k] by {
                    if k < i - 1 {
                        assert(out@[k] == prev[k]);
                        assert(prev[k] == data.subrange(pos0, pos0 + i - 1)[k]);
                    }
                }
                assert(out@ =~= data.subrange(pos0, pos0 + i));
            }
        }
        out
    }
}

/// The value at the `key_field` index of a line, split by `separator`.
pub fn get_key(line: &Vec<u8>, separator: u8, key_field: usize) -> (r: Vec<u8>)
    requires
        key_field < num_fields(line@, separator),
    ensures
        r@ == field_of(line@, separator, key_field as int),
{
    proof {
        assert(line@.skip(0) =~= line@);
    }
    let mut j: usize = 0;
    let mut c: usize = 0;
    while j < line.len() && c < key_field
        invariant
            j <= line.len(),
            c <= key_field,
            key_field - c < num_fields(line@.skip(j as int), separator),
            field_of(line@.skip(j as int), separator, key_field - c) == field_of(
                line@,
                separator,
                key_field as int,
            ),
        decreases line.len() - j,
    {
        let b = line[j];
        proof {
            let sj = line@.skip(j as int);
            assert(sj[0] == line@[j as int]);
            assert(sj.skip(1) =~= line@.skip(j as int + 1));
            if b == separator {
                lemma_field_step_sep(sj, separator, key_field - c);
            } else {
                lemma_field_step_nonsep(sj, separator, key_field - c);
                lemma_num_fields_pos(sj.skip(1), separator);
            }
        }
        if b == separator {
            c += 1;
        }
        j += 1;
    }
    proof {
        if c < key_field {
            assert(line@.skip(line@.len() as int) =~= Seq::<u8>::empty());
            lemma_first_sep_bounds(Seq::<u8>::empty(), separator);
            assert(num_fields(Seq::<u8>::empty(), separator) == 1);
            assert(false);
        }
    }
    let j0 = j;
    let mut out: Vec<u8> = Vec::new();
    while j < line.len() && line[j] != separator
        invariant
            j0 <= j <= line.len(),
            out@ == line@.subrange(j0 as int, j as int),
            forall|k: int| j0 <= k < j ==> line@[k] != separator,
        decreases line.len() - j,
    {
        out.push(line[j]);
        proof {
            assert(out@ =~= line@.subrange(j0 as int, j + 1));
        }
        j += 1;
    }
    proof {
        let sj = line@.skip(j0 as int);
        assert forall|k: int| 0 <= k < j - j0 implies sj[k] != separator by {
            assert(sj[k] == line@[j0 + k]);
        }
        if (j as int) < line@.len() {
            assert(sj[j - j0] == line@[j as int]);
        }
        lemma_first_sep_char(sj, separator, j - j0);
        assert(field_of(sj, separator, 0) == sj.take(j - j0));
        assert(sj.take(j - j0) =~= line@.subrange(j0 as int, j as int));
    }
    out
}

/// The length of a file and its final line, without the newline.
pub fn read_file_last_line(file: &Vec<u8>) -> (r: (usize, Vec<u8>))
    requires
        file@.len() > 0,
        wf_data(file@),
    ensures
        r.0 == file@.len(),
        r.1@ == strip_nl(line_at(file@, last_start_at_or_before(file@, file@.len() - 1))),
        r.1@ == file@.subrange(last_start_at_or_before(file@, file@.len() - 1), file@.len() - 1),
        line_end(file@, last_start_at_or_before(file@, file@.len() - 1)) == file@.len(),
{
    let n = file.len();
    let ghost star = last_start_at_or_before(file@, n - 1);
    proof {
        lemma_last_start_props(file@, n - 1);
    }
    let mut s: usize = n - 1;
    while s > 0 && file[s - 1] != NL
        invariant
            n == file@.len(),
            n > 0,
            s <= n - 1,
            forall|t: int| s < t <= n - 1 ==> #[trigger] file@[t - 1] != NL,
        decreases s,
    {
        s -= 1;
    }
    proof {
        assert(is_line_start(file@, s as int));
        assert(s as int <= star);
        if (s as int) < star {
            assert(file@[star - 1] != NL);
            assert(!is_line_start(file@, star));
        }
        assert(s as int == star);
        assert forall|k: int| s <= k < n - 1 implies file@[k] != NL by {
            if file@[k] == NL {
                assert(is_line_start(file@, k + 1));
                assert(k + 1 <= star);
            }
        }
        lemma_line_end_char(file@, s as int, n as int);
    }
    let mut out: Vec<u8> = Vec::new();
    let mut k = s;
    while k < n - 1
        invariant
            n == file@.len(),
            n > 0,
            s <= k <= n - 1,
            out@ == file@.subrange(s as int, k as int),
        decreases n - k,
    {
        out.push(file[k]);
        proof {
            assert(out@ =~= file@.subrange(s as int, k + 1));
        }
        k += 1;
    }
    proof {
        assert(line_at(file@, star) == file@.subrange(star, n as int));
        assert(line_at(file@, star).last() == file@[n - 1]);
        assert(strip_nl(line_at(file@, star)) =~= file@.subrange(star, n - 1));
    }
    (n, out)
}

/// Three-way bytewise lexicographic comparison: -1, 0 or 1 as `a` is
/// below, equal to, or above `b`.
pub fn lex_cmp(a: &Vec<u8>, b: &Vec<u8>) -> (r: i8)
    ensures
        (r == -1) == lex_lt(a@, b@),
        (r == 0) == (a@ == b@),
        (r == 1) == lex_lt(b@, a@),
{
    proof {
        assert(a@.skip(0) =~= a@);
        assert(b@.skip(0) =~= b@);
    }
    let mut i: usize = 0;
    while i < a.len() && i < b.len()
        invariant
            i <= a.len(),
            i <= b.len(),
            lex_lt(a@, b@) == lex_lt(a@.skip(i as int), b@.skip(i as int)),
            (a@ == b@) == (a@.skip(i as int) == b@.skip(i as int)),
            lex_lt(b@, a@) == lex_lt(b@.skip(i as int), a@.skip(i as int)),
        decreases a.len() - i,
    {
        let x = a[i];
        let y = b[i];
        proof {
            assert(a@.skip(i as int)[0] == a@[i as int]);
            assert(b@.skip(i as int)[0] == b@[i as int]);
        }
        if x < y {
            proof {
                lemma_lex_trichotomy(a@.skip(i as int), b@.skip(i as int));
            }
            return -1;
        } else if x > y {
            proof {
                lemma_lex_trichotomy(a@.skip(i as int), b@.skip(i as int));
            }
            return 1;
        }
        proof {
            lemma_lex_step(a@.skip(i as int), b@.skip(i as int));
            lemma_lex_step(b@.skip(i as int), a@.skip(i as int));
            assert(a@.skip(i as int).skip(1) =~= a@.skip(i + 1));
            assert(b@.skip(i as int).skip(1) =~= b@.skip(i + 1));
        }
        i += 1;
    }
    proof {
        if a@.len() == b@.len() {
            assert(a@.skip(i as int) =~= b@.skip(i as int));
        } else {
            assert(a@.skip(i as int) != b@.skip(i as int)) by {
                assert(a@.skip(i as int).len() != b@.skip(i as int).len());
            }
        }
    }
    if a.len() < b.len() {
        -1
    } else if a.len() > b.len() {
        1
    } else {
        0
    }
}

/// The logical byte stream of a list of files.
pub open spec fn data_of(file_list: Seq<Vec<u8>>) -> Seq<u8> {
    concat_all(views_of(file_list))
}

impl MultiFileReader {
    /// Binary search over the sorted concatenation of `file_list` for the
    /// global offset of the line whose key equals `key`; failing that, of
    /// the greatest line whose key is below `key`; offset 0 when `key` is
    /// below every key.
    pub fn find_key_pos(
        key: &Vec<u8>,
        file_list: &Vec<Vec<u8>>,
        separator: u8,
        key_field: usize,
    ) -> (r: Option<usize>)
        requires
            files_wf(views_of(file_list@)),
            file_list@.len() > 0,
            sorted_by_key(data_of(file_list@), separator, key_field as int),
            all_keyed(data_of(file_list@), separator, key_field as int),
        ensures
            r.is_some(),
            r.unwrap() <= data_of(file_list@).len(),
            floor_ok(data_of(file_list@), separator, key_field as int, key@, r.unwrap() as int),
    {
        let ghost fv = views_of(file_list@);
        let ghost data = data_of(file_list@);
        let ghost kf = key_field as int;
        proof {
            lemma_concat_wf(fv);
            lemma_start_of_all(fv);
            lemma_start_of_step(fv, 0);
            assert(data.len() > 0);
            assert(is_line_start(data, 0));
        }
        let mut reader = MultiFileReader::open(file_list, 0);

        // Lower bracket: the first line of the stream.
        let mut first_line: Vec<u8> = Vec::new();
        let bottom_len = reader.read_line(&mut first_line);
        proof {
            lemma_line_end_props(data, 0);
            assert(first_line@ == line_at(data, 0));
            assert(line_at(data, 0).last() == data[line_end(data, 0) - 1]);
        }
        first_line.pop();
        proof {
            assert(first_line@ =~= strip_nl(line_at(data, 0)));
        }
        let bkey = get_key(&first_line, separator, key_field);
        let bottom_pos: usize = 0;

        // Upper bracket: the last line of the final file.
        let ghost lastf = fv[fv.len() - 1];
        proof {
            assert(lastf == file_list@[file_list@.len() - 1]@);
        }
        let (last_size, last_str) = read_file_last_line(&file_list[file_list.len() - 1]);
        let ghost star = last_start_at_or_before(lastf, lastf.len() - 1);
        let top_base = {
            let infos = reader.get_own_files_info();
            infos[infos.len() - 1].start
        };
        proof {
            lemma_last_start_props(lastf, lastf.len() - 1);
            lemma_start_of_step(fv, fv.len() - 1);
            assert(fv.take(fv.len() as int) =~= fv);
            lemma_concat_len(fv);
            assert(top_base as int + star <= total_len(fv));
        }
        let top_pos = top_base + (last_size - last_str.len() - 1);
        proof {
            assert(top_pos as int == start_of(fv, fv.len() - 1) + star);
            lemma_line_end_in_file(fv, fv.len() - 1, star);
            assert(line_end(data, top_pos as int) == data.len());
            if star == 0 {
                if fv.len() > 1 {
                    lemma_concat_index(fv, fv.len() - 2, fv[fv.len() - 2].len() - 1);
                    lemma_start_of_step(fv, fv.len() - 2);
                    assert(data[top_pos - 1] == NL);
                }
            } else {
                lemma_concat_index(fv, fv.len() - 1, star - 1);
                assert(data[top_pos - 1] == NL);
            }
            assert(is_line_start(data, top_pos as int));
            assert(key_at(data, separator, kf, top_pos as int) == line_key(
                line_at(lastf, star),
                separator,
                kf,
            ));
        }
        let tkey = get_key(&last_str, separator, key_field);
        proof {
            assert(tkey@ == key_at(data, separator, kf, top_pos as int));
            assert(bkey@ == key_at(data, separator, kf, 0));
        }

        if lex_cmp(&bkey, key) == 0 {
            proof {
                assert(has_key(data, separator, kf, key@)) by {
                    assert(is_line_start(data, 0) && key_at(data, separator, kf, 0) == key@);
                }
            }
            return Some(0);
        }
        if lex_cmp(&tkey, key) == 0 {
            proof {
                assert(has_key(data, separator, kf, key@)) by {
                    assert(is_line_start(data, top_pos as int) && key_at(
                        data,
                        separator,
                        kf,
                        top_pos as int,
                    ) == key@);
                }
            }
            return Some(top_pos);
        }
        if lex_cmp(key, &bkey) == -1 {
            proof {
                lemma_no_key_below(data, separator, kf, key@);
            }
            return Some(0);
        }
        proof {
            lemma_lex_trichotomy(bkey@, key@);
            lemma_lex_trichotomy(tkey@, key@);
            assert(lex_lt(key_at(data, separator, kf, 0), key@));
        }
        if top_pos == 0 {
            proof {
                lemma_lex_trichotomy(key@, tkey@);
                assert(lex_lt(key_at(data, separator, kf, top_pos as int), key@));
                lemma_above_all(data, separator, kf, key@, top_pos as int);
            }
            return Some(top_pos);
        }

        let mut bottom_pos = bottom_pos;
        let mut bottom_len = bottom_len;
        let mut bottom_key = bkey;
        let mut top_pos = top_pos;
        let mut top_key = tkey;
        loop
            invariant
                reader.wf(),
                reader.files_view() == fv,
                fv == views_of(file_list@),
                data == data_of(file_list@),
                wf_data(data),
                data.len() == total_len(fv),
                total_len(fv) <= usize::MAX,
                kf == key_field as int,
                sorted_by_key(data, separator, kf),
                all_keyed(data, separator, kf),
                is_line_start(data, bottom_pos as int),
                is_line_start(data, top_pos as int),
                bottom_pos < top_pos,
                bottom_len as int == line_end(data, bottom_pos as int) - bottom_pos,
                bottom_key@ == key_at(data, separator, kf, bottom_pos as int),
                top_key@ == key_at(data, separator, kf, top_pos as int),
                lex_lt(key_at(data, separator, kf, bottom_pos as int), key@),
                lex_lt(key@, key_at(data, separator, kf, top_pos as int)) || (lex_lt(
                    key_at(data, separator, kf, top_pos as int),
                    key@,
                ) && line_end(data, top_pos as int) == data.len()),
            decreases top_pos - bottom_pos,
        {
            proof {
                lemma_line_end_props(data, bottom_pos as int);
            }
            if bottom_pos + bottom_len == top_pos {
                // When the query sits above the top bracket's key, the top
                // line is the floor — provided the brackets' keys are in
                // order, as the sortedness precondition guarantees. With
                // inverted brackets (unsorted input, outside the contract)
                // the answer falls back to the lower bracket.
                if lex_cmp(key, &top_key) == 1 && lex_cmp(&bottom_key, &top_key) != 1 {
                    proof {
                        lemma_lex_trichotomy(key@, top_key@);
                        assert(lex_lt(key_at(data, separator, kf, top_pos as int), key@));
                        assert(line_end(data, top_pos as int) == data.len());
                        lemma_above_all(data, separator, kf, key@, top_pos as int);
                        lemma_sorted_monotone(data, separator, kf, 0, top_pos as int);
                        lemma_lex_le_lt_trans(
                            key_at(data, separator, kf, 0),
                            key_at(data, separator, kf, top_pos as int),
                            key@,
                        );
                        lemma_lex_trichotomy(key_at(data, separator, kf, 0), key@);
                    }
                    return Some(top_pos);
                }
                proof {
                    lemma_sorted_monotone(
                        data,
                        separator,
                        kf,
                        bottom_pos as int,
                        top_pos as int,
                    );
                    lemma_lex_trichotomy(bottom_key@, top_key@);
                    lemma_lex_trichotomy(key@, top_key@);
                    assert(lex_lt(key@, key_at(data, separator, kf, top_pos as int)));
                    lemma_adjacent_floor(
                        data,
                        separator,
                        kf,
                        key@,
                        bottom_pos as int,
                        top_pos as int,
                    );
                    lemma_sorted_monotone(data, separator, kf, 0, bottom_pos as int);
                    lemma_lex_le_lt_trans(
                        key_at(data, separator, kf, 0),
                        key_at(data, separator, kf, bottom_pos as int),
                        key@,
                    );
                    lemma_lex_trichotomy(key_at(data, separator, kf, 0), key@);
                }
                return Some(bottom_pos);
            }
            let middle_pos = bottom_pos + (top_pos - bottom_pos) / 2;
            proof {
                lemma_line_end_props(data, bottom_pos as int);
                lemma_line_end_le(data, bottom_pos as int, top_pos as int);
            }
            reader.seek(middle_pos);
            let mut discard_line: Vec<u8> = Vec::new();
            let dn = reader.read_line(&mut discard_line);
            proof {
                lemma_line_end_props(data, middle_pos as int);
                lemma_line_end_le(data, middle_pos as int, top_pos as int);
            }
            let mut cut_pos = middle_pos + dn;
            proof {
                assert(cut_pos as int == line_end(data, middle_pos as int));
            }
            if cut_pos == top_pos {
                cut_pos = bottom_pos + bottom_len;
                reader.seek(cut_pos);
            }
            proof {
                assert(bottom_pos < cut_pos < top_pos);
                assert(data[cut_pos - 1] == NL);
                assert(is_line_start(data, cut_pos as int));
                assert(reader.pos() == cut_pos as int);
            }
            let mut cut_line: Vec<u8> = Vec::new();
            let cn = reader.read_line(&mut cut_line);
            proof {
                lemma_line_end_props(data, cut_pos as int);
                assert(cut_line@ == line_at(data, cut_pos as int));
                assert(line_at(data, cut_pos as int).last() == data[line_end(
                    data,
                    cut_pos as int,
                ) - 1]);
            }
            cut_line.pop();
            proof {
                assert(cut_line@ =~= strip_nl(line_at(data, cut_pos as int)));
            }
            let cut_key = get_key(&cut_line, separator, key_field);
            proof {
                assert(cut_key@ == key_at(data, separator, kf, cut_pos as int));
            }
            let c = lex_cmp(&cut_key, key);
            if c == 0 {
                proof {
                    assert(has_key(data, separator, kf, key@)) by {
                        assert(is_line_start(data, cut_pos as int) && key_at(
                            data,
                            separator,
                            kf,
                            cut_pos as int,
                        ) == key@);
                    }
                }
                return Some(cut_pos);
            } else if c == 1 {
                proof {
                    lemma_lex_trichotomy(cut_key@, key@);
                }
                top_pos = cut_pos;
                top_key = cut_key;
            } else {
                proof {
                    lemma_lex_trichotomy(cut_key@, key@);
                    assert(lex_lt(cut_key@, key@));
                }
                bottom_pos = cut_pos;
                bottom_len = cn;
                bottom_key = cut_key;
            }
        }
    }
}

/// A multi-file stream is transparent: over an ordered file list it
/// carries exactly the bytes, and so the lines, of the files'
/// concatenation, as a stream over that single concatenated file would.
pub proof fn lemma_multi_file_transparent(files: Seq<Seq<u8>>, pos: int)
    ensures
        concat_all(seq![concat_all(files)]) == concat_all(files),
        lines_from(concat_all(seq![concat_all(files)]), pos) == lines_from(concat_all(files), pos),
{
    let single = seq![concat_all(files)];
    assert(single.drop_last() =~= Seq::<Seq<u8>>::empty());
    assert(concat_all(single.drop_last()) == Seq::<u8>::empty());
    assert(single.last() == concat_all(files));
    assert(concat_all(single) == Seq::<u8>::empty() + concat_all(files));
    assert(Seq::<u8>::empty() + concat_all(files) =~= concat_all(files));
}

/// With contiguous spans, the end offsets are non-decreasing.
proof fn lemma_info_end_monotone(infos: Seq<FileInfo>, i: int, j: int)
    requires
        0 <= i <= j < infos.len(),
        forall|k: int|
            0 <= k < infos.len() - 1 ==> #[trigger] infos[k].end as int == infos[k + 1].start as int,
        forall|k: int| 0 <= k < infos.len() ==> #[trigger] infos[k].start as int <= infos[k].end as int,
    ensures
        infos[i].end <= infos[j].end,
    decreases j - i,
{
    if i < j {
        lemma_info_end_monotone(infos, i + 1, j);
    }
}

} // verus!
