//! Source positions: a table of source files and of spans into them, owned by
//! whoever compiles a program and passed to what needs it.
use vstd::prelude::*;

use codespan_reporting::files::SimpleFiles;

verus! {

#[verifier::external_type_specification]
#[verifier::external_body]
#[verifier::reject_recursive_types(Name)]
#[verifier::reject_recursive_types(Source)]
pub struct ExSimpleFiles<Name, Source>(SimpleFiles<Name, Source>);

/// The files of a database, in the order they were added: name and source.
pub uninterp spec fn files_of(f: SimpleFiles<String, String>) -> Seq<(Seq<char>, Seq<char>)>;

/// Relies on `SimpleFiles::new`: a database without files.
#[verifier::external_body]
fn files_new() -> (r: SimpleFiles<String, String>)
    ensures
        files_of(r).len() == 0,
{
    SimpleFiles::new()
}

/// Relies on `SimpleFiles::add`: the file is appended and its handle is its
/// position.
#[verifier::external_body]
fn files_add(f: &mut SimpleFiles<String, String>, name: String, source: String) -> (r: usize)
    ensures
        files_of(*final(f)) == files_of(*old(f)).push((name@, source@)),
        r == files_of(*old(f)).len(),
{
    f.add(name, source)
}

/// Relies on `SimpleFiles::get`, `SimpleFile::name` and `SimpleFile::source`:
/// the name and source of the file at a position that exists.
#[verifier::external_body]
fn files_get<'a>(f: &'a SimpleFiles<String, String>, i: usize) -> (r: (&'a str, &'a str))
    requires
        i < files_of(*f).len(),
    ensures
        r.0@ == files_of(*f)[i as int].0,
        r.1@ == files_of(*f)[i as int].1,
{
    match f.get(i) {
        Ok(file) => (file.name().as_str(), file.source().as_str()),
        Err(_) => ("", ""),
    }
}

/// Handle to a position in a [`PositionTable`].
#[derive(Clone, Copy, PartialEq, Eq, Debug, Structural)]
pub struct PosIdx(pub u32);

/// Handle to a file in a [`PositionTable`].
#[derive(Clone, Copy, PartialEq, Eq, Debug, Structural)]
pub struct FileIdx(pub usize);

impl FileIdx {
    /// The position of the file in its table.
    pub fn get(self) -> (r: usize)
        ensures
            r == self.0,
    {
        self.0
    }
}

/// A span of a file.
#[derive(Clone, Copy, PartialEq, Eq, Debug, Structural)]
pub struct PosData {
    pub file: FileIdx,
    pub start: usize,
    pub end: usize,
}

/// The source files of a program and the spans recorded into them.
pub struct PositionTable {
    files: SimpleFiles<String, String>,
    indices: Vec<PosData>,
}

impl PositionTable {
    /// The files, in the order they were added: name and source.
    pub closed spec fn file_seq(&self) -> Seq<(Seq<char>, Seq<char>)> {
        files_of(self.files)
    }

    /// The recorded spans, in the order they were added.
    pub closed spec fn pos_seq(&self) -> Seq<PosData> {
        self.indices@
    }

    /// Every span refers to a file of the table, and handles fit in `u32`.
    pub open spec fn wf(&self) -> bool {
        &&& self.pos_seq().len() <= u32::MAX
        &&& forall|i: int|
            0 <= i < self.pos_seq().len() ==> (#[trigger] self.pos_seq()[i]).file.0
                < self.file_seq().len()
    }

    /// A table whose first file and first span are the unknown position.
    pub fn new() -> (r: Self)
        ensures
            r.wf(),
            r.file_seq().len() == 1,
            r.file_seq()[0].1.len() == 0,
            r.pos_seq() == seq![PosData { file: FileIdx(0), start: 0, end: 0 }],
    {
        let mut table = PositionTable { files: files_new(), indices: Vec::new() };
        let f = table.add_file("unknown".to_string(), String::new());
        table.add_pos(f, 0, 0);
        table
    }

    /// The file database.
    pub fn files(&self) -> (r: &SimpleFiles<String, String>)
        ensures
            files_of(*r) == self.file_seq(),
    {
        &self.files
    }

    /// How many spans the table holds.
    pub fn pos_count(&self) -> (r: usize)
        ensures
            r == self.pos_seq().len(),
    {
        self.indices.len()
    }

    /// Add a source file.
    pub fn add_file(&mut self, name: String, source: String) -> (r: FileIdx)
        requires
            old(self).wf(),
        ensures
            final(self).wf(),
            final(self).file_seq() == old(self).file_seq().push((name@, source@)),
            final(self).pos_seq() == old(self).pos_seq(),
            r.0 == old(self).file_seq().len(),
    {
        let idx = files_add(&mut self.files, name, source);
        FileIdx(idx)
    }

    /// The name and source of the file of a recorded span.
    pub fn get_file_info(&self, pos: PosIdx) -> (r: (&str, &str))
        requires
            self.wf(),
            pos.0 < self.pos_seq().len(),
        ensures
            r.0@ == self.file_seq()[self.pos_seq()[pos.0 as int].file.0 as int].0,
            r.1@ == self.file_seq()[self.pos_seq()[pos.0 as int].file.0 as int].1,
    {
        let pos_d = self.get_pos(pos);
        self.get_file_data(pos_d.file)
    }

    /// Record a span of a file.
    pub fn add_pos(&mut self, file: FileIdx, start: usize, end: usize) -> (r: PosIdx)
        requires
            old(self).wf(),
            file.0 < old(self).file_seq().len(),
            old(self).pos_seq().len() < u32::MAX,
        ensures
            final(self).wf(),
            final(self).file_seq() == old(self).file_seq(),
            final(self).pos_seq() == old(self).pos_seq().push(PosData { file, start, end }),
            r.0 == old(self).pos_seq().len(),
    {
        let pos = PosData { file, start, end };
        let pos_idx = self.indices.len();
        self.indices.push(pos);
        PosIdx(pos_idx as u32)
    }

    /// The span that a handle stands for.
    pub fn get_pos(&self, pos: PosIdx) -> (r: &PosData)
        requires
            pos.0 < self.pos_seq().len(),
        ensures
            *r == self.pos_seq()[pos.0 as int],
    {
        &self.indices[pos.0 as usize]
    }

    /// The name and source of a file.
    pub fn get_file_data(&self, file: FileIdx) -> (r: (&str, &str))
        requires
            file.0 < self.file_seq().len(),
        ensures
            r.0@ == self.file_seq()[file.0 as int].0,
            r.1@ == self.file_seq()[file.0 as int].1,
    {
        files_get(&self.files, file.0)
    }
}

impl Default for PositionTable {
    fn default() -> (r: Self)
        ensures
            r.wf(),
            r.file_seq().len() == 1,
            r.file_seq()[0].1.len() == 0,
            r.pos_seq() == seq![PosData { file: FileIdx(0), start: 0, end: 0 }],
    {
        Self::new()
    }
}

/// A position index into the table of the current compilation.
#[derive(Clone, Copy, PartialEq, Eq, Debug, Structural)]
pub struct GPosIdx(pub PosIdx);

impl GPosIdx {
    /// The unknown position: every table allocates it first.
    pub fn unknown() -> (r: GPosIdx)
        ensures
            r == GPosIdx(PosIdx(0)),
    {
        GPosIdx(PosIdx(0))
    }

    /// `None` for the unknown position, else the position itself.
    pub fn into_option(self) -> (r: Option<Self>)
        ensures
            r == (if self == GPosIdx(PosIdx(0)) {
                None
            } else {
                Some(self)
            }),
    {
        if self == Self::unknown() {
            None
        } else {
            Some(self)
        }
    }
}

/// An IR node that may carry position information.
pub trait WithPos {
    /// The span associated with this node.
    fn copy_span(&self) -> GPosIdx;
}


/// The offset of line `k` of a text whose lines have lengths `lens` and are
/// separated by one newline each.
pub open spec fn line_start(lens: Seq<usize>, k: int) -> int
    decreases k,
{
    if k <= 0 {
        0
    } else {
        line_start(lens, k - 1) + lens[k - 1] + 1
    }
}

/// The offset just past the last character of line `k`.
pub open spec fn line_end(lens: Seq<usize>, k: int) -> int {
    line_start(lens, k) + lens[k]
}

/// The first line from `k` on that ends at or after `end`, else the last line.
pub open spec fn last_line(lens: Seq<usize>, end: int, k: int) -> int
    decreases lens.len() - k,
{
    if k >= lens.len() - 1 {
        lens.len() - 1
    } else if end <= line_end(lens, k) {
        k
    } else {
        last_line(lens, end, k + 1)
    }
}

proof fn lemma_line_start_mono(lens: Seq<usize>, j: int, k: int)
    requires
        0 <= j <= k <= lens.len(),
    ensures
        line_start(lens, j) <= line_start(lens, k),
    decreases k - j,
{
    if j < k {
        lemma_line_start_mono(lens, j, k - 1);
    }
}

proof fn lemma_last_line_range(lens: Seq<usize>, end: int, k: int)
    requires
        0 <= k < lens.len(),
    ensures
        k <= last_line(lens, end, k) < lens.len(),
    decreases lens.len() - k,
{
    if !(k >= lens.len() - 1) && !(end <= line_end(lens, k)) {
        lemma_last_line_range(lens, end, k + 1);
    }
}

/// The lines that a span `[start, end]` covers in a text with line lengths
/// `lens`. Lines are scanned up to the last line the span reaches; if one of
/// them contains `start`, the result is that line, the last line, and the
/// offset of the first one.
pub fn span_lines(lens: &Vec<usize>, start: usize, end: usize) -> (r: Option<(usize, usize, usize)>)
    requires
        lens@.len() > 0,
        line_start(lens@, lens@.len() as int) <= usize::MAX,
    ensures
        ({
            let last = last_line(lens@, end as int, 0);
            match r {
                Some((first, l, offset)) => {
                    &&& l == last
                    &&& first <= last
                    &&& offset == line_start(lens@, first as int)
                    &&& line_start(lens@, first as int) <= start <= line_end(lens@, first as int)
                },
                None => forall|k: int|
                    0 <= k <= last ==> !(#[trigger] line_start(lens@, k) <= start <= line_end(lens@, k)),
            }
        }),
{
    let n = lens.len();
    let mut k: usize = 0;
    let mut pos: usize = 0;
    let mut found: Option<(usize, usize)> = None;
    while k < n
        invariant
            n == lens@.len(),
            k < n,
            pos == line_start(lens@, k as int),
            line_start(lens@, n as int) <= usize::MAX,
            last_line(lens@, end as int, 0) == last_line(lens@, end as int, k as int),
            match found {
                Some((k0, off)) => k0 < k && off == line_start(lens@, k0 as int) && line_start(
                    lens@,
                    k0 as int,
                ) <= start <= line_end(lens@, k0 as int),
                None => forall|j: int|
                    0 <= j < k ==> !(#[trigger] line_start(lens@, j) <= start <= line_end(lens@, j)),
            },
        decreases n - k,
    {
        proof {
            lemma_line_start_mono(lens@, k as int + 1, n as int);
        }
        let next = pos + lens[k];
        if start >= pos && start <= next {
            found = Some((k, pos));
        }
        if end <= next || k + 1 == n {
            proof {
                lemma_last_line_range(lens@, end as int, k as int);
            }
            return match found {
                Some((k0, off)) => Some((k0, k, off)),
                None => None,
            };
        }
        pos = next + 1;
        k = k + 1;
    }
    None
}
} // verus!
