use vstd::prelude::*;

verus! {

/// The failures a backend can report.
#[derive(Debug, Clone, PartialEq, Eq)]
pub enum Error {
    /// Generic local failure, with a description.
    Unexpected(String),
    /// The backend does not support the requested operation.
    NotImplemented,
    /// The remote object-store client failed, with a description.
    RusotoFail(String),
    /// A journal segment failed to encode or decode, with a description.
    SerdeFail(String),
}

/// A UTC timestamp with subsecond precision, kept as plain calendar and
/// clock fields so that ordering and fixed-width formatting can be reasoned
/// about directly.
#[derive(Debug, Clone, Copy, PartialEq, Eq, Structural)]
pub struct Timestamp {
    pub year: u16,
    pub month: u8,
    pub day: u8,
    pub hour: u8,
    pub minute: u8,
    pub second: u8,
    pub nanos: u32,
}

impl Timestamp {
    /// The natural field ranges: a four-digit year and calendar/clock
    /// bounds, with nanoseconds below one second.
    pub open spec fn wf(self) -> bool {
        &&& self.year <= 9999
        &&& 1 <= self.month <= 12
        &&& 1 <= self.day <= 31
        &&& self.hour <= 23
        &&& self.minute <= 59
        &&& self.second <= 59
        &&& self.nanos <= 999_999_999
    }

    /// Chronological order: lexicographic over the fields, most significant
    /// first.
    pub open spec fn spec_lt(self, o: Self) -> bool {
        if self.year != o.year {
            self.year < o.year
        } else if self.month != o.month {
            self.month < o.month
        } else if self.day != o.day {
            self.day < o.day
        } else if self.hour != o.hour {
            self.hour < o.hour
        } else if self.minute != o.minute {
            self.minute < o.minute
        } else if self.second != o.second {
            self.second < o.second
        } else {
            self.nanos < o.nanos
        }
    }

    /// Builds a well-formed timestamp from raw clock fields, clamping each
    /// field into its range; in-range fields are kept as they are. A
    /// leap-second reading (nanoseconds of a second or more) is clamped into
    /// the last representable instant of the second.
    pub fn from_fields(
        year: i32,
        month: u32,
        day: u32,
        hour: u32,
        minute: u32,
        second: u32,
        nanos: u32,
    ) -> (r: Timestamp)
        ensures
            r.wf(),
            r.year == (if year < 0 { 0 } else if year > 9999 { 9999 } else { year }),
            r.month == (if month < 1 { 1 } else if month > 12 { 12 } else { month }),
            r.day == (if day < 1 { 1 } else if day > 31 { 31 } else { day }),
            r.hour == (if hour > 23 { 23 } else { hour }),
            r.minute == (if minute > 59 { 59 } else { minute }),
            r.second == (if second > 59 { 59 } else { second }),
            r.nanos == (if nanos > 999_999_999 { 999_999_999 } else { nanos }),
    {
        Timestamp {
            year: if year < 0 {
                0
            } else if year > 9999 {
                9999
            } else {
                year as u16
            },
            month: if month < 1 {
                1
            } else if month > 12 {
                12
            } else {
                month as u8
            },
            day: if day < 1 {
                1
            } else if day > 31 {
                31
            } else {
                day as u8
            },
            hour: if hour > 23 {
                23
            } else {
                hour as u8
            },
            minute: if minute > 59 {
                59
            } else {
                minute as u8
            },
            second: if second > 59 {
                59
            } else {
                second as u8
            },
            nanos: if nanos > 999_999_999 {
                999_999_999
            } else {
                nanos
            },
        }
    }
}

/// A path: an ordered sequence of segments, the unique key for the current
/// state of a logical file. Its mathematical value is the sequence of the
/// segments' character sequences.
#[derive(Debug)]
pub struct Path {
    elms: Vec<String>,
}

impl View for Path {
    type V = Seq<Seq<char>>;

    closed spec fn view(&self) -> Seq<Seq<char>> {
        self.elms.deep_view()
    }
}

/// The canonical string form of a path: its segments joined with `/`.
pub open spec fn spec_path_join(p: Seq<Seq<char>>) -> Seq<char>
    decreases p.len(),
{
    if p.len() == 0 {
        Seq::empty()
    } else if p.len() == 1 {
        p[0]
    } else {
        spec_path_join(p.drop_last()) + seq!['/'] + p.last()
    }
}

impl Path {
    pub fn new(elms: Vec<String>) -> (r: Self)
        ensures
            r@ == elms.deep_view(),
    {
        Path { elms }
    }

    /// The path's segments, in order.
    pub fn segments(&self) -> (r: &Vec<String>)
        ensures
            r.deep_view() == self@,
    {
        &self.elms
    }

    /// The canonical string form: segments joined with `/`.
    pub fn to_string(&self) -> (r: String)
        ensures
            r@ == spec_path_join(self@),
    {
        let mut out = String::new();
        let mut i: usize = 0;
        while i < self.elms.len()
            invariant
                i <= self.elms.len(),
                out@ == spec_path_join(self@.take(i as int)),
            decreases self.elms.len() - i,
        {
            proof {
                assert(self@.take(i + 1).drop_last() =~= self@.take(i as int));
                assert(self@.take(i + 1).last() == self.elms@[i as int]@);
            }
            if i > 0 {
                out.append("/");
            }
            out.append(self.elms[i].as_str());
            proof {
                if i == 0 {
                    assert(out@ =~= self@.take(1)[0]);
                } else {
                    reveal_strlit("/");
                    assert(("/")@ =~= seq!['/']);
                    assert(out@ =~= spec_path_join(self@.take(i as int)) + seq!['/'] + self@.take(
                        i + 1,
                    ).last());
                }
            }
            i = i + 1;
        }
        proof {
            assert(self@.take(self.elms@.len() as int) =~= self@);
        }
        out
    }
}

impl Clone for Path {
    fn clone(&self) -> (r: Self)
        ensures
            r@ == self@,
    {
        let elms = self.elms.clone();
        proof {
            assert(elms.deep_view() =~= self.elms.deep_view());
        }
        Path { elms }
    }
}

impl PartialEq for Path {
    fn eq(&self, other: &Self) -> (r: bool)
        ensures
            r == (self@ == other@),
    {
        if self.elms.len() != other.elms.len() {
            proof {
                assert(self@.len() != other@.len());
            }
            return false;
        }
        let mut i: usize = 0;
        while i < self.elms.len()
            invariant
                i <= self.elms.len(),
                self.elms.len() == other.elms.len(),
                forall|j: int| 0 <= j < i ==> self@[j] == other@[j],
            decreases self.elms.len() - i,
        {
            if self.elms[i] != other.elms[i] {
                proof {
                    assert(self@[i as int] != other@[i as int]);
                }
                return false;
            }
            i = i + 1;
        }
        proof {
            assert(self@ =~= other@);
        }
        true
    }
}

impl vstd::std_specs::cmp::PartialEqSpecImpl for Path {
    open spec fn obeys_eq_spec() -> bool {
        true
    }

    open spec fn eq_spec(&self, other: &Self) -> bool {
        self@ == other@
    }
}

/// A file's metadata: its path and its modification time. The path alone is
/// the file's identity at replay; the modification time is informational.
#[derive(Debug)]
pub struct FileMeta {
    pub path: Path,
    pub mtime: Timestamp,
}

/// The mathematical value of a `FileMeta`.
pub struct FileMetaView {
    pub path: Seq<Seq<char>>,
    pub mtime: Timestamp,
}

impl View for FileMeta {
    type V = FileMetaView;

    open spec fn view(&self) -> FileMetaView {
        FileMetaView { path: self.path@, mtime: self.mtime }
    }
}

impl Clone for FileMeta {
    fn clone(&self) -> (r: Self)
        ensures
            r@ == self@,
    {
        FileMeta { path: self.path.clone(), mtime: self.mtime }
    }
}

/// The capability contract of a file handle: metadata without failure, and a
/// whole-content read that may fail. Reading does not change the handle.
pub trait File: Sized {
    /// The handle's metadata, as a mathematical value.
    spec fn spec_meta(&self) -> FileMetaView;

    /// The content the handle reads, as a mathematical value.
    spec fn spec_content(&self) -> Seq<u8>;

    fn meta(&self) -> (r: &FileMeta)
        ensures
            r@ == self.spec_meta(),
    ;

    fn read_all(&mut self) -> (r: Result<Vec<u8>, Error>)
        ensures
            *final(self) == *old(self),
            r is Ok ==> r->Ok_0@ == old(self).spec_content(),
    ;
}

/// How a listing relates to a backend's path-to-file mapping: every listed
/// file is an entry of the mapping, every entry is listed, and no path is
/// listed twice.
pub open spec fn files_match_map<F: File>(
    fs: Seq<F>,
    m: Map<Seq<Seq<char>>, (FileMetaView, Seq<u8>)>,
) -> bool {
    &&& forall|i: int|
        0 <= i < fs.len() ==> m.contains_key(#[trigger] fs[i].spec_meta().path)
            && m[fs[i].spec_meta().path] == (fs[i].spec_meta(), fs[i].spec_content())
    &&& forall|p: Seq<Seq<char>>|
        #[trigger] m.contains_key(p) ==> exists|i: int|
            0 <= i < fs.len() && (#[trigger] fs[i].spec_meta()).path == p
    &&& forall|i: int, j: int|
        0 <= i < fs.len() && 0 <= j < fs.len() && i != j ==> (#[trigger] fs[i].spec_meta()).path
            != (#[trigger] fs[j].spec_meta()).path
}

/// The capability contract of a storage backend, over any file type
/// satisfying the `File` contract. A backend's logical state is a mapping
/// from each path to the metadata and content stored there.
pub trait StorageEntity<F: File>: Sized {
    /// The backend's current path-to-file mapping.
    spec fn spec_files(&self) -> Map<Seq<Seq<char>>, (FileMetaView, Seq<u8>)>;

    /// Lists the stored files, one handle per path, without changing the
    /// backend's logical state.
    fn list_files(&mut self) -> (r: Result<Vec<F>, Error>)
        ensures
            final(self).spec_files() == old(self).spec_files(),
            r is Ok ==> files_match_map(r->Ok_0@, old(self).spec_files()),
    ;

    /// Stores a file read from any backend: an insert-or-overwrite at the
    /// file's path. On failure the logical state is unchanged.
    fn create_file<G: File>(&mut self, file: G) -> (r: Result<(), Error>)
        ensures
            r is Ok ==> final(self).spec_files() == old(self).spec_files().insert(
                file.spec_meta().path,
                (file.spec_meta(), file.spec_content()),
            ),
            r is Err ==> final(self).spec_files() == old(self).spec_files(),
    ;

    /// Removes the entry at the file's path; removing an absent path
    /// succeeds and changes nothing.
    fn remove_file(&mut self, file: &F) -> (r: Result<(), Error>)
        ensures
            r is Ok ==> final(self).spec_files() == old(self).spec_files().remove(
                file.spec_meta().path,
            ),
            r is Err ==> final(self).spec_files() == old(self).spec_files(),
    ;
}

/// An in-memory file: metadata and content held directly.
#[derive(Debug)]
pub struct RamFile {
    meta: FileMeta,
    data: Vec<u8>,
}

impl RamFile {
    pub fn new(meta: FileMeta, data: Vec<u8>) -> (r: Self)
        ensures
            r.spec_meta() == meta@,
            r.spec_content() == data@,
    {
        RamFile { meta, data }
    }
}

impl Clone for RamFile {
    fn clone(&self) -> (r: Self)
        ensures
            r.spec_meta() == self.spec_meta(),
            r.spec_content() == self.spec_content(),
    {
        let data = self.data.clone();
        proof {
            assert(data@ =~= self.data@);
        }
        RamFile { meta: self.meta.clone(), data }
    }
}

impl File for RamFile {
    closed spec fn spec_meta(&self) -> FileMetaView {
        self.meta@
    }

    closed spec fn spec_content(&self) -> Seq<u8> {
        self.data@
    }

    fn meta(&self) -> (r: &FileMeta) {
        &self.meta
    }

    fn read_all(&mut self) -> (r: Result<Vec<u8>, Error>)
        ensures
            r is Ok,
    {
        let out = self.data.clone();
        proof {
            assert(out@ =~= self.data@);
        }
        Ok(out)
    }
}

/// The path-to-file mapping held by a sequence of in-memory files, later
/// entries overriding earlier ones at the same path.
pub open spec fn ram_map(s: Seq<RamFile>) -> Map<Seq<Seq<char>>, (FileMetaView, Seq<u8>)>
    decreases s.len(),
{
    if s.len() == 0 {
        Map::empty()
    } else {
        ram_map(s.drop_last()).insert(
            s.last().spec_meta().path,
            (s.last().spec_meta(), s.last().spec_content()),
        )
    }
}

/// No two files of the sequence share a path.
pub open spec fn ram_paths_unique(s: Seq<RamFile>) -> bool {
    forall|i: int, j: int|
        0 <= i < s.len() && 0 <= j < s.len() && i != j ==> (#[trigger] s[i].spec_meta()).path != (
        #[trigger] s[j].spec_meta()).path
}

proof fn lemma_ram_map_contains(s: Seq<RamFile>, p: Seq<Seq<char>>)
    ensures
        ram_map(s).contains_key(p) <==> exists|i: int|
            0 <= i < s.len() && (#[trigger] s[i].spec_meta()).path == p,
    decreases s.len(),
{
    if s.len() > 0 {
        lemma_ram_map_contains(s.drop_last(), p);
        if s.last().spec_meta().path == p {
            assert(s[s.len() - 1].spec_meta().path == p);
        } else if ram_map(s).contains_key(p) {
            let i = choose|i: int|
                0 <= i < s.drop_last().len() && (#[trigger] s.drop_last()[i].spec_meta()).path == p;
            assert(s[i].spec_meta().path == p);
        } else {
            assert forall|i: int|
                0 <= i < s.len() && (#[trigger] s[i].spec_meta()).path == p implies false by {
                assert(s.drop_last()[i].spec_meta().path == p);
            }
        }
    }
}

proof fn lemma_ram_map_index(s: Seq<RamFile>, i: int)
    requires
        ram_paths_unique(s),
        0 <= i < s.len(),
    ensures
        ram_map(s).contains_key(s[i].spec_meta().path),
        ram_map(s)[s[i].spec_meta().path] == (s[i].spec_meta(), s[i].spec_content()),
    decreases s.len(),
{
    if i == s.len() - 1 {
    } else {
        assert(ram_paths_unique(s.drop_last()));
        lemma_ram_map_index(s.drop_last(), i);
        assert(s.drop_last()[i] == s[i]);
        assert(s[i].spec_meta().path != s.last().spec_meta().path);
    }
}

proof fn lemma_ram_map_update(s: Seq<RamFile>, i: int, f: RamFile)
    requires
        ram_paths_unique(s),
        0 <= i < s.len(),
        f.spec_meta().path == s[i].spec_meta().path,
    ensures
        ram_map(s.update(i, f)) == ram_map(s).insert(
            f.spec_meta().path,
            (f.spec_meta(), f.spec_content()),
        ),
        ram_paths_unique(s.update(i, f)),
    decreases s.len(),
{
    let p = f.spec_meta().path;
    assert forall|x: int, y: int|
        0 <= x < s.len() && 0 <= y < s.len() && x != y implies (#[trigger] s.update(
        i,
        f,
    )[x].spec_meta()).path != (#[trigger] s.update(i, f)[y].spec_meta()).path by {
        assert(s[x].spec_meta().path != s[y].spec_meta().path);
    }
    if i == s.len() - 1 {
        assert(s.update(i, f).drop_last() =~= s.drop_last());
        assert(ram_map(s.update(i, f)) =~= ram_map(s).insert(p, (f.spec_meta(), f.spec_content())));
    } else {
        assert(ram_paths_unique(s.drop_last()));
        assert(s.drop_last()[i] == s[i]);
        lemma_ram_map_update(s.drop_last(), i, f);
        assert(s.update(i, f).drop_last() =~= s.drop_last().update(i, f));
        assert(s.update(i, f).last() == s.last());
        assert(s.last().spec_meta().path != p);
        assert(ram_map(s.update(i, f)) =~= ram_map(s).insert(p, (f.spec_meta(), f.spec_content())));
    }
}

proof fn lemma_ram_map_remove(s: Seq<RamFile>, i: int)
    requires
        ram_paths_unique(s),
        0 <= i < s.len(),
    ensures
        ram_map(s.remove(i)) == ram_map(s).remove(s[i].spec_meta().path),
        ram_paths_unique(s.remove(i)),
    decreases s.len(),
{
    let p = s[i].spec_meta().path;
    assert forall|x: int, y: int|
        0 <= x < s.remove(i).len() && 0 <= y < s.remove(i).len() && x != y implies (
    #[trigger] s.remove(i)[x].spec_meta()).path != (#[trigger] s.remove(i)[y].spec_meta()).path by {
        let x0 = if x < i {
            x
        } else {
            x + 1
        };
        let y0 = if y < i {
            y
        } else {
            y + 1
        };
        assert(s.remove(i)[x] == s[x0]);
        assert(s.remove(i)[y] == s[y0]);
        assert(s[x0].spec_meta().path != s[y0].spec_meta().path);
    }
    if i == s.len() - 1 {
        assert(s.remove(i) =~= s.drop_last());
        lemma_ram_map_contains(s.drop_last(), p);
        assert(!ram_map(s.drop_last()).contains_key(p)) by {
            if ram_map(s.drop_last()).contains_key(p) {
                let j = choose|j: int|
                    0 <= j < s.drop_last().len() && (#[trigger] s.drop_last()[j].spec_meta()).path
                        == p;
                assert(s[j].spec_meta().path == s[i].spec_meta().path);
            }
        }
        assert(ram_map(s.remove(i)) =~= ram_map(s).remove(p));
    } else {
        assert(ram_paths_unique(s.drop_last()));
        assert(s.drop_last()[i] == s[i]);
        lemma_ram_map_remove(s.drop_last(), i);
        assert(s.remove(i).drop_last() =~= s.drop_last().remove(i));
        assert(s.remove(i).last() == s.last());
        assert(s.last().spec_meta().path != p);
        assert(ram_map(s.remove(i)) =~= ram_map(s).remove(p));
    }
}

/// An in-memory storage backend: a set of files held directly, one per path.
#[derive(Debug)]
pub struct RamStorage {
    files: Vec<RamFile>,
}

impl RamStorage {
    #[verifier::type_invariant]
    spec fn wf(self) -> bool {
        ram_paths_unique(self.files@)
    }

    pub fn new() -> (r: Self)
        ensures
            r.spec_files() == Map::<Seq<Seq<char>>, (FileMetaView, Seq<u8>)>::empty(),
    {
        RamStorage { files: Vec::new() }
    }

    /// The index of the file stored at `p`, if any.
    fn find_path(files: &Vec<RamFile>, p: &Path) -> (r: Option<usize>)
        ensures
            match r {
                Some(i) => i < files@.len() && files@[i as int].spec_meta().path == p@,
                None => forall|i: int|
                    0 <= i < files@.len() ==> (#[trigger] files@[i].spec_meta()).path != p@,
            },
    {
        let mut i: usize = 0;
        while i < files.len()
            invariant
                i <= files@.len(),
                forall|j: int| 0 <= j < i ==> (#[trigger] files@[j].spec_meta()).path != p@,
            decreases files@.len() - i,
        {
            if files[i].meta().path == *p {
                return Some(i);
            }
            i = i + 1;
        }
        None
    }
}

impl StorageEntity<RamFile> for RamStorage {
    closed spec fn spec_files(&self) -> Map<Seq<Seq<char>>, (FileMetaView, Seq<u8>)> {
        ram_map(self.files@)
    }

    fn list_files(&mut self) -> (r: Result<Vec<RamFile>, Error>)
        ensures
            r is Ok,
    {
        proof {
            use_type_invariant(&*self);
        }
        let mut out: Vec<RamFile> = Vec::new();
        let mut i: usize = 0;
        while i < self.files.len()
            invariant
                i <= self.files@.len(),
                out@.len() == i,
                forall|j: int|
                    0 <= j < i ==> (#[trigger] out@[j].spec_meta()) == self.files@[j].spec_meta()
                        && out@[j].spec_content() == self.files@[j].spec_content(),
            decreases self.files@.len() - i,
        {
            out.push(self.files[i].clone());
            i = i + 1;
        }
        proof {
            use_type_invariant(&*self);
            assert forall|p: Seq<Seq<char>>| #[trigger]
                ram_map(self.files@).contains_key(p) implies exists|i: int|
                0 <= i < out@.len() && (#[trigger] out@[i].spec_meta()).path == p by {
                lemma_ram_map_contains(self.files@, p);
                let i = choose|i: int|
                    0 <= i < self.files@.len() && (#[trigger] self.files@[i].spec_meta()).path == p;
                assert(out@[i].spec_meta().path == p);
            }
            assert forall|i: int| 0 <= i < out@.len() implies ram_map(self.files@).contains_key(
                #[trigger] out@[i].spec_meta().path,
            ) && ram_map(self.files@)[out@[i].spec_meta().path] == (
                out@[i].spec_meta(),
                out@[i].spec_content(),
            ) by {
                lemma_ram_map_index(self.files@, i);
            }
        }
        Ok(out)
    }

    fn create_file<G: File>(&mut self, file: G) -> (r: Result<(), Error>) {
        let mut file = file;
        let data = match file.read_all() {
            Ok(d) => d,
            Err(e) => {
                return Err(e);
            },
        };
        let meta = file.meta().clone();
        let new_file = RamFile::new(meta, data);
        proof {
            use_type_invariant(&*self);
        }
        let ghost old_files = self.files@;
        let mut files: Vec<RamFile> = Vec::new();
        core::mem::swap(&mut files, &mut self.files);
        match Self::find_path(&files, &file.meta().path) {
            Some(i) => {
                proof {
                    lemma_ram_map_update(old_files, i as int, new_file);
                }
                files.set(i, new_file);
            },
            None => {
                proof {
                    assert forall|x: int, y: int|
                        0 <= x < old_files.push(new_file).len() && 0 <= y < old_files.push(
                            new_file,
                        ).len() && x != y implies (#[trigger] old_files.push(
                        new_file,
                    )[x].spec_meta()).path != (#[trigger] old_files.push(
                        new_file,
                    )[y].spec_meta()).path by {
                        if x < old_files.len() && y < old_files.len() {
                            assert(old_files[x].spec_meta().path != old_files[y].spec_meta().path);
                        }
                    }
                    assert(old_files.push(new_file).drop_last() =~= old_files);
                }
                files.push(new_file);
            },
        }
        self.files = files;
        Ok(())
    }

    fn remove_file(&mut self, file: &RamFile) -> (r: Result<(), Error>)
        ensures
            r is Ok,
    {
        proof {
            use_type_invariant(&*self);
        }
        let ghost old_files = self.files@;
        let mut files: Vec<RamFile> = Vec::new();
        core::mem::swap(&mut files, &mut self.files);
        match Self::find_path(&files, &file.meta().path) {
            Some(i) => {
                proof {
                    lemma_ram_map_remove(old_files, i as int);
                }
                files.remove(i);
            },
            None => {
                proof {
                    lemma_ram_map_contains(old_files, file.spec_meta().path);
                    assert(ram_map(old_files).remove(file.spec_meta().path) =~= ram_map(old_files));
                }
            },
        }
        self.files = files;
        Ok(())
    }
}

} // verus!
