//! The reader registry: one shared handle per data file, with a deleted flag
//! and a count of the readers using it, so that a table's files are removed
//! only once it is deleted and no reader holds it.
use vstd::prelude::*;
use core::cmp::Ordering;
use crate::codec::{compare_bytes, compare_keys, utf8};
use crate::sstable::SSTableReader;
use crate::utils::concat;

verus! {

/// What the registry knows of one table.
#[derive(Debug)]
pub struct ReaderHandle {
    pub reader: SSTableReader,
    pub deleted: bool,
    pub users: usize,
}

/// The state of a handle: the data file, the deleted flag and the number of
/// readers holding it.
pub struct HandleModel {
    pub file: Seq<char>,
    pub deleted: bool,
    pub users: nat,
}

pub open spec fn handle_model(h: ReaderHandle) -> HandleModel {
    HandleModel { file: h.reader.file@, deleted: h.deleted, users: h.users as nat }
}

/// The outcome of asking the registry for a table.
#[derive(Debug)]
pub enum ReaderLookup {
    /// The table's reader, now counted as in use.
    Live(SSTableReader),
    /// The table is being removed: no new reader may use it.
    Deleted,
    /// The table is not registered yet: it has to be opened and added.
    Absent,
}

pub open spec fn names_of(v: Seq<String>) -> Seq<Seq<char>> {
    v.map_values(|s: String| s@)
}

/// The names among `names` that are tables, each as often as listed, in
/// listing order.
pub open spec fn tables_in(names: Seq<Seq<char>>, suffix: Seq<char>) -> Seq<Seq<char>> {
    names.filter(|x: Seq<char>| is_table(x, names, suffix))
}

/// The file ends with `suffix`.
pub open spec fn ends_with(s: Seq<u8>, suffix: Seq<u8>) -> bool {
    s.len() >= suffix.len() && s.subrange(s.len() - suffix.len(), s.len() as int) == suffix
}

/// `name` is a data file whose index file `<name>.<suffix>` is among `names`.
pub open spec fn is_table(name: Seq<char>, names: Seq<Seq<char>>, suffix: Seq<char>) -> bool {
    &&& ends_with(utf8(name), utf8(".sst"@))
    &&& names.contains(name + "."@ + suffix)
}

/// The tables known to the registry, keyed by data file.
#[derive(Debug)]
pub struct SharedSSTableReader {
    inner: Vec<ReaderHandle>,
    sst_dir: String,
    index_file_suffix: String,
}

impl View for SharedSSTableReader {
    type V = Seq<HandleModel>;

    closed spec fn view(&self) -> Seq<HandleModel> {
        self.inner@.map_values(|h: ReaderHandle| handle_model(h))
    }
}

impl SharedSSTableReader {
    /// The directory of the tables.
    pub closed spec fn dir(&self) -> Seq<char> {
        self.sst_dir@
    }

    /// The suffix that turns a data file name into its index file name.
    pub closed spec fn suffix(&self) -> Seq<char> {
        self.index_file_suffix@
    }

    pub fn sst_dir(&self) -> (r: &str)
        ensures
            r@ == self.dir(),
    {
        self.sst_dir.as_str()
    }

    pub fn index_file_suffix(&self) -> (r: &str)
        ensures
            r@ == self.suffix(),
    {
        self.index_file_suffix.as_str()
    }

    /// At most one handle per data file, and every reader well formed.
    pub closed spec fn wf(&self) -> bool {
        &&& forall|i: int, j: int|
            0 <= i < j < self.inner@.len() ==> self.inner@[i].reader.file@ != self.inner@[j].reader.file@
        &&& forall|i: int| 0 <= i < self.inner@.len() ==> #[trigger] self.inner@[i].reader.wf()
    }

    pub fn new(sst_dir: &str, index_file_suffix: &str) -> (r: SharedSSTableReader)
        ensures
            r.wf(),
            r@.len() == 0,
            r.dir() == sst_dir@,
            r.suffix() == index_file_suffix@,
    {
        let r = SharedSSTableReader {
            inner: Vec::new(),
            sst_dir: sst_dir.to_owned(),
            index_file_suffix: index_file_suffix.to_owned(),
        };
        assert(r@ =~= Seq::<HandleModel>::empty());
        r
    }

    /// The position of the handle for `file`.
    fn find(&self, file: &str) -> (r: Option<usize>)
        ensures
            match r {
                Some(i) => i < self@.len() && self@[i as int].file == file@,
                None => forall|i: int| 0 <= i < self@.len() ==> #[trigger] self@[i].file != file@,
            },
    {
        let mut i: usize = 0;
        while i < self.inner.len()
            invariant
                i <= self@.len(),
                forall|j: int| 0 <= j < i ==> #[trigger] self@[j].file != file@,
            decreases self@.len() - i,
        {
            assert(self@[i as int] == handle_model(self.inner@[i as int]));
            if let Ordering::Equal = compare_keys(self.inner[i].reader.file.as_str(), file) {
                return Some(i);
            }
            i = i + 1;
        }
        None
    }

    /// The reader of `file`, counted as in use when it is live.
    pub fn get_reader(&mut self, file: &str) -> (r: ReaderLookup)
        requires
            old(self).wf(),
        ensures
            final(self).wf(),
            match r {
                ReaderLookup::Live(reader) => reader.wf() && reader.file@ == file@ && exists|i: int|
                    0 <= i < old(self)@.len() && old(self)@[i].file == file@ && !old(self)@[i].deleted
                        && final(self)@ == old(self)@.update(
                        i,
                        HandleModel { users: old(self)@[i].users + 1, ..old(self)@[i] },
                    ),
                ReaderLookup::Deleted => final(self)@ == old(self)@ && exists|i: int|
                    0 <= i < old(self)@.len() && old(self)@[i].file == file@ && (old(self)@[i].deleted
                        || old(self)@[i].users == usize::MAX),
                ReaderLookup::Absent => final(self)@ == old(self)@ && forall|i: int|
                    0 <= i < old(self)@.len() ==> #[trigger] old(self)@[i].file != file@,
            },
    {
        match self.find(file) {
            None => ReaderLookup::Absent,
            Some(i) => {
                assert(self@[i as int] == handle_model(self.inner@[i as int]));
                if self.inner[i].deleted {
                    ReaderLookup::Deleted
                } else if self.inner[i].users == usize::MAX {
                    // a count that cannot grow: hand out nothing new
                    ReaderLookup::Deleted
                } else {
                    assert(self.inner@[i as int].reader.wf());
                    let reader = self.inner[i].reader.duplicate();
                    let users = self.inner[i].users + 1;
                    self.inner[i].users = users;
                    assert(final(self)@ =~= old(self)@.update(
                        i as int,
                        HandleModel { users: old(self)@[i as int].users + 1, ..old(self)@[i as int] },
                    ));
                    assert(old(self)@[i as int].file == file@ && !old(self)@[i as int].deleted);
                    assert(reader.file@ == file@);
                    assert(0 <= i < old(self)@.len() && old(self)@[i as int].file == file@
                        && !old(self)@[i as int].deleted && self@ == old(self)@.update(
                        i as int,
                        HandleModel { users: old(self)@[i as int].users + 1, ..old(self)@[i as int] },
                    ));
                    ReaderLookup::Live(reader)
                }
            },
        }
    }

    /// Registers a newly opened reader, counted as in use, and returns the
    /// registered one: an earlier handle for the same file wins.
    pub fn add_reader(&mut self, reader: SSTableReader) -> (r: Option<SSTableReader>)
        requires
            old(self).wf(),
            reader.wf(),
        ensures
            final(self).wf(),
            r is Some ==> r->Some_0.wf() && r->Some_0.file@ == reader.file@,
            (forall|i: int| 0 <= i < old(self)@.len() ==> #[trigger] old(self)@[i].file != reader.file@)
                ==> r is Some && final(self)@ == old(self)@.push(
                HandleModel { file: reader.file@, deleted: false, users: 1 },
            ),
            (exists|i: int| 0 <= i < old(self)@.len() && old(self)@[i].file == reader.file@) ==> (
            match r {
                Some(_) => exists|i: int|
                    0 <= i < old(self)@.len() && old(self)@[i].file == reader.file@
                        && !old(self)@[i].deleted && final(self)@ == old(self)@.update(
                        i,
                        HandleModel { users: old(self)@[i].users + 1, ..old(self)@[i] },
                    ),
                None => final(self)@ == old(self)@,
            }),
    {
        match self.find(reader.file.as_str()) {
            Some(_) => match self.get_reader(reader.file.as_str()) {
                ReaderLookup::Live(existing) => Some(existing),
                _ => None,
            },
            None => {
                let copy = reader.duplicate();
                let ghost before = self.inner@;
                self.inner.push(ReaderHandle { reader, deleted: false, users: 1 });
                proof {
                    assert forall|i: int, j: int|
                        0 <= i < j < self.inner@.len() implies self.inner@[i].reader.file@
                        != self.inner@[j].reader.file@ by {
                        assert(self.inner@[i] == before[i]);
                        assert(old(self)@[i] == handle_model(before[i]));
                        assert(self.inner@[before.len() as int].reader.file@ == copy.file@);
                        assert(old(self)@[i].file != copy.file@);
                        if j < before.len() {
                            assert(self.inner@[j] == before[j]);
                        }
                    }
                    assert forall|i: int| 0 <= i < self.inner@.len() implies #[trigger] self.inner@[i].reader.wf() by {
                        if i < before.len() {
                            assert(self.inner@[i] == before[i]);
                        }
                    }
                    assert(final(self)@ =~= old(self)@.push(
                        HandleModel { file: copy.file@, deleted: false, users: 1 },
                    ));
                }
                Some(copy)
            },
        }
    }

    /// A reader of `file` is done with it.
    pub fn release(&mut self, file: &str)
        requires
            old(self).wf(),
        ensures
            final(self).wf(),
            final(self)@.len() == old(self)@.len(),
            forall|i: int|
                0 <= i < old(self)@.len() ==> #[trigger] final(self)@[i] == if old(self)@[i].file == file@
                    && old(self)@[i].users > 0 {
                    HandleModel { users: (old(self)@[i].users - 1) as nat, ..old(self)@[i] }
                } else {
                    old(self)@[i]
                },
    {
        if let Some(i) = self.find(file) {
            assert(self@[i as int] == handle_model(self.inner@[i as int]));
            if self.inner[i].users > 0 {
                let users = self.inner[i].users - 1;
                self.inner[i].users = users;
            }
            proof {
                assert forall|j: int| 0 <= j < old(self)@.len() implies #[trigger] final(self)@[j]
                    == if old(self)@[j].file == file@ && old(self)@[j].users > 0 {
                    HandleModel { users: (old(self)@[j].users - 1) as nat, ..old(self)@[j] }
                } else {
                    old(self)@[j]
                } by {
                    if j != i {
                        assert(final(self)@[j] == handle_model(final(self).inner@[j]));
                    }
                }
            }
        }
    }

    /// Marks the table of `file` as deleted: no new reader may use it.
    pub fn mark_deleted(&mut self, file: &str) -> (r: bool)
        requires
            old(self).wf(),
        ensures
            final(self).wf(),
            final(self)@.len() == old(self)@.len(),
            r == exists|i: int| 0 <= i < old(self)@.len() && old(self)@[i].file == file@,
            forall|i: int|
                0 <= i < old(self)@.len() ==> #[trigger] final(self)@[i] == if old(self)@[i].file == file@ {
                    HandleModel { deleted: true, ..old(self)@[i] }
                } else {
                    old(self)@[i]
                },
    {
        match self.find(file) {
            Some(i) => {
                assert(self@[i as int] == handle_model(self.inner@[i as int]));
                self.inner[i].deleted = true;
                proof {
                    assert forall|j: int| 0 <= j < old(self)@.len() implies #[trigger] final(self)@[j]
                        == if old(self)@[j].file == file@ {
                        HandleModel { deleted: true, ..old(self)@[j] }
                    } else {
                        old(self)@[j]
                    } by {
                        if j != i {
                            assert(final(self)@[j] == handle_model(final(self).inner@[j]));
                        }
                    }
                }
                true
            },
            None => false,
        }
    }

    /// Drops the handle of `file` when it is deleted and no reader holds it;
    /// returns whether it was dropped, and so whether its files may now be
    /// removed.
    pub fn drop_resource(&mut self, file: &str) -> (r: bool)
        requires
            old(self).wf(),
        ensures
            final(self).wf(),
            r == exists|i: int|
                0 <= i < old(self)@.len() && old(self)@[i].file == file@ && old(self)@[i].deleted
                    && old(self)@[i].users == 0,
            r ==> exists|i: int|
                0 <= i < old(self)@.len() && old(self)@[i].file == file@ && final(self)@ == old(self)@.remove(i),
            !r ==> final(self)@ == old(self)@,
    {
        match self.find(file) {
            Some(i) => {
                assert(self@[i as int] == handle_model(self.inner@[i as int]));
                if self.inner[i].deleted && self.inner[i].users == 0 {
                    let ghost before = self.inner@;
                    let _ = self.inner.remove(i);
                    proof {
                        assert(final(self)@ =~= old(self)@.remove(i as int));
                        assert forall|a: int, b: int|
                            0 <= a < b < self.inner@.len() implies self.inner@[a].reader.file@
                            != self.inner@[b].reader.file@ by {
                            let a0 = if a < i { a } else { a + 1 };
                            let b0 = if b < i { b } else { b + 1 };
                            assert(self.inner@[a] == before[a0]);
                            assert(self.inner@[b] == before[b0]);
                        }
                        assert forall|a: int| 0 <= a < self.inner@.len() implies #[trigger] self.inner@[a].reader.wf() by {
                            let a0 = if a < i { a } else { a + 1 };
                            assert(self.inner@[a] == before[a0]);
                        }
                    }
                    true
                } else {
                    proof {
                        assert forall|j: int|
                            0 <= j < old(self)@.len() && old(self)@[j].file == file@ implies !(
                            old(self)@[j].deleted && old(self)@[j].users == 0) by {
                            if j != i {
                                assert(old(self)@[j] == handle_model(old(self).inner@[j]));
                                assert(old(self)@[i as int] == handle_model(old(self).inner@[i as int]));
                            }
                        }
                    }
                    false
                }
            },
            None => false,
        }
    }

    /// The data files of all registered tables.
    pub fn to_vec(&self) -> (r: Vec<String>)
        ensures
            r@.len() == self@.len(),
            forall|i: int| 0 <= i < r@.len() ==> #[trigger] r@[i]@ == self@[i].file,
    {
        let mut out: Vec<String> = Vec::new();
        let mut i: usize = 0;
        while i < self.inner.len()
            invariant
                i <= self@.len(),
                out@.len() == i,
                forall|j: int| 0 <= j < i ==> #[trigger] out@[j]@ == self@[j].file,
            decreases self@.len() - i,
        {
            assert(self@[i as int] == handle_model(self.inner@[i as int]));
            out.push(self.inner[i].reader.file.clone());
            i = i + 1;
        }
        out
    }

    /// Among the file names of the table directory, the data files whose
    /// index file is present too, each once, in listing order; a data file
    /// without its index is being written or removed, and is left out.
    pub fn select_tables(&self, names: &Vec<String>) -> (r: Vec<String>)
        ensures
            names_of(r@) == tables_in(names_of(names@), self.suffix()),
    {
        let ghost all = names_of(names@);
        let ghost pred = |x: Seq<char>| is_table(x, all, self.index_file_suffix@);
        let mut out: Vec<String> = Vec::new();
        let mut i: usize = 0;
        proof {
            reveal(Seq::filter);
            assert(all.subrange(0, 0).filter(pred) =~= Seq::<Seq<char>>::empty());
            assert(names_of(out@) =~= Seq::<Seq<char>>::empty());
        }
        while i < names.len()
            invariant
                i <= names@.len(),
                all == names_of(names@),
                pred == (|x: Seq<char>| is_table(x, all, self.index_file_suffix@)),
                names_of(out@) == all.subrange(0, i as int).filter(pred),
            decreases names@.len() - i,
        {
            let name = names[i].as_str();
            let keep = ends_with_sst(name) && {
                let index_name = concat(concat(name, ".").as_str(), self.index_file_suffix.as_str());
                contains_name(names, index_name.as_str())
            };
            proof {
                assert(all[i as int] == names@[i as int]@);
                assert(keep == pred(all[i as int]));
            }
            let ghost before = out@;
            if keep {
                out.push(names[i].clone());
            }
            proof {
                let sub = all.subrange(0, i as int);
                assert(all.subrange(0, i + 1) =~= sub.push(all[i as int]));
                sub.lemma_filter_push(all[i as int], pred);
                if keep {
                    assert(names_of(out@) =~= names_of(before).push(all[i as int]));
                } else {
                    assert(out@ == before);
                }
            }
            i = i + 1;
        }
        proof {
            assert(all.subrange(0, i as int) =~= all);
        }
        out
    }
}

/// The name ends with `.sst`.
fn ends_with_sst(name: &str) -> (r: bool)
    ensures
        r == ends_with(utf8(name@), utf8(".sst"@)),
{
    let b = name.as_bytes();
    let suffix = ".sst".as_bytes();
    if b.len() < suffix.len() {
        return false;
    }
    let tail = &b[b.len() - suffix.len()..b.len()];
    match compare_bytes(tail, suffix) {
        Ordering::Equal => true,
        _ => false,
    }
}

/// `name` is one of `names`.
fn contains_name(names: &Vec<String>, name: &str) -> (r: bool)
    ensures
        r == names_of(names@).contains(name@),
{
    let ghost all = names_of(names@);
    let mut i: usize = 0;
    while i < names.len()
        invariant
            i <= names@.len(),
            all == names_of(names@),
            forall|j: int| 0 <= j < i ==> #[trigger] all[j] != name@,
        decreases names@.len() - i,
    {
        assert(all[i as int] == names@[i as int]@);
        if let Ordering::Equal = compare_keys(names[i].as_str(), name) {
            return true;
        }
        i = i + 1;
    }
    false
}

} // verus!
