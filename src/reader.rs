//! Reading records from master files, following `$ORIGIN`, `$TTL` and
//! `$INCLUDE`.

use vstd::prelude::*;
use crate::entry::{Entry, EntryView, RecordView, entry_spec, entry_view, opt_view, parse_entry, record_view};
use crate::scan::{LexState, lex};
use crate::iana::Class;
use crate::name::{DName, copy_bytes};
use crate::rdata::MasterRecord;
use crate::scan::{ScanError, Scanner};

verus! {

/// What a reader hands out: a record, or a file to read in place.
#[derive(Debug)]
pub enum ReaderItem {
    Record(MasterRecord),
    Include { path: Vec<u8>, origin: Option<DName> },
}

/// A reader item, as values.
pub ghost enum ItemView {
    Record(RecordView),
    Include(Seq<u8>, Option<Seq<Seq<u8>>>),
}

pub open spec fn item_view(i: ReaderItem) -> ItemView {
    match i {
        ReaderItem::Record(r) => ItemView::Record(record_view(r)),
        ReaderItem::Include { path, origin } => ItemView::Include(path@, opt_view(origin)),
    }
}

/// What a reader carries from entry to entry: origin, default TTL, and
/// the owner and class of the last record.
pub ghost struct ReaderState {
    pub origin: Option<Seq<Seq<u8>>>,
    pub ttl: Option<u32>,
    pub last: Option<(Seq<Seq<u8>>, Class)>,
}

/// What taking in an entry does: the new state and the item handed out.
pub open spec fn apply_spec(st: ReaderState, e: EntryView) -> (ReaderState, Option<ItemView>) {
    match e {
        EntryView::Origin(o) => (ReaderState { origin: Some(o), ..st }, None),
        EntryView::Ttl(t) => (ReaderState { ttl: Some(t), ..st }, None),
        EntryView::Include(p, o) => (st, Some(ItemView::Include(p, o))),
        EntryView::Record(r) => (ReaderState { last: Some((r.owner, r.class)), ..st }, Some(ItemView::Record(r))),
        _ => (st, None),
    }
}

pub open spec fn last_owner_of(st: ReaderState) -> Option<Seq<Seq<u8>>> {
    match st.last {
        Some((o, _)) => Some(o),
        None => None,
    }
}

pub open spec fn last_class_of(st: ReaderState) -> Option<Class> {
    match st.last {
        Some((_, c)) => Some(c),
        None => None,
    }
}

/// What reading on from position `pos` of the text `s` in state `st`
/// gives: the next record or include, `None` at the end, or an error (a
/// malformed entry); where reading stops; and the state then. Directives
/// and blank lines are taken in on the way.
pub open spec fn read_next(s: Seq<u8>, pos: int, st: ReaderState) -> (Result<Option<ItemView>, ()>, int, ReaderState)
    decreases s.len() - pos,
{
    if pos < 0 || pos >= s.len() {
        (Ok(None), pos, st)
    } else {
        match lex(s, pos, LexState::Between, false, Seq::empty()) {
            Err(_) => (Err(()), pos, st),
            Ok((wv, j)) => {
                let indented = s[pos] == 32 || s[pos] == 9;
                match entry_spec(wv, indented, last_owner_of(st), last_class_of(st), st.origin, st.ttl) {
                    None => (Err(()), j, st),
                    Some(e) => {
                        let (st2, item) = apply_spec(st, e);
                        match item {
                            Some(it) => (Ok(Some(it)), j, st2),
                            None => if pos < j && j <= s.len() { read_next(s, j, st2) } else { (Ok(None), j, st2) },
                        }
                    },
                }
            },
        }
    }
}

/// A reader of one master file: its scanner, dropped after an error, and
/// what carries over from entry to entry.
#[derive(Debug)]
pub struct Reader {
    scanner: Option<Scanner>,
    origin: Option<DName>,
    ttl: Option<u32>,
    last: Option<(DName, Class)>,
}

impl Reader {
    pub closed spec fn wf(&self) -> bool {
        self.scanner matches Some(s) ==> s.wf()
    }

    /// Whether the reader has ended, at the end of its input or after an error.
    pub closed spec fn done(&self) -> bool {
        self.scanner is None
    }

    /// How much input the reader has left, plus one while it has not ended.
    pub closed spec fn progress(&self) -> nat {
        match self.scanner {
            Some(s) => (s.text().len() - s.at() + 1) as nat,
            None => 0,
        }
    }

    /// The reader's carried state.
    pub closed spec fn state(&self) -> ReaderState {
        ReaderState {
            origin: opt_view(self.origin),
            ttl: self.ttl,
            last: match self.last { Some((n, c)) => Some((n@, c)), None => None },
        }
    }

    /// What the next call of `next_record` gives, and the reader's
    /// position and state after it.
    pub closed spec fn next_spec(&self) -> (Result<Option<ItemView>, ()>, int, ReaderState) {
        match self.scanner {
            Some(sc) => read_next(sc.text(), sc.at(), self.state()),
            None => (Ok(None), 0, self.state()),
        }
    }

    /// The text the reader reads and its position in it.
    pub closed spec fn text_at(&self) -> (Seq<u8>, int) {
        match self.scanner {
            Some(sc) => (sc.text(), sc.at()),
            None => (Seq::empty(), 0),
        }
    }

    pub closed spec fn origin_spec(&self) -> Option<DName> {
        self.origin
    }

    pub closed spec fn ttl_spec(&self) -> Option<u32> {
        self.ttl
    }

    pub closed spec fn last_spec(&self) -> Option<(DName, Class)> {
        self.last
    }

    pub fn new(scanner: Scanner) -> (r: Reader)
        requires
            scanner.wf(),
        ensures
            r.text_at() == (scanner.text(), scanner.at()),
            r.state() == (ReaderState { origin: None, ttl: None, last: None }),
            r.wf(),
            !r.done(),
            r.origin_spec() is None,
            r.ttl_spec() is None,
            r.last_spec() is None,
    {
        Reader { scanner: Some(scanner), origin: None, ttl: None, last: None }
    }

    /// A reader of the master file `data`.
    pub fn create(data: Vec<u8>) -> (r: Reader)
        ensures
            r.text_at() == (data@, 0int),
            r.state() == (ReaderState { origin: None, ttl: None, last: None }),
            r.wf(),
            !r.done(),
            r.origin_spec() is None,
            r.ttl_spec() is None,
            r.last_spec() is None,
    {
        Reader::new(Scanner::new(data))
    }

    pub fn set_origin(&mut self, origin: Option<DName>)
        requires
            old(self).wf(),
        ensures
            final(self).wf(),
            final(self).origin_spec() == origin,
            final(self).state() == (ReaderState { origin: opt_view(origin), ..old(self).state() }),
            final(self).text_at() == old(self).text_at(),
            final(self).ttl_spec() == old(self).ttl_spec(),
            final(self).last_spec() == old(self).last_spec(),
            final(self).done() == old(self).done(),
    {
        self.origin = origin
    }

    fn last_owner(&self) -> (r: Option<DName>)
        ensures
            self.last is None ==> r is None,
            self.last matches Some((n, _)) ==> (r matches Some(m) && m@ == n@),
    {
        match &self.last {
            Some((name, _)) => Some(name.copy()),
            None => None,
        }
    }

    fn last_class(&self) -> (r: Option<Class>)
        ensures
            self.last is None ==> r is None,
            self.last matches Some((_, c)) ==> r == Some(c),
    {
        match &self.last {
            Some((_, class)) => Some(*class),
            None => None,
        }
    }

    /// The next entry of the file, parsed with the reader's carried state.
    fn next_entry(&mut self) -> (r: Result<Option<Entry>, ScanError>)
        requires
            old(self).wf(),
        ensures
            final(self).wf(),
            final(self).origin == old(self).origin,
            final(self).ttl == old(self).ttl,
            final(self).last == old(self).last,
            final(self).done() == old(self).done(),
            old(self).done() ==> r matches Ok(None),
            !old(self).done() ==> final(self).text_at().0 == old(self).text_at().0,
            !old(self).done() ==> ({
                let (s, p) = old(self).text_at();
                let st = old(self).state();
                &&& p >= s.len() ==> (r matches Ok(None))
                &&& p < s.len() ==> match lex(s, p, LexState::Between, false, Seq::empty()) {
                    Err(_) => r is Err,
                    Ok((wv, j)) => final(self).text_at().1 == j && p < j <= s.len()
                        && match entry_spec(wv, s[p] == 32 || s[p] == 9, last_owner_of(st), last_class_of(st), st.origin, st.ttl) {
                            None => r is Err,
                            Some(e) => (r matches Ok(Some(x)) && entry_view(x) == e),
                        },
                }
            }),
    {
        let last_owner = self.last_owner();
        let last_class = self.last_class();
        let ghost st = self.state();
        proof {
            assert(opt_view(last_owner) == last_owner_of(st));
            assert(last_class == last_class_of(st));
        }
        let mut scanner = match self.scanner.take() {
            Some(scanner) => scanner,
            None => {
                return Ok(None);
            },
        };
        let res = scanner.next_line();
        let r = match res {
            Ok(Some(line)) => {
                match parse_entry(&line, &last_owner, last_class, &self.origin, self.ttl) {
                    Ok(e) => Ok(Some(e)),
                    Err(error) => Err(ScanError { error, pos: scanner.pos() }),
                }
            },
            Ok(None) => Ok(None),
            Err(e) => Err(e),
        };
        self.scanner = Some(scanner);
        r
    }

    /// Takes in one entry: a directive updates the origin or the default
    /// TTL, a record becomes the last record and is handed out, an include
    /// is handed out, and anything else is passed over.
    pub fn apply(&mut self, entry: Entry) -> (r: Option<ReaderItem>)
        requires
            old(self).wf(),
        ensures
            final(self).wf(),
            final(self).done() == old(self).done(),
            final(self).progress() == old(self).progress(),
            final(self).text_at() == old(self).text_at(),
            (final(self).state(), match r { Some(i) => Some(item_view(i)), None => None })
                == apply_spec(old(self).state(), entry_view(entry)),
    {
        match entry {
            Entry::Origin(o) => {
                self.origin = Some(o);
                None
            },
            Entry::Ttl(t) => {
                self.ttl = Some(t);
                None
            },
            Entry::Include { path, origin } => Some(ReaderItem::Include { path, origin }),
            Entry::Record(record) => {
                self.last = Some((record.owner.copy(), record.class));
                Some(ReaderItem::Record(record))
            },
            Entry::Control => None,
            Entry::Blank => None,
        }
    }

    /// The next record or include of the file, or `None` at its end: what
    /// `read_next` gives from the reader's position and state. An error
    /// ends the reader: after it, and after the end, the reader hands out
    /// `None`.
    #[verifier::rlimit(50)]
    pub fn next_record(&mut self) -> (r: Result<Option<ReaderItem>, ScanError>)
        requires
            old(self).wf(),
        ensures
            final(self).wf(),
            old(self).done() ==> (r matches Ok(None) && final(self).done()),
            match old(self).next_spec().0 {
                Ok(None) => (r matches Ok(None) && final(self).done()),
                Ok(Some(it)) => (r matches Ok(Some(x)) && item_view(x) == it) && !final(self).done()
                    && final(self).text_at() == (old(self).text_at().0, old(self).next_spec().1)
                    && final(self).state() == old(self).next_spec().2,
                Err(_) => r is Err && final(self).done(),
            },
    {
        let ghost spec0 = self.next_spec();
        loop
            invariant
                self.wf(),
                old(self).done() ==> self.done(),
                !old(self).done() ==> !self.done() && self.text_at().0 == old(self).text_at().0
                    && self.next_spec() == spec0,
                spec0 == old(self).next_spec(),
            decreases self.progress(),
        {
            let ghost before = *self;
            let ghost s = before.text_at().0;
            let ghost p = before.text_at().1;
            let ghost st = before.state();
            proof {
                if let Some(sc) = before.scanner {
                    sc.lemma_bounds();
                }
                if !old(self).done() {
                    assert(before.next_spec() == read_next(s, p, st));
                }
            }
            match self.next_entry() {
                Ok(Some(entry)) => {
                    let ghost mid = *self;
                    let ghost ev = entry_view(entry);
                    let ghost j = mid.text_at().1;
                    proof {
                        assert(p < s.len());
                        assert(mid.state() == st);
                        let lx = lex(s, p, LexState::Between, false, Seq::empty());
                        assert(lx is Ok);
                        assert(j == lx->Ok_0.1);
                        assert(entry_spec(lx->Ok_0.0, s[p] == 32 || s[p] == 9, last_owner_of(st), last_class_of(st),
                            st.origin, st.ttl) == Some(ev));
                    }
                    match self.apply(entry) {
                        Some(item) => {
                            proof {
                                assert(apply_spec(st, ev).1 is Some);
                                assert(read_next(s, p, st) == (Ok::<Option<ItemView>, ()>(Some(apply_spec(st, ev).1->Some_0)), j, apply_spec(st, ev).0));
                            }
                            return Ok(Some(item));
                        },
                        None => {
                            proof {
                                assert(apply_spec(st, ev).1 is None);
                                assert(read_next(s, p, st) == read_next(s, j, apply_spec(st, ev).0));
                                assert(self.next_spec() == read_next(s, j, apply_spec(st, ev).0));
                            }
                        },
                    }
                },
                Ok(None) => {
                    self.scanner = None;
                    return Ok(None);
                },
                Err(err) => {
                    self.scanner = None;
                    return Err(err);
                },
            }
        }
    }
}

/// Whether a reader has nothing more to hand out.
pub open spec fn ends(r: Reader) -> bool {
    r.next_spec().0 == Ok::<Option<ItemView>, ()>(None)
}

/// Why reading a master file, or a file it includes, failed.
#[derive(Clone, Copy, Debug, PartialEq, Eq, Structural)]
pub enum ReadError {
    /// The file's text is malformed.
    Scan(ScanError),
    /// The file could not be opened or read.
    Io,
    /// The name of an included file is not a usable path.
    BadPath,
    /// Includes are nested deeper than `MAX_INCLUDE_DEPTH`.
    TooDeep,
}

/// How many files may be open at once, the top file and the files that
/// include one another below it: a guard against include cycles.
pub const MAX_INCLUDE_DEPTH: usize = 32;

/// A read error and the file it happened in.
#[derive(Debug)]
pub struct FileReaderError {
    path: Vec<u8>,
    error: ReadError,
}

impl FileReaderError {
    pub fn new(path: Vec<u8>, error: ReadError) -> (r: FileReaderError)
        ensures
            r.path_spec() == path@,
            r.error_spec() == error,
    {
        FileReaderError { path, error }
    }

    pub closed spec fn path_spec(&self) -> Seq<u8> {
        self.path@
    }

    pub closed spec fn error_spec(&self) -> ReadError {
        self.error
    }

    pub fn path(&self) -> (r: &Vec<u8>)
        ensures
            r@ == self.path_spec(),
    {
        &self.path
    }

    pub fn error(&self) -> (r: ReadError)
        ensures
            r == self.error_spec(),
    {
        self.error
    }
}

/// The position of the last `/` in a path, or -1.
pub open spec fn last_slash(s: Seq<u8>) -> int
    decreases s.len(),
{
    if s.len() == 0 {
        -1
    } else if s.last() == 47 {
        s.len() - 1
    } else {
        last_slash(s.drop_last())
    }
}

/// The path of a file included as `rel` from the file at `including`: an
/// absolute `rel` as it is, else `rel` in the including file's directory.
pub open spec fn resolve(including: Seq<u8>, rel: Seq<u8>) -> Seq<u8> {
    if rel.len() > 0 && rel[0] == 47 {
        rel
    } else if last_slash(including) < 0 {
        rel
    } else {
        including.subrange(0, last_slash(including) + 1) + rel
    }
}

/// The position of the last `/` in a path.
fn last_slash_exec(s: &Vec<u8>) -> (r: Option<usize>)
    ensures
        r is None ==> last_slash(s@) < 0,
        r matches Some(k) ==> last_slash(s@) == k - 1 && 1 <= k <= s@.len(),
{
    let mut k: usize = s.len();
    assert(s@.subrange(0, k as int) =~= s@);
    while k > 0
        invariant
            k <= s@.len(),
            last_slash(s@) == last_slash(s@.subrange(0, k as int)),
        decreases k,
    {
        assert(s@.subrange(0, k as int).drop_last() =~= s@.subrange(0, k - 1));
        if s[k - 1] == 47 {
            return Some(k);
        }
        k -= 1;
    }
    assert(s@.subrange(0, 0) =~= Seq::<u8>::empty());
    None
}

/// Resolves the path of an included file.
pub fn resolve_include(including: &Vec<u8>, rel: &Vec<u8>) -> (r: Vec<u8>)
    ensures
        r@ == resolve(including@, rel@),
{
    if rel.len() > 0 && rel[0] == 47 {
        return copy_bytes(rel);
    }
    let k = match last_slash_exec(including) {
        Some(p) => p,
        None => {
            return copy_bytes(rel);
        },
    };
    let mut r: Vec<u8> = Vec::new();
    let mut i: usize = 0;
    while i < k
        invariant
            k <= including@.len(),
            i <= k,
            r@ =~= including@.subrange(0, i as int),
        decreases k - i,
    {
        r.push(including[i]);
        i += 1;
    }
    let mut j: usize = 0;
    while j < rel.len()
        invariant
            k <= including@.len(),
            j <= rel@.len(),
            r@ =~= including@.subrange(0, k as int) + rel@.subrange(0, j as int),
        decreases rel@.len() - j,
    {
        r.push(rel[j]);
        j += 1;
    }
    assert(rel@.subrange(0, rel@.len() as int) =~= rel@);
    r
}

/// What reading the next step of a file and its includes gives.
#[derive(Debug)]
pub enum FileStep {
    /// A record.
    Record(MasterRecord),
    /// A file to open and hand back with `push_file`, or report with `fail`.
    Open { path: Vec<u8>, origin: Option<DName> },
    /// An error, after which there is nothing more.
    Failed(FileReaderError),
    /// The end of the top file.
    Done,
}

/// Reads a master file and, in place, the files it includes: a stack of
/// readers, the top one the file being read, each with its file's path.
/// Opening files is left to the caller, which answers `FileStep::Open`.
#[derive(Debug)]
pub struct FileReaderIter {
    stack: Vec<(Vec<u8>, Reader)>,
}

impl FileReaderIter {
    pub closed spec fn wf(&self) -> bool {
        forall|k: int| 0 <= k < self.stack@.len() ==> (#[trigger] self.stack@[k]).1.wf()
    }

    /// How many files are open.
    pub closed spec fn depth(&self) -> nat {
        self.stack@.len()
    }

    /// The path and reader of the `k`-th open file, the top file first.
    pub closed spec fn file_at(&self, k: int) -> (Seq<u8>, Reader) {
        (self.stack@[k].0@, self.stack@[k].1)
    }

    /// A reader of the file at `path`, whose bytes are `data`.
    pub fn new(path: Vec<u8>, data: Vec<u8>) -> (r: FileReaderIter)
        ensures
            r.wf(),
            r.depth() == 1,
            r.file_at(0).0 == path@,
    {
        let mut stack: Vec<(Vec<u8>, Reader)> = Vec::new();
        stack.push((path, Reader::create(data)));
        FileReaderIter { stack }
    }

    /// Reads on until a record, an include to open, an error or the end.
    /// At the end of an included file, reading goes on in the file that
    /// included it, whose state the included file did not touch.
    pub fn next_step(&mut self) -> (r: FileStep)
        requires
            old(self).wf(),
        ensures
            final(self).wf(),
            final(self).depth() <= old(self).depth(),
            (r is Done || r is Failed) <==> final(self).depth() == 0,
            old(self).depth() == 0 ==> r is Done,
            forall|k: int| 0 <= k < final(self).depth() - 1 ==> #[trigger] final(self).file_at(k) == old(self).file_at(k),
            final(self).depth() > 0 ==> final(self).file_at(final(self).depth() - 1).0
                == old(self).file_at(final(self).depth() - 1).0,
            r matches FileStep::Failed(e) ==> old(self).depth() > 0,
            r is Open ==> final(self).depth() < MAX_INCLUDE_DEPTH,
            r is Done ==> forall|m: int| 0 <= m < old(self).depth() ==> #[trigger] ends(old(self).file_at(m).1),
            (r is Record || r is Open) ==> forall|m: int| final(self).depth() <= m < old(self).depth()
                ==> #[trigger] ends(old(self).file_at(m).1),
            (r is Record || r is Open) ==> ({
                let top = old(self).file_at(final(self).depth() - 1).1;
                let now = final(self).file_at(final(self).depth() - 1).1;
                &&& final(self).depth() > 0
                &&& now.text_at() == (top.text_at().0, top.next_spec().1)
                &&& now.state() == top.next_spec().2
                &&& !now.done()
            }),
            r matches FileStep::Record(rec) ==> ({
                let top = old(self).file_at(final(self).depth() - 1).1;
                &&& top.next_spec().0 == Ok::<Option<ItemView>, ()>(Some(ItemView::Record(record_view(rec))))
            }),
            r matches FileStep::Open { path, origin } ==> ({
                let top = old(self).file_at(final(self).depth() - 1);
                &&& top.1.next_spec().0 matches Ok(Some(ItemView::Include(p, o)))
                &&& path@ == resolve(top.0, p) && opt_view(origin) == o
            }),
            r matches FileStep::Failed(e) ==> exists|k: int| 0 <= k < old(self).depth()
                && (forall|m: int| k < m < old(self).depth() ==> #[trigger] ends(old(self).file_at(m).1))
                && ((old(self).file_at(k).1.next_spec().0 is Err && e.path_spec() == old(self).file_at(k).0
                        && e.error_spec() is Scan)
                    || (old(self).file_at(k).1.next_spec().0 matches Ok(Some(ItemView::Include(p, _)))
                        && k + 1 >= MAX_INCLUDE_DEPTH && e.path_spec() == resolve(old(self).file_at(k).0, p)
                        && e.error_spec() == ReadError::TooDeep)),
    {
        loop
            invariant
                self.wf(),
                self.depth() <= old(self).depth(),
                forall|k: int| 0 <= k < self.depth() ==> #[trigger] self.file_at(k) == old(self).file_at(k),
                forall|m: int| self.depth() <= m < old(self).depth() ==> #[trigger] ends(old(self).file_at(m).1),
            decreases self.stack@.len(),
        {
            let n = self.stack.len();
            if n == 0 {
                return FileStep::Done;
            }
            let ghost before = *self;
            let res = self.stack[n - 1].1.next_record();
            let ghost mid = *self;
            proof {
                assert forall|k: int| 0 <= k < n - 1 implies #[trigger] self.file_at(k) == before.file_at(k) by {}
                assert(self.stack@[n - 1].0 == before.stack@[n - 1].0);
                assert(before.file_at(n - 1) == old(self).file_at(n - 1));
                assert(self.file_at(n - 1).0 == old(self).file_at(n - 1).0);
            }
            match res {
                Ok(Some(ReaderItem::Record(record))) => {
                    return FileStep::Record(record);
                },
                Ok(Some(ReaderItem::Include { path, origin })) => {
                    let full = resolve_include(&self.stack[n - 1].0, &path);
                    if n >= MAX_INCLUDE_DEPTH {
                        self.stack = Vec::new();
                        return FileStep::Failed(FileReaderError::new(full, ReadError::TooDeep));
                    }
                    return FileStep::Open { path: full, origin };
                },
                Ok(None) => {
                    self.stack.pop();
                    proof {
                        assert forall|k: int| 0 <= k < self.depth() implies #[trigger] self.file_at(k) == old(self).file_at(k) by {
                            assert(self.stack@[k] == mid.stack@[k]);
                            assert(mid.file_at(k) == before.file_at(k));
                        }
                    }
                },
                Err(err) => {
                    let p = copy_bytes(&self.stack[n - 1].0);
                    self.stack = Vec::new();
                    return FileStep::Failed(FileReaderError::new(p, ReadError::Scan(err)));
                },
            }
        }
    }

    /// The path of the file being read, if any.
    pub fn top_path(&self) -> (r: Option<Vec<u8>>)
        ensures
            r is Some <==> self.depth() > 0,
            r matches Some(p) ==> p@ == self.file_at(self.depth() - 1).0,
    {
        let n = self.stack.len();
        if n == 0 {
            None
        } else {
            Some(copy_bytes(&self.stack[n - 1].0))
        }
    }

    /// Goes on with the file at `path`, whose bytes are `data`, read with
    /// `origin`: the answer to `FileStep::Open`.
    pub fn push_file(&mut self, path: Vec<u8>, data: Vec<u8>, origin: Option<DName>)
        requires
            old(self).wf(),
        ensures
            final(self).wf(),
            final(self).depth() == old(self).depth() + 1,
            forall|k: int| 0 <= k < old(self).depth() ==> #[trigger] final(self).file_at(k) == old(self).file_at(k),
            final(self).file_at(old(self).depth() as int).0 == path@,
            final(self).file_at(old(self).depth() as int).1.origin_spec() == origin,
            final(self).file_at(old(self).depth() as int).1.text_at() == (data@, 0int),
            final(self).file_at(old(self).depth() as int).1.state()
                == (ReaderState { origin: opt_view(origin), ttl: None, last: None }),
            !final(self).file_at(old(self).depth() as int).1.done(),
    {
        let mut reader = Reader::create(data);
        reader.set_origin(origin);
        self.stack.push((path, reader));
    }

    /// Ends reading after the file at `path` could not be had: the answer
    /// to `FileStep::Open` where opening failed.
    pub fn fail(&mut self, path: Vec<u8>, error: ReadError) -> (r: FileReaderError)
        ensures
            final(self).wf(),
            final(self).depth() == 0,
            r.path_spec() == path@,
            r.error_spec() == error,
    {
        self.stack = Vec::new();
        FileReaderError::new(path, error)
    }
}

} // verus!
