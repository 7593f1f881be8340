//! Daily partitions of the cold event tier: which events go into which Parquet file, and
//! what the file is called. Encoding and writing the files is the caller's part.

use vstd::prelude::*;
use crate::error::StoreError;
use crate::event::Event;
use crate::table::{
    keys, lemma_table_at, lemma_table_dom, lemma_table_remove, lemma_table_update, table,
    table_find, table_insert, table_ok,
};
use crate::text::{
    lemma_seq_lt_asym, lemma_seq_lt_irreflexive, lemma_seq_lt_total, lemma_seq_lt_trans, lemma_sorted_of, padded_dec,
    push_padded_decimal, seq_lt, sorted_of, str_eq, str_lt, views,
};

verus! {

/// Last second (UTC) of the calendar range the date formatter accepts:
/// 9999-12-31T23:59:59Z.
pub const MAX_PARTITION_SECS: u64 = 253_402_300_799;

/// The UTC calendar date of unix second `secs` as the `time` crate formats it with
/// ISO 8601 `YYYY-MM-DD`.
pub uninterp spec fn utc_date_text(secs: i64) -> Seq<char>;

/// Calls `time::OffsetDateTime::from_unix_timestamp` and formats its date with
/// `Iso8601::DATE`. For a non-negative `secs` both succeed exactly when `secs` is at most
/// `MAX_PARTITION_SECS` (the crate's default year range ends at 9999, and years from 0 to
/// 9999 format as four digits); the text is named `utc_date_text`.
#[verifier::external_body]
fn format_utc_date(secs: i64) -> (r: Option<String>)
    ensures
        0 <= secs ==> (r is Some <==> secs <= MAX_PARTITION_SECS),
        r matches Some(t) ==> t@ == utc_date_text(secs),
{
    match time::OffsetDateTime::from_unix_timestamp(secs) {
        Ok(ts) => match ts.date().format(&time::format_description::well_known::Iso8601::DATE) {
            Ok(text) => Some(text),
            Err(_) => None,
        },
        Err(_) => None,
    }
}

/// The partition (UTC day) of a millisecond timestamp.
pub open spec fn day_of(ts_ms: u64) -> Seq<char> {
    utc_date_text((ts_ms / 1000) as i64)
}

/// The UTC day of `ts_ms` as `YYYY-MM-DD`; refused past the formatter's last year.
pub fn partition_day(ts_ms: u64) -> (r: Result<String, StoreError>)
    ensures
        r is Ok <==> ts_ms / 1000 <= MAX_PARTITION_SECS,
        r matches Ok(t) ==> t@ == day_of(ts_ms),
        r matches Err(e) ==> e == StoreError::TimestampOutOfRange,
{
    let secs = ts_ms / 1000;
    match format_utc_date(secs as i64) {
        Some(t) => Ok(t),
        None => Err(StoreError::TimestampOutOfRange),
    }
}

/// `base` followed by `rel`, with one `/` between them unless `base` is empty or already
/// ends with one.
pub open spec fn join_path(base: Seq<char>, rel: Seq<char>) -> Seq<char> {
    if base.len() == 0 || base.last() == '/' {
        base + rel
    } else {
        base + seq!['/'] + rel
    }
}

fn push_path(base: &mut String, rel: &str)
    ensures
        final(base)@ == join_path(old(base)@, rel@),
{
    let n = base.as_str().unicode_len();
    if n > 0 && base.as_str().get_char(n - 1) != '/' {
        proof {
            reveal_strlit("/");
        }
        base.append("/");
    }
    base.append(rel);
    assert(base@ =~= join_path(old(base)@, rel@));
}

pub open spec fn events_subdir() -> Seq<char> {
    seq!['c', 'o', 'l', 'd', '/', 'e', 'v', 'e', 'n', 't', 's']
}

pub open spec fn parquet_ext() -> Seq<char> {
    seq!['.', 'p', 'a', 'r', 'q', 'u', 'e', 't']
}

/// `<root>/cold/events`.
pub open spec fn events_dir(root: Seq<char>) -> Seq<char> {
    join_path(root, events_subdir())
}

/// `<root>/cold/events/<day>-<n:06>.parquet`: chunk `n` of a day.
pub open spec fn chunk_path(root: Seq<char>, day: Seq<char>, n: nat) -> Seq<char> {
    join_path(events_dir(root), day + seq!['-'] + padded_dec(n, 6) + parquet_ext())
}

/// `<root>/cold/events/<day>.parquet`: the single file of a day.
pub open spec fn day_path(root: Seq<char>, day: Seq<char>) -> Seq<char> {
    join_path(events_dir(root), day + parquet_ext())
}

fn make_chunk_path(root: &String, day: &String, n: u64) -> (r: String)
    ensures
        r@ == chunk_path(root@, day@, n as nat),
{
    let mut p = root.clone();
    proof {
        reveal_strlit("cold/events");
        reveal_strlit("-");
        reveal_strlit(".parquet");
    }
    assert("cold/events"@ =~= events_subdir());
    push_path(&mut p, "cold/events");
    let mut name = day.clone();
    name.append("-");
    push_padded_decimal(&mut name, n, 6);
    name.append(".parquet");
    assert(name@ =~= day@ + seq!['-'] + padded_dec(n as nat, 6) + parquet_ext());
    push_path(&mut p, name.as_str());
    p
}

fn make_day_path(root: &String, day: &String) -> (r: String)
    ensures
        r@ == day_path(root@, day@),
{
    let mut p = root.clone();
    proof {
        reveal_strlit("cold/events");
        reveal_strlit(".parquet");
    }
    assert("cold/events"@ =~= events_subdir());
    push_path(&mut p, "cold/events");
    let mut name = day.clone();
    name.append(".parquet");
    assert(name@ =~= day@ + parquet_ext());
    push_path(&mut p, name.as_str());
    p
}

/// A partition file ready to be written: its path and its rows, in order.
#[derive(Debug)]
pub struct EventChunk {
    pub path: String,
    pub rows: Vec<Event>,
}

/// What a chunk holds.
pub struct ChunkModel {
    pub path: Seq<char>,
    pub rows: Seq<Event>,
}

pub open spec fn chunk_model(c: EventChunk) -> ChunkModel {
    ChunkModel { path: c.path@, rows: c.rows@ }
}

pub open spec fn chunk_models(v: Seq<EventChunk>) -> Seq<ChunkModel> {
    v.map_values(|c: EventChunk| chunk_model(c))
}

/// Groups events by UTC day and hands out a chunk file whenever a day has gathered
/// `max_rows` rows; `finish` hands out what is left, a chunk per day in ascending order.
#[derive(Debug)]
pub struct DailyEventWriter {
    root: String,
    max_rows: usize,
    groups: Vec<(String, Vec<Event>)>,
    next_chunk: Vec<(String, u64)>,
    paths: Vec<String>,
}

/// The state of a writer.
pub struct WriterModel {
    pub root: Seq<char>,
    /// Rows per chunk (at least one).
    pub max_rows: nat,
    /// Rows waiting, by day.
    pub pending: Map<Seq<char>, Seq<Event>>,
    /// Number of the next chunk of each day that has had one.
    pub next_chunk: Map<Seq<char>, u64>,
    /// Paths of the chunks handed out so far, in order.
    pub paths: Seq<Seq<char>>,
}

/// Number of the next chunk of `day`.
pub open spec fn chunk_no(m: WriterModel, day: Seq<char>) -> nat {
    if m.next_chunk.contains_key(day) {
        m.next_chunk[day] as nat
    } else {
        0
    }
}

/// Rows waiting for `day`.
pub open spec fn pending_rows(m: WriterModel, day: Seq<char>) -> Seq<Event> {
    if m.pending.contains_key(day) {
        m.pending[day]
    } else {
        Seq::empty()
    }
}

/// The state after adding `e`, and the chunk handed out if its day became full.
pub open spec fn push_spec(m: WriterModel, e: Event) -> (WriterModel, Option<ChunkModel>) {
    let day = day_of(e.ts_ms);
    let rows = pending_rows(m, day).push(e);
    if rows.len() >= m.max_rows {
        let n = chunk_no(m, day);
        let path = chunk_path(m.root, day, n);
        (
            WriterModel {
                pending: m.pending.remove(day),
                next_chunk: m.next_chunk.insert(day, (n + 1) as u64),
                paths: m.paths.push(path),
                ..m
            },
            Some(ChunkModel { path, rows }),
        )
    } else {
        (WriterModel { pending: m.pending.insert(day, rows), ..m }, None)
    }
}

/// The chunks `finish` hands out: one per waiting day, ascending.
pub open spec fn finish_spec(m: WriterModel) -> Seq<ChunkModel> {
    sorted_of(m.pending.dom()).map_values(
        |d: Seq<char>| ChunkModel { path: chunk_path(m.root, d, chunk_no(m, d)), rows: m.pending[d] },
    )
}

impl View for DailyEventWriter {
    type V = WriterModel;

    closed spec fn view(&self) -> WriterModel {
        WriterModel {
            root: self.root@,
            max_rows: self.max_rows as nat,
            pending: table(self.groups@).map_values(|rows: Vec<Event>| rows@),
            next_chunk: table(self.next_chunk@),
            paths: views(self.paths@),
        }
    }
}

impl DailyEventWriter {
    /// Every waiting day holds between one and `max_rows - 1` rows, and no chunk number
    /// exceeds the number of chunks handed out.
    pub closed spec fn wf(&self) -> bool {
        &&& self.max_rows >= 1
        &&& table_ok(self.groups@)
        &&& table_ok(self.next_chunk@)
        &&& forall|i: int| 0 <= i < self.groups@.len() ==> 1 <= (#[trigger] self.groups@[i]).1@.len() < self.max_rows
        &&& forall|i: int| 0 <= i < self.next_chunk@.len() ==> (#[trigger] self.next_chunk@[i]).1 <= self.paths@.len()
    }

    pub proof fn lemma_wf(&self)
        requires
            self.wf(),
        ensures
            self@.max_rows >= 1,
            forall|d: Seq<char>| #[trigger] self@.pending.contains_key(d) ==> 1 <= self@.pending[d].len() < self@.max_rows,
            forall|d: Seq<char>| #[trigger] self@.next_chunk.contains_key(d) ==> self@.next_chunk[d] <= self@.paths.len(),
    {
        assert forall|d: Seq<char>| #[trigger] self@.pending.contains_key(d) implies 1 <= self@.pending[d].len() < self@.max_rows by {
            let j = choose|j: int| 0 <= j < keys(self.groups@).len() && keys(self.groups@)[j] == d;
            lemma_table_at(self.groups@, j);
        }
        assert forall|d: Seq<char>| #[trigger] self@.next_chunk.contains_key(d) implies self@.next_chunk[d] <= self@.paths.len() by {
            let j = choose|j: int| 0 <= j < keys(self.next_chunk@).len() && keys(self.next_chunk@)[j] == d;
            lemma_table_at(self.next_chunk@, j);
        }
    }

    /// A writer rooted at `root` that cuts chunks of `max_rows` rows (at least one).
    pub fn new(root: &str, max_rows: usize) -> (r: DailyEventWriter)
        ensures
            r.wf(),
            r@.root == root@,
            r@.max_rows == if max_rows >= 1 { max_rows as nat } else { 1 },
            r@.pending == Map::<Seq<char>, Seq<Event>>::empty(),
            r@.next_chunk == Map::<Seq<char>, u64>::empty(),
            r@.paths == Seq::<Seq<char>>::empty(),
    {
        let r = DailyEventWriter {
            root: root.to_string(),
            max_rows: if max_rows >= 1 { max_rows } else { 1 },
            groups: Vec::new(),
            next_chunk: Vec::new(),
            paths: Vec::new(),
        };
        assert(r@.pending =~= Map::<Seq<char>, Seq<Event>>::empty());
        assert(r@.next_chunk =~= Map::<Seq<char>, u64>::empty());
        assert(r@.paths =~= Seq::<Seq<char>>::empty());
        r
    }

    /// Hands out the next chunk path of `day` and counts it.
    fn next_chunk_path(&mut self, day: &String) -> (r: String)
        requires
            old(self).wf(),
        ensures
            final(self).wf(),
            r@ == chunk_path(old(self)@.root, day@, chunk_no(old(self)@, day@)),
            final(self)@ == (WriterModel {
                next_chunk: old(self)@.next_chunk.insert(day@, (chunk_no(old(self)@, day@) + 1) as u64),
                paths: old(self)@.paths.push(r@),
                ..old(self)@
            }),
            final(self).groups@ == old(self).groups@,
    {
        let ghost old_paths = self.paths@;
        let found = table_find(&self.next_chunk, day.as_str());
        let n: u64 = match found {
            Some(i) => self.next_chunk[i].1,
            None => 0,
        };
        proof {
            match found {
                Some(i) => {
                    lemma_table_at(self.next_chunk@, i as int);
                    assert(n <= old_paths.len());
                },
                None => {
                    assert(!self@.next_chunk.contains_key(day@));
                },
            }
            assert(n == chunk_no(self@, day@));
        }
        let path = make_chunk_path(&self.root, day, n);
        self.paths.push(path.clone());
        let count = self.paths.len();
        assert(n < count);
        match found {
            Some(i) => {
                let k = self.next_chunk[i].0.clone();
                proof {
                    lemma_table_update(self.next_chunk@, i as int, (k, (n + 1) as u64));
                }
                self.next_chunk.set(i, (k, n + 1));
            },
            None => {
                table_insert(&mut self.next_chunk, day.clone(), 1);
            },
        }
        proof {
            assert forall|i: int| 0 <= i < self.next_chunk@.len() implies (#[trigger] self.next_chunk@[i]).1 <= self.paths@.len() by {
                lemma_table_at(self.next_chunk@, i);
                let d = self.next_chunk@[i].0@;
                if d != day@ {
                    let j = choose|j: int| 0 <= j < keys(old(self).next_chunk@).len() && keys(old(self).next_chunk@)[j] == d;
                    lemma_table_at(old(self).next_chunk@, j);
                }
            }
            assert(views(self.paths@) =~= old(self)@.paths.push(path@));
        }
        path
    }

    /// Adds an event to its day; when the day reaches `max_rows` rows, they leave as a
    /// chunk for the caller to write. An event whose day cannot be named is refused and
    /// the writer is left as it was.
    pub fn push(&mut self, event: Event) -> (r: Result<Option<EventChunk>, StoreError>)
        requires
            old(self).wf(),
        ensures
            final(self).wf(),
            r is Err <==> event.ts_ms / 1000 > MAX_PARTITION_SECS,
            r matches Err(e) ==> e == StoreError::TimestampOutOfRange && final(self)@ == old(self)@,
            r matches Ok(c) ==> (final(self)@, match c { Some(c) => Some(chunk_model(c)), None => None })
                == push_spec(old(self)@, event),
    {
        let day = match partition_day(event.ts_ms) {
            Ok(d) => d,
            Err(e) => return Err(e),
        };
        let ghost m = self@;
        let ghost ev = event;
        proof {
            self.lemma_wf();
        }
        let ghost rows_after = pending_rows(m, day@).push(ev);
        let rows = match table_find(&self.groups, day.as_str()) {
            Some(i) => {
                proof {
                    lemma_table_at(self.groups@, i as int);
                    lemma_table_remove(self.groups@, i as int);
                }
                let (_, rows) = self.groups.remove(i);
                rows
            },
            None => Vec::new(),
        };
        assert(rows@ == pending_rows(m, day@));
        let mut rows = rows;
        rows.push(event);
        assert(rows@ == rows_after);
        proof {
            assert(table(self.groups@).map_values(|rows: Vec<Event>| rows@) =~= m.pending.remove(day@));
            assert forall|i: int| 0 <= i < self.groups@.len() implies 1 <= (#[trigger] self.groups@[i]).1@.len() < self.max_rows by {
                lemma_table_at(self.groups@, i);
                let d = self.groups@[i].0@;
                let j = choose|j: int| 0 <= j < keys(old(self).groups@).len() && keys(old(self).groups@)[j] == d;
                lemma_table_at(old(self).groups@, j);
            }
        }
        if rows.len() >= self.max_rows {
            let path = self.next_chunk_path(&day);
            proof {
                assert(self@.pending =~= m.pending.remove(day@));
            }
            Ok(Some(EventChunk { path, rows }))
        } else {
            proof {
                assert(!keys(self.groups@).contains(day@)) by {
                    if keys(self.groups@).contains(day@) {
                        let j = choose|j: int| 0 <= j < keys(self.groups@).len() && keys(self.groups@)[j] == day@;
                        lemma_table_at(self.groups@, j);
                    }
                }
            }
            let ghost pre = self.groups@;
            let ghost rv = rows@;
            table_insert(&mut self.groups, day, rows);
            proof {
                assert(self@.pending =~= m.pending.insert(day@, rv));
                assert forall|i: int| 0 <= i < self.groups@.len() implies 1 <= (#[trigger] self.groups@[i]).1@.len() < self.max_rows by {
                    lemma_table_at(self.groups@, i);
                    let d = self.groups@[i].0@;
                    if d != day@ {
                        let j = choose|j: int| 0 <= j < keys(pre).len() && keys(pre)[j] == d;
                        lemma_table_at(pre, j);
                    }
                }
                assert(self@ == push_spec(m, ev).0);
            }
            Ok(None)
        }
    }

    /// Hands out every waiting day as a chunk, in ascending day order, with the paths of all
    /// chunks handed out over the writer's life.
    pub fn finish(self) -> (r: (Vec<EventChunk>, Vec<String>))
        requires
            self.wf(),
        ensures
            chunk_models(r.0@) == finish_spec(self@),
            views(r.1@) == self@.paths + finish_spec(self@).map_values(|c: ChunkModel| c.path),
    {
        let mut w = self;
        let ghost m = w@;
        let ghost gs = w.groups@;
        let ghost days = keys(gs);
        let ghost fs = finish_spec(m);
        proof {
            lemma_table_dom(gs);
            lemma_sorted_of(days);
            assert(m.pending.dom() =~= days.to_set());
            assert(sorted_of(m.pending.dom()) == days);
        }
        let mut groups: Vec<(String, Vec<Event>)> = Vec::new();
        std::mem::swap(&mut groups, &mut w.groups);
        let n = groups.len();
        // Reverse the groups so that popping yields them in ascending order.
        let mut rest: Vec<(String, Vec<Event>)> = Vec::new();
        let mut k: usize = n;
        while k > 0
            invariant
                k <= n,
                n == gs.len(),
                groups@ == gs.subrange(0, k as int),
                rest@ == gs.subrange(k as int, n as int).reverse(),
            decreases k,
        {
            let g = groups.pop().unwrap();
            rest.push(g);
            proof {
                assert(groups@ =~= gs.subrange(0, k - 1));
                assert(rest@ =~= gs.subrange(k - 1, n as int).reverse());
            }
            k = k - 1;
        }
        proof {
            assert(w.groups@.len() == 0);
            assert(w.wf());
            assert(m.paths + fs.subrange(0, 0).map_values(|c: ChunkModel| c.path) =~= m.paths);
        }
        let mut chunks: Vec<EventChunk> = Vec::new();
        let mut i: usize = 0;
        while i < n
            invariant
                i <= n,
                n == gs.len(),
                rest@ == gs.subrange(i as int, n as int).reverse(),
                w.wf(),
                w.groups@.len() == 0,
                w@.root == m.root,
                table_ok(gs),
                days == keys(gs),
                fs == finish_spec(m),
                sorted_of(m.pending.dom()) == days,
                m.pending == table(gs).map_values(|rows: Vec<Event>| rows@),
                forall|j: int| i <= j < n ==> chunk_no(w@, #[trigger] days[j]) == chunk_no(m, days[j]),
                chunk_models(chunks@) == fs.subrange(0, i as int),
                w@.paths == m.paths + fs.subrange(0, i as int).map_values(|c: ChunkModel| c.path),
            decreases n - i,
        {
            let ghost pre_w = w@;
            let ghost pre_chunks = chunks@;
            let g = rest.pop().unwrap();
            proof {
                assert(g == gs[i as int]);
                assert(rest@ =~= gs.subrange(i + 1, n as int).reverse());
                lemma_table_at(gs, i as int);
            }
            let (day, rows) = g;
            let path = w.next_chunk_path(&day);
            chunks.push(EventChunk { path, rows });
            proof {
                assert(days[i as int] == day@);
                assert(fs[i as int] == ChunkModel { path: path@, rows: rows@ });
                assert(chunk_models(chunks@) =~= fs.subrange(0, i + 1));
                assert(w@.paths =~= m.paths + fs.subrange(0, i + 1).map_values(|c: ChunkModel| c.path));
                assert forall|j: int| i + 1 <= j < n implies chunk_no(w@, #[trigger] days[j]) == chunk_no(m, days[j]) by {
                    lemma_sorted_distinct(days, i as int, j);
                }
            }
            i = i + 1;
        }
        proof {
            assert(fs.subrange(0, n as int) =~= fs);
        }
        (chunks, w.paths)
    }
}

/// One file per day: its path and the positions of its rows in the input, ascending.
#[derive(Debug)]
pub struct DayFile {
    pub path: String,
    pub rows: Vec<usize>,
}

/// The positions among the first `n` events whose day is `day`, ascending.
pub open spec fn day_rows(evs: Seq<Event>, day: Seq<char>, n: int) -> Seq<usize>
    decreases n,
{
    if n <= 0 {
        Seq::empty()
    } else {
        day_rows(evs, day, n - 1) + if day_of(evs[n - 1].ts_ms) == day {
            seq![(n - 1) as usize]
        } else {
            Seq::empty()
        }
    }
}

/// The days of the first `n` events.
pub open spec fn days_upto(evs: Seq<Event>, n: int) -> Set<Seq<char>> {
    Set::new(|d: Seq<char>| exists|j: int| 0 <= j < n && day_of(evs[j].ts_ms) == d)
}

/// Whether every event's timestamp can be partitioned.
pub open spec fn all_partitionable(evs: Seq<Event>) -> bool {
    forall|j: int| 0 <= j < evs.len() ==> (#[trigger] evs[j]).ts_ms / 1000 <= MAX_PARTITION_SECS
}

proof fn lemma_day_rows_has(evs: Seq<Event>, day: Seq<char>, n: int)
    requires
        day_rows(evs, day, n).len() > 0,
    ensures
        days_upto(evs, n).contains(day),
    decreases n,
{
    if n > 0 {
        if day_of(evs[n - 1].ts_ms) != day {
            lemma_day_rows_has(evs, day, n - 1);
            let j = choose|j: int| 0 <= j < n - 1 && day_of(evs[j].ts_ms) == day;
            assert(0 <= j < n && day_of(evs[j].ts_ms) == day);
        } else {
            assert(0 <= n - 1 < n && day_of(evs[n - 1].ts_ms) == day);
        }
    }
}

/// Lays the events out as one file per UTC day (`<root>/cold/events/<day>.parquet`), days
/// ascending, each file holding its events in input order; the caller writes the files.
/// Refused, with nothing laid out, when some timestamp cannot be partitioned.
pub fn write_daily_events(root: &str, events: &[Event]) -> (r: Result<Vec<DayFile>, StoreError>)
    ensures
        r is Ok <==> all_partitionable(events@),
        r matches Err(e) ==> e == StoreError::TimestampOutOfRange,
        r matches Ok(files) ==> {
            let days = sorted_of(days_upto(events@, events@.len() as int));
            &&& files.len() == days.len()
            &&& forall|k: int| 0 <= k < files.len() ==> (#[trigger] files@[k]).path@ == day_path(root@, days[k])
                && files@[k].rows@ == day_rows(events@, days[k], events@.len() as int)
        },
{
    let mut t: Vec<(String, Vec<usize>)> = Vec::new();
    let mut i: usize = 0;
    let ghost evs = events@;
    proof {
        assert(table(t@).map_values(|v: Vec<usize>| v@).dom() =~= days_upto(evs, 0));
    }
    while i < events.len()
        invariant
            i <= events.len(),
            evs == events@,
            table_ok(t@),
            forall|j: int| 0 <= j < i ==> (#[trigger] evs[j]).ts_ms / 1000 <= MAX_PARTITION_SECS,
            table(t@).dom() == days_upto(evs, i as int),
            forall|d: Seq<char>| #[trigger] table(t@).contains_key(d) ==> table(t@)[d]@ == day_rows(evs, d, i as int),
        decreases events.len() - i,
    {
        let day = match partition_day(events[i].ts_ms) {
            Ok(d) => d,
            Err(e) => {
                return Err(e);
            },
        };
        let ghost pre = t@;
        match table_find(&t, day.as_str()) {
            Some(k) => {
                let mut entry: (String, Vec<usize>) = (String::new(), Vec::new());
                t.set_and_swap(k, &mut entry);
                entry.1.push(i);
                let ghost ne = entry;
                t.set_and_swap(k, &mut entry);
                proof {
                    assert(t@ == pre.update(k as int, ne));
                    lemma_table_at(pre, k as int);
                    lemma_table_update(pre, k as int, ne);
                }
            },
            None => {
                proof {
                    lemma_table_dom(t@);
                }
                let mut rows: Vec<usize> = Vec::new();
                rows.push(i);
                table_insert(&mut t, day, rows);
            },
        }
        proof {
            assert forall|d: Seq<char>| #[trigger] table(t@).contains_key(d) implies table(t@)[d]@ == day_rows(evs, d, i + 1) by {
                assert(day_rows(evs, d, i + 1) == day_rows(evs, d, i as int) + if day_of(evs[i as int].ts_ms) == d {
                    seq![i as usize]
                } else {
                    Seq::empty()
                });
                if d != day@ {
                    assert(day_rows(evs, d, i + 1) =~= day_rows(evs, d, i as int));
                } else if !table(pre).contains_key(d) {
                    assert(!days_upto(evs, i as int).contains(d));
                    assert(day_rows(evs, d, i as int) =~= Seq::<usize>::empty()) by {
                        if day_rows(evs, d, i as int).len() > 0 {
                            lemma_day_rows_has(evs, d, i as int);
                        }
                    }
                }
            }
            assert forall|d: Seq<char>| table(t@).dom().contains(d) <==> days_upto(evs, i + 1).contains(d) by {
                if d == day@ {
                    assert(day_of(evs[i as int].ts_ms) == d);
                }
                if days_upto(evs, i + 1).contains(d) && d != day@ {
                    let j = choose|j: int| 0 <= j < i + 1 && day_of(evs[j].ts_ms) == d;
                    assert(j < i);
                    assert(days_upto(evs, i as int).contains(d));
                }
                if table(pre).dom().contains(d) {
                    assert(days_upto(evs, i as int).contains(d));
                    let j = choose|j: int| 0 <= j < i && day_of(evs[j].ts_ms) == d;
                    assert(days_upto(evs, i + 1).contains(d));
                }
            }
            assert(table(t@).dom() =~= days_upto(evs, i + 1));
        }
        i = i + 1;
    }
    let ghost days = keys(t@);
    proof {
        lemma_table_dom(t@);
        lemma_sorted_of(days);
        assert(sorted_of(days_upto(evs, evs.len() as int)) == days);
    }
    proof {
        assert forall|q: int| 0 <= q < t@.len() implies (#[trigger] t@[q]).1@ == day_rows(evs, days[q], evs.len() as int) by {
            lemma_table_at(t@, q);
        }
    }
    let root_s = root.to_string();
    let mut files: Vec<DayFile> = Vec::new();
    let mut k: usize = 0;
    while k < t.len()
        invariant
            k <= t.len(),
            days == keys(t@),
            evs == events@,
            root_s@ == root@,
            forall|q: int| k <= q < t@.len() ==> (#[trigger] t@[q]).1@ == day_rows(evs, days[q], evs.len() as int),
            files.len() == k,
            forall|q: int| 0 <= q < k ==> (#[trigger] files@[q]).path@ == day_path(root@, days[q])
                && files@[q].rows@ == day_rows(evs, days[q], evs.len() as int),
        decreases t.len() - k,
    {
        assert(t@[k as int].0@ == days[k as int]);
        let path = make_day_path(&root_s, &t[k].0);
        let ghost pre = t@;
        let mut entry: (String, Vec<usize>) = (String::new(), Vec::new());
        t.set_and_swap(k, &mut entry);
        let rows = entry.1;
        let key = entry.0;
        let mut back: (String, Vec<usize>) = (key, Vec::new());
        t.set_and_swap(k, &mut back);
        proof {
            assert(keys(t@) =~= keys(pre));
            assert forall|q: int| k + 1 <= q < t@.len() implies (#[trigger] t@[q]).1@ == day_rows(evs, days[q], evs.len() as int) by {
                assert(t@[q] == pre[q]);
            }
        }
        files.push(DayFile { path, rows });
        k = k + 1;
    }
    Ok(files)
}

/// The order of events read back from the cold tier: by time, then session, then seq.
pub open spec fn event_key(e: Event) -> (u64, Seq<char>, u64) {
    (e.ts_ms, e.session_id@, e.seq)
}

pub open spec fn key_lt(a: (u64, Seq<char>, u64), b: (u64, Seq<char>, u64)) -> bool {
    ||| a.0 < b.0
    ||| a.0 == b.0 && seq_lt(a.1, b.1)
    ||| a.0 == b.0 && a.1 == b.1 && a.2 < b.2
}

/// Ordered by key.
pub open spec fn key_sorted(s: Seq<Event>) -> bool {
    forall|i: int, j: int| 0 <= i < j < s.len() ==> !key_lt(event_key(#[trigger] s[j]), event_key(#[trigger] s[i]))
}

/// The events of `s` whose key is `k`, in order.
pub open spec fn key_ties(s: Seq<Event>, k: (u64, Seq<char>, u64)) -> Seq<Event>
    decreases s.len(),
{
    if s.len() == 0 {
        Seq::empty()
    } else {
        key_ties(s.drop_last(), k) + if event_key(s.last()) == k { seq![s.last()] } else { Seq::empty() }
    }
}

/// `t` is `s` stably sorted by key.
pub open spec fn key_sorted_of(t: Seq<Event>, s: Seq<Event>) -> bool {
    &&& key_sorted(t)
    &&& forall|k: (u64, Seq<char>, u64)| #[trigger] key_ties(t, k) == key_ties(s, k)
}

proof fn lemma_key_lt_trans(a: (u64, Seq<char>, u64), b: (u64, Seq<char>, u64), c: (u64, Seq<char>, u64))
    requires
        key_lt(a, b),
        key_lt(b, c),
    ensures
        key_lt(a, c),
{
    if a.0 == b.0 && b.0 == c.0 {
        if seq_lt(a.1, b.1) && seq_lt(b.1, c.1) {
            lemma_seq_lt_trans(a.1, b.1, c.1);
        }
    }
}

proof fn lemma_key_lt_total(a: (u64, Seq<char>, u64), b: (u64, Seq<char>, u64))
    requires
        a != b,
    ensures
        key_lt(a, b) || key_lt(b, a),
{
    if a.0 == b.0 && a.1 != b.1 {
        lemma_seq_lt_total(a.1, b.1);
    }
}

proof fn lemma_key_lt_asym(a: (u64, Seq<char>, u64), b: (u64, Seq<char>, u64))
    ensures
        !(key_lt(a, b) && key_lt(b, a)),
{
    lemma_seq_lt_asym(a.1, b.1);
    lemma_seq_lt_irreflexive(a.1);
}

proof fn lemma_key_ties_append(a: Seq<Event>, b: Seq<Event>, k: (u64, Seq<char>, u64))
    ensures
        key_ties(a + b, k) == key_ties(a, k) + key_ties(b, k),
    decreases b.len(),
{
    if b.len() == 0 {
        assert(a + b =~= a);
        assert(key_ties(a, k) + key_ties(b, k) =~= key_ties(a, k));
    } else {
        assert((a + b).drop_last() =~= a + b.drop_last());
        lemma_key_ties_append(a, b.drop_last(), k);
        assert(key_ties(a, k) + key_ties(b, k) =~= key_ties(a, k) + key_ties(b.drop_last(), k) + if event_key(b.last()) == k {
            seq![b.last()]
        } else {
            Seq::empty()
        });
    }
}

proof fn lemma_key_ties_none(s: Seq<Event>, k: (u64, Seq<char>, u64))
    requires
        forall|i: int| 0 <= i < s.len() ==> event_key(#[trigger] s[i]) != k,
    ensures
        key_ties(s, k) == Seq::<Event>::empty(),
    decreases s.len(),
{
    if s.len() > 0 {
        lemma_key_ties_none(s.drop_last(), k);
    }
}

proof fn lemma_key_ties_single(x: Event, k: (u64, Seq<char>, u64))
    ensures
        key_ties(seq![x], k) == if event_key(x) == k { seq![x] } else { Seq::<Event>::empty() },
{
    assert(seq![x].drop_last() =~= Seq::<Event>::empty());
    assert(key_ties(Seq::<Event>::empty(), k) =~= Seq::<Event>::empty());
    assert(seq![x].last() == x);
}

fn event_key_lt(a: &Event, b: &Event) -> (r: bool)
    ensures
        r == key_lt(event_key(*a), event_key(*b)),
{
    a.ts_ms < b.ts_ms || (a.ts_ms == b.ts_ms && (str_lt(a.session_id.as_str(), b.session_id.as_str())
        || (str_eq(a.session_id.as_str(), b.session_id.as_str()) && a.seq < b.seq)))
}

/// Inserts an event after every event whose key is not larger.
fn insert_by_key(v: &mut Vec<Event>, x: Event)
    requires
        key_sorted(old(v)@),
    ensures
        key_sorted(final(v)@),
        forall|k: (u64, Seq<char>, u64)| #[trigger] key_ties(final(v)@, k) == key_ties(old(v)@, k)
            + if event_key(x) == k { seq![x] } else { Seq::empty() },
{
    let ghost ov = v@;
    let mut p: usize = 0;
    let mut done = false;
    while !done && p < v.len()
        invariant
            p <= v.len(),
            v@ == ov,
            forall|j: int| 0 <= j < p ==> !key_lt(event_key(x), event_key(#[trigger] v@[j])),
            done ==> p < v.len() && key_lt(event_key(x), event_key(v@[p as int])),
        decreases v.len() - p + (if done { 0int } else { 1int }),
    {
        if event_key_lt(&x, &v[p]) {
            done = true;
        } else {
            p = p + 1;
        }
    }
    let ghost xv = x;
    v.insert(p, x);
    proof {
        let nv = v@;
        assert(nv =~= ov.subrange(0, p as int) + seq![xv] + ov.subrange(p as int, ov.len() as int));
        assert forall|j: int| p <= j < ov.len() implies key_lt(event_key(xv), event_key(#[trigger] ov[j])) by {
            if j > p {
                if event_key(ov[p as int]) != event_key(ov[j]) {
                    lemma_key_lt_total(event_key(ov[p as int]), event_key(ov[j]));
                    assert(!key_lt(event_key(ov[j]), event_key(ov[p as int])));
                    lemma_key_lt_trans(event_key(xv), event_key(ov[p as int]), event_key(ov[j]));
                }
            }
        }
        assert forall|a: int, b: int| 0 <= a < b < nv.len() implies !key_lt(event_key(#[trigger] nv[b]), event_key(#[trigger] nv[a])) by {
            if b < p {
                assert(nv[a] == ov[a] && nv[b] == ov[b]);
            } else if b == p {
                assert(nv[a] == ov[a]);
                if key_lt(event_key(xv), event_key(ov[a])) {
                    assert(!key_lt(event_key(xv), event_key(ov[a])));
                }
            } else if a == p {
                assert(nv[b] == ov[b - 1]);
                lemma_key_lt_asym(event_key(xv), event_key(ov[b - 1]));
            } else if a < p {
                assert(nv[a] == ov[a] && nv[b] == ov[b - 1]);
            } else {
                assert(nv[a] == ov[a - 1] && nv[b] == ov[b - 1]);
            }
        }
        assert forall|k: (u64, Seq<char>, u64)| #[trigger] key_ties(nv, k) == key_ties(ov, k)
            + if event_key(xv) == k { seq![xv] } else { Seq::empty() } by {
            let lo = ov.subrange(0, p as int);
            let hi = ov.subrange(p as int, ov.len() as int);
            assert(ov =~= lo + hi);
            lemma_key_ties_append(lo + seq![xv], hi, k);
            lemma_key_ties_append(lo, seq![xv], k);
            lemma_key_ties_append(lo, hi, k);
            lemma_key_ties_single(xv, k);
            if event_key(xv) == k {
                assert forall|q: int| 0 <= q < hi.len() implies event_key(#[trigger] hi[q]) != k by {
                    assert(hi[q] == ov[q + p]);
                    assert(key_lt(event_key(xv), event_key(ov[q + p])));
                    lemma_seq_lt_irreflexive(k.1);
                }
                lemma_key_ties_none(hi, k);
                assert(key_ties(ov, k) =~= key_ties(lo, k));
                assert(key_ties(nv, k) =~= key_ties(lo, k) + seq![xv]);
            } else {
                assert(key_ties(nv, k) =~= key_ties(lo, k) + key_ties(hi, k));
                assert(key_ties(nv, k) =~= key_ties(ov, k) + Seq::<Event>::empty());
            }
        }
    }
}

/// Events in the order the cold tier reads them back: by time, session and seq, events
/// with equal keys in their given order.
pub fn order_events(events: Vec<Event>) -> (r: Vec<Event>)
    ensures
        key_sorted_of(r@, events@),
{
    let ghost ev = events@;
    let mut out: Vec<Event> = Vec::new();
    let mut rest = events;
    let mut rev: Vec<Event> = Vec::new();
    let n = rest.len();
    let mut k: usize = n;
    while k > 0
        invariant
            k <= n,
            n == ev.len(),
            rest@ == ev.subrange(0, k as int),
            rev@ == ev.subrange(k as int, n as int).reverse(),
        decreases k,
    {
        let e = rest.pop().unwrap();
        rev.push(e);
        proof {
            assert(rest@ =~= ev.subrange(0, k - 1));
            assert(rev@ =~= ev.subrange(k - 1, n as int).reverse());
        }
        k = k - 1;
    }
    let mut i: usize = 0;
    while i < n
        invariant
            i <= n,
            n == ev.len(),
            rev@ == ev.subrange(i as int, n as int).reverse(),
            key_sorted(out@),
            forall|k: (u64, Seq<char>, u64)| #[trigger] key_ties(out@, k) == key_ties(ev.subrange(0, i as int), k),
        decreases n - i,
    {
        let e = rev.pop().unwrap();
        proof {
            assert(e == ev[i as int]);
            assert(rev@ =~= ev.subrange(i + 1, n as int).reverse());
        }
        let ghost pre = out@;
        insert_by_key(&mut out, e);
        proof {
            assert forall|k: (u64, Seq<char>, u64)| #[trigger] key_ties(out@, k) == key_ties(ev.subrange(0, i + 1), k) by {
                assert(ev.subrange(0, i + 1).drop_last() =~= ev.subrange(0, i as int));
                assert(ev.subrange(0, i + 1).last() == ev[i as int]);
            }
        }
        i = i + 1;
    }
    proof {
        assert(ev.subrange(0, n as int) =~= ev);
    }
    out
}

/// Whether a partition file (by its file stem) lies entirely before the day of
/// `cutoff_ms`: its stem sorts before that day's name.
pub fn partition_expired(stem: &str, cutoff_ms: u64) -> (r: Result<bool, StoreError>)
    ensures
        r is Ok <==> cutoff_ms / 1000 <= MAX_PARTITION_SECS,
        r matches Ok(b) ==> b == seq_lt(stem@, day_of(cutoff_ms)),
        r matches Err(e) ==> e == StoreError::TimestampOutOfRange,
{
    let cutoff = partition_day(cutoff_ms)?;
    Ok(str_lt(stem, cutoff.as_str()))
}

/// Two positions of a strictly sorted sequence hold different values.
proof fn lemma_sorted_distinct(s: Seq<Seq<char>>, a: int, b: int)
    requires
        crate::text::strictly_sorted(s),
        0 <= a < s.len(),
        0 <= b < s.len(),
        a != b,
    ensures
        s[a] != s[b],
{
    crate::text::lemma_seq_lt_irreflexive(s[a]);
    if a < b {
        assert(crate::text::seq_lt(s[a], s[b]));
    } else {
        assert(crate::text::seq_lt(s[b], s[a]));
    }
}


/// Pushing an event loses and duplicates no row: the rows of the event's day that were
/// waiting, followed by the event, are either handed out together as the new chunk or
/// still waiting; every other day keeps what it had, and the list of handed-out paths
/// grows by the new chunk's path exactly when one is handed out.
pub proof fn lemma_push_conserves_rows(m: WriterModel, e: Event, d: Seq<char>)
    ensures
        ({
            let (m2, c) = push_spec(m, e);
            let day = day_of(e.ts_ms);
            &&& d != day ==> pending_rows(m2, d) == pending_rows(m, d)
            &&& match c {
                Some(ch) => ch.rows == pending_rows(m, day).push(e) && pending_rows(m2, day).len() == 0
                    && m2.paths == m.paths.push(ch.path),
                None => pending_rows(m2, day) == pending_rows(m, day).push(e) && m2.paths == m.paths,
            }
        }),
{
}

} // verus!
