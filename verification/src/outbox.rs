//! Folding a legacy outbox into the SQLite sync queue: which rows survive, in what order,
//! and the digest that marks a migration as done.

use vstd::prelude::*;
use crate::hot_log::le_bytes;
use crate::text::str_eq;

verus! {

/// A row of the legacy outbox.
#[derive(Debug, Clone)]
pub struct LegacyOutboxRow {
    pub id: u64,
    pub owner_id: String,
    pub kind: String,
    pub payload: String,
}

/// A pending row of the sync queue.
#[derive(Debug, Clone)]
pub struct QueueRow {
    pub owner_id: String,
    pub kind: String,
    pub payload: String,
}

/// Owner, kind and payload of a row.
pub type RowKey = (Seq<char>, Seq<char>, Seq<char>);

pub open spec fn legacy_key(r: LegacyOutboxRow) -> RowKey {
    (r.owner_id@, r.kind@, r.payload@)
}

pub open spec fn queue_key(r: QueueRow) -> RowKey {
    (r.owner_id@, r.kind@, r.payload@)
}

/// Kinds whose newest rows replace every older row of the same owner.
pub open spec fn replacement_kind(k: Seq<char>) -> bool {
    ||| k == seq!['t', 'o', 'o', 'l', '_', 's', 'p', 'a', 'n', 's']
    ||| k == seq!['r', 'e', 'p', 'o', '_', 's', 'n', 'a', 'p', 's', 'h', 'o', 't', 's']
    ||| k == seq!['w', 'o', 'r', 'k', 's', 'p', 'a', 'c', 'e', '_', 'f', 'a', 'c', 't', 's']
}

/// Whether rows of `kind` replace the older rows of their owner.
pub fn is_replacement(kind: &str) -> (r: bool)
    ensures
        r == replacement_kind(kind@),
{
    proof {
        reveal_strlit("tool_spans");
        reveal_strlit("repo_snapshots");
        reveal_strlit("workspace_facts");
        assert("tool_spans"@ =~= seq!['t', 'o', 'o', 'l', '_', 's', 'p', 'a', 'n', 's']);
        assert("repo_snapshots"@ =~= seq!['r', 'e', 'p', 'o', '_', 's', 'n', 'a', 'p', 's', 'h', 'o', 't', 's']);
        assert("workspace_facts"@ =~= seq!['w', 'o', 'r', 'k', 's', 'p', 'a', 'c', 'e', '_', 'f', 'a', 'c', 't', 's']);
    }
    str_eq(kind, "tool_spans") || str_eq(kind, "repo_snapshots") || str_eq(kind, "workspace_facts")
}

/// The legacy outbox holds a replacing row for this owner and kind.
pub open spec fn replaced(legacy: Seq<LegacyOutboxRow>, owner: Seq<char>, kind: Seq<char>) -> bool {
    exists|i: int| 0 <= i < legacy.len() && replacement_kind(legacy[i].kind@) && legacy[i].owner_id@ == owner
        && legacy[i].kind@ == kind
}

/// Legacy rows that are not replacing rows and carry `key`, among the first `n`.
pub open spec fn legacy_count(legacy: Seq<LegacyOutboxRow>, key: RowKey, n: int) -> nat
    decreases n,
{
    if n <= 0 {
        0
    } else {
        legacy_count(legacy, key, n - 1) + if !replacement_kind(legacy[n - 1].kind@) && legacy_key(legacy[n - 1]) == key {
            1nat
        } else {
            0nat
        }
    }
}

/// Queue rows carrying `key` among the first `n`.
pub open spec fn queue_count(rows: Seq<QueueRow>, key: RowKey, n: int) -> nat
    decreases n,
{
    if n <= 0 {
        0
    } else {
        queue_count(rows, key, n - 1) + if queue_key(rows[n - 1]) == key { 1nat } else { 0nat }
    }
}

/// SQLite row `j` survives: no legacy row replaces it, and the legacy copies of it have
/// all been matched by earlier SQLite rows.
pub open spec fn keeps(legacy: Seq<LegacyOutboxRow>, sqlite: Seq<QueueRow>, j: int) -> bool {
    &&& !replaced(legacy, sqlite[j].owner_id@, sqlite[j].kind@)
    &&& queue_count(sqlite, queue_key(sqlite[j]), j) >= legacy_count(legacy, queue_key(sqlite[j]), legacy.len() as int)
}

/// The surviving SQLite rows among the first `n`, in order.
pub open spec fn kept(legacy: Seq<LegacyOutboxRow>, sqlite: Seq<QueueRow>, n: int) -> Seq<RowKey>
    decreases n,
{
    if n <= 0 {
        Seq::empty()
    } else {
        kept(legacy, sqlite, n - 1) + if keeps(legacy, sqlite, n - 1) { seq![queue_key(sqlite[n - 1])] } else { Seq::empty() }
    }
}

/// The merged queue: every legacy row, then the surviving SQLite rows.
pub open spec fn reconcile_spec(legacy: Seq<LegacyOutboxRow>, sqlite: Seq<QueueRow>) -> Seq<RowKey> {
    legacy_keys(legacy) + kept(legacy, sqlite, sqlite.len() as int)
}

pub open spec fn legacy_keys(v: Seq<LegacyOutboxRow>) -> Seq<RowKey> {
    v.map_values(|r: LegacyOutboxRow| legacy_key(r))
}

pub open spec fn queue_keys(v: Seq<QueueRow>) -> Seq<RowKey> {
    v.map_values(|r: QueueRow| queue_key(r))
}

fn same_key(owner: &String, kind: &String, payload: &String, b: &QueueRow) -> (r: bool)
    ensures
        r == ((owner@, kind@, payload@) == queue_key(*b)),
{
    str_eq(owner.as_str(), b.owner_id.as_str()) && str_eq(kind.as_str(), b.kind.as_str())
        && str_eq(payload.as_str(), b.payload.as_str())
}

fn count_legacy(legacy: &Vec<LegacyOutboxRow>, key: &QueueRow) -> (r: usize)
    ensures
        r == legacy_count(legacy@, queue_key(*key), legacy@.len() as int),
{
    let mut c: usize = 0;
    let mut i: usize = 0;
    while i < legacy.len()
        invariant
            i <= legacy.len(),
            c == legacy_count(legacy@, queue_key(*key), i as int),
            c <= i,
        decreases legacy.len() - i,
    {
        let r = &legacy[i];
        if !is_replacement(r.kind.as_str()) && same_key(&r.owner_id, &r.kind, &r.payload, key) {
            c = c + 1;
        }
        i = i + 1;
    }
    c
}

fn count_before(rows: &Vec<QueueRow>, j: usize) -> (r: usize)
    requires
        j < rows.len(),
    ensures
        r == queue_count(rows@, queue_key(rows@[j as int]), j as int),
{
    let mut c: usize = 0;
    let mut i: usize = 0;
    while i < j
        invariant
            i <= j,
            j < rows.len(),
            c == queue_count(rows@, queue_key(rows@[j as int]), i as int),
            c <= i,
        decreases j - i,
    {
        let r = &rows[i];
        if same_key(&r.owner_id, &r.kind, &r.payload, &rows[j]) {
            c = c + 1;
        }
        i = i + 1;
    }
    c
}

fn is_replaced(legacy: &Vec<LegacyOutboxRow>, owner: &str, kind: &str) -> (r: bool)
    ensures
        r == replaced(legacy@, owner@, kind@),
{
    let mut i: usize = 0;
    while i < legacy.len()
        invariant
            i <= legacy.len(),
            forall|q: int| 0 <= q < i ==> !(replacement_kind(legacy@[q].kind@) && legacy@[q].owner_id@ == owner@
                && legacy@[q].kind@ == kind@),
        decreases legacy.len() - i,
    {
        let r = &legacy[i];
        if is_replacement(r.kind.as_str()) && str_eq(r.owner_id.as_str(), owner) && str_eq(r.kind.as_str(), kind) {
            return true;
        }
        i = i + 1;
    }
    false
}

/// Every legacy row in order, then the SQLite rows that survive: a SQLite row is dropped
/// when a legacy replacing row has its owner and kind, or when it is a copy of a legacy
/// row not yet matched by an earlier SQLite copy.
pub fn reconcile(legacy: &Vec<LegacyOutboxRow>, sqlite: &Vec<QueueRow>) -> (r: Vec<QueueRow>)
    ensures
        queue_keys(r@) == reconcile_spec(legacy@, sqlite@),
{
    let mut out: Vec<QueueRow> = Vec::new();
    let mut i: usize = 0;
    while i < legacy.len()
        invariant
            i <= legacy.len(),
            queue_keys(out@) == legacy_keys(legacy@.take(i as int)),
            out.len() == i,
        decreases legacy.len() - i,
    {
        let r = &legacy[i];
        let ghost pre = out@;
        out.push(QueueRow { owner_id: r.owner_id.clone(), kind: r.kind.clone(), payload: r.payload.clone() });
        proof {
            assert(queue_keys(out@)[i as int] == legacy_key(legacy@[i as int]));
            assert forall|k: int| 0 <= k < i + 1 implies queue_keys(out@)[k] == legacy_keys(legacy@.take(i + 1))[k] by {
                if k < i {
                    assert(out@[k] == pre[k]);
                    assert(queue_keys(pre)[k] == legacy_keys(legacy@.take(i as int))[k]);
                    assert(legacy@.take(i as int)[k] == legacy@[k]);
                }
                assert(legacy@.take(i + 1)[k] == legacy@[k]);
            }
            assert(queue_keys(out@) =~= legacy_keys(legacy@.take(i + 1)));
        }
        i = i + 1;
    }
    let ghost head = queue_keys(out@);
    proof {
        assert(legacy@.take(legacy.len() as int) =~= legacy@);
        assert(head + kept(legacy@, sqlite@, 0) =~= head);
    }
    let mut j: usize = 0;
    while j < sqlite.len()
        invariant
            j <= sqlite.len(),
            head == legacy_keys(legacy@),
            queue_keys(out@) == head + kept(legacy@, sqlite@, j as int),
        decreases sqlite.len() - j,
    {
        let r = &sqlite[j];
        let keep = !is_replaced(legacy, r.owner_id.as_str(), r.kind.as_str())
            && count_before(sqlite, j) >= count_legacy(legacy, r);
        let ghost pre = out@;
        if keep {
            out.push(QueueRow { owner_id: r.owner_id.clone(), kind: r.kind.clone(), payload: r.payload.clone() });
        }
        proof {
            if keep {
                assert(queue_keys(out@) =~= queue_keys(pre).push(queue_key(sqlite@[j as int])));
            } else {
                assert(queue_keys(out@) =~= queue_keys(pre));
            }
            assert(queue_keys(out@) =~= head + kept(legacy@, sqlite@, j + 1));
        }
        j = j + 1;
    }
    out
}

/// The text the migration digest starts with: `kaizen-outbox-migration-v1`.
pub open spec fn digest_tag_text() -> Seq<char> {
    seq!['k', 'a', 'i', 'z', 'e', 'n', '-', 'o', 'u', 't', 'b', 'o', 'x', '-', 'm', 'i', 'g', 'r', 'a', 't', 'i', 'o', 'n', '-', 'v', '1']
}

pub open spec fn digest_tag() -> Seq<u8> {
    vstd::utf8::encode_utf8(digest_tag_text())
}

/// A field as hashed: its byte length (u64, little-endian), then its UTF-8 bytes.
pub open spec fn field_bytes(s: Seq<char>) -> Seq<u8> {
    le_bytes(vstd::utf8::encode_utf8(s).len(), 8) + vstd::utf8::encode_utf8(s)
}

/// A row as hashed: its id (u64, little-endian), then owner, kind and payload.
pub open spec fn row_bytes(r: LegacyOutboxRow) -> Seq<u8> {
    le_bytes(r.id as nat, 8) + field_bytes(r.owner_id@) + field_bytes(r.kind@) + field_bytes(r.payload@)
}

/// The bytes the digest covers: the tag, then every row.
pub open spec fn digest_input_spec(rows: Seq<LegacyOutboxRow>) -> Seq<u8>
    decreases rows.len(),
{
    if rows.len() == 0 {
        digest_tag()
    } else {
        digest_input_spec(rows.drop_last()) + row_bytes(rows.last())
    }
}

fn push_le8(out: &mut Vec<u8>, n: u64)
    ensures
        final(out)@ == old(out)@ + le_bytes(n as nat, 8),
{
    let mut k: usize = 0;
    let mut v: u64 = n;
    let ghost start = out@;
    while k < 8
        invariant
            k <= 8,
            out@ + le_bytes(v as nat, (8 - k) as nat) == start + le_bytes(n as nat, 8),
        decreases 8 - k,
    {
        let ghost pre = out@;
        out.push((v % 256) as u8);
        proof {
            assert(le_bytes(v as nat, (8 - k) as nat) == seq![(v % 256) as u8] + le_bytes((v / 256) as nat, (8 - k - 1) as nat));
            assert(out@ + le_bytes((v / 256) as nat, (8 - k - 1) as nat) =~= pre + le_bytes(v as nat, (8 - k) as nat));
        }
        v = v / 256;
        k = k + 1;
    }
    assert(le_bytes(v as nat, 0) =~= Seq::<u8>::empty());
    assert(out@ =~= start + le_bytes(n as nat, 8));
}

fn push_bytes(out: &mut Vec<u8>, b: &[u8])
    ensures
        final(out)@ == old(out)@ + b@,
{
    let mut i: usize = 0;
    while i < b.len()
        invariant
            i <= b.len(),
            out@ == old(out)@ + b@.take(i as int),
        decreases b.len() - i,
    {
        out.push(b[i]);
        assert(out@ =~= old(out)@ + b@.take(i + 1));
        i = i + 1;
    }
    assert(b@.take(b.len() as int) =~= b@);
}

fn push_field(out: &mut Vec<u8>, s: &String)
    ensures
        final(out)@ == old(out)@ + field_bytes(s@),
{
    let b = s.as_str().as_bytes();
    push_le8(out, b.len() as u64);
    push_bytes(out, b);
    assert(final(out)@ =~= old(out)@ + field_bytes(s@));
}

/// The bytes the migration digest is computed over.
pub fn digest_input(rows: &Vec<LegacyOutboxRow>) -> (r: Vec<u8>)
    ensures
        r@ == digest_input_spec(rows@),
{
    let mut out: Vec<u8> = Vec::new();
    proof {
        reveal_strlit("kaizen-outbox-migration-v1");
    }
    assert("kaizen-outbox-migration-v1"@ =~= digest_tag_text());
    push_bytes(&mut out, "kaizen-outbox-migration-v1".as_bytes());
    assert(out@ =~= digest_tag());
    let mut i: usize = 0;
    while i < rows.len()
        invariant
            i <= rows.len(),
            out@ == digest_input_spec(rows@.take(i as int)),
        decreases rows.len() - i,
    {
        let r = &rows[i];
        push_le8(&mut out, r.id);
        push_field(&mut out, &r.owner_id);
        push_field(&mut out, &r.kind);
        push_field(&mut out, &r.payload);
        proof {
            assert(rows@.take(i + 1).drop_last() =~= rows@.take(i as int));
            assert(out@ =~= digest_input_spec(rows@.take(i + 1)));
        }
        i = i + 1;
    }
    assert(rows@.take(rows.len() as int) =~= rows@);
    out
}

/// BLAKE3 hash of `bytes`, as 64 lowercase hex digits (what `blake3::hash(..).to_hex()` gives).
pub uninterp spec fn blake3_hex(bytes: Seq<u8>) -> Seq<char>;

/// Calls `blake3::hash` and renders the hash with `Hash::to_hex`; named `blake3_hex`.
#[verifier::external_body]
fn blake3_hex_string(bytes: &[u8]) -> (r: String)
    ensures
        r@ == blake3_hex(bytes@),
{
    blake3::hash(bytes).to_hex().to_string()
}

/// The digest that marks a legacy outbox as migrated.
pub fn digest(rows: &Vec<LegacyOutboxRow>) -> (r: String)
    ensures
        r@ == blake3_hex(digest_input_spec(rows@)),
{
    let bytes = digest_input(rows);
    blake3_hex_string(bytes.as_slice())
}

/// What a migration of a legacy outbox has to do.
#[derive(Debug, PartialEq, Eq)]
pub enum MigrationStep {
    /// These rows were migrated already (the stored marker is their digest).
    AlreadyDone,
    /// Nothing to merge: only record the digest.
    MarkOnly(String),
    /// Merge the rows into the queue (see `reconcile`), then record the digest.
    Merge(String),
}

/// Decides the migration of `legacy` given the marker stored by an earlier one.
pub fn migration_step(marker: Option<&str>, legacy: &Vec<LegacyOutboxRow>) -> (r: MigrationStep)
    ensures
        match r {
            MigrationStep::AlreadyDone => marker matches Some(m) && m@ == blake3_hex(digest_input_spec(legacy@)),
            MigrationStep::MarkOnly(d) => d@ == blake3_hex(digest_input_spec(legacy@)) && legacy.len() == 0
                && !(marker matches Some(m) && m@ == d@),
            MigrationStep::Merge(d) => d@ == blake3_hex(digest_input_spec(legacy@)) && legacy.len() > 0
                && !(marker matches Some(m) && m@ == d@),
        },
{
    let d = digest(legacy);
    match marker {
        Some(m) => {
            if str_eq(m, d.as_str()) {
                return MigrationStep::AlreadyDone;
            }
        },
        None => {},
    }
    if legacy.len() == 0 {
        MigrationStep::MarkOnly(d)
    } else {
        MigrationStep::Merge(d)
    }
}

} // verus!
