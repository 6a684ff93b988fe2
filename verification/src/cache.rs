//! The sharded, lock-protected store: shards of series columns, the hash
//! that routes a series to its shard, and the batched write path that every
//! producer shares.

use vstd::prelude::*;
use vstd::rwlock::{RwLock, RwLockPredicate};

use std::sync::Arc;

use crate::point::{kv_view, spec_fields, Point, PointView};
use crate::value::{Entry, EntryView, Row, RowView, Value};
use crate::TypeMismatchError;

verus! {

/// How many shards the cache is split into; fixed at construction, never
/// resized.
pub const STORE_LEN: usize = 16;

/// What may sit in a series column's lock: only a well-formed column, so
/// every reader and writer may rely on the rows matching the declared kind.
pub struct EntryPred {}

impl RwLockPredicate<Entry> for EntryPred {
    open spec fn inv(self, v: Entry) -> bool {
        v@.wf()
    }
}

/// One series' column, shared by every writer that touches the series and
/// guarded by its own lock.
pub type SharedEntry = Arc<RwLock<Entry, EntryPred>>;

/// What may sit in a shard's lock: a series map whose identifiers are
/// pairwise distinct.
pub struct PartitionPred {}

impl RwLockPredicate<Vec<(String, SharedEntry)>> for PartitionPred {
    open spec fn inv(self, v: Vec<(String, SharedEntry)>) -> bool {
        forall|i: int, j: int|
            0 <= i < j < v@.len() ==> (#[trigger] v@[i]).0@ != (#[trigger] v@[j]).0@
    }
}

/// One shard of the store: a lock-guarded map from series identifier to an
/// independently lockable column. Lookups take the shared lock; only the
/// insertion of a new series takes the exclusive lock.
pub struct Partition {
    map: RwLock<Vec<(String, SharedEntry)>, PartitionPred>,
}

impl Partition {
    /// A fresh, empty shard.
    pub fn new() -> Partition {
        let inner: Vec<(String, SharedEntry)> = Vec::new();
        Partition { map: RwLock::new(inner, Ghost(PartitionPred {})) }
    }

    /// Looks up the column for a series identifier, touching only the
    /// shard's shared lock: concurrent lookups do not block one another.
    pub fn get(&self, series_id: &String) -> (res: Option<SharedEntry>) {
        let guard = self.map.acquire_read();
        let m = guard.borrow();
        let n: usize = m.len();
        let mut res: Option<SharedEntry> = None;
        let mut i: usize = 0;
        while i < n
            invariant
                n == m@.len(),
                i <= n,
            decreases n - i,
        {
            if m[i].0 == *series_id {
                res = Some(m[i].1.clone());
            }
            i += 1;
        }
        guard.release_read();
        res
    }

    /// Installs a column for a new series under the shard's exclusive
    /// lock, unless a concurrent writer has installed one since the
    /// caller's lookup: then the caller gets its column back unchanged,
    /// together with the column already present, so its rows can be
    /// appended there instead of dropped.
    pub fn insert_or_get(&self, series_id: String, entry: Entry) -> (res: Option<
        (SharedEntry, Entry),
    >)
        requires
            entry@.wf(),
        ensures
            res matches Some(p) ==> p.1 == entry,
    {
        let (mut m, handle) = self.map.acquire_write();
        let n: usize = m.len();
        let mut found: Option<SharedEntry> = None;
        let mut i: usize = 0;
        while i < n
            invariant
                n == m@.len(),
                i <= n,
                found is None ==> forall|j: int|
                    0 <= j < i ==> (#[trigger] m@[j]).0@ != series_id@,
            decreases n - i,
        {
            if m[i].0 == series_id {
                found = Some(m[i].1.clone());
            }
            i += 1;
        }
        match found {
            Some(existing) => {
                handle.release_write(m);
                Some((existing, entry))
            },
            None => {
                let ghost prev = m@;
                let lock = RwLock::<Entry, EntryPred>::new(entry, Ghost(EntryPred {}));
                m.push((series_id, Arc::new(lock)));
                proof {
                    assert forall|a: int, b: int| 0 <= a < b < m@.len() implies (
                    #[trigger] m@[a]).0@ != (#[trigger] m@[b]).0@ by {
                        if b < prev.len() {
                            assert(m@[a] == prev[a] && m@[b] == prev[b]);
                        } else {
                            assert(m@[a] == prev[a]);
                        }
                    }
                }
                handle.release_write(m);
                None
            },
        }
    }
}

impl Default for Partition {
    fn default() -> Partition {
        Partition::new()
    }
}

/// The digest twox_hash's 64-bit hasher assigns to a string; a pure
/// function of the characters.
pub uninterp spec fn xxhash64_of(s: Seq<char>) -> u64;

/// Relies on twox_hash::XxHash64 with its default seed, fed through std's
/// `Hash` for `String`: the digest is a deterministic function of the
/// string's bytes, hence of its characters.
#[verifier::external_body]
fn xxhash64_string(s: &String) -> (h: u64)
    ensures
        h == xxhash64_of(s@),
{
    let mut hasher = twox_hash::XxHash64::default();
    std::hash::Hash::hash(s, &mut hasher);
    std::hash::Hasher::finish(&hasher)
}

/// Which shard a series identifier is routed to: its hash, reduced modulo
/// the shard count.
pub open spec fn partition_of(s: Seq<char>) -> int {
    (xxhash64_of(s) as int) % (STORE_LEN as int)
}

/// Routing is stable: a series identifier's shard is a pure function of
/// the identifier alone, the same index at every call, and always within
/// the fixed shard array.
pub proof fn lemma_routing_stable(id1: Seq<char>, id2: Seq<char>)
    requires
        id1 == id2,
    ensures
        partition_of(id1) == partition_of(id2),
        0 <= partition_of(id1) < STORE_LEN,
{
}

/// The whole in-memory buffer: a fixed array of shards, shared by every
/// producer handle that was cloned from the same cache.
pub struct Cache {
    store: Arc<Vec<Partition>>,
}

impl Cache {
    /// The shard array has the fixed size and is never resized.
    pub closed spec fn wf(self) -> bool {
        self.store@.len() == STORE_LEN
    }

    pub fn new() -> (c: Cache)
        ensures
            c.wf(),
    {
        let mut v: Vec<Partition> = Vec::new();
        let mut i: usize = 0;
        while i < STORE_LEN
            invariant
                v@.len() == i,
                i <= STORE_LEN,
            decreases STORE_LEN - i,
        {
            v.push(Partition::new());
            i += 1;
        }
        Cache { store: Arc::new(v) }
    }

    /// Routes a series identifier to its shard.
    pub fn get_partition_offset(&self, series_key: &String) -> (off: usize)
        ensures
            off as int == partition_of(series_key@),
            off < STORE_LEN,
    {
        let h = xxhash64_string(series_key);
        (h % (STORE_LEN as u64)) as usize
    }

    /// Looks up the shared column handle for a series identifier, routing
    /// through the identifier's shard.
    pub fn get(&self, series_id: &String) -> (res: Option<SharedEntry>)
        requires
            self.wf(),
    {
        let off = self.get_partition_offset(series_id);
        let part = &(*self.store)[off];
        part.get(series_id)
    }

    /// How many rows the series' stored column holds at the moment of the
    /// call, observed under the column's shared lock; nothing for a series
    /// the cache has never seen.
    pub fn series_len(&self, series_id: &String) -> (res: Option<usize>)
        requires
            self.wf(),
    {
        match self.get(series_id) {
            Some(shared) => {
                let guard = shared.acquire_read();
                let n: usize = guard.borrow().len();
                guard.release_read();
                Some(n)
            },
            None => None,
        }
    }
}

impl Clone for Cache {
    /// Another handle to the same store: clones share every shard.
    fn clone(&self) -> (res: Self)
        ensures
            res == *self,
    {
        Cache { store: self.store.clone() }
    }
}

/// The ghost images of a batch of points.
pub open spec fn views_of(points: Seq<Point>) -> Seq<PointView> {
    points.map_values(|p: Point| p@)
}

/// One (series identifier, row) item per field of a point, in field order.
pub open spec fn point_rows(p: PointView) -> Seq<(Seq<char>, RowView)> {
    Seq::new(
        spec_fields(p).len(),
        |i: int| (spec_fields(p)[i].0, RowView { unix_nano: p.time, value: spec_fields(p)[i].1 }),
    )
}

/// Whether the transient series map already holds a column for `id`.
pub open spec fn has_series(acc: Seq<(Seq<char>, EntryView)>, id: Seq<char>) -> bool {
    exists|i: int| 0 <= i < acc.len() && (#[trigger] acc[i]).0 == id
}

/// The position of `id` in the transient series map.
pub open spec fn series_index(acc: Seq<(Seq<char>, EntryView)>, id: Seq<char>) -> int {
    choose|i: int| 0 <= i < acc.len() && (#[trigger] acc[i]).0 == id
}

/// One item folded into the transient per-batch series map: a new series
/// starts a column of the row's kind; a series already seen must take a
/// row of its declared kind, or the batch is refused with that mismatch.
pub open spec fn agg_insert(
    acc: Seq<(Seq<char>, EntryView)>,
    id: Seq<char>,
    r: RowView,
) -> Result<Seq<(Seq<char>, EntryView)>, TypeMismatchError> {
    if has_series(acc, id) {
        let i = series_index(acc, id);
        let e = acc[i].1;
        if r.value.kind() == e.value_type {
            Ok(acc.update(i, (id, EntryView { value_type: e.value_type, rows: e.rows.push(r) })))
        } else {
            Err(TypeMismatchError { expect: e.value_type, got: r.value.kind() })
        }
    } else {
        Ok(acc.push((id, EntryView { value_type: r.value.kind(), rows: seq![r] })))
    }
}

/// A run of items folded into the transient series map, in order.
pub open spec fn agg_rows(
    acc: Seq<(Seq<char>, EntryView)>,
    items: Seq<(Seq<char>, RowView)>,
) -> Result<Seq<(Seq<char>, EntryView)>, TypeMismatchError>
    decreases items.len(),
{
    if items.len() == 0 {
        Ok(acc)
    } else {
        match agg_rows(acc, items.drop_last()) {
            Ok(a) => agg_insert(a, items.last().0, items.last().1),
            Err(e) => Err(e),
        }
    }
}

/// The whole local aggregation pass: every point's rows, point by point.
/// This is what the batched write's outcome is measured against: the pass
/// either produces one transient column per distinct series of the batch,
/// or stops at the batch's first kind mismatch.
pub open spec fn agg_batch(points: Seq<PointView>) -> Result<
    Seq<(Seq<char>, EntryView)>,
    TypeMismatchError,
>
    decreases points.len(),
{
    if points.len() == 0 {
        Ok(Seq::empty())
    } else {
        match agg_batch(points.drop_last()) {
            Ok(acc) => agg_rows(acc, point_rows(points.last())),
            Err(e) => Err(e),
        }
    }
}

/// Once a run of rows hits a mismatch, the rows after it cannot undo it.
proof fn lemma_agg_rows_err_stable(
    acc: Seq<(Seq<char>, EntryView)>,
    items: Seq<(Seq<char>, RowView)>,
    n: int,
    e: TypeMismatchError,
)
    requires
        0 <= n <= items.len(),
        agg_rows(acc, items.take(n)) == Err::<Seq<(Seq<char>, EntryView)>, TypeMismatchError>(e),
    ensures
        agg_rows(acc, items) == Err::<Seq<(Seq<char>, EntryView)>, TypeMismatchError>(e),
    decreases items.len(),
{
    if items.len() > n {
        let init = items.drop_last();
        assert(init.take(n) =~= items.take(n));
        lemma_agg_rows_err_stable(acc, init, n, e);
    } else {
        assert(items.take(n) =~= items);
    }
}

/// Once the aggregation pass hits a mismatch, the points after it cannot
/// undo it.
proof fn lemma_agg_batch_err_stable(points: Seq<PointView>, n: int, e: TypeMismatchError)
    requires
        0 <= n <= points.len(),
        agg_batch(points.take(n)) == Err::<Seq<(Seq<char>, EntryView)>, TypeMismatchError>(e),
    ensures
        agg_batch(points) == Err::<Seq<(Seq<char>, EntryView)>, TypeMismatchError>(e),
    decreases points.len(),
{
    if points.len() > n {
        let init = points.drop_last();
        assert(init.take(n) =~= points.take(n));
        lemma_agg_batch_err_stable(init, n, e);
    } else {
        assert(points.take(n) =~= points);
    }
}

/// Any mismatch one run of the aggregation pass reports names two
/// distinct kinds: the column's and the offending row's.
proof fn lemma_agg_rows_err_distinct(
    acc: Seq<(Seq<char>, EntryView)>,
    items: Seq<(Seq<char>, RowView)>,
)
    ensures
        agg_rows(acc, items) matches Err(e) ==> e.expect != e.got,
    decreases items.len(),
{
    if items.len() > 0 {
        lemma_agg_rows_err_distinct(acc, items.drop_last());
    }
}

/// Any mismatch the whole aggregation pass reports names two distinct
/// kinds.
proof fn lemma_agg_batch_err_distinct(points: Seq<PointView>)
    ensures
        agg_batch(points) matches Err(e) ==> e.expect != e.got,
    decreases points.len(),
{
    if points.len() > 0 {
        lemma_agg_batch_err_distinct(points.drop_last());
        match agg_batch(points.drop_last()) {
            Ok(acc) => {
                lemma_agg_rows_err_distinct(acc, point_rows(points.last()));
            },
            Err(_) => {},
        }
    }
}

/// The local aggregation pass, step one of a batched write: decomposes
/// every point into (series identifier, row) pairs and groups them into
/// one transient column per distinct series, in first-seen order. The
/// batch is refused with its first kind mismatch between values that
/// share a series.
pub fn build_batch(points: &Vec<Point>) -> (res: Result<
    Vec<(String, Entry)>,
    TypeMismatchError,
>)
    ensures
        agg_batch(views_of(points@)) matches Ok(acc) ==> (res matches Ok(v) && kv_view(v@)
            == acc),
        agg_batch(views_of(points@)) matches Err(e) ==> res == Err::<
            Vec<(String, Entry)>,
            TypeMismatchError,
        >(e),
        res matches Ok(v) ==> forall|i: int|
            0 <= i < v@.len() ==> (#[trigger] v@[i]).1@.wf(),
{
    let ghost pts = views_of(points@);
    let mut agg: Vec<(String, Entry)> = Vec::new();
    let np: usize = points.len();
    let mut pi: usize = 0;
    proof {
        assert(pts.take(0) =~= Seq::<PointView>::empty());
        assert(kv_view(agg@) =~= Seq::<(Seq<char>, EntryView)>::empty());
    }
    while pi < np
        invariant
            np == points@.len(),
            pts == views_of(points@),
            pts.len() == np,
            pi <= np,
            agg_batch(pts.take(pi as int)) == Ok::<
                Seq<(Seq<char>, EntryView)>,
                TypeMismatchError,
            >(kv_view(agg@)),
            forall|i: int| 0 <= i < agg@.len() ==> (#[trigger] agg@[i]).1@.wf(),
            forall|a: int, b: int|
                0 <= a < b < agg@.len() ==> (#[trigger] agg@[a]).0@ != (#[trigger] agg@[b]).0@,
        decreases np - pi,
    {
        let p = &points[pi];
        let ghost pv = pts[pi as int];
        proof {
            assert(pv == p@);
        }
        let nano = p.unix_nano();
        let fs = p.fields();
        let nf: usize = fs.len();
        let ghost acc0 = kv_view(agg@);
        let mut fi: usize = 0;
        proof {
            assert(point_rows(pv).take(0) =~= Seq::<(Seq<char>, RowView)>::empty());
        }
        while fi < nf
            invariant
                np == points@.len(),
                pts == views_of(points@),
                pts.len() == np,
                pi < np,
                pv == pts[pi as int],
                nano == pv.time,
                nf == fs@.len(),
                nf == spec_fields(pv).len(),
                forall|k: int| 0 <= k < nf ==> (#[trigger] fs@[k])@ == spec_fields(pv)[k],
                fi <= nf,
                agg_batch(pts.take(pi as int)) == Ok::<
                    Seq<(Seq<char>, EntryView)>,
                    TypeMismatchError,
                >(acc0),
                agg_rows(acc0, point_rows(pv).take(fi as int)) == Ok::<
                    Seq<(Seq<char>, EntryView)>,
                    TypeMismatchError,
                >(kv_view(agg@)),
                forall|i: int| 0 <= i < agg@.len() ==> (#[trigger] agg@[i]).1@.wf(),
                forall|a: int, b: int|
                    0 <= a < b < agg@.len() ==> (#[trigger] agg@[a]).0@ != (
                    #[trigger] agg@[b]).0@,
            decreases nf - fi,
        {
            let f = &fs[fi];
            let row = Row::new(nano, Value::from_field(&f.value));
            let ghost cur = kv_view(agg@);
            let ghost agg0 = agg@;
            let ghost item = point_rows(pv)[fi as int];
            proof {
                assert(fs@[fi as int]@ == spec_fields(pv)[fi as int]);
                assert(f.series_id@ == item.0);
                assert(row@ == item.1);
                assert forall|j: int| 0 <= j < cur.len() implies #[trigger] cur[j] == (
                    agg0[j].0@,
                    agg0[j].1@,
                ) by {}
            }
            let na: usize = agg.len();
            let mut idx: usize = na;
            let mut ai: usize = 0;
            while ai < na
                invariant
                    na == agg@.len(),
                    agg@ == agg0,
                    cur == kv_view(agg@),
                    f.series_id@ == item.0,
                    ai <= na,
                    idx <= na,
                    idx == na ==> forall|j: int|
                        0 <= j < ai ==> (#[trigger] agg@[j]).0@ != item.0,
                    idx < na ==> agg@[idx as int].0@ == item.0,
                decreases na - ai,
            {
                if idx == na && agg[ai].0 == f.series_id {
                    idx = ai;
                }
                ai += 1;
            }
            if idx == na {
                // first row of a new series in this batch: a transient
                // column of the row's own kind takes it without fail
                let sid = f.series_id.clone();
                let mut ent = Entry::new(f.value.value_type());
                let pr = ent.push(row);
                proof {
                    assert(pr == Ok::<(), TypeMismatchError>(()));
                }
                agg.push((sid, ent));
                proof {
                    assert(!has_series(cur, item.0)) by {
                        assert forall|j: int| 0 <= j < cur.len() implies (
                        #[trigger] cur[j]).0 != item.0 by {
                            assert(cur[j] == (agg0[j].0@, agg0[j].1@));
                        }
                    }
                    assert(ent@.rows =~= seq![item.1]);
                    assert(kv_view(agg@) =~= cur.push(
                        (item.0, EntryView { value_type: item.1.value.kind(), rows: seq![item.1] }),
                    ));
                    assert(agg_insert(cur, item.0, item.1) == Ok::<
                        Seq<(Seq<char>, EntryView)>,
                        TypeMismatchError,
                    >(kv_view(agg@)));
                    assert forall|a: int, b: int| 0 <= a < b < agg@.len() implies (
                    #[trigger] agg@[a]).0@ != (#[trigger] agg@[b]).0@ by {
                        if b < agg0.len() {
                            assert(agg@[a] == agg0[a] && agg@[b] == agg0[b]);
                        } else {
                            assert(agg@[a] == agg0[a]);
                        }
                    }
                }
            } else {
                let removed = agg.remove(idx);
                let sid = removed.0;
                let mut ent = removed.1;
                let pr = ent.push(row);
                agg.insert(idx, (sid, ent));
                proof {
                    assert(has_series(cur, item.0)) by {
                        assert(cur[idx as int] == (agg0[idx as int].0@, agg0[idx as int].1@));
                        assert(cur[idx as int].0 == item.0);
                    }
                    let si = series_index(cur, item.0);
                    assert(0 <= si < cur.len() && cur[si].0 == item.0);
                    if si != idx {
                        assert(cur[si] == (agg0[si].0@, agg0[si].1@));
                        assert(agg0[si].0@ == agg0[idx as int].0@);
                        assert(false);
                    }
                    assert(kv_view(agg@) =~= cur.update(
                        idx as int,
                        (item.0, agg@[idx as int].1@),
                    ));
                }
                if let Err(e) = pr {
                    proof {
                        assert(agg_insert(cur, item.0, item.1) == Err::<
                            Seq<(Seq<char>, EntryView)>,
                            TypeMismatchError,
                        >(e));
                        assert(point_rows(pv).take(fi as int + 1).drop_last() =~= point_rows(
                            pv,
                        ).take(fi as int));
                        assert(point_rows(pv).take(fi as int + 1).last() == item);
                        assert(agg_rows(acc0, point_rows(pv).take(fi as int + 1)) == Err::<
                            Seq<(Seq<char>, EntryView)>,
                            TypeMismatchError,
                        >(e));
                        lemma_agg_rows_err_stable(acc0, point_rows(pv), fi as int + 1, e);
                        assert(pts.take(pi as int + 1).drop_last() =~= pts.take(pi as int));
                        assert(pts.take(pi as int + 1).last() == pv);
                        assert(agg_batch(pts.take(pi as int + 1)) == Err::<
                            Seq<(Seq<char>, EntryView)>,
                            TypeMismatchError,
                        >(e));
                        lemma_agg_batch_err_stable(pts, pi as int + 1, e);
                    }
                    return Err(e);
                }
                proof {
                    assert(agg_insert(cur, item.0, item.1) == Ok::<
                        Seq<(Seq<char>, EntryView)>,
                        TypeMismatchError,
                    >(kv_view(agg@)));
                    assert forall|a: int, b: int| 0 <= a < b < agg@.len() implies (
                    #[trigger] agg@[a]).0@ != (#[trigger] agg@[b]).0@ by {
                        assert(agg@[a].0@ == agg0[a].0@);
                        assert(agg@[b].0@ == agg0[b].0@);
                    }
                }
            }
            proof {
                assert(point_rows(pv).take(fi as int + 1).drop_last() =~= point_rows(pv).take(
                    fi as int,
                ));
                assert(point_rows(pv).take(fi as int + 1).last() == item);
                assert(agg_rows(acc0, point_rows(pv).take(fi as int + 1)) == Ok::<
                    Seq<(Seq<char>, EntryView)>,
                    TypeMismatchError,
                >(kv_view(agg@)));
            }
            fi += 1;
        }
        proof {
            assert(point_rows(pv).take(nf as int) =~= point_rows(pv));
            assert(pts.take(pi as int + 1).drop_last() =~= pts.take(pi as int));
            assert(pts.take(pi as int + 1).last() == pv);
            assert(agg_batch(pts.take(pi as int + 1)) == Ok::<
                Seq<(Seq<char>, EntryView)>,
                TypeMismatchError,
            >(kv_view(agg@)));
        }
        pi += 1;
    }
    proof {
        assert(pts.take(np as int) =~= pts);
    }
    Ok(agg)
}

/// Merges a transient column into the stored column of its series, under
/// the stored column's own exclusive lock. The two declared kinds must
/// agree, else the stored column is left as it was and the mismatch names
/// the caller's kind.
fn append_into(shared: &SharedEntry, entry: &mut Entry) -> (res: Result<(), TypeMismatchError>)
    requires
        old(entry)@.wf(),
    ensures
        res matches Err(e) ==> e.got == old(entry)@.value_type && e.expect != e.got
            && *final(entry) == *old(entry),
        res is Ok ==> final(entry)@.value_type == old(entry)@.value_type
            && final(entry)@.rows == Seq::<RowView>::empty(),
{
    let (mut stored, handle) = shared.acquire_write();
    let r = stored.append(entry);
    handle.release_write(stored);
    r
}

impl Cache {
    /// Writes a whole batch: decomposes it into one transient column per
    /// series, then merges each into the series' stored column, creating
    /// the column when the series is new — also when another writer's
    /// insertion races ahead, in which case the rows are appended to the
    /// winner's column, never dropped. Rows of one call for one series
    /// keep their order. A kind mismatch inside the batch refuses the
    /// whole batch with the batch's first mismatch; a mismatch against a
    /// stored column stops the merge at that series, and series merged
    /// before it stay merged. A batch that yields no series — empty, or
    /// all its points fieldless — is owed success: nothing outside the
    /// call's own inputs can refuse it.
    pub fn write_points(&self, points: &Vec<Point>) -> (res: Result<(), TypeMismatchError>)
        requires
            self.wf(),
        ensures
            agg_batch(views_of(points@)) matches Err(e) ==> res == Err::<
                (),
                TypeMismatchError,
            >(e),
            res is Ok ==> agg_batch(views_of(points@)) is Ok,
            agg_batch(views_of(points@)) matches Ok(acc) && acc.len() == 0 ==> res is Ok,
            res matches Err(e) ==> e.expect != e.got,
    {
        proof {
            lemma_agg_batch_err_distinct(views_of(points@));
        }
        let mut series = match build_batch(points) {
            Ok(s) => s,
            Err(e) => {
                return Err(e);
            },
        };
        let ghost total = series@.len();
        while series.len() > 0
            invariant
                self.wf(),
                agg_batch(views_of(points@)) is Ok,
                agg_batch(views_of(points@)) matches Ok(acc) ==> acc.len() == total,
                series@.len() <= total,
                forall|i: int| 0 <= i < series@.len() ==> (#[trigger] series@[i]).1@.wf(),
            decreases series@.len(),
        {
            let ghost series0 = series@;
            let removed = series.remove(0);
            let id = removed.0;
            let mut entry = removed.1;
            proof {
                assert(entry@.wf());
                assert forall|i: int| 0 <= i < series@.len() implies (
                #[trigger] series@[i]).1@.wf() by {
                    assert(series@[i] == series0[i + 1]);
                }
            }
            let off = self.get_partition_offset(&id);
            let part = &(*self.store)[off];
            match part.get(&id) {
                Some(shared) => {
                    match append_into(&shared, &mut entry) {
                        Ok(()) => {},
                        Err(e) => {
                            return Err(e);
                        },
                    }
                },
                None => {
                    match part.insert_or_get(id, entry) {
                        None => {},
                        Some(present) => {
                            let shared = present.0;
                            let mut back = present.1;
                            match append_into(&shared, &mut back) {
                                Ok(()) => {},
                                Err(e) => {
                                    return Err(e);
                                },
                            }
                        },
                    }
                },
            }
        }
        Ok(())
    }
}

/// Whether the transient series map holds each identifier at most once.
pub open spec fn unique_keys(acc: Seq<(Seq<char>, EntryView)>) -> bool {
    forall|i: int, j: int|
        0 <= i < j < acc.len() ==> (#[trigger] acc[i]).0 != (#[trigger] acc[j]).0
}

/// The rows the transient map holds for one identifier; nothing for an
/// identifier it has not seen.
pub open spec fn series_rows(acc: Seq<(Seq<char>, EntryView)>, id: Seq<char>) -> Seq<RowView> {
    if has_series(acc, id) {
        acc[series_index(acc, id)].1.rows
    } else {
        Seq::empty()
    }
}

/// The rows a run of items carries for one identifier, in item order.
pub open spec fn rows_for(items: Seq<(Seq<char>, RowView)>, id: Seq<char>) -> Seq<RowView> {
    items.filter(|it: (Seq<char>, RowView)| it.0 == id).map_values(
        |it: (Seq<char>, RowView)| it.1,
    )
}

/// The rows a batch carries for one identifier, point by point, in batch
/// order.
pub open spec fn batch_series_rows(points: Seq<PointView>, id: Seq<char>) -> Seq<RowView>
    decreases points.len(),
{
    if points.len() == 0 {
        Seq::empty()
    } else {
        batch_series_rows(points.drop_last(), id) + rows_for(point_rows(points.last()), id)
    }
}

/// One aggregation step, seen per series: the item's own series gains the
/// item's row at its end, every other series is untouched, and no series
/// identifier is duplicated.
proof fn lemma_agg_insert_step(
    acc: Seq<(Seq<char>, EntryView)>,
    id0: Seq<char>,
    r: RowView,
    id: Seq<char>,
)
    requires
        unique_keys(acc),
        agg_insert(acc, id0, r) is Ok,
    ensures
        unique_keys(agg_insert(acc, id0, r)->Ok_0),
        id == id0 ==> series_rows(agg_insert(acc, id0, r)->Ok_0, id) == series_rows(
            acc,
            id,
        ).push(r),
        id != id0 ==> series_rows(agg_insert(acc, id0, r)->Ok_0, id) == series_rows(acc, id),
{
    let out = agg_insert(acc, id0, r)->Ok_0;
    if has_series(acc, id0) {
        let si = series_index(acc, id0);
        assert(0 <= si < acc.len() && acc[si].0 == id0);
        assert(out =~= acc.update(si, (id0, EntryView {
            value_type: acc[si].1.value_type,
            rows: acc[si].1.rows.push(r),
        })));
        assert forall|i: int, j: int| 0 <= i < j < out.len() implies (#[trigger] out[i]).0 != (
        #[trigger] out[j]).0 by {
            assert(out[i].0 == acc[i].0 && out[j].0 == acc[j].0);
        }
        if id == id0 {
            assert(has_series(out, id)) by {
                assert(out[si].0 == id);
            }
            let j = series_index(out, id);
            assert(0 <= j < out.len() && out[j].0 == id);
            assert(j == si) by {
                if j != si {
                    assert(out[j].0 == acc[j].0);
                    assert(acc[j].0 == acc[si].0);
                }
            }
            assert(series_rows(out, id) == acc[si].1.rows.push(r));
            assert(series_index(acc, id) == si) by {
                let j2 = series_index(acc, id);
                assert(0 <= j2 < acc.len() && acc[j2].0 == id);
                if j2 != si {
                    assert(acc[j2].0 == acc[si].0);
                }
            }
        } else {
            if has_series(acc, id) {
                let j1 = series_index(acc, id);
                assert(0 <= j1 < acc.len() && acc[j1].0 == id);
                assert(j1 != si);
                assert(out[j1].0 == id);
                assert(has_series(out, id));
                let j2 = series_index(out, id);
                assert(0 <= j2 < out.len() && out[j2].0 == id);
                assert(out[j2].0 == acc[j2].0);
                assert(j2 == j1) by {
                    if j2 != j1 {
                        assert(acc[j2].0 == acc[j1].0);
                    }
                }
                assert(out[j1] == acc[j1]);
            } else {
                assert(!has_series(out, id)) by {
                    if has_series(out, id) {
                        let j2 = series_index(out, id);
                        assert(out[j2].0 == acc[j2].0);
                        assert(has_series(acc, id));
                    }
                }
            }
        }
    } else {
        assert(out =~= acc.push((id0, EntryView { value_type: r.value.kind(), rows: seq![r] })));
        assert forall|i: int| 0 <= i < acc.len() implies (#[trigger] acc[i]).0 != id0 by {
            if acc[i].0 == id0 {
                assert(has_series(acc, id0));
            }
        }
        assert forall|i: int, j: int| 0 <= i < j < out.len() implies (#[trigger] out[i]).0 != (
        #[trigger] out[j]).0 by {
            if j < acc.len() {
                assert(out[i] == acc[i] && out[j] == acc[j]);
            } else {
                assert(out[i] == acc[i]);
            }
        }
        if id == id0 {
            assert(has_series(out, id)) by {
                assert(out[acc.len() as int].0 == id);
            }
            let j = series_index(out, id);
            assert(0 <= j < out.len() && out[j].0 == id);
            assert(j == acc.len()) by {
                if j < acc.len() {
                    assert(out[j] == acc[j]);
                    assert(has_series(acc, id));
                }
            }
            assert(!has_series(acc, id));
            assert(series_rows(out, id) =~= series_rows(acc, id).push(r));
        } else {
            if has_series(acc, id) {
                let j1 = series_index(acc, id);
                assert(0 <= j1 < acc.len() && acc[j1].0 == id);
                assert(out[j1].0 == id);
                assert(has_series(out, id));
                let j2 = series_index(out, id);
                assert(0 <= j2 < out.len() && out[j2].0 == id);
                assert(j2 < acc.len()) by {
                    if j2 == acc.len() {
                        assert(out[j2].0 == id0);
                    }
                }
                assert(out[j2] == acc[j2]);
                assert(j2 == j1) by {
                    if j2 != j1 {
                        assert(acc[j2].0 == acc[j1].0);
                    }
                }
            } else {
                assert(!has_series(out, id)) by {
                    if has_series(out, id) {
                        let j2 = series_index(out, id);
                        if j2 < acc.len() {
                            assert(out[j2] == acc[j2]);
                            assert(has_series(acc, id));
                        } else {
                            assert(out[j2].0 == id0);
                        }
                    }
                }
            }
        }
    }
}

/// A whole run of items, seen per series: each series ends with what it
/// began with plus exactly the run's rows for it, in run order.
proof fn lemma_agg_rows_complete(
    acc: Seq<(Seq<char>, EntryView)>,
    items: Seq<(Seq<char>, RowView)>,
    id: Seq<char>,
)
    requires
        unique_keys(acc),
        agg_rows(acc, items) is Ok,
    ensures
        unique_keys(agg_rows(acc, items)->Ok_0),
        series_rows(agg_rows(acc, items)->Ok_0, id) == series_rows(acc, id) + rows_for(
            items,
            id,
        ),
    decreases items.len(),
{
    let pred = |it: (Seq<char>, RowView)| it.0 == id;
    let f = |it: (Seq<char>, RowView)| it.1;
    reveal(Seq::filter);
    if items.len() == 0 {
        assert(rows_for(items, id) =~= Seq::<RowView>::empty());
        assert(series_rows(acc, id) + rows_for(items, id) =~= series_rows(acc, id));
    } else {
        let init = items.drop_last();
        let last = items.last();
        lemma_agg_rows_complete(acc, init, id);
        let mid = agg_rows(acc, init)->Ok_0;
        lemma_agg_insert_step(mid, last.0, last.1, id);
        if pred(last) {
            assert(items.filter(pred) == init.filter(pred).push(last));
            assert(rows_for(items, id) =~= rows_for(init, id).push(last.1));
            assert(series_rows(agg_rows(acc, items)->Ok_0, id) =~= series_rows(acc, id)
                + rows_for(items, id));
        } else {
            assert(items.filter(pred) == init.filter(pred));
            assert(rows_for(items, id) =~= rows_for(init, id));
        }
    }
}

/// What the local pass owes every series of a batch: when it succeeds, the
/// rows grouped under a series identifier are exactly the batch's rows for
/// that identifier, in batch order — none lost, none reordered, and one
/// transient column per identifier.
pub proof fn lemma_agg_batch_complete(points: Seq<PointView>, id: Seq<char>)
    requires
        agg_batch(points) is Ok,
    ensures
        unique_keys(agg_batch(points)->Ok_0),
        series_rows(agg_batch(points)->Ok_0, id) == batch_series_rows(points, id),
    decreases points.len(),
{
    if points.len() == 0 {
        assert(agg_batch(points)->Ok_0 =~= Seq::<(Seq<char>, EntryView)>::empty());
        assert(!has_series(agg_batch(points)->Ok_0, id));
    } else {
        let init = points.drop_last();
        lemma_agg_batch_complete(init, id);
        let mid = agg_batch(init)->Ok_0;
        lemma_agg_rows_complete(mid, point_rows(points.last()), id);
    }
}

} // verus!
