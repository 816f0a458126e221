use vstd::prelude::*;

use crate::record::{row_of, Buffer, BufferView, LawRow, LawRowView};

verus! {

/// One chapter of the statute, waiting to be annotated.
#[derive(Debug)]
pub struct ChapterUnit {
    pub id: i32,
    pub text: String,
}

/// What a `ChapterUnit` holds.
pub struct UnitView {
    pub id: i32,
    pub text: Seq<char>,
}

impl View for ChapterUnit {
    type V = UnitView;

    open spec fn view(&self) -> UnitView {
        UnitView { id: self.id, text: self.text@ }
    }
}

/// What a work queue holds: the pending units, the ids of the completed ones, and the
/// rows of the law store.
pub struct QueueView {
    pub pending: Seq<UnitView>,
    pub completed: Seq<i32>,
    pub laws: Seq<LawRowView>,
}

/// Ids that rise strictly.
pub open spec fn ascending(p: Seq<UnitView>) -> bool {
    forall|i: int, j: int| 0 <= i < j < p.len() ==> p[i].id < p[j].id
}

/// Ids that occur once each.
pub open spec fn distinct_ids(c: Seq<i32>) -> bool {
    forall|i: int, j: int| 0 <= i < j < c.len() ==> c[i] != c[j]
}

/// Whether `id` is among the pending units.
pub open spec fn is_pending(q: QueueView, id: i32) -> bool {
    exists|i: int| 0 <= i < q.pending.len() && q.pending[i].id == id
}

/// Whether `id` is among the completed units.
pub open spec fn is_completed(q: QueueView, id: i32) -> bool {
    q.completed.contains(id)
}

/// Whether no pending unit is also completed.
pub open spec fn disjoint(p: Seq<UnitView>, c: Seq<i32>) -> bool {
    forall|i: int, j: int| 0 <= i < p.len() && 0 <= j < c.len() ==> p[i].id != c[j]
}

/// Whether the rows have distinct penal codes.
pub open spec fn distinct_keys(rows: Seq<LawRowView>) -> bool {
    forall|i: int, j: int| 0 <= i < j < rows.len() ==> rows[i].penal_code != rows[j].penal_code
}

/// Whether `rows` can join `laws` with every penal code still unique.
pub open spec fn keys_fresh(laws: Seq<LawRowView>, rows: Seq<LawRowView>) -> bool {
    &&& distinct_keys(rows)
    &&& forall|i: int, k: int|
        0 <= i < rows.len() && 0 <= k < laws.len() ==> rows[i].penal_code != laws[k].penal_code
}

/// The queue's invariant: pending units in ascending id order, each unit either pending
/// or completed, and penal codes unique in the law store.
pub open spec fn wf(q: QueueView) -> bool {
    &&& ascending(q.pending)
    &&& distinct_ids(q.completed)
    &&& disjoint(q.pending, q.completed)
    &&& distinct_keys(q.laws)
}

/// Whether the queue has never been filled.
pub open spec fn is_fresh(q: QueueView) -> bool {
    q.pending.len() == 0 && q.completed.len() == 0
}

/// The pending units that bootstrap makes of `chapters`: ids 1, 2, ... in order.
pub open spec fn numbered(chapters: Seq<Seq<char>>) -> Seq<UnitView> {
    Seq::new(chapters.len(), |i: int| UnitView { id: (i + 1) as i32, text: chapters[i] })
}

/// The queue after bootstrap with `chapters`: filled only where it was never filled.
pub open spec fn bootstrapped(q: QueueView, chapters: Seq<Seq<char>>) -> QueueView {
    if is_fresh(q) {
        QueueView { pending: numbered(chapters), ..q }
    } else {
        q
    }
}

/// Why a commit was refused.
#[derive(Debug, PartialEq, Eq, Structural, Clone, Copy)]
pub enum CommitError {
    /// The unit is not the lowest pending one.
    NotNext,
    /// A row's penal code is already stored, or occurs twice among the rows.
    DuplicateKey,
}

/// Why stored queue contents were refused.
#[derive(Debug, PartialEq, Eq, Structural, Clone, Copy)]
pub enum QueueError {
    /// The pending ids do not rise strictly.
    Unordered,
    /// A completed id occurs twice.
    RepeatedCompleted,
    /// An id is both pending and completed.
    BothStates,
    /// A penal code occurs twice in the law store.
    RepeatedKey,
}

/// The queue after committing `rows` for unit `id`, or why nothing changed.
pub open spec fn committed(q: QueueView, id: i32, rows: Seq<LawRowView>) -> Result<
    QueueView,
    CommitError,
> {
    if q.pending.len() == 0 || q.pending[0].id != id {
        Err(CommitError::NotNext)
    } else if !keys_fresh(q.laws, rows) {
        Err(CommitError::DuplicateKey)
    } else {
        Ok(
            QueueView {
                pending: q.pending.drop_first(),
                completed: q.completed.push(id),
                laws: q.laws + rows,
            },
        )
    }
}

pub open spec fn rows_view(rows: Seq<LawRow>) -> Seq<LawRowView> {
    rows.map_values(|r: LawRow| r@)
}

/// The durable record of which chapter units remain and which are done, with the law
/// store that commits fill.
pub struct WorkQueue {
    pending: Vec<ChapterUnit>,
    completed: Vec<i32>,
    laws: Vec<LawRow>,
}

impl View for WorkQueue {
    type V = QueueView;

    closed spec fn view(&self) -> QueueView {
        QueueView {
            pending: self.pending@.map_values(|u: ChapterUnit| u@),
            completed: self.completed@,
            laws: rows_view(self.laws@),
        }
    }
}

/// Whether each key of `rows` is fresh against `laws` and the rows before it.
fn check_keys(laws: &Vec<LawRow>, rows: &Vec<LawRow>) -> (r: bool)
    ensures
        r == keys_fresh(rows_view(laws@), rows_view(rows@)),
{
    let ghost lv = rows_view(laws@);
    let ghost rv = rows_view(rows@);
    let mut i: usize = 0;
    while i < rows.len()
        invariant
            i <= rows@.len(),
            lv == rows_view(laws@),
            rv == rows_view(rows@),
            forall|a: int, b: int| 0 <= a < b < i ==> rv[a].penal_code != rv[b].penal_code,
            forall|a: int, k: int|
                0 <= a < i && 0 <= k < lv.len() ==> rv[a].penal_code != lv[k].penal_code,
        decreases rows@.len() - i,
    {
        let mut k: usize = 0;
        while k < laws.len()
            invariant
                i < rows@.len(),
                k <= laws@.len(),
                lv == rows_view(laws@),
                rv == rows_view(rows@),
                forall|m: int| 0 <= m < k ==> rv[i as int].penal_code != lv[m].penal_code,
            decreases laws@.len() - k,
        {
            if rows[i].penal_code == laws[k].penal_code {
                assert(rv[i as int].penal_code == rows@[i as int].penal_code@);
                assert(lv[k as int].penal_code == laws@[k as int].penal_code@);
                return false;
            }
            k = k + 1;
        }
        let mut j: usize = 0;
        while j < i
            invariant
                i < rows@.len(),
                j <= i,
                rv == rows_view(rows@),
                forall|m: int| 0 <= m < j ==> rv[m].penal_code != rv[i as int].penal_code,
            decreases i - j,
        {
            if rows[j].penal_code == rows[i].penal_code {
                assert(rv[i as int].penal_code == rows@[i as int].penal_code@);
                assert(rv[j as int].penal_code == rows@[j as int].penal_code@);
                return false;
            }
            j = j + 1;
        }
        i = i + 1;
    }
    true
}

impl WorkQueue {
    /// An empty queue.
    pub fn new() -> (r: WorkQueue)
        ensures
            r@ == (QueueView { pending: Seq::empty(), completed: Seq::empty(), laws: Seq::empty() }),
            wf(r@),
    {
        let r = WorkQueue { pending: Vec::new(), completed: Vec::new(), laws: Vec::new() };
        assert(r@.pending =~= Seq::<UnitView>::empty());
        assert(r@.laws =~= Seq::<LawRowView>::empty());
        r
    }

    /// A queue with stored contents: the pending units, the completed ids and the rows
    /// of the law store. Refused where the contents break the queue's invariant. The
    /// pending order is checked first, then each completed id in turn, against the
    /// completed ids before it and then against the pending ids, and the law store last;
    /// the first failure names the error.
    pub fn restore(pending: Vec<ChapterUnit>, completed: Vec<i32>, laws: Vec<LawRow>) -> (r: Result<
        WorkQueue,
        QueueError,
    >)
        ensures
            r is Ok <==> wf(
                QueueView {
                    pending: pending@.map_values(|u: ChapterUnit| u@),
                    completed: completed@,
                    laws: rows_view(laws@),
                },
            ),
            r matches Ok(q) ==> q@ == (QueueView {
                pending: pending@.map_values(|u: ChapterUnit| u@),
                completed: completed@,
                laws: rows_view(laws@),
            }),
            r matches Err(e) ==> (e == QueueError::Unordered) == !ascending(
                pending@.map_values(|u: ChapterUnit| u@),
            ),
            r matches Err(e) ==> (e == QueueError::RepeatedCompleted ==> !distinct_ids(completed@)),
            r matches Err(e) ==> (e == QueueError::BothStates ==> !disjoint(
                pending@.map_values(|u: ChapterUnit| u@),
                completed@,
            )),
            r matches Err(e) ==> (e == QueueError::RepeatedKey <==> (ascending(
                pending@.map_values(|u: ChapterUnit| u@),
            ) && distinct_ids(completed@) && disjoint(
                pending@.map_values(|u: ChapterUnit| u@),
                completed@,
            ) && !distinct_keys(rows_view(laws@)))),
    {
        let ghost pv = pending@.map_values(|u: ChapterUnit| u@);
        let mut i: usize = 1;
        while i < pending.len()
            invariant
                pv == pending@.map_values(|u: ChapterUnit| u@),
                1 <= i,
                forall|a: int, b: int| 0 <= a < b < i && b < pv.len() ==> pv[a].id < pv[b].id,
            decreases pending@.len() - i,
        {
            if pending[i - 1].id >= pending[i].id {
                assert(pv[i - 1].id >= pv[i as int].id);
                return Err(QueueError::Unordered);
            }
            assert forall|a: int, b: int| 0 <= a < b < i + 1 && b < pv.len() implies pv[a].id
                < pv[b].id by {
                if b == i && a < i - 1 {
                    assert(pv[a].id < pv[i - 1].id);
                }
            }
            i = i + 1;
        }
        let mut c: usize = 0;
        while c < completed.len()
            invariant
                pv == pending@.map_values(|u: ChapterUnit| u@),
                ascending(pv),
                c <= completed@.len(),
                forall|a: int, b: int| 0 <= a < b < c ==> completed@[a] != completed@[b],
                forall|a: int, b: int| 0 <= a < pv.len() && 0 <= b < c ==> pv[a].id != completed@[b],
            decreases completed@.len() - c,
        {
            let mut d: usize = 0;
            while d < c
                invariant
                    c < completed@.len(),
                    d <= c,
                    pv == pending@.map_values(|u: ChapterUnit| u@),
                    ascending(pv),
                    forall|a: int| 0 <= a < d ==> completed@[a] != completed@[c as int],
                decreases c - d,
            {
                if completed[d] == completed[c] {
                    assert(completed@[d as int] == completed@[c as int]);
                    return Err(QueueError::RepeatedCompleted);
                }
                d = d + 1;
            }
            let mut p: usize = 0;
            while p < pending.len()
                invariant
                    c < completed@.len(),
                    p <= pending@.len(),
                    pv == pending@.map_values(|u: ChapterUnit| u@),
                    ascending(pv),
                    forall|a: int| 0 <= a < p ==> pv[a].id != completed@[c as int],
                decreases pending@.len() - p,
            {
                if pending[p].id == completed[c] {
                    assert(pv[p as int].id == completed@[c as int]);
                    return Err(QueueError::BothStates);
                }
                p = p + 1;
            }
            c = c + 1;
        }
        let none: Vec<LawRow> = Vec::new();
        if !check_keys(&none, &laws) {
            return Err(QueueError::RepeatedKey);
        }
        Ok(WorkQueue { pending, completed, laws })
    }

    /// Whether bootstrap would fill the queue: it has never been filled.
    pub fn needs_bootstrap(&self) -> (r: bool)
        ensures
            r == is_fresh(self@),
    {
        self.pending.len() == 0 && self.completed.len() == 0
    }

    /// Fills a queue that was never filled with `chapters` as pending units 1, 2, ...;
    /// any other queue is left as it is. Tells whether it filled.
    pub fn bootstrap(&mut self, chapters: Vec<String>) -> (r: bool)
        requires
            wf(old(self)@),
            chapters@.len() < i32::MAX,
        ensures
            r == is_fresh(old(self)@),
            final(self)@ == bootstrapped(old(self)@, chapters.deep_view()),
            wf(final(self)@),
    {
        if !self.needs_bootstrap() {
            return false;
        }
        let ghost cs = chapters.deep_view();
        let n = chapters.len();
        let mut units: Vec<ChapterUnit> = Vec::new();
        let mut rest = chapters;
        let mut taken: Vec<String> = Vec::new();
        let mut i: usize = 0;
        proof {
            assert(rest.deep_view() =~= cs);
        }
        while rest.len() > 0
            invariant
                n == cs.len(),
                n < i32::MAX,
                i + rest@.len() == n,
                rest.deep_view() == cs.subrange(i as int, n as int),
                units@.map_values(|u: ChapterUnit| u@) == numbered(cs).subrange(0, i as int),
            decreases rest@.len(),
        {
            let ghost old_rest = rest.deep_view();
            let ghost old_vec = rest@;
            assert(old_rest[0] == rest@[0]@);
            let text = rest.remove(0);
            proof {
                assert(old_rest[0] == cs[i as int]);
                assert(rest@ == old_vec.remove(0));
                assert forall|k: int| 0 <= k < rest@.len() implies rest.deep_view()[k]
                    == old_rest[k + 1] by {
                    assert(rest@[k] == old_vec[k + 1]);
                }
                assert(rest.deep_view() =~= old_rest.drop_first());
                assert(text@ == cs[i as int]);
                assert(rest.deep_view() =~= cs.subrange(i + 1, n as int));
            }
            let ghost before = units@.map_values(|u: ChapterUnit| u@);
            units.push(ChapterUnit { id: (i + 1) as i32, text });
            proof {
                assert(units@.map_values(|u: ChapterUnit| u@) =~= before.push(numbered(cs)[i as int]));
                assert(numbered(cs).subrange(0, i + 1) =~= numbered(cs).subrange(0, i as int).push(
                    numbered(cs)[i as int],
                ));
            }
            i = i + 1;
        }
        assert(numbered(cs).subrange(0, n as int) =~= numbered(cs));
        self.pending = units;
        true
    }

    /// The lowest pending unit, which is the one to annotate next.
    pub fn next_unit(&self) -> (r: Option<&ChapterUnit>)
        requires
            wf(self@),
        ensures
            r is None <==> self@.pending.len() == 0,
            r matches Some(u) ==> u@ == self@.pending[0] && is_pending(self@, u.id) && forall|
                i: int,
            |
                0 <= i < self@.pending.len() ==> u.id <= #[trigger] self@.pending[i].id,
    {
        if self.pending.len() == 0 {
            None
        } else {
            let u = &self.pending[0];
            assert(self@.pending[0] == u@);
            Some(u)
        }
    }

    /// The pending units, in ascending id order.
    pub fn list_pending(&self) -> (r: &Vec<ChapterUnit>)
        ensures
            r@.map_values(|u: ChapterUnit| u@) == self@.pending,
    {
        &self.pending
    }

    /// The ids of the completed units.
    pub fn completed(&self) -> (r: &Vec<i32>)
        ensures
            r@ == self@.completed,
    {
        &self.completed
    }

    /// The rows of the law store.
    pub fn laws(&self) -> (r: &Vec<LawRow>)
        ensures
            rows_view(r@) == self@.laws,
    {
        &self.laws
    }

    /// Commits the rows of unit `id` all at once: the rows join the law store and the
    /// unit moves from pending to completed. Refused, with nothing changed, where `id` is
    /// not the lowest pending unit or a penal code would repeat.
    pub fn commit(&mut self, id: i32, rows: Vec<LawRow>) -> (r: Result<(), CommitError>)
        requires
            wf(old(self)@),
        ensures
            wf(final(self)@),
            r is Err ==> final(self)@ == old(self)@,
            match committed(old(self)@, id, rows_view(rows@)) {
                Ok(q) => r is Ok && final(self)@ == q,
                Err(e) => r == Err::<(), CommitError>(e),
            },
    {
        if self.pending.len() == 0 || self.pending[0].id != id {
            return Err(CommitError::NotNext);
        }
        if !check_keys(&self.laws, &rows) {
            return Err(CommitError::DuplicateKey);
        }
        let ghost old_view = self@;
        let mut rows = rows;
        let ghost rv = rows_view(rows@);
        self.laws.append(&mut rows);
        let _unit = self.pending.remove(0);
        self.completed.push(id);
        proof {
            assert(self@.pending =~= old_view.pending.drop_first());
            assert(self@.laws =~= old_view.laws + rv);
            assert(self@.completed =~= old_view.completed.push(id));
            let q = self@;
            assert forall|a: int, b: int| 0 <= a < b < q.laws.len() implies q.laws[a].penal_code
                != q.laws[b].penal_code by {
                if b >= old_view.laws.len() && a < old_view.laws.len() {
                    assert(q.laws[b] == rv[b - old_view.laws.len()]);
                }
            }
            assert forall|a: int, b: int| 0 <= a < b < q.completed.len() implies q.completed[a]
                != q.completed[b] by {
                if b == q.completed.len() - 1 {
                    assert(old_view.pending[0].id == id);
                }
            }
            assert forall|a: int, b: int|
                0 <= a < q.pending.len() && 0 <= b < q.completed.len() implies q.pending[a].id
                != q.completed[b] by {
                assert(q.pending[a] == old_view.pending[a + 1]);
                if b == q.completed.len() - 1 {
                    assert(old_view.pending[0].id < old_view.pending[a + 1].id);
                }
            }
        }
        Ok(())
    }
}

/// Every unit the queue knows is in exactly one of the two states, pending or completed.
pub proof fn lemma_one_state(q: QueueView, id: i32)
    requires
        wf(q),
        is_pending(q, id) || is_completed(q, id),
    ensures
        is_pending(q, id) != is_completed(q, id),
{
    if is_pending(q, id) && is_completed(q, id) {
        let i = choose|i: int| 0 <= i < q.pending.len() && q.pending[i].id == id;
        let j = choose|j: int| 0 <= j < q.completed.len() && q.completed[j] == id;
        assert(q.pending[i].id != q.completed[j]);
    }
}

/// A successful commit keeps every other unit in the state it was in, and moves the
/// committed one from pending to completed.
pub proof fn lemma_commit_moves_one(q: QueueView, id: i32, rows: Seq<LawRowView>, other: i32)
    requires
        wf(q),
        committed(q, id, rows) is Ok,
    ensures
        is_completed(committed(q, id, rows)->Ok_0, id),
        !is_pending(committed(q, id, rows)->Ok_0, id),
        other != id ==> (is_pending(committed(q, id, rows)->Ok_0, other) == is_pending(q, other)),
        other != id ==> (is_completed(committed(q, id, rows)->Ok_0, other) == is_completed(
            q,
            other,
        )),
{
    let n = committed(q, id, rows)->Ok_0;
    assert(n.completed[n.completed.len() - 1] == id);
    if is_pending(n, id) {
        let i = choose|i: int| 0 <= i < n.pending.len() && n.pending[i].id == id;
        assert(q.pending[i + 1].id == id);
        assert(q.pending[0].id < q.pending[i + 1].id);
    }
    if other != id {
        if is_pending(q, other) {
            let i = choose|i: int| 0 <= i < q.pending.len() && q.pending[i].id == other;
            assert(i > 0);
            assert(n.pending[i - 1].id == other);
        }
        if is_pending(n, other) {
            let i = choose|i: int| 0 <= i < n.pending.len() && n.pending[i].id == other;
            assert(q.pending[i + 1].id == other);
        }
        if is_completed(n, other) {
            let j = choose|j: int| 0 <= j < n.completed.len() && n.completed[j] == other;
            assert(j < q.completed.len());
            assert(q.completed[j] == other);
        }
        if is_completed(q, other) {
            let j = choose|j: int| 0 <= j < q.completed.len() && q.completed[j] == other;
            assert(n.completed[j] == other);
        }
    }
}

/// Bootstrap on a filled queue changes nothing, so bootstrapping twice is bootstrapping
/// once, as long as the first run had something to fill with.
pub proof fn lemma_bootstrap_idempotent(q: QueueView, first: Seq<Seq<char>>, second: Seq<Seq<char>>)
    ensures
        !is_fresh(q) ==> bootstrapped(q, second) == q,
        (!is_fresh(q) || first.len() > 0) ==> bootstrapped(bootstrapped(q, first), second)
            == bootstrapped(q, first),
{
}

/// Units are committed in ascending id order: after a commit, every unit still pending
/// has a higher id than the one just committed.
pub proof fn lemma_commit_ascending(q: QueueView, id: i32, rows: Seq<LawRowView>)
    requires
        wf(q),
        committed(q, id, rows) is Ok,
    ensures
        forall|i: int|
            0 <= i < committed(q, id, rows)->Ok_0.pending.len() ==> id < #[trigger] committed(
                q,
                id,
                rows,
            )->Ok_0.pending[i].id,
{
    let n = committed(q, id, rows)->Ok_0;
    assert forall|i: int| 0 <= i < n.pending.len() implies id < #[trigger] n.pending[i].id by {
        assert(n.pending[i] == q.pending[i + 1]);
    }
}

/// A queue whose work is all done stays as it is: bootstrap fills nothing, and there is
/// no unit to commit.
pub proof fn lemma_drained_queue_idle(q: QueueView, chapters: Seq<Seq<char>>, id: i32, rows: Seq<LawRowView>)
    requires
        q.pending.len() == 0,
        q.completed.len() > 0,
    ensures
        bootstrapped(q, chapters) == q,
        committed(q, id, rows) == Err::<QueueView, CommitError>(CommitError::NotNext),
{
}

/// Whether snapshot `i` is the last one with its penal code.
pub open spec fn is_latest(bs: Seq<BufferView>, i: int) -> bool {
    forall|j: int| i < j < bs.len() ==> bs[j].penal_code != bs[i].penal_code
}

/// The rows to store for a session's snapshots: the last snapshot of each penal code,
/// in the order of the snapshots. Snapshots taken before any code was assigned are left
/// out.
pub open spec fn latest_rows(bs: Seq<BufferView>) -> Seq<LawRowView>
    decreases bs.len(),
{
    if bs.len() == 0 {
        Seq::empty()
    } else {
        let rest = latest_rows(bs.drop_first());
        if bs[0].penal_code.len() > 0 && is_latest(bs, 0) {
            seq![row_of(bs[0])] + rest
        } else {
            rest
        }
    }
}

proof fn lemma_latest_rows_avoid(bs: Seq<BufferView>, key: Seq<char>)
    requires
        forall|j: int| 0 <= j < bs.len() ==> (#[trigger] bs[j]).penal_code != key,
    ensures
        forall|m: int| 0 <= m < latest_rows(bs).len() ==> (#[trigger] latest_rows(bs)[m]).penal_code != key,
    decreases bs.len(),
{
    if bs.len() > 0 {
        let t = bs.drop_first();
        assert forall|j: int| 0 <= j < t.len() implies (#[trigger] t[j]).penal_code != key by {
            assert(t[j] == bs[j + 1]);
        }
        lemma_latest_rows_avoid(t, key);
        let rest = latest_rows(t);
        let out = latest_rows(bs);
        assert forall|m: int| 0 <= m < out.len() implies (#[trigger] out[m]).penal_code != key by {
            if !(bs[0].penal_code.len() > 0 && is_latest(bs, 0)) {
                assert(out[m] == rest[m]);
            } else if m == 0 {
                assert(out[0] == row_of(bs[0]));
            } else {
                assert(out[m] == rest[m - 1]);
            }
        }
    }
}

/// The rows kept for a session carry distinct, assigned penal codes, so a commit of them
/// alone cannot collide with itself.
pub proof fn lemma_latest_rows_distinct(bs: Seq<BufferView>)
    ensures
        distinct_keys(latest_rows(bs)),
        forall|m: int|
            0 <= m < latest_rows(bs).len() ==> (#[trigger] latest_rows(bs)[m]).penal_code.len() > 0,
    decreases bs.len(),
{
    if bs.len() > 0 {
        let t = bs.drop_first();
        lemma_latest_rows_distinct(t);
        let rest = latest_rows(t);
        let all = latest_rows(bs);
        assert forall|m: int| 0 <= m < all.len() implies (#[trigger] all[m]).penal_code.len() > 0 by {
            if !(bs[0].penal_code.len() > 0 && is_latest(bs, 0)) {
                assert(all[m] == rest[m]);
            } else if m == 0 {
                assert(all[0] == row_of(bs[0]));
            } else {
                assert(all[m] == rest[m - 1]);
            }
        }
        if bs[0].penal_code.len() > 0 && is_latest(bs, 0) {
            assert forall|j: int| 0 <= j < t.len() implies (#[trigger] t[j]).penal_code
                != bs[0].penal_code by {
                assert(t[j] == bs[j + 1]);
            }
            lemma_latest_rows_avoid(t, bs[0].penal_code);
            let out = seq![row_of(bs[0])] + rest;
            assert forall|a: int, b: int| 0 <= a < b < out.len() implies out[a].penal_code
                != out[b].penal_code by {
                if a == 0 {
                    assert(out[b] == rest[b - 1]);
                } else {
                    assert(out[a] == rest[a - 1] && out[b] == rest[b - 1]);
                }
            }
        }
    }
}

/// The rows to store for a session's snapshots: see `latest_rows`.
pub fn final_rows(records: &Vec<Buffer>) -> (r: Vec<LawRow>)
    ensures
        rows_view(r@) == latest_rows(records@.map_values(|b: Buffer| b@)),
{
    let ghost bs = records@.map_values(|b: Buffer| b@);
    let n = records.len();
    let mut out: Vec<LawRow> = Vec::new();
    let mut i: usize = 0;
    assert(bs.subrange(0, n as int) =~= bs);
    while i < n
        invariant
            n == records@.len(),
            bs == records@.map_values(|b: Buffer| b@),
            i <= n,
            rows_view(out@) + latest_rows(bs.subrange(i as int, n as int)) == latest_rows(bs),
        decreases n - i,
    {
        let ghost rest = bs.subrange(i as int, n as int);
        assert(rest.drop_first() =~= bs.subrange(i + 1, n as int));
        let mut last = true;
        let mut j: usize = i + 1;
        while j < n
            invariant
                n == records@.len(),
                bs == records@.map_values(|b: Buffer| b@),
                i < j <= n,
                last == (forall|x: int| i < x < j ==> bs[x].penal_code != bs[i as int].penal_code),
            decreases n - j,
        {
            assert(bs[j as int].penal_code == records@[j as int].penal_code@);
            assert(bs[i as int].penal_code == records@[i as int].penal_code@);
            if records[j].penal_code == records[i].penal_code {
                last = false;
            }
            j = j + 1;
        }
        proof {
            assert(last == is_latest(rest, 0)) by {
                if last {
                    assert forall|x: int| 0 < x < rest.len() implies (#[trigger] rest[x]).penal_code
                        != rest[0].penal_code by {
                        assert(rest[x] == bs[i + x]);
                    }
                } else {
                    let x = choose|x: int| i < x < n && bs[x].penal_code == bs[i as int].penal_code;
                    assert(rest[x - i] == bs[x]);
                }
            }
        }
        assert(rest[0] == bs[i as int]);
        assert(bs[i as int].penal_code == records@[i as int].penal_code@);
        if last && records[i].penal_code.unicode_len() > 0 {
            let row = records[i].to_query();
            let ghost before = rows_view(out@);
            out.push(row);
            assert(rows_view(out@) =~= before.push(row_of(bs[i as int])));
            assert(before.push(row_of(bs[i as int])) + latest_rows(bs.subrange(i + 1, n as int))
                =~= before + (seq![row_of(bs[i as int])] + latest_rows(bs.subrange(i + 1, n as int))));
        }
        i = i + 1;
    }
    assert(bs.subrange(n as int, n as int) =~= Seq::<BufferView>::empty());
    assert(rows_view(out@) + Seq::<LawRowView>::empty() =~= rows_view(out@));
    out
}

} // verus!
