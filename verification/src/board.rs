//! The lifecycle core: the memo store, the ordered hot stack, and every
//! state transition over them.
//!
//! The board owns all memos (keyed by their unique identifier) and the hot
//! stack, an ordered sequence of memo identifiers whose front is the most
//! recently promoted memo. Every mutating operation keeps the board well
//! formed: identifiers are unique, stack entries name distinct `Hot` memos,
//! the stack never exceeds its configured capacity, and a completion time
//! is present exactly on `Done` memos.

use vstd::prelude::*;

use crate::models::Config;
use crate::models::MemoData;
use crate::models::MemoModel;
use crate::models::MemoStatus;

verus! {

/// Mathematical model of the whole lifecycle state.
#[verifier::ext_equal]
pub ghost struct BoardModel {
    pub memos: Seq<MemoModel>,
    pub hot_stack: Seq<i32>,
    pub max_hot_count: nat,
    pub cold_spotlight_interval_seconds: u64,
    pub current_spotlight_memo: Option<i32>,
    pub last_spotlight_update: Option<u64>,
}

/// No two memos share an identifier.
pub open spec fn ids_unique(memos: Seq<MemoModel>) -> bool {
    forall|i: int, j: int| 0 <= i < j < memos.len() ==> memos[i].id != memos[j].id
}

/// No identifier occurs twice.
pub open spec fn nodup(s: Seq<i32>) -> bool {
    forall|i: int, j: int| 0 <= i < j < s.len() ==> s[i] != s[j]
}

/// The sequence with every occurrence of `id` removed.
pub open spec fn remove_id(s: Seq<i32>, id: i32) -> Seq<i32>
    decreases s.len(),
{
    if s.len() == 0 {
        Seq::empty()
    } else {
        let r = remove_id(s.drop_last(), id);
        if s.last() == id {
            r
        } else {
            r.push(s.last())
        }
    }
}

/// The memo sequence with the memo named `id` (if any) moved to the given
/// status and completion time; all other memos unchanged.
pub open spec fn set_status_map(
    memos: Seq<MemoModel>,
    id: i32,
    st: MemoStatus,
    done: Option<u64>,
) -> Seq<MemoModel> {
    memos.map_values(
        |m: MemoModel|
            if m.id == id {
                MemoModel {
                    id: m.id,
                    title: m.title,
                    body: m.body,
                    status: st,
                    creation_date: m.creation_date,
                    moved_to_done_date: done,
                    delay_minutes: m.delay_minutes,
                    expanded: m.expanded,
                }
            } else {
                m
            },
    )
}

impl BoardModel {
    /// Whether a memo with this identifier exists.
    pub open spec fn has_memo(self, id: i32) -> bool {
        exists|i: int| 0 <= i < self.memos.len() && self.memos[i].id == id
    }

    /// The index of the memo with this identifier.
    pub open spec fn memo_ix(self, id: i32) -> int {
        choose|i: int| 0 <= i < self.memos.len() && self.memos[i].id == id
    }

    /// The memo with this identifier.
    pub open spec fn memo_of(self, id: i32) -> MemoModel {
        self.memos[self.memo_ix(id)]
    }

    /// Every identifier on the hot stack names a memo whose status is `Hot`.
    pub open spec fn stack_entries_hot(self) -> bool {
        forall|k: int|
            0 <= k < self.hot_stack.len() ==> self.has_memo(#[trigger] self.hot_stack[k])
                && self.memo_of(self.hot_stack[k]).status == MemoStatus::Hot
    }

    /// The board invariant: unique identifiers, well-formed memos, a
    /// duplicate-free hot stack of `Hot` memos, and the capacity bound.
    pub open spec fn wf(self) -> bool {
        &&& ids_unique(self.memos)
        &&& forall|i: int| 0 <= i < self.memos.len() ==> self.memos[i].wf()
        &&& nodup(self.hot_stack)
        &&& self.stack_entries_hot()
        &&& self.hot_stack.len() <= self.max_hot_count
    }

    /// The board after archiving a memo: it becomes `Cold`, loses any
    /// completion time, and leaves the hot stack. Archiving an unknown
    /// identifier only removes it from the stack, as loading may be asked
    /// to drop stray stack entries.
    pub open spec fn spec_archive(self, id: i32) -> BoardModel {
        BoardModel {
            memos: set_status_map(self.memos, id, MemoStatus::Cold, None),
            hot_stack: remove_id(self.hot_stack, id),
            ..self
        }
    }

    /// The board after completing a memo: it becomes `Done`, records `now`
    /// as its completion time, and leaves the hot stack.
    pub open spec fn spec_complete(self, id: i32, now: u64) -> BoardModel {
        BoardModel {
            memos: set_status_map(self.memos, id, MemoStatus::Done, Some(now)),
            hot_stack: remove_id(self.hot_stack, id),
            ..self
        }
    }

    /// The board after pushing `id` (a `Hot` memo not yet on the stack) to
    /// the stack front. If that exceeds the capacity, the single memo at
    /// the back is evicted: archived to `Cold` and dropped from the stack.
    pub open spec fn spec_push_front_evict(self, id: i32) -> BoardModel {
        let pushed = seq![id] + self.hot_stack;
        if pushed.len() > self.max_hot_count {
            BoardModel {
                memos: set_status_map(self.memos, pushed.last(), MemoStatus::Cold, None),
                hot_stack: pushed.drop_last(),
                ..self
            }
        } else {
            BoardModel { hot_stack: pushed, ..self }
        }
    }

    /// The board after promoting a memo to `Hot`: its completion time is
    /// cleared, it moves to the stack front, and the eviction check runs.
    /// Promoting an unknown identifier changes nothing.
    pub open spec fn spec_promote(self, id: i32) -> BoardModel {
        if !self.has_memo(id) {
            self
        } else {
            let b1 = BoardModel {
                memos: set_status_map(self.memos, id, MemoStatus::Hot, None),
                hot_stack: remove_id(self.hot_stack, id),
                ..self
            };
            b1.spec_push_front_evict(id)
        }
    }

    /// The board after capturing a new memo. A positive delay captures it
    /// as `Delayed`; otherwise it is `Hot` and goes to the stack front,
    /// with the eviction check.
    pub open spec fn spec_capture(
        self,
        id: i32,
        title: Seq<char>,
        body: Seq<char>,
        delay_minutes: Option<u32>,
        now: u64,
    ) -> BoardModel {
        let eff = effective_delay(delay_minutes);
        let st = if eff is Some {
            MemoStatus::Delayed
        } else {
            MemoStatus::Hot
        };
        let m = MemoModel {
            id,
            title,
            body,
            status: st,
            creation_date: now,
            moved_to_done_date: None,
            delay_minutes: eff,
            expanded: false,
        };
        let b1 = BoardModel { memos: self.memos.push(m), ..self };
        if st == MemoStatus::Hot {
            b1.spec_push_front_evict(id)
        } else {
            b1
        }
    }
}

/// The position of an identifier on the stack.
pub open spec fn stack_pos(stack: Seq<i32>, id: i32) -> int {
    choose|k: int| 0 <= k < stack.len() && stack[k] == id
}

impl BoardModel {
    /// The board after deleting a memo: it leaves the store, the hot
    /// stack, and (through the caller's flush) durable storage.
    pub open spec fn spec_delete(self, id: i32) -> BoardModel {
        let m1 = if self.has_memo(id) {
            self.memos.remove(self.memo_ix(id))
        } else {
            self.memos
        };
        BoardModel { memos: m1, hot_stack: remove_id(self.hot_stack, id), ..self }
    }

    /// The board after a one-step reorder: a stacked memo swaps places
    /// with its predecessor; at the front (or off the stack) nothing moves.
    pub open spec fn spec_shift_up(self, id: i32) -> BoardModel {
        if self.hot_stack.contains(id) {
            let p = stack_pos(self.hot_stack, id);
            if p > 0 {
                BoardModel {
                    hot_stack: self.hot_stack.update(p - 1, self.hot_stack[p]).update(
                        p,
                        self.hot_stack[p - 1],
                    ),
                    ..self
                }
            } else {
                self
            }
        } else {
            self
        }
    }

    /// The board after moving a stacked memo to the stack front; off the
    /// stack nothing moves. The stack length is unchanged, so no eviction
    /// can follow.
    pub open spec fn spec_move_to_front(self, id: i32) -> BoardModel {
        if self.hot_stack.contains(id) {
            BoardModel { hot_stack: seq![id] + remove_id(self.hot_stack, id), ..self }
        } else {
            self
        }
    }
}

/// Whether a delayed memo is due for promotion at time `now`: its ready
/// time, creation plus delay, has passed.
pub open spec fn is_ready(m: MemoModel, now: u64) -> bool {
    &&& m.status == MemoStatus::Delayed
    &&& m.delay_minutes is Some
    &&& now >= m.creation_date + m.delay_minutes.unwrap() * 60
}

/// The identifiers of the memos due for promotion at time `now`, in store
/// order.
pub open spec fn ready_ids(memos: Seq<MemoModel>, now: u64) -> Seq<i32> {
    memos.filter(|m: MemoModel| is_ready(m, now)).map_values(|m: MemoModel| m.id)
}

impl BoardModel {
    /// The board after promoting the listed memos in order. Each promotion
    /// individually obeys the eviction policy, so later promotions may
    /// evict earlier ones.
    pub open spec fn spec_promote_all(self, ids: Seq<i32>) -> BoardModel
        decreases ids.len(),
    {
        if ids.len() == 0 {
            self
        } else {
            self.spec_promote(ids[0]).spec_promote_all(ids.drop_first())
        }
    }

    /// The board after one polling pass at time `now`: every due delayed
    /// memo is promoted to `Hot`, in store order.
    pub open spec fn spec_check_promote(self, now: u64) -> BoardModel {
        self.spec_promote_all(ready_ids(self.memos, now))
    }
}

proof fn lemma_promote_all_snoc(b: BoardModel, ids: Seq<i32>, x: i32)
    ensures
        b.spec_promote_all(ids.push(x)) == b.spec_promote_all(ids).spec_promote(x),
    decreases ids.len(),
{
    if ids.len() == 0 {
        reveal_with_fuel(BoardModel::spec_promote_all, 3);
        assert(ids.push(x)[0] == x);
        assert(ids.push(x).drop_first() =~= Seq::<i32>::empty());
    } else {
        assert(ids.push(x)[0] == ids[0]);
        assert(ids.push(x).drop_first() =~= ids.drop_first().push(x));
        lemma_promote_all_snoc(b.spec_promote(ids[0]), ids.drop_first(), x);
    }
}

/// The identifiers of the memos with the given status, in store order.
pub open spec fn ids_with_status(memos: Seq<MemoModel>, st: MemoStatus) -> Seq<i32> {
    memos.filter(|m: MemoModel| m.status == st).map_values(|m: MemoModel| m.id)
}

/// Every element a filter keeps is an element of the sequence.
pub proof fn lemma_filter_member(memos: Seq<MemoModel>, pred: spec_fn(MemoModel) -> bool, k: int)
    requires
        0 <= k < memos.filter(pred).len(),
    ensures
        exists|i: int| 0 <= i < memos.len() && memos[i] == memos.filter(pred)[k],
    decreases memos.len(),
{
    reveal(Seq::filter);
    let f = memos.filter(pred);
    let f0 = memos.drop_last().filter(pred);
    if k < f0.len() {
        lemma_filter_member(memos.drop_last(), pred, k);
        let i = choose|i: int| 0 <= i < memos.drop_last().len() && memos.drop_last()[i] == f0[k];
        assert(memos[i] == f[k]);
    } else {
        assert(memos[memos.len() - 1] == f[k]);
    }
}

/// Whether the spotlight interval has elapsed since the last resample.
pub open spec fn spotlight_due(b: BoardModel, now: u64) -> bool {
    match b.last_spotlight_update {
        None => true,
        Some(l) => now >= l + b.cold_spotlight_interval_seconds,
    }
}

/// What a spotlight pick may be: an existing `Cold` memo, or nothing only
/// when no memo is `Cold`.
pub open spec fn spotlight_pick_ok(b: BoardModel, pick: Option<i32>) -> bool {
    match pick {
        Some(id) => b.has_memo(id) && b.memo_of(id).status == MemoStatus::Cold,
        None => forall|i: int|
            0 <= i < b.memos.len() ==> (#[trigger] b.memos[i]).status != MemoStatus::Cold,
    }
}

/// Relies on `rand::random_range`: a uniformly random value within the
/// given (non-empty) range.
#[verifier::external_body]
fn random_below(n: usize) -> (r: usize)
    requires
        n >= 1,
    ensures
        r < n,
{
    rand::random_range(0..n)
}

/// The delay a capture records: a positive delay as given, anything else
/// as no delay.
pub open spec fn effective_delay(delay_minutes: Option<u32>) -> Option<u32> {
    match delay_minutes {
        Some(d) => if d > 0 {
            Some(d)
        } else {
            None
        },
        None => None,
    }
}

/// Without duplicates, an index holding `id` is the index `stack_pos`
/// picks.
proof fn lemma_stack_pos_unique(stack: Seq<i32>, id: i32, k: int)
    requires
        nodup(stack),
        0 <= k < stack.len(),
        stack[k] == id,
    ensures
        stack.contains(id),
        stack_pos(stack, id) == k,
{
    assert(stack.contains(id));
    let j = stack_pos(stack, id);
    assert(0 <= j < stack.len() && stack[j] == id);
    if k < j {
        assert(stack[k] != stack[j]);
    } else if j < k {
        assert(stack[j] != stack[k]);
    }
}

/// Deleting a memo preserves the board invariant.
proof fn lemma_delete_wf(b: BoardModel, id: i32)
    requires
        b.wf(),
    ensures
        b.spec_delete(id).wf(),
{
    let post = b.spec_delete(id);
    lemma_remove_id_nodup(b.hot_stack, id);
    lemma_remove_id_contains(b.hot_stack, id);
    if b.has_memo(id) {
        let ix = b.memo_ix(id);
        assert(0 <= ix < b.memos.len() && b.memos[ix].id == id);
        assert(ids_unique(post.memos)) by {
            assert(forall|j: int|
                0 <= j < post.memos.len() ==> #[trigger] post.memos[j] == (if j < ix {
                    b.memos[j]
                } else {
                    b.memos[j + 1]
                }));
        }
        assert forall|k: int| 0 <= k < post.hot_stack.len() implies post.has_memo(
            #[trigger] post.hot_stack[k],
        ) && post.memo_of(post.hot_stack[k]).status == MemoStatus::Hot by {
            let x = post.hot_stack[k];
            assert(post.hot_stack.contains(x));
            assert(b.hot_stack.contains(x) && x != id);
            let k0 = choose|k0: int| 0 <= k0 < b.hot_stack.len() && b.hot_stack[k0] == x;
            assert(b.hot_stack[k0] == x);
            let i = b.memo_ix(x);
            assert(b.memos[i].id == x && i != ix);
            if i < ix {
                assert(post.memos[i] == b.memos[i]);
                lemma_memo_ix_unique(post, x, i);
            } else {
                assert(post.memos[i - 1] == b.memos[i]);
                lemma_memo_ix_unique(post, x, i - 1);
            }
        }
        assert(post.wf());
    } else {
        assert forall|k: int| 0 <= k < post.hot_stack.len() implies post.has_memo(
            #[trigger] post.hot_stack[k],
        ) && post.memo_of(post.hot_stack[k]).status == MemoStatus::Hot by {
            let x = post.hot_stack[k];
            assert(post.hot_stack.contains(x));
            assert(b.hot_stack.contains(x));
            let k0 = choose|k0: int| 0 <= k0 < b.hot_stack.len() && b.hot_stack[k0] == x;
            assert(b.hot_stack[k0] == x);
        }
        assert(post.wf());
    }
}

/// A stack reorder that permutes positions preserves the board invariant.
proof fn lemma_shift_up_wf(b: BoardModel, id: i32)
    requires
        b.wf(),
    ensures
        b.spec_shift_up(id).wf(),
{
    let post = b.spec_shift_up(id);
    if b.hot_stack.contains(id) {
        let p = stack_pos(b.hot_stack, id);
        if p > 0 {
            assert(0 <= p < b.hot_stack.len() && b.hot_stack[p] == id);
            assert(nodup(post.hot_stack)) by {
                assert(forall|k: int|
                    0 <= k < post.hot_stack.len() ==> #[trigger] post.hot_stack[k] == (if k == p
                        - 1 {
                        b.hot_stack[p]
                    } else if k == p {
                        b.hot_stack[p - 1]
                    } else {
                        b.hot_stack[k]
                    }));
            }
            assert forall|k: int| 0 <= k < post.hot_stack.len() implies post.has_memo(
                #[trigger] post.hot_stack[k],
            ) && post.memo_of(post.hot_stack[k]).status == MemoStatus::Hot by {
                let x = post.hot_stack[k];
                if k == p - 1 {
                    assert(x == b.hot_stack[p]);
                } else if k == p {
                    assert(x == b.hot_stack[p - 1]);
                } else {
                    assert(x == b.hot_stack[k]);
                }
            }
            assert(post.wf());
        }
    }
}

/// Moving a stacked memo to the front preserves the board invariant.
proof fn lemma_move_to_front_wf(b: BoardModel, id: i32)
    requires
        b.wf(),
    ensures
        b.spec_move_to_front(id).wf(),
{
    let post = b.spec_move_to_front(id);
    if b.hot_stack.contains(id) {
        lemma_remove_id_nodup(b.hot_stack, id);
        lemma_remove_id_contains(b.hot_stack, id);
        lemma_remove_id_len_lt(b.hot_stack, id);
        let r = remove_id(b.hot_stack, id);
        assert(nodup(post.hot_stack)) by {
            assert(post.hot_stack[0] == id);
            assert(forall|k: int| 1 <= k < post.hot_stack.len() ==> post.hot_stack[k] == r[k - 1]);
            assert(forall|k: int| 0 <= k < r.len() ==> r.contains(#[trigger] r[k]));
        }
        assert forall|k: int| 0 <= k < post.hot_stack.len() implies post.has_memo(
            #[trigger] post.hot_stack[k],
        ) && post.memo_of(post.hot_stack[k]).status == MemoStatus::Hot by {
            let x = post.hot_stack[k];
            if k == 0 {
                assert(x == id);
                let k0 = choose|k0: int| 0 <= k0 < b.hot_stack.len() && b.hot_stack[k0] == id;
                assert(b.hot_stack[k0] == x);
            } else {
                assert(x == r[k - 1]);
                assert(r.contains(x));
                assert(b.hot_stack.contains(x));
                let k0 = choose|k0: int| 0 <= k0 < b.hot_stack.len() && b.hot_stack[k0] == x;
                assert(b.hot_stack[k0] == x);
            }
        }
        assert(post.wf());
    }
}

/// With unique identifiers, an index holding `id` is the index `memo_ix`
/// picks, so `memo_of` is the memo at that index.
pub proof fn lemma_memo_ix_unique(b: BoardModel, id: i32, i: int)
    requires
        ids_unique(b.memos),
        0 <= i < b.memos.len(),
        b.memos[i].id == id,
    ensures
        b.has_memo(id),
        b.memo_ix(id) == i,
        b.memo_of(id) == b.memos[i],
{
    assert(b.has_memo(id));
    let j = b.memo_ix(id);
    assert(0 <= j < b.memos.len() && b.memos[j].id == id);
    if i < j {
        assert(b.memos[i].id != b.memos[j].id);
    } else if j < i {
        assert(b.memos[j].id != b.memos[i].id);
    }
}

proof fn lemma_remove_id_contains(s: Seq<i32>, id: i32)
    ensures
        forall|x: i32| #[trigger] remove_id(s, id).contains(x) <==> s.contains(x) && x != id,
        remove_id(s, id).len() <= s.len(),
    decreases s.len(),
{
    if s.len() > 0 {
        lemma_remove_id_contains(s.drop_last(), id);
        let r = remove_id(s, id);
        let r0 = remove_id(s.drop_last(), id);
        assert forall|x: i32| #[trigger] r.contains(x) implies s.contains(x) && x != id by {
            if s.last() != id && x == s.last() && r.contains(x) {
                assert(s.contains(x)) by {
                    assert(s[s.len() - 1] == x);
                }
            } else {
                if r.contains(x) {
                    if s.last() == id {
                        assert(r0.contains(x));
                    } else {
                        if x != s.last() {
                            let k = choose|k: int| 0 <= k < r.len() && r[k] == x;
                            assert(r0.contains(x)) by {
                                assert(r[k] == x && k < r.len() - 1);
                                assert(r0[k] == x);
                            }
                        }
                    }
                    if r0.contains(x) {
                        assert(s.drop_last().contains(x));
                        let k = choose|k: int| 0 <= k < s.drop_last().len() && s.drop_last()[k] == x;
                        assert(s[k] == x);
                    }
                }
            }
        }
        assert forall|x: i32| s.contains(x) && x != id implies #[trigger] r.contains(x) by {
            let k = choose|k: int| 0 <= k < s.len() && s[k] == x;
            if k < s.len() - 1 {
                assert(s.drop_last()[k] == x);
                assert(s.drop_last().contains(x));
                assert(r0.contains(x));
                if s.last() == id {
                    assert(r.contains(x));
                } else {
                    let j = choose|j: int| 0 <= j < r0.len() && r0[j] == x;
                    assert(r[j] == x);
                }
            } else {
                assert(s.last() == x);
                assert(r.last() == x);
            }
        }
    }
}

proof fn lemma_remove_id_nodup(s: Seq<i32>, id: i32)
    requires
        nodup(s),
    ensures
        nodup(remove_id(s, id)),
        !remove_id(s, id).contains(id),
    decreases s.len(),
{
    lemma_remove_id_contains(s, id);
    if s.len() > 0 {
        assert(nodup(s.drop_last())) by {
            assert(forall|i: int, j: int|
                0 <= i < j < s.drop_last().len() ==> s.drop_last()[i] == s[i] && s.drop_last()[j]
                    == s[j]);
        }
        lemma_remove_id_nodup(s.drop_last(), id);
        let r0 = remove_id(s.drop_last(), id);
        if s.last() != id {
            lemma_remove_id_contains(s.drop_last(), id);
            assert(!r0.contains(s.last())) by {
                if r0.contains(s.last()) {
                    assert(s.drop_last().contains(s.last()));
                    let k = choose|k: int|
                        0 <= k < s.drop_last().len() && s.drop_last()[k] == s.last();
                    assert(s[k] == s[s.len() - 1]);
                }
            }
            assert forall|i: int, j: int|
                0 <= i < j < remove_id(s, id).len() implies remove_id(s, id)[i] != remove_id(
                s,
                id,
            )[j] by {
                let r = remove_id(s, id);
                if j < r.len() - 1 {
                    assert(r0[i] != r0[j]);
                } else {
                    assert(r[j] == s.last());
                    assert(r[i] == r0[i]);
                    assert(r0.contains(r0[i]));
                }
            }
        }
    }
}

/// The board's live state: all memos, the ordered hot stack, the
/// configuration, and the spotlight bookkeeping.
pub struct MemoBoard {
    config: Config,
    memos: Vec<MemoData>,
    hot_stack: Vec<i32>,
    current_spotlight_memo: Option<i32>,
    last_spotlight_update: Option<u64>,
}

impl View for MemoBoard {
    type V = BoardModel;

    closed spec fn view(&self) -> BoardModel {
        BoardModel {
            memos: crate::models::memo_views(self.memos@),
            hot_stack: self.hot_stack@,
            max_hot_count: self.config.max_hot_count as nat,
            cold_spotlight_interval_seconds: self.config.cold_spotlight_interval_seconds,
            current_spotlight_memo: self.current_spotlight_memo,
            last_spotlight_update: self.last_spotlight_update,
        }
    }
}

impl MemoBoard {
    /// An empty board with the given configuration.
    pub fn new(config: Config) -> (r: Self)
        ensures
            r@.wf(),
            r@.memos.len() == 0,
            r@.hot_stack.len() == 0,
            r@.max_hot_count == config.max_hot_count,
            r@.cold_spotlight_interval_seconds == config.cold_spotlight_interval_seconds,
            r@.current_spotlight_memo is None,
            r@.last_spotlight_update is None,
    {
        MemoBoard {
            config,
            memos: Vec::new(),
            hot_stack: Vec::new(),
            current_spotlight_memo: None,
            last_spotlight_update: None,
        }
    }

    pub(crate) fn assemble(config: Config, memos: Vec<MemoData>, hot_stack: Vec<i32>) -> (r: Self)
        ensures
            r@ == (BoardModel {
                memos: crate::models::memo_views(memos@),
                hot_stack: hot_stack@,
                max_hot_count: config.max_hot_count as nat,
                cold_spotlight_interval_seconds: config.cold_spotlight_interval_seconds,
                current_spotlight_memo: None,
                last_spotlight_update: None,
            }),
    {
        MemoBoard { config, memos, hot_stack, current_spotlight_memo: None, last_spotlight_update: None }
    }

    fn find_memo_index(&self, id: i32) -> (r: Option<usize>)
        ensures
            match r {
                Some(i) => i < self@.memos.len() && self@.memos[i as int].id == id,
                None => !self@.has_memo(id),
            },
    {
        let n = self.memos.len();
        let mut i: usize = 0;
        while i < n
            invariant
                n == self.memos@.len(),
                self@.memos.len() == n,
                0 <= i <= n,
                forall|j: int| 0 <= j < i ==> self@.memos[j].id != id,
            decreases n - i,
        {
            if self.memos[i].id == id {
                return Some(i);
            }
            i += 1;
        }
        None
    }

    fn set_memo_status(&mut self, id: i32, st: MemoStatus, done: Option<u64>)
        requires
            ids_unique(old(self)@.memos),
        ensures
            final(self)@ == (BoardModel {
                memos: set_status_map(old(self)@.memos, id, st, done),
                ..old(self)@
            }),
    {
        let ghost target = set_status_map(self@.memos, id, st, done);
        match self.find_memo_index(id) {
            None => {
                proof {
                    assert(final(self)@.memos =~= target);
                    assert(final(self)@ =~= (BoardModel { memos: target, ..old(self)@ }));
                }
            },
            Some(i) => {
                let mut m = self.memos.remove(i);
                m.status = st;
                m.moved_to_done_date = done;
                self.memos.insert(i, m);
                proof {
                    assert(final(self)@.memos =~= target);
                    assert(final(self)@ =~= (BoardModel { memos: target, ..old(self)@ }));
                }
            },
        }
    }

    fn stack_remove(&mut self, id: i32)
        ensures
            final(self)@ == (BoardModel {
                hot_stack: remove_id(old(self)@.hot_stack, id),
                ..old(self)@
            }),
    {
        let n = self.hot_stack.len();
        let mut out: Vec<i32> = Vec::new();
        let mut i: usize = 0;
        while i < n
            invariant
                n == self.hot_stack@.len(),
                0 <= i <= n,
                out@ == remove_id(self.hot_stack@.take(i as int), id),
            decreases n - i,
        {
            let x = self.hot_stack[i];
            proof {
                let pre = self.hot_stack@.take(i + 1);
                assert(pre.drop_last() =~= self.hot_stack@.take(i as int));
                assert(pre.last() == x);
            }
            if x != id {
                out.push(x);
            }
            i += 1;
        }
        proof {
            assert(self.hot_stack@.take(n as int) =~= self.hot_stack@);
        }
        self.hot_stack = out;
        proof {
            assert(final(self)@ =~= (BoardModel {
                hot_stack: remove_id(old(self)@.hot_stack, id),
                ..old(self)@
            }));
        }
    }

    /// Archive a memo: it becomes `Cold`, loses any completion time, and
    /// leaves the hot stack.
    pub fn move_to_cold(&mut self, id: i32)
        requires
            old(self)@.wf(),
        ensures
            final(self)@ == old(self)@.spec_archive(id),
            final(self)@.wf(),
    {
        self.set_memo_status(id, MemoStatus::Cold, None);
        self.stack_remove(id);
        proof {
            lemma_retire_wf(old(self)@, id, MemoStatus::Cold, None);
            assert(final(self)@ =~= old(self)@.spec_archive(id));
        }
    }

    fn push_front_evict(&mut self, id: i32)
        requires
            old(self)@.wf(),
            old(self)@.has_memo(id),
            old(self)@.memo_of(id).status == MemoStatus::Hot,
            !old(self)@.hot_stack.contains(id),
        ensures
            final(self)@ == old(self)@.spec_push_front_evict(id),
            final(self)@.wf(),
    {
        proof {
            lemma_push_front_evict_wf(old(self)@, id);
        }
        self.hot_stack.insert(0, id);
        proof {
            assert(self.hot_stack@ =~= seq![id] + old(self)@.hot_stack);
        }
        if self.hot_stack.len() > self.config.max_hot_count {
            let evicted = self.hot_stack[self.hot_stack.len() - 1];
            self.hot_stack.pop();
            self.set_memo_status(evicted, MemoStatus::Cold, None);
            proof {
                let pushed = seq![id] + old(self)@.hot_stack;
                assert(self.hot_stack@ =~= pushed.drop_last());
                assert(final(self)@ =~= old(self)@.spec_push_front_evict(id));
            }
        } else {
            proof {
                assert(final(self)@ =~= old(self)@.spec_push_front_evict(id));
            }
        }
    }

    /// Promote a memo to `Hot`: its completion time is cleared, it moves to
    /// the stack front, and the eviction check runs. Promoting an unknown
    /// identifier changes nothing.
    pub fn move_to_hot(&mut self, id: i32)
        requires
            old(self)@.wf(),
        ensures
            final(self)@ == old(self)@.spec_promote(id),
            final(self)@.wf(),
    {
        match self.find_memo_index(id) {
            None => {},
            Some(_) => {
                proof {
                    lemma_make_hot_wf(old(self)@, id);
                }
                self.set_memo_status(id, MemoStatus::Hot, None);
                self.stack_remove(id);
                self.push_front_evict(id);
            },
        }
    }

    /// Capture a new memo under a fresh identifier. A positive delay
    /// captures it as `Delayed`; otherwise it is `Hot`, goes to the stack
    /// front, and the eviction check runs.
    pub fn add_memo(&mut self, id: i32, title: String, body: String, delay_minutes: Option<u32>, now: u64)
        requires
            old(self)@.wf(),
            !old(self)@.has_memo(id),
        ensures
            final(self)@ == old(self)@.spec_capture(id, title@, body@, delay_minutes, now),
            final(self)@.wf(),
    {
        let eff: Option<u32> = match delay_minutes {
            Some(d) => if d > 0 {
                Some(d)
            } else {
                None
            },
            None => None,
        };
        let status = if eff.is_some() {
            MemoStatus::Delayed
        } else {
            MemoStatus::Hot
        };
        let m = MemoData {
            id,
            title,
            body,
            status,
            creation_date: now,
            moved_to_done_date: None,
            delay_minutes: eff,
            expanded: false,
        };
        proof {
            lemma_push_memo_wf(old(self)@, m@);
            lemma_stack_fresh(old(self)@, id);
        }
        self.memos.push(m);
        proof {
            let b1 = BoardModel { memos: old(self)@.memos.push(m@), ..old(self)@ };
            assert(self@ =~= b1);
        }
        if matches!(status, MemoStatus::Hot) {
            self.push_front_evict(id);
        }
    }

    fn find_stack_pos(&self, id: i32) -> (r: Option<usize>)
        requires
            nodup(self@.hot_stack),
        ensures
            match r {
                Some(k) => self@.hot_stack.contains(id) && stack_pos(self@.hot_stack, id)
                    == k as int && k < self@.hot_stack.len(),
                None => !self@.hot_stack.contains(id),
            },
    {
        let n = self.hot_stack.len();
        let mut i: usize = 0;
        while i < n
            invariant
                n == self@.hot_stack.len(),
                nodup(self@.hot_stack),
                0 <= i <= n,
                forall|j: int| 0 <= j < i ==> self@.hot_stack[j] != id,
            decreases n - i,
        {
            if self.hot_stack[i] == id {
                proof {
                    lemma_stack_pos_unique(self@.hot_stack, id, i as int);
                }
                return Some(i);
            }
            i += 1;
        }
        proof {
            if self@.hot_stack.contains(id) {
                let k = choose|k: int| 0 <= k < self@.hot_stack.len() && self@.hot_stack[k] == id;
                assert(self@.hot_stack[k] == id);
            }
        }
        None
    }

    /// Delete a memo outright: it leaves the store and the hot stack.
    pub fn delete_memo(&mut self, id: i32)
        requires
            old(self)@.wf(),
        ensures
            final(self)@ == old(self)@.spec_delete(id),
            final(self)@.wf(),
    {
        match self.find_memo_index(id) {
            Some(i) => {
                proof {
                    lemma_memo_ix_unique(old(self)@, id, i as int);
                }
                let _removed = self.memos.remove(i);
                proof {
                    assert(self@.memos =~= old(self)@.memos.remove(i as int));
                }
            },
            None => {},
        }
        self.stack_remove(id);
        proof {
            lemma_delete_wf(old(self)@, id);
            assert(final(self)@ =~= old(self)@.spec_delete(id));
        }
    }

    /// Swap a stacked memo with its predecessor. At the stack front, or off
    /// the stack, nothing moves.
    pub fn shift_up_in_hot(&mut self, id: i32)
        requires
            old(self)@.wf(),
        ensures
            final(self)@ == old(self)@.spec_shift_up(id),
            final(self)@.wf(),
            old(self)@.hot_stack.len() > 0 && old(self)@.hot_stack[0] == id ==> final(self)@
                == old(self)@,
    {
        proof {
            lemma_shift_up_wf(old(self)@, id);
            if old(self)@.hot_stack.len() > 0 && old(self)@.hot_stack[0] == id {
                lemma_stack_pos_unique(old(self)@.hot_stack, id, 0);
            }
        }
        match self.find_stack_pos(id) {
            Some(p) => {
                if p > 0 {
                    let above = self.hot_stack[p - 1];
                    let here = self.hot_stack[p];
                    self.hot_stack[p - 1] = here;
                    self.hot_stack[p] = above;
                    proof {
                        assert(final(self)@ =~= old(self)@.spec_shift_up(id));
                    }
                }
            },
            None => {},
        }
    }

    /// Move a stacked memo to the stack front. Off the stack nothing
    /// moves; the stack length is unchanged, so no eviction can follow.
    pub fn move_to_top_in_hot(&mut self, id: i32)
        requires
            old(self)@.wf(),
        ensures
            final(self)@ == old(self)@.spec_move_to_front(id),
            final(self)@.wf(),
            old(self)@.hot_stack.len() > 0 && old(self)@.hot_stack[0] == id ==> final(self)@
                == old(self)@,
    {
        proof {
            lemma_move_to_front_wf(old(self)@, id);
            if old(self)@.hot_stack.len() > 0 && old(self)@.hot_stack[0] == id {
                lemma_remove_id_first(old(self)@.hot_stack, id);
                assert(seq![id] + old(self)@.hot_stack.drop_first() =~= old(self)@.hot_stack);
            }
        }
        match self.find_stack_pos(id) {
            Some(_) => {
                self.stack_remove(id);
                self.hot_stack.insert(0, id);
                proof {
                    assert(self.hot_stack@ =~= seq![id] + remove_id(old(self)@.hot_stack, id));
                    assert(final(self)@ =~= old(self)@.spec_move_to_front(id));
                }
            },
            None => {},
        }
    }

    /// One polling pass at time `now`: promote every due delayed memo to
    /// `Hot`, in store order. Each promotion individually obeys the
    /// eviction policy.
    pub fn check_and_promote_delayed_memos(&mut self, now: u64)
        requires
            old(self)@.wf(),
        ensures
            final(self)@ == old(self)@.spec_check_promote(now),
            final(self)@.wf(),
    {
        let n = self.memos.len();
        let mut ready: Vec<i32> = Vec::new();
        let mut i: usize = 0;
        while i < n
            invariant
                n == self@.memos.len(),
                0 <= i <= n,
                ready@ == ready_ids(self@.memos.take(i as int), now),
            decreases n - i,
        {
            let m = &self.memos[i];
            proof {
                let pre = self@.memos.take(i + 1);
                assert(pre.drop_last() =~= self@.memos.take(i as int));
                assert(pre.last() == self@.memos[i as int]);
            }
            let mut due = false;
            if m.status == MemoStatus::Delayed {
                if let Some(d) = m.delay_minutes {
                    let delay_secs = (d as u64) * 60;
                    if now >= m.creation_date && now - m.creation_date >= delay_secs {
                        due = true;
                    }
                }
            }
            proof {
                assert(due == is_ready(self@.memos[i as int], now));
            }
            if due {
                ready.push(m.id);
            }
            proof {
                reveal(Seq::filter);
                let pred = |mm: MemoModel| is_ready(mm, now);
                let pre = self@.memos.take(i + 1);
                if due {
                    assert(pre.filter(pred) == pre.drop_last().filter(pred).push(pre.last()));
                    assert(ready@ =~= ready_ids(pre, now));
                } else {
                    assert(pre.filter(pred) == pre.drop_last().filter(pred));
                    assert(ready@ =~= ready_ids(pre, now));
                }
            }
            i += 1;
        }
        proof {
            assert(self@.memos.take(n as int) =~= self@.memos);
        }
        let k = ready.len();
        let mut j: usize = 0;
        while j < k
            invariant
                k == ready@.len(),
                0 <= j <= k,
                self@ == old(self)@.spec_promote_all(ready@.take(j as int)),
                self@.wf(),
            decreases k - j,
        {
            let id = ready[j];
            self.move_to_hot(id);
            proof {
                assert(ready@.take(j + 1).drop_last() =~= ready@.take(j as int));
                assert(ready@.take(j + 1) =~= ready@.take(j as int).push(id));
                lemma_promote_all_snoc(old(self)@, ready@.take(j as int), id);
            }
            j += 1;
        }
        proof {
            assert(ready@.take(k as int) =~= ready@);
        }
    }

    /// The identifiers of the memos with the given status, in store order.
    pub fn collect_ids_with_status(&self, st: MemoStatus) -> (r: Vec<i32>)
        ensures
            r@ == ids_with_status(self@.memos, st),
    {
        let n = self.memos.len();
        let mut out: Vec<i32> = Vec::new();
        let mut i: usize = 0;
        while i < n
            invariant
                n == self@.memos.len(),
                0 <= i <= n,
                out@ == ids_with_status(self@.memos.take(i as int), st),
            decreases n - i,
        {
            let m = &self.memos[i];
            proof {
                reveal(Seq::filter);
                let pre = self@.memos.take(i + 1);
                assert(pre.drop_last() =~= self@.memos.take(i as int));
                assert(pre.last() == self@.memos[i as int]);
            }
            if m.status == st {
                out.push(m.id);
            }
            proof {
                reveal(Seq::filter);
                let pred = |mm: MemoModel| mm.status == st;
                let pre = self@.memos.take(i + 1);
                if self@.memos[i as int].status == st {
                    assert(pre.filter(pred) == pre.drop_last().filter(pred).push(pre.last()));
                } else {
                    assert(pre.filter(pred) == pre.drop_last().filter(pred));
                }
                assert(out@ =~= ids_with_status(pre, st));
            }
            i += 1;
        }
        proof {
            assert(self@.memos.take(n as int) =~= self@.memos);
        }
        out
    }

    /// A uniformly random `Cold` memo, or nothing when no memo is `Cold`.
    fn get_random_cold_memo_id(&self) -> (r: Option<i32>)
        requires
            self@.wf(),
        ensures
            spotlight_pick_ok(self@, r),
    {
        let ids = self.collect_ids_with_status(MemoStatus::Cold);
        if ids.len() == 0 {
            proof {
                let pred = |mm: MemoModel| mm.status == MemoStatus::Cold;
                assert forall|i: int|
                    0 <= i < self@.memos.len() implies (#[trigger] self@.memos[i]).status
                    != MemoStatus::Cold by {
                    if self@.memos[i].status == MemoStatus::Cold {
                        self@.memos.lemma_filter_contains(pred, i);
                        assert(self@.memos.filter(pred).len() > 0);
                    }
                }
            }
            None
        } else {
            let k = random_below(ids.len());
            let id = ids[k];
            proof {
                let pred = |mm: MemoModel| mm.status == MemoStatus::Cold;
                lemma_filter_member(self@.memos, pred, k as int);
                let i = choose|i: int|
                    0 <= i < self@.memos.len() && self@.memos[i] == self@.memos.filter(pred)[k
                        as int];
                self@.memos.lemma_filter_pred(pred, k as int);
                lemma_memo_ix_unique(self@, id, i);
            }
            Some(id)
        }
    }

    /// A spotlight tick at monotonic time `now_secs`: when the configured
    /// interval (zero disables the feature) has elapsed since the last
    /// resample, pick a fresh random `Cold` memo and remember the time.
    /// Nothing else on the board changes.
    pub fn update_cold_spotlight(&mut self, now_secs: u64)
        requires
            old(self)@.wf(),
        ensures
            final(self)@.wf(),
            final(self)@.memos == old(self)@.memos,
            final(self)@.hot_stack == old(self)@.hot_stack,
            final(self)@.max_hot_count == old(self)@.max_hot_count,
            final(self)@.cold_spotlight_interval_seconds == old(
                self,
            )@.cold_spotlight_interval_seconds,
            old(self)@.cold_spotlight_interval_seconds == 0 ==> final(self)@ == old(self)@,
            old(self)@.cold_spotlight_interval_seconds != 0 && spotlight_due(old(self)@, now_secs)
                ==> final(self)@.last_spotlight_update == Some(now_secs) && spotlight_pick_ok(
                old(self)@,
                final(self)@.current_spotlight_memo,
            ),
            old(self)@.cold_spotlight_interval_seconds != 0 && !spotlight_due(old(self)@, now_secs)
                ==> final(self)@ == old(self)@,
    {
        if self.config.cold_spotlight_interval_seconds == 0 {
            return ;
        }
        let due = match self.last_spotlight_update {
            None => true,
            Some(l) => now_secs >= l && now_secs - l
                >= self.config.cold_spotlight_interval_seconds,
        };
        if due {
            self.current_spotlight_memo = self.get_random_cold_memo_id();
            self.last_spotlight_update = Some(now_secs);
        }
    }

    /// When the spotlight last resampled, in monotonic seconds.
    pub fn get_last_spotlight_update(&self) -> (r: Option<u64>)
        ensures
            r == self@.last_spotlight_update,
    {
        self.last_spotlight_update
    }

    /// The current spotlight pick, if any.
    pub fn current_spotlight_memo(&self) -> (r: Option<i32>)
        ensures
            r == self@.current_spotlight_memo,
    {
        self.current_spotlight_memo
    }

    /// The ordered hot stack, front first.
    pub fn hot_stack_ids(&self) -> (r: &Vec<i32>)
        ensures
            r@ == self@.hot_stack,
    {
        &self.hot_stack
    }

    /// All memos, in store order.
    pub fn memos_list(&self) -> (r: &Vec<MemoData>)
        ensures
            crate::models::memo_views(r@) == self@.memos,
    {
        &self.memos
    }

    /// The configuration the board was built with.
    pub fn config(&self) -> (r: Config)
        ensures
            r.max_hot_count == self@.max_hot_count,
            r.cold_spotlight_interval_seconds == self@.cold_spotlight_interval_seconds,
    {
        self.config
    }

    /// The memo with this identifier, if it exists.
    pub fn get_memo(&self, id: i32) -> (r: Option<&MemoData>)
        requires
            self@.wf(),
        ensures
            match r {
                Some(m) => self@.has_memo(id) && m@ == self@.memo_of(id),
                None => !self@.has_memo(id),
            },
    {
        match self.find_memo_index(id) {
            Some(i) => {
                proof {
                    lemma_memo_ix_unique(self@, id, i as int);
                }
                Some(&self.memos[i])
            },
            None => None,
        }
    }

    /// Take a memo's text back for re-editing and delete the memo. The
    /// caller receives the title and body joined by a line break (the body
    /// omitted when empty), or nothing when the memo does not exist.
    pub fn replace_memo(&mut self, id: i32) -> (r: Option<String>)
        requires
            old(self)@.wf(),
        ensures
            final(self)@.wf(),
            old(self)@.has_memo(id) ==> r is Some && r.unwrap()@ == crate::text::spec_edit_text(
                old(self)@.memo_of(id).title,
                old(self)@.memo_of(id).body,
            ) && final(self)@ == old(self)@.spec_delete(id),
            !old(self)@.has_memo(id) ==> r is None && final(self)@ == old(self)@,
    {
        match self.find_memo_index(id) {
            Some(i) => {
                proof {
                    lemma_memo_ix_unique(old(self)@, id, i as int);
                }
                let m = &self.memos[i];
                let text = crate::text::edit_text(m.title.as_str(), m.body.as_str());
                self.delete_memo(id);
                Some(text)
            },
            None => {
                proof {
                    assert(final(self)@ == old(self)@);
                }
                None
            },
        }
    }

    /// Complete a memo: it becomes `Done`, records `now` as its completion
    /// time, and leaves the hot stack.
    pub fn move_to_done(&mut self, id: i32, now: u64)
        requires
            old(self)@.wf(),
        ensures
            final(self)@ == old(self)@.spec_complete(id, now),
            final(self)@.wf(),
    {
        self.set_memo_status(id, MemoStatus::Done, Some(now));
        self.stack_remove(id);
        proof {
            lemma_retire_wf(old(self)@, id, MemoStatus::Done, Some(now));
            assert(final(self)@ =~= old(self)@.spec_complete(id, now));
        }
    }
}

/// Promoting a memo preserves the board invariant.
pub proof fn lemma_promote_wf(b: BoardModel, id: i32)
    requires
        b.wf(),
    ensures
        b.spec_promote(id).wf(),
{
    if b.has_memo(id) {
        lemma_make_hot_wf(b, id);
        let b1 = BoardModel {
            memos: set_status_map(b.memos, id, MemoStatus::Hot, None),
            hot_stack: remove_id(b.hot_stack, id),
            ..b
        };
        lemma_push_front_evict_wf(b1, id);
    }
}

/// Capturing a memo under a fresh identifier preserves the board
/// invariant.
pub proof fn lemma_capture_wf(
    b: BoardModel,
    id: i32,
    title: Seq<char>,
    body: Seq<char>,
    delay_minutes: Option<u32>,
    now: u64,
)
    requires
        b.wf(),
        !b.has_memo(id),
    ensures
        b.spec_capture(id, title, body, delay_minutes, now).wf(),
{
    let eff = effective_delay(delay_minutes);
    let st = if eff is Some {
        MemoStatus::Delayed
    } else {
        MemoStatus::Hot
    };
    let m = MemoModel {
        id,
        title,
        body,
        status: st,
        creation_date: now,
        moved_to_done_date: None,
        delay_minutes: eff,
        expanded: false,
    };
    lemma_push_memo_wf(b, m);
    lemma_stack_fresh(b, id);
    let b1 = BoardModel { memos: b.memos.push(m), ..b };
    if st == MemoStatus::Hot {
        lemma_push_front_evict_wf(b1, id);
    }
}

/// Promoting one memo leaves every non-`Hot` memo under another
/// identifier untouched.
pub proof fn lemma_promote_preserves_other(b: BoardModel, x: i32, id: i32)
    requires
        b.wf(),
        b.has_memo(id),
        x != id,
        b.memo_of(id).status != MemoStatus::Hot,
    ensures
        b.spec_promote(x).wf(),
        b.spec_promote(x).has_memo(id),
        b.spec_promote(x).memo_of(id) == b.memo_of(id),
{
    lemma_promote_wf(b, x);
    let ix = b.memo_ix(id);
    assert(b.memos[ix].id == id);
    if b.has_memo(x) {
        lemma_make_hot_wf(b, x);
        let b1 = BoardModel {
            memos: set_status_map(b.memos, x, MemoStatus::Hot, None),
            hot_stack: remove_id(b.hot_stack, x),
            ..b
        };
        assert(b1.memos[ix] == b.memos[ix]);
        lemma_memo_ix_unique(b1, id, ix);
        let post = b1.spec_push_front_evict(x);
        let pushed = seq![x] + b1.hot_stack;
        if pushed.len() > b1.max_hot_count {
            let ev = pushed.last();
            assert(ev != id) by {
                if ev == x {
                } else {
                    assert(pushed[pushed.len() - 1] == ev);
                    assert(b1.hot_stack[pushed.len() - 2] == ev);
                    assert(b1.hot_stack.contains(ev));
                    assert(b1.memo_of(ev).status == MemoStatus::Hot);
                    if ev == id {
                        assert(b1.memo_of(id) == b.memo_of(id));
                    }
                }
            }
            assert(post.memos[ix] == b.memos[ix]);
            lemma_memo_ix_unique(post, id, ix);
        } else {
            lemma_memo_ix_unique(post, id, ix);
        }
    }
}

/// Promoting an existing memo (with any capacity at all) leaves it `Hot`,
/// cleared of any completion time, and at the stack front.
pub proof fn lemma_promote_effect(b: BoardModel, id: i32)
    requires
        b.wf(),
        b.has_memo(id),
        b.max_hot_count >= 1,
    ensures
        b.spec_promote(id).wf(),
        b.spec_promote(id).has_memo(id),
        b.spec_promote(id).memo_of(id).status == MemoStatus::Hot,
        b.spec_promote(id).memo_of(id).moved_to_done_date is None,
        b.spec_promote(id).hot_stack.len() >= 1,
        b.spec_promote(id).hot_stack[0] == id,
{
    lemma_promote_wf(b, id);
    lemma_make_hot_wf(b, id);
    let b1 = BoardModel {
        memos: set_status_map(b.memos, id, MemoStatus::Hot, None),
        hot_stack: remove_id(b.hot_stack, id),
        ..b
    };
    let ix = b.memo_ix(id);
    assert(b.memos[ix].id == id);
    assert(b1.memos[ix].id == id && b1.memos[ix].status == MemoStatus::Hot
        && b1.memos[ix].moved_to_done_date is None);
    let post = b1.spec_push_front_evict(id);
    let pushed = seq![id] + b1.hot_stack;
    assert(pushed[0] == id);
    if pushed.len() > b1.max_hot_count {
        let ev = pushed.last();
        assert(pushed.len() >= 2);
        assert(ev == b1.hot_stack[pushed.len() - 2]);
        assert(ev != id) by {
            lemma_remove_id_nodup(b.hot_stack, id);
            assert(b1.hot_stack.contains(ev));
        }
        assert(post.memos[ix] == b1.memos[ix]);
        lemma_memo_ix_unique(post, id, ix);
        assert(post.hot_stack == pushed.drop_last());
        assert(post.hot_stack[0] == id);
    } else {
        lemma_memo_ix_unique(post, id, ix);
    }
}

/// Setting a memo to a non-`Hot` status and dropping it from the stack
/// preserves the board invariant.
proof fn lemma_retire_wf(b: BoardModel, id: i32, st: MemoStatus, done: Option<u64>)
    requires
        b.wf(),
        st != MemoStatus::Hot,
        (st == MemoStatus::Done) <==> (done is Some),
    ensures
        (BoardModel {
            memos: set_status_map(b.memos, id, st, done),
            hot_stack: remove_id(b.hot_stack, id),
            ..b
        }).wf(),
{
    let post = BoardModel {
        memos: set_status_map(b.memos, id, st, done),
        hot_stack: remove_id(b.hot_stack, id),
        ..b
    };
    lemma_remove_id_nodup(b.hot_stack, id);
    lemma_remove_id_contains(b.hot_stack, id);
    assert(ids_unique(post.memos)) by {
        assert(forall|i: int| 0 <= i < post.memos.len() ==> post.memos[i].id == b.memos[i].id);
    }
    assert forall|k: int| 0 <= k < post.hot_stack.len() implies post.has_memo(
        #[trigger] post.hot_stack[k],
    ) && post.memo_of(post.hot_stack[k]).status == MemoStatus::Hot by {
        let x = post.hot_stack[k];
        assert(post.hot_stack.contains(x));
        assert(b.hot_stack.contains(x) && x != id);
        let k0 = choose|k0: int| 0 <= k0 < b.hot_stack.len() && b.hot_stack[k0] == x;
        assert(b.hot_stack[k0] == x);
        let i = b.memo_ix(x);
        assert(0 <= i < b.memos.len() && b.memos[i].id == x && b.memos[i].status
            == MemoStatus::Hot);
        assert(post.memos[i] == b.memos[i]);
        lemma_memo_ix_unique(post, x, i);
    }
    assert(forall|i: int| 0 <= i < post.memos.len() ==> post.memos[i].wf()) by {
        assert(forall|i: int|
            0 <= i < b.memos.len() && b.memos[i].id != id ==> post.memos[i] == b.memos[i]);
    }
    assert(nodup(post.hot_stack));
    assert(post.hot_stack.len() <= post.max_hot_count);
    assert(post.wf());
}

proof fn lemma_remove_id_len_lt(s: Seq<i32>, id: i32)
    requires
        s.contains(id),
    ensures
        remove_id(s, id).len() < s.len(),
    decreases s.len(),
{
    lemma_remove_id_contains(s, id);
    if s.last() == id {
        lemma_remove_id_contains(s.drop_last(), id);
    } else {
        assert(s.drop_last().contains(id)) by {
            let k = choose|k: int| 0 <= k < s.len() && s[k] == id;
            assert(k < s.len() - 1);
            assert(s.drop_last()[k] == id);
        }
        lemma_remove_id_len_lt(s.drop_last(), id);
    }
}

proof fn lemma_remove_id_first(s: Seq<i32>, id: i32)
    requires
        nodup(s),
        s.len() > 0,
        s[0] == id,
    ensures
        remove_id(s, id) == s.drop_first(),
    decreases s.len(),
{
    if s.len() == 1 {
        reveal_with_fuel(remove_id, 2);
        assert(remove_id(s, id) =~= s.drop_first());
    } else {
        assert(nodup(s.drop_last())) by {
            assert(forall|i: int, j: int|
                0 <= i < j < s.drop_last().len() ==> s.drop_last()[i] == s[i] && s.drop_last()[j]
                    == s[j]);
        }
        assert(s.drop_last()[0] == id);
        lemma_remove_id_first(s.drop_last(), id);
        assert(s.last() != id) by {
            assert(s[0] == id && s[s.len() - 1] == s.last());
        }
        assert(remove_id(s, id) =~= s.drop_first()) by {
            assert(remove_id(s, id) == s.drop_last().drop_first().push(s.last()));
            assert(s.drop_last().drop_first().push(s.last()) =~= s.drop_first());
        }
    }
}

/// A fresh identifier cannot already be on the hot stack.
proof fn lemma_stack_fresh(b: BoardModel, id: i32)
    requires
        b.wf(),
        !b.has_memo(id),
    ensures
        !b.hot_stack.contains(id),
{
    if b.hot_stack.contains(id) {
        let k = choose|k: int| 0 <= k < b.hot_stack.len() && b.hot_stack[k] == id;
        assert(b.has_memo(b.hot_stack[k]));
    }
}

/// Appending a fresh well-formed memo preserves the board invariant and
/// does not disturb the memos already present.
proof fn lemma_push_memo_wf(b: BoardModel, m: MemoModel)
    requires
        b.wf(),
        !b.has_memo(m.id),
        m.wf(),
    ensures
        (BoardModel { memos: b.memos.push(m), ..b }).wf(),
        (BoardModel { memos: b.memos.push(m), ..b }).has_memo(m.id),
        (BoardModel { memos: b.memos.push(m), ..b }).memo_of(m.id) == m,
{
    let post = BoardModel { memos: b.memos.push(m), ..b };
    assert(ids_unique(post.memos)) by {
        assert(forall|i: int| 0 <= i < b.memos.len() ==> post.memos[i] == b.memos[i]);
        assert(post.memos[b.memos.len() as int] == m);
        assert(forall|i: int|
            0 <= i < b.memos.len() ==> #[trigger] b.memos[i].id != m.id) by {
            if exists|i: int| 0 <= i < b.memos.len() && #[trigger] b.memos[i].id == m.id {
                assert(b.has_memo(m.id));
            }
        }
    }
    lemma_memo_ix_unique(post, m.id, b.memos.len() as int);
    assert forall|k: int| 0 <= k < post.hot_stack.len() implies post.has_memo(
        #[trigger] post.hot_stack[k],
    ) && post.memo_of(post.hot_stack[k]).status == MemoStatus::Hot by {
        let x = post.hot_stack[k];
        assert(b.has_memo(x) && b.memo_of(x).status == MemoStatus::Hot);
        let i = b.memo_ix(x);
        assert(post.memos[i] == b.memos[i]);
        lemma_memo_ix_unique(post, x, i);
    }
    assert(post.wf());
}

/// Pushing a `Hot` memo's identifier to the stack front, with the eviction
/// check, preserves the board invariant.
proof fn lemma_push_front_evict_wf(b: BoardModel, id: i32)
    requires
        b.wf(),
        b.has_memo(id),
        b.memo_of(id).status == MemoStatus::Hot,
        !b.hot_stack.contains(id),
    ensures
        b.spec_push_front_evict(id).wf(),
{
    let pushed = seq![id] + b.hot_stack;
    assert(nodup(pushed)) by {
        assert(forall|k: int| 0 <= k < b.hot_stack.len() ==> #[trigger] b.hot_stack[k] != id);
        assert(forall|k: int| 1 <= k < pushed.len() ==> pushed[k] == b.hot_stack[k - 1]);
    }
    let post = b.spec_push_front_evict(id);
    if pushed.len() > b.max_hot_count {
        let ev = pushed.last();
        assert(ids_unique(post.memos)) by {
            assert(forall|i: int|
                0 <= i < post.memos.len() ==> (#[trigger] post.memos[i]).id == b.memos[i].id);
        }
        assert(forall|i: int| 0 <= i < post.memos.len() ==> (#[trigger] post.memos[i]).wf()) by {
            assert(forall|i: int|
                0 <= i < b.memos.len() && b.memos[i].id != ev ==> post.memos[i] == b.memos[i]);
        }
        assert(nodup(post.hot_stack)) by {
            assert(forall|k: int|
                0 <= k < post.hot_stack.len() ==> post.hot_stack[k] == pushed[k]);
        }
        assert forall|k: int| 0 <= k < post.hot_stack.len() implies post.has_memo(
            #[trigger] post.hot_stack[k],
        ) && post.memo_of(post.hot_stack[k]).status == MemoStatus::Hot by {
            let x = post.hot_stack[k];
            assert(x == pushed[k]);
            assert(x != ev) by {
                assert(pushed[pushed.len() - 1] == ev);
            }
            assert(b.has_memo(x) && b.memo_of(x).status == MemoStatus::Hot) by {
                if k > 0 {
                    assert(x == b.hot_stack[k - 1]);
                }
            }
            let i = b.memo_ix(x);
            assert(post.memos[i] == b.memos[i]);
            lemma_memo_ix_unique(post, x, i);
        }
        assert(post.hot_stack.len() <= post.max_hot_count);
        assert(post.wf());
    } else {
        assert forall|k: int| 0 <= k < post.hot_stack.len() implies post.has_memo(
            #[trigger] post.hot_stack[k],
        ) && post.memo_of(post.hot_stack[k]).status == MemoStatus::Hot by {
            let x = post.hot_stack[k];
            if k > 0 {
                assert(x == b.hot_stack[k - 1]);
            }
        }
        assert(post.wf());
    }
}

/// Setting a memo `Hot` and taking it off the stack (the step before the
/// push to the front) preserves the invariant and leaves the memo `Hot`.
proof fn lemma_make_hot_wf(b: BoardModel, id: i32)
    requires
        b.wf(),
        b.has_memo(id),
    ensures
        ({
            let b1 = BoardModel {
                memos: set_status_map(b.memos, id, MemoStatus::Hot, None),
                hot_stack: remove_id(b.hot_stack, id),
                ..b
            };
            &&& b1.wf()
            &&& b1.has_memo(id)
            &&& b1.memo_of(id).status == MemoStatus::Hot
            &&& !b1.hot_stack.contains(id)
        }),
{
    let b1 = BoardModel {
        memos: set_status_map(b.memos, id, MemoStatus::Hot, None),
        hot_stack: remove_id(b.hot_stack, id),
        ..b
    };
    lemma_remove_id_nodup(b.hot_stack, id);
    lemma_remove_id_contains(b.hot_stack, id);
    assert(ids_unique(b1.memos)) by {
        assert(forall|i: int|
            0 <= i < b1.memos.len() ==> (#[trigger] b1.memos[i]).id == b.memos[i].id);
    }
    assert(forall|i: int| 0 <= i < b1.memos.len() ==> (#[trigger] b1.memos[i]).wf()) by {
        assert(forall|i: int|
            0 <= i < b.memos.len() && b.memos[i].id != id ==> b1.memos[i] == b.memos[i]);
    }
    let i0 = b.memo_ix(id);
    assert(b.memos[i0].id == id);
    assert(b1.memos[i0].id == id && b1.memos[i0].status == MemoStatus::Hot);
    lemma_memo_ix_unique(b1, id, i0);
    assert forall|k: int| 0 <= k < b1.hot_stack.len() implies b1.has_memo(
        #[trigger] b1.hot_stack[k],
    ) && b1.memo_of(b1.hot_stack[k]).status == MemoStatus::Hot by {
        let x = b1.hot_stack[k];
        assert(b1.hot_stack.contains(x));
        assert(b.hot_stack.contains(x) && x != id);
        let k0 = choose|k0: int| 0 <= k0 < b.hot_stack.len() && b.hot_stack[k0] == x;
        assert(b.hot_stack[k0] == x);
        let i = b.memo_ix(x);
        assert(b1.memos[i] == b.memos[i]);
        lemma_memo_ix_unique(b1, x, i);
    }
    assert(b1.wf());
}

} // verus!
