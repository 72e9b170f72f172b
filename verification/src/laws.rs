//! Laws of the lifecycle core, stated and proved over the board model.
//!
//! Each law here relates several operations, or holds of every reachable
//! state; properties of a single operation stand in that operation's own
//! `ensures`.

use vstd::prelude::*;

use crate::board::is_ready;
use crate::board::ready_ids;
use crate::board::BoardModel;
use crate::models::MemoModel;
use crate::models::MemoStatus;
use crate::storage::clean_stack;
use crate::storage::decode_all;
use crate::storage::encode_all;
use crate::storage::is_hot_in;
use crate::storage::lemma_record_round_trip;
use crate::storage::spec_load;
use crate::storage::spec_to_record;
use crate::models::Config;

verus! {

/// One step of a capture-or-promote history. A capture of an identifier
/// already in use is a no-op here, as storage never hands one out.
pub ghost enum HotOp {
    Capture { id: i32, title: Seq<char>, body: Seq<char>, now: u64 },
    Promote { id: i32 },
}

/// The board after one capture-or-promote step.
pub open spec fn apply_hot_op(b: BoardModel, op: HotOp) -> BoardModel {
    match op {
        HotOp::Capture { id, title, body, now } => if b.has_memo(id) {
            b
        } else {
            b.spec_capture(id, title, body, None, now)
        },
        HotOp::Promote { id } => b.spec_promote(id),
    }
}

/// The board after a whole capture-or-promote history.
pub open spec fn apply_hot_ops(b: BoardModel, ops: Seq<HotOp>) -> BoardModel
    decreases ops.len(),
{
    if ops.len() == 0 {
        b
    } else {
        apply_hot_ops(apply_hot_op(b, ops[0]), ops.drop_first())
    }
}

/// For every sequence of captures and promotions from a well-formed
/// board, the hot stack length never exceeds the configured capacity
/// after any operation completes.
pub proof fn lemma_capture_promote_capacity(b: BoardModel, ops: Seq<HotOp>)
    requires
        b.wf(),
    ensures
        apply_hot_ops(b, ops).wf(),
        apply_hot_ops(b, ops).max_hot_count == b.max_hot_count,
        apply_hot_ops(b, ops).hot_stack.len() <= b.max_hot_count,
    decreases ops.len(),
{
    if ops.len() > 0 {
        let b1 = apply_hot_op(b, ops[0]);
        match ops[0] {
            HotOp::Capture { id, title, body, now } => {
                if !b.has_memo(id) {
                    crate::board::lemma_capture_wf(b, id, title, body, None, now);
                }
            },
            HotOp::Promote { id } => {
                crate::board::lemma_promote_wf(b, id);
            },
        }
        lemma_capture_promote_capacity(b1, ops.drop_first());
    }
}

/// In every well-formed board — and every operation yields one — a memo
/// carries a completion time exactly while its status is `Done`.
pub proof fn lemma_completion_iff_done(b: BoardModel, i: int)
    requires
        b.wf(),
        0 <= i < b.memos.len(),
    ensures
        b.memos[i].moved_to_done_date is Some <==> b.memos[i].status == MemoStatus::Done,
{
}

/// A memo captured with a positive delay is `Delayed` immediately after,
/// with its delay and creation time on record, and off the hot stack.
pub proof fn lemma_capture_delayed(
    b: BoardModel,
    id: i32,
    title: Seq<char>,
    body: Seq<char>,
    d: u32,
    now: u64,
)
    requires
        b.wf(),
        !b.has_memo(id),
        d > 0,
    ensures
        ({
            let bn = b.spec_capture(id, title, body, Some(d), now);
            &&& bn.wf()
            &&& bn.has_memo(id)
            &&& bn.memo_of(id).status == MemoStatus::Delayed
            &&& bn.memo_of(id).delay_minutes == Some(d)
            &&& bn.memo_of(id).creation_date == now
            &&& !bn.hot_stack.contains(id)
            &&& bn.hot_stack == b.hot_stack
        }),
{
    crate::board::lemma_capture_wf(b, id, title, body, Some(d), now);
    let bn = b.spec_capture(id, title, body, Some(d), now);
    crate::board::lemma_memo_ix_unique(bn, id, b.memos.len() as int);
    assert(!bn.hot_stack.contains(id)) by {
        if bn.hot_stack.contains(id) {
            let k = choose|k: int| 0 <= k < bn.hot_stack.len() && bn.hot_stack[k] == id;
            assert(b.hot_stack[k] == id);
            assert(b.has_memo(b.hot_stack[k]));
        }
    }
}

/// A delayed memo whose ready time has not come stays `Delayed`, wholly
/// unchanged, through a polling pass at that time.
pub proof fn lemma_not_due_stays_delayed(b: BoardModel, now: u64, id: i32)
    requires
        b.wf(),
        b.has_memo(id),
        b.memo_of(id).status == MemoStatus::Delayed,
        !is_ready(b.memo_of(id), now),
    ensures
        b.spec_check_promote(now).wf(),
        b.spec_check_promote(now).has_memo(id),
        b.spec_check_promote(now).memo_of(id) == b.memo_of(id),
{
    let ready = ready_ids(b.memos, now);
    assert forall|k: int| 0 <= k < ready.len() implies #[trigger] ready[k] != id by {
        let pred = |m: MemoModel| is_ready(m, now);
        crate::board::lemma_filter_member(b.memos, pred, k);
        let i = choose|i: int| 0 <= i < b.memos.len() && b.memos[i] == b.memos.filter(pred)[k];
        b.memos.lemma_filter_pred(pred, k);
        if b.memos[i].id == id {
            crate::board::lemma_memo_ix_unique(b, id, i);
        }
    }
    lemma_promote_all_skips(b, ready, now, id);
}

proof fn lemma_promote_all_skips(b: BoardModel, ids: Seq<i32>, now: u64, id: i32)
    requires
        b.wf(),
        b.has_memo(id),
        b.memo_of(id).status != MemoStatus::Hot,
        forall|k: int| 0 <= k < ids.len() ==> #[trigger] ids[k] != id,
    ensures
        b.spec_promote_all(ids).wf(),
        b.spec_promote_all(ids).has_memo(id),
        b.spec_promote_all(ids).memo_of(id) == b.memo_of(id),
    decreases ids.len(),
{
    if ids.len() > 0 {
        crate::board::lemma_promote_preserves_other(b, ids[0], id);
        lemma_promote_all_skips(b.spec_promote(ids[0]), ids.drop_first(), now, id);
    }
}

proof fn lemma_filter_none(memos: Seq<MemoModel>, pred: spec_fn(MemoModel) -> bool)
    requires
        forall|i: int| 0 <= i < memos.len() ==> !pred(#[trigger] memos[i]),
    ensures
        memos.filter(pred) == Seq::<MemoModel>::empty(),
    decreases memos.len(),
{
    reveal(Seq::filter);
    if memos.len() > 0 {
        assert(forall|i: int|
            0 <= i < memos.drop_last().len() ==> memos.drop_last()[i] == memos[i]);
        lemma_filter_none(memos.drop_last(), pred);
        assert(!pred(memos.last())) by {
            assert(memos[memos.len() - 1] == memos.last());
        }
    }
}

proof fn lemma_filter_single(memos: Seq<MemoModel>, pred: spec_fn(MemoModel) -> bool, ix: int)
    requires
        0 <= ix < memos.len(),
        pred(memos[ix]),
        forall|i: int| 0 <= i < memos.len() && i != ix ==> !pred(#[trigger] memos[i]),
    ensures
        memos.filter(pred) == seq![memos[ix]],
    decreases memos.len(),
{
    reveal(Seq::filter);
    if ix == memos.len() - 1 {
        assert(forall|i: int|
            0 <= i < memos.drop_last().len() ==> memos.drop_last()[i] == memos[i]);
        lemma_filter_none(memos.drop_last(), pred);
        assert(memos.last() == memos[ix]);
        assert(memos.filter(pred) =~= seq![memos[ix]]);
    } else {
        assert(forall|i: int|
            0 <= i < memos.drop_last().len() ==> memos.drop_last()[i] == memos[i]);
        lemma_filter_single(memos.drop_last(), pred, ix);
        assert(!pred(memos.last())) by {
            assert(memos[memos.len() - 1] == memos.last());
        }
        assert(memos.filter(pred) =~= seq![memos[ix]]);
    }
}

/// A delayed memo whose ready time has come — and no other memo due with
/// it — is `Hot` and at the stack front after a polling pass.
pub proof fn lemma_due_promoted(b: BoardModel, now: u64, id: i32)
    requires
        b.wf(),
        b.max_hot_count >= 1,
        b.has_memo(id),
        b.memo_of(id).status == MemoStatus::Delayed,
        is_ready(b.memo_of(id), now),
        forall|i: int|
            0 <= i < b.memos.len() && (#[trigger] b.memos[i]).id != id ==> !is_ready(
                b.memos[i],
                now,
            ),
    ensures
        b.spec_check_promote(now).wf(),
        b.spec_check_promote(now).has_memo(id),
        b.spec_check_promote(now).memo_of(id).status == MemoStatus::Hot,
        b.spec_check_promote(now).memo_of(id).moved_to_done_date is None,
        b.spec_check_promote(now).hot_stack.len() >= 1,
        b.spec_check_promote(now).hot_stack[0] == id,
{
    let ix = b.memo_ix(id);
    assert(b.memos[ix].id == id);
    let pred = |m: MemoModel| is_ready(m, now);
    assert(pred(b.memos[ix]));
    lemma_filter_single(b.memos, pred, ix);
    assert(ready_ids(b.memos, now) =~= seq![id]);
    reveal_with_fuel(BoardModel::spec_promote_all, 3);
    assert(seq![id].drop_first() =~= Seq::<i32>::empty());
    assert(b.spec_check_promote(now) == b.spec_promote(id));
    crate::board::lemma_promote_effect(b, id);
}

/// A hot capture: the memo a capture without delay creates.
pub open spec fn hot_memo(cap: (i32, Seq<char>, Seq<char>, u64)) -> MemoModel {
    MemoModel {
        id: cap.0,
        title: cap.1,
        body: cap.2,
        status: MemoStatus::Hot,
        creation_date: cap.3,
        moved_to_done_date: None,
        delay_minutes: None,
        expanded: false,
    }
}

/// The board after a run of captures without delay, each of (identifier,
/// title, body, time).
pub open spec fn capture_all(b: BoardModel, caps: Seq<(i32, Seq<char>, Seq<char>, u64)>) -> BoardModel
    decreases caps.len(),
{
    if caps.len() == 0 {
        b
    } else {
        capture_all(
            b.spec_capture(caps[0].0, caps[0].1, caps[0].2, None, caps[0].3),
            caps.drop_first(),
        )
    }
}

/// The memos such a run creates, in capture order.
pub open spec fn captured_memos(caps: Seq<(i32, Seq<char>, Seq<char>, u64)>) -> Seq<MemoModel> {
    Seq::new(caps.len(), |k: int| hot_memo(caps[k]))
}

/// The identifiers of such a run, in capture order.
pub open spec fn cap_ids(caps: Seq<(i32, Seq<char>, Seq<char>, u64)>) -> Seq<i32> {
    Seq::new(caps.len(), |k: int| caps[k].0)
}

/// Pairwise distinct identifiers, all unused on the board.
pub open spec fn caps_fresh(b: BoardModel, caps: Seq<(i32, Seq<char>, Seq<char>, u64)>) -> bool {
    &&& forall|i: int, j: int| 0 <= i < j < caps.len() ==> caps[i].0 != caps[j].0
    &&& forall|k: int| 0 <= k < caps.len() ==> !b.has_memo((#[trigger] caps[k]).0)
}

/// Hot captures that fit the remaining capacity stack up newest first,
/// with no eviction.
proof fn lemma_capture_fill(b: BoardModel, caps: Seq<(i32, Seq<char>, Seq<char>, u64)>)
    requires
        b.wf(),
        caps_fresh(b, caps),
        b.hot_stack.len() + caps.len() <= b.max_hot_count,
    ensures
        capture_all(b, caps).wf(),
        capture_all(b, caps).memos == b.memos + captured_memos(caps),
        capture_all(b, caps).hot_stack == cap_ids(caps).reverse() + b.hot_stack,
        capture_all(b, caps).max_hot_count == b.max_hot_count,
    decreases caps.len(),
{
    if caps.len() == 0 {
        assert(capture_all(b, caps).memos =~= b.memos + captured_memos(caps));
        assert(capture_all(b, caps).hot_stack =~= cap_ids(caps).reverse() + b.hot_stack);
    } else {
        let c0 = caps[0];
        crate::board::lemma_capture_wf(b, c0.0, c0.1, c0.2, None, c0.3);
        let b1 = b.spec_capture(c0.0, c0.1, c0.2, None, c0.3);
        assert(b1.memos == b.memos.push(hot_memo(c0)) && b1.hot_stack == seq![c0.0] + b.hot_stack
            && b1.max_hot_count == b.max_hot_count) by {
            let m = hot_memo(c0);
            let bp = BoardModel { memos: b.memos.push(m), ..b };
            let pushed = seq![c0.0] + b.hot_stack;
            assert(pushed.len() <= b.max_hot_count);
            assert(b1 == bp.spec_push_front_evict(c0.0));
        }
        assert(caps_fresh(b1, caps.drop_first())) by {
            assert forall|k: int|
                0 <= k < caps.drop_first().len() implies !b1.has_memo(
                (#[trigger] caps.drop_first()[k]).0,
            ) by {
                let x = caps.drop_first()[k].0;
                assert(caps[k + 1].0 == x);
                assert(x != c0.0);
                assert(!b.has_memo(x));
                if b1.has_memo(x) {
                    let i = choose|i: int| 0 <= i < b1.memos.len() && b1.memos[i].id == x;
                    if i < b.memos.len() {
                        assert(b.memos[i].id == x);
                    } else {
                        assert(b1.memos[i] == hot_memo(c0));
                    }
                }
            }
        }
        lemma_capture_fill(b1, caps.drop_first());
        assert(capture_all(b, caps) == capture_all(b1, caps.drop_first()));
        assert(capture_all(b, caps).memos =~= b.memos + captured_memos(caps)) by {
            assert(capture_all(b1, caps.drop_first()).memos == b1.memos + captured_memos(
                caps.drop_first(),
            ));
            assert(forall|k: int|
                0 <= k < caps.drop_first().len() ==> #[trigger] captured_memos(
                    caps.drop_first(),
                )[k] == hot_memo(caps[k + 1]));
        }
        assert(capture_all(b, caps).hot_stack =~= cap_ids(caps).reverse() + b.hot_stack) by {
            assert(capture_all(b1, caps.drop_first()).hot_stack == cap_ids(
                caps.drop_first(),
            ).reverse() + (seq![c0.0] + b.hot_stack));
            assert(forall|k: int|
                0 <= k < caps.drop_first().len() ==> #[trigger] cap_ids(caps.drop_first())[k]
                    == caps[k + 1].0);
        }
    }
}

/// Eviction determinism: capturing one more hot memo than the capacity
/// admits, on an empty board, archives exactly the first one; the rest
/// fill the hot stack newest first.
pub proof fn lemma_eviction_determinism(b0: BoardModel, caps: Seq<(i32, Seq<char>, Seq<char>, u64)>)
    requires
        b0.wf(),
        b0.memos.len() == 0,
        b0.hot_stack.len() == 0,
        caps_fresh(b0, caps),
        caps.len() == b0.max_hot_count + 1,
    ensures
        ({
            let bn = capture_all(b0, caps);
            &&& bn.wf()
            &&& bn.memos.len() == caps.len()
            &&& forall|k: int| 0 <= k < caps.len() ==> bn.memos[k].id == (#[trigger] caps[k]).0
            &&& bn.has_memo(caps[0].0) && bn.memo_of(caps[0].0).status == MemoStatus::Cold
            &&& forall|k: int|
                1 <= k < caps.len() ==> bn.has_memo((#[trigger] caps[k]).0) && bn.memo_of(
                    caps[k].0,
                ).status == MemoStatus::Hot
            &&& bn.hot_stack == cap_ids(caps).drop_first().reverse()
        }),
{
    let n = (caps.len() - 1) as int;
    let front = caps.take(n);
    let last = caps[n];
    assert(caps_fresh(b0, front)) by {
        assert(forall|k: int| 0 <= k < front.len() ==> front[k] == caps[k]);
    }
    lemma_capture_fill(b0, front);
    let bn1 = capture_all(b0, front);
    assert(bn1.memos =~= captured_memos(front));
    assert(bn1.hot_stack =~= cap_ids(front).reverse());
    assert(bn1.hot_stack.len() == n);
    lemma_capture_all_snoc(b0, front, last);
    assert(front.push(last) =~= caps);
    let bn = bn1.spec_capture(last.0, last.1, last.2, None, last.3);
    assert(capture_all(b0, caps) == bn);
    assert(!bn1.has_memo(last.0)) by {
        if bn1.has_memo(last.0) {
            let i = choose|i: int| 0 <= i < bn1.memos.len() && bn1.memos[i].id == last.0;
            assert(bn1.memos[i] == hot_memo(front[i]));
            assert(caps[i].0 == caps[n].0);
        }
    }
    crate::board::lemma_capture_wf(bn1, last.0, last.1, last.2, None, last.3);
    let m_last = hot_memo(last);
    let bp = BoardModel { memos: bn1.memos.push(m_last), ..bn1 };
    let pushed = seq![last.0] + bn1.hot_stack;
    assert(pushed.len() == n + 1);
    assert(pushed.len() > bn1.max_hot_count);
    let ev = pushed.last();
    assert(ev == caps[0].0) by {
        if n == 0 {
            assert(pushed =~= seq![last.0]);
            assert(caps[0] == last);
        } else {
            assert(pushed[n] == bn1.hot_stack[n - 1]);
            assert(cap_ids(front).reverse()[n - 1] == cap_ids(front)[0]);
        }
    }
    assert(bn == (BoardModel {
        memos: crate::board::set_status_map(bp.memos, ev, MemoStatus::Cold, None),
        hot_stack: pushed.drop_last(),
        ..bp
    }));
    assert(bn.memos.len() == caps.len());
    assert forall|k: int| 0 <= k < caps.len() implies bn.memos[k].id == (#[trigger] caps[k]).0 by {
        assert(bp.memos[k].id == caps[k].0) by {
            if k < n {
                assert(bp.memos[k] == hot_memo(front[k]));
            } else {
                assert(bp.memos[k] == m_last);
            }
        }
    }
    assert forall|k: int| 0 <= k < caps.len() implies #[trigger] bn.memos[k].status == (if k == 0 {
        MemoStatus::Cold
    } else {
        MemoStatus::Hot
    }) by {
        assert(bp.memos[k].id == caps[k].0);
        if k == 0 {
            assert(bp.memos[0].id == ev);
        } else {
            assert(caps[k].0 != caps[0].0);
            assert(bp.memos[k].status == MemoStatus::Hot) by {
                if k < n {
                    assert(bp.memos[k] == hot_memo(front[k]));
                } else {
                    assert(bp.memos[k] == m_last);
                }
            }
        }
    }
    assert(bn.wf());
    crate::board::lemma_memo_ix_unique(bn, caps[0].0, 0);
    assert forall|k: int|
        1 <= k < caps.len() implies bn.has_memo((#[trigger] caps[k]).0) && bn.memo_of(
        caps[k].0,
    ).status == MemoStatus::Hot by {
        crate::board::lemma_memo_ix_unique(bn, caps[k].0, k);
    }
    assert(bn.hot_stack =~= cap_ids(caps).drop_first().reverse()) by {
        assert(bn.hot_stack == pushed.drop_last());
        assert(bn.hot_stack.len() == n);
        assert forall|i: int|
            0 <= i < n implies bn.hot_stack[i] == cap_ids(caps).drop_first().reverse()[i] by {
            assert(cap_ids(caps).drop_first().reverse()[i] == caps[n - i].0);
            if i == 0 {
                assert(pushed[0] == last.0);
            } else {
                assert(pushed[i] == bn1.hot_stack[i - 1]);
                assert(cap_ids(front).reverse()[i - 1] == cap_ids(front)[n - i]);
            }
        }
    }
}

proof fn lemma_capture_all_snoc(
    b: BoardModel,
    caps: Seq<(i32, Seq<char>, Seq<char>, u64)>,
    last: (i32, Seq<char>, Seq<char>, u64),
)
    ensures
        capture_all(b, caps.push(last)) == capture_all(b, caps).spec_capture(
            last.0,
            last.1,
            last.2,
            None,
            last.3,
        ),
    decreases caps.len(),
{
    if caps.len() == 0 {
        reveal_with_fuel(capture_all, 3);
        assert(caps.push(last)[0] == last);
        assert(caps.push(last).drop_first() =~= Seq::<(i32, Seq<char>, Seq<char>, u64)>::empty());
    } else {
        assert(caps.push(last)[0] == caps[0]);
        assert(caps.push(last).drop_first() =~= caps.drop_first().push(last));
        lemma_capture_all_snoc(
            b.spec_capture(caps[0].0, caps[0].1, caps[0].2, None, caps[0].3),
            caps.drop_first(),
            last,
        );
    }
}

/// Persisting a well-formed board and loading it back yields the same
/// memos — only the transient `expanded` flag resets — and the identical
/// ordered hot stack.
pub proof fn lemma_board_round_trip(b: BoardModel, cfg: Config, now: u64)
    requires
        b.wf(),
        cfg.max_hot_count as nat == b.max_hot_count,
        cfg.cold_spotlight_interval_seconds == b.cold_spotlight_interval_seconds,
    ensures
        ({
            let loaded = spec_load(cfg, encode_all(b.memos), b.hot_stack, now);
            &&& loaded.memos == b.memos.map_values(
                |m: MemoModel| MemoModel { expanded: false, ..m },
            )
            &&& loaded.hot_stack == b.hot_stack
            &&& loaded.max_hot_count == b.max_hot_count
        }),
{
    let records = encode_all(b.memos);
    let memos2 = decode_all(records, now);
    let reset = b.memos.map_values(|m: MemoModel| MemoModel { expanded: false, ..m });
    assert(memos2 =~= reset) by {
        assert forall|i: int| 0 <= i < b.memos.len() implies memos2[i] == reset[i] by {
            assert(records[i] == spec_to_record(b.memos[i]));
            lemma_record_round_trip(b.memos[i], now);
        }
    }
    assert forall|k: int| 0 <= k < b.hot_stack.len() implies is_hot_in(
        memos2,
        #[trigger] b.hot_stack[k],
    ) by {
        let x = b.hot_stack[k];
        let i = b.memo_ix(x);
        assert(b.memos[i].id == x && b.memos[i].status == MemoStatus::Hot);
        assert(memos2[i].id == x && memos2[i].status == MemoStatus::Hot);
    }
    lemma_clean_stack_identity(b.hot_stack, memos2);
    assert(clean_stack(b.hot_stack, memos2) == b.hot_stack);
}

/// A duplicate-free stack whose entries all name `Hot` memos is left
/// unchanged by the load-time healing.
proof fn lemma_clean_stack_identity(stack: Seq<i32>, memos: Seq<MemoModel>)
    requires
        crate::board::nodup(stack),
        forall|k: int| 0 <= k < stack.len() ==> is_hot_in(memos, #[trigger] stack[k]),
    ensures
        clean_stack(stack, memos) == stack,
    decreases stack.len(),
{
    if stack.len() > 0 {
        assert(crate::board::nodup(stack.drop_last())) by {
            assert(forall|i: int, j: int|
                0 <= i < j < stack.drop_last().len() ==> stack.drop_last()[i] == stack[i]
                    && stack.drop_last()[j] == stack[j]);
        }
        assert(forall|k: int|
            0 <= k < stack.drop_last().len() ==> is_hot_in(
                memos,
                #[trigger] stack.drop_last()[k],
            )) by {
            assert(forall|k: int|
                0 <= k < stack.drop_last().len() ==> stack.drop_last()[k] == stack[k]);
        }
        lemma_clean_stack_identity(stack.drop_last(), memos);
        let x = stack.last();
        assert(is_hot_in(memos, x)) by {
            assert(stack[stack.len() - 1] == x);
        }
        assert(!stack.drop_last().contains(x)) by {
            if stack.drop_last().contains(x) {
                let k = choose|k: int|
                    0 <= k < stack.drop_last().len() && stack.drop_last()[k] == x;
                assert(stack[k] == stack[stack.len() - 1]);
            }
        }
        assert(clean_stack(stack, memos) =~= stack);
    } else {
        assert(clean_stack(stack, memos) =~= stack);
    }
}

} // verus!
