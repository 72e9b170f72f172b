//! The persistence codec: the plain records memos are stored as, and the
//! reconciliation that rebuilds a well-formed board at load time.
//!
//! A storage adapter (outside this library) moves these records to and
//! from durable storage; the encoding, decoding with its defaults for
//! malformed fields, and the self-healing of the persisted hot stack are
//! all here and verified.

use vstd::prelude::*;

use crate::board::BoardModel;
use crate::board::MemoBoard;
use crate::models::Config;
use crate::models::MemoData;
use crate::models::MemoModel;
use crate::models::MemoStatus;

verus! {

/// A memo as persisted: plain scalars and strings, with the status as its
/// tag string.
#[derive(Debug)]
pub struct MemoRecord {
    pub id: i32,
    pub title: String,
    pub body: String,
    pub status: String,
    pub creation_date: u64,
    pub moved_to_done_date: Option<u64>,
    pub delay_minutes: Option<u32>,
}

/// Mathematical model of a persisted memo record.
pub ghost struct RecordModel {
    pub id: i32,
    pub title: Seq<char>,
    pub body: Seq<char>,
    pub status: Seq<char>,
    pub creation_date: u64,
    pub moved_to_done_date: Option<u64>,
    pub delay_minutes: Option<u32>,
}

impl View for MemoRecord {
    type V = RecordModel;

    open spec fn view(&self) -> RecordModel {
        RecordModel {
            id: self.id,
            title: self.title@,
            body: self.body@,
            status: self.status@,
            creation_date: self.creation_date,
            moved_to_done_date: self.moved_to_done_date,
            delay_minutes: self.delay_minutes,
        }
    }
}

/// The record a memo is persisted as. The transient `expanded` flag is
/// not part of it.
pub open spec fn spec_to_record(m: MemoModel) -> RecordModel {
    RecordModel {
        id: m.id,
        title: m.title,
        body: m.body,
        status: m.status.spec_tag(),
        creation_date: m.creation_date,
        moved_to_done_date: m.moved_to_done_date,
        delay_minutes: m.delay_minutes,
    }
}

/// The memo a record decodes to. An unknown status tag defaults to `Hot`;
/// a `Done` record missing its completion time receives `now`; a
/// completion time on a record that is not `Done` is dropped; `expanded`
/// always starts false.
pub open spec fn spec_from_record(r: RecordModel, now: u64) -> MemoModel {
    let st = MemoStatus::spec_from_chars(r.status);
    let done = if st == MemoStatus::Done {
        Some(
            match r.moved_to_done_date {
                Some(d) => d,
                None => now,
            },
        )
    } else {
        None
    };
    MemoModel {
        id: r.id,
        title: r.title,
        body: r.body,
        status: st,
        creation_date: r.creation_date,
        moved_to_done_date: done,
        delay_minutes: r.delay_minutes,
        expanded: false,
    }
}

/// Encode a memo for storage.
pub fn to_record(m: &MemoData) -> (r: MemoRecord)
    ensures
        r@ == spec_to_record(m@),
{
    MemoRecord {
        id: m.id,
        title: m.title.clone(),
        body: m.body.clone(),
        status: m.status.to_tag().to_owned(),
        creation_date: m.creation_date,
        moved_to_done_date: m.moved_to_done_date,
        delay_minutes: m.delay_minutes,
    }
}

/// Decode a stored record; the result is always well formed.
pub fn from_record(rec: MemoRecord, now: u64) -> (m: MemoData)
    ensures
        m@ == spec_from_record(rec@, now),
        m@.wf(),
{
    let status = MemoStatus::from_string(rec.status.as_str());
    let done: Option<u64> = if matches!(status, MemoStatus::Done) {
        match rec.moved_to_done_date {
            Some(d) => Some(d),
            None => Some(now),
        }
    } else {
        None
    };
    MemoData {
        id: rec.id,
        title: rec.title,
        body: rec.body,
        status,
        creation_date: rec.creation_date,
        moved_to_done_date: done,
        delay_minutes: rec.delay_minutes,
        expanded: false,
    }
}

/// The memo a well-formed memo's record decodes back to: the same memo
/// with only the transient `expanded` flag reset.
pub proof fn lemma_record_round_trip(m: MemoModel, now: u64)
    requires
        m.wf(),
    ensures
        spec_from_record(spec_to_record(m), now) == (MemoModel { expanded: false, ..m }),
{
    m.status.lemma_tag_round_trip();
}

/// Whether some memo in the sequence is `Hot` under this identifier.
pub open spec fn is_hot_in(memos: Seq<MemoModel>, id: i32) -> bool {
    exists|i: int| 0 <= i < memos.len() && memos[i].id == id && memos[i].status == MemoStatus::Hot
}

/// The persisted hot stack healed against the loaded memos: entries that
/// name a missing or non-`Hot` memo are dropped, and of duplicate entries
/// only the first survives.
pub open spec fn clean_stack(stack: Seq<i32>, memos: Seq<MemoModel>) -> Seq<i32>
    decreases stack.len(),
{
    if stack.len() == 0 {
        Seq::empty()
    } else {
        let r = clean_stack(stack.drop_last(), memos);
        let x = stack.last();
        if is_hot_in(memos, x) && !r.contains(x) {
            r.push(x)
        } else {
            r
        }
    }
}

/// No two records share an identifier (storage assigns them uniquely).
pub open spec fn record_ids_unique(records: Seq<RecordModel>) -> bool {
    forall|i: int, j: int| 0 <= i < j < records.len() ==> records[i].id != records[j].id
}

/// The models of a sequence of records.
pub open spec fn record_views(records: Seq<MemoRecord>) -> Seq<RecordModel> {
    records.map_values(|rec: MemoRecord| rec@)
}

/// The records a sequence of memos is persisted as.
pub open spec fn encode_all(memos: Seq<MemoModel>) -> Seq<RecordModel> {
    memos.map_values(|m: MemoModel| spec_to_record(m))
}

/// The memos a sequence of records decodes to.
pub open spec fn decode_all(records: Seq<RecordModel>, now: u64) -> Seq<MemoModel> {
    records.map_values(|r: RecordModel| spec_from_record(r, now))
}

/// The board a load produces: the decoded memos, the healed hot stack
/// truncated to the capacity, and the spotlight reset.
pub open spec fn spec_load(
    config: Config,
    records: Seq<RecordModel>,
    stack: Seq<i32>,
    now: u64,
) -> BoardModel {
    let memos = decode_all(records, now);
    let cleaned = clean_stack(stack, memos);
    let kept = if cleaned.len() <= config.max_hot_count {
        cleaned
    } else {
        cleaned.take(config.max_hot_count as int)
    };
    BoardModel {
        memos,
        hot_stack: kept,
        max_hot_count: config.max_hot_count as nat,
        cold_spotlight_interval_seconds: config.cold_spotlight_interval_seconds,
        current_spotlight_memo: None,
        last_spotlight_update: None,
    }
}

fn vec_contains_i32(v: &Vec<i32>, x: i32) -> (r: bool)
    ensures
        r == v@.contains(x),
{
    let n = v.len();
    let mut i: usize = 0;
    while i < n
        invariant
            n == v@.len(),
            0 <= i <= n,
            forall|j: int| 0 <= j < i ==> v@[j] != x,
        decreases n - i,
    {
        if v[i] == x {
            assert(v@.contains(x));
            return true;
        }
        i += 1;
    }
    proof {
        if v@.contains(x) {
            let k = choose|k: int| 0 <= k < v@.len() && v@[k] == x;
            assert(v@[k] == x);
        }
    }
    false
}

fn memos_have_hot(memos: &Vec<MemoData>, id: i32) -> (r: bool)
    ensures
        r == is_hot_in(crate::models::memo_views(memos@), id),
    {
    let ghost model = crate::models::memo_views(memos@);
    let n = memos.len();
    let mut i: usize = 0;
    while i < n
        invariant
            n == memos@.len(),
            model == crate::models::memo_views(memos@),
            0 <= i <= n,
            forall|j: int| 0 <= j < i ==> !(model[j].id == id && model[j].status == MemoStatus::Hot),
        decreases n - i,
    {
        let m = &memos[i];
        if m.id == id && m.status == MemoStatus::Hot {
            assert(model[i as int].id == id && model[i as int].status == MemoStatus::Hot);
            return true;
        }
        i += 1;
    }
    proof {
        if is_hot_in(model, id) {
            let k = choose|k: int|
                0 <= k < model.len() && model[k].id == id && model[k].status == MemoStatus::Hot;
            assert(model[k].id == id);
        }
    }
    false
}

impl MemoBoard {
    /// Rebuild the board from storage: decode every record, heal the
    /// persisted hot stack against the decoded memos, and cap it at the
    /// configured capacity. The spotlight starts over.
    pub fn load_state(config: Config, records: Vec<MemoRecord>, stack: Vec<i32>, now: u64) -> (r:
        Self)
        requires
            record_ids_unique(record_views(records@)),
        ensures
            r@ == spec_load(config, record_views(records@), stack@, now),
            r@.wf(),
    {
        let ghost record_models = record_views(records@);
        let ghost target = decode_all(record_models, now);
        let mut memos: Vec<MemoData> = Vec::new();
        let mut recs = records;
        let total = recs.len();
        proof {
            assert(recs@.skip(0) =~= recs@);
        }
        let ghost all = recs@;
        let mut taken: usize = 0;
        while recs.len() > 0
            invariant
                record_models == record_views(all),
                target == decode_all(record_models, now),
                taken + recs@.len() == all.len(),
                all.len() == total,
                taken <= total,
                recs@ == all.skip(taken as int),
                crate::models::memo_views(memos@) == target.take(taken as int),
                forall|j: int| 0 <= j < memos@.len() ==> (#[trigger] memos@[j]@).wf(),
            decreases recs@.len(),
        {
            let rec = recs.remove(0);
            proof {
                assert(rec@ == all[taken as int]@);
                assert(all.skip(taken as int).remove(0) =~= all.skip(taken + 1));
            }
            let memo = from_record(rec, now);
            memos.push(memo);
            proof {
                assert(record_models[taken as int] == all[taken as int]@);
                assert(target[taken as int] == spec_from_record(record_models[taken as int], now));
                assert(memo@ == target[taken as int]);
                let lhs = crate::models::memo_views(memos@);
                let rhs = target.take(taken + 1);
                assert(target.len() == all.len());
                assert(taken < target.len());
                assert(target.take(taken as int).len() == taken as int);
                assert(memos@.len() == taken + 1);
                assert(lhs.len() == taken + 1);
                assert forall|j: int| 0 <= j < taken + 1 implies lhs[j] == rhs[j] by {
                    if j < taken {
                        assert(lhs[j] == memos@[j]@);
                    } else {
                        assert(lhs[j] == memo@);
                    }
                }
                assert(lhs =~= rhs);
            }
            taken += 1;
        }
        proof {
            assert(target.take(taken as int) =~= target);
        }
        let ghost model = crate::models::memo_views(memos@);
        proof {
            assert(model == target);
        }
        let n = stack.len();
        let mut out: Vec<i32> = Vec::new();
        let mut i: usize = 0;
        while i < n
            invariant
                n == stack@.len(),
                model == crate::models::memo_views(memos@),
                0 <= i <= n,
                out@ == clean_stack(stack@.take(i as int), model),
            decreases n - i,
        {
            let x = stack[i];
            proof {
                let pre = stack@.take(i + 1);
                assert(pre.drop_last() =~= stack@.take(i as int));
                assert(pre.last() == x);
            }
            if memos_have_hot(&memos, x) && !vec_contains_i32(&out, x) {
                out.push(x);
            }
            i += 1;
        }
        proof {
            assert(stack@.take(n as int) =~= stack@);
        }
        if out.len() > config.max_hot_count {
            out.truncate(config.max_hot_count);
        }
        let board = MemoBoard::assemble(config, memos, out);
        proof {
            lemma_load_wf(config, record_models, stack@, now);
        }
        board
    }

    /// Encode every memo for storage, in store order.
    pub fn export_records(&self) -> (r: Vec<MemoRecord>)
        ensures
            record_views(r@) == encode_all(self@.memos),
    {
        let ghost target = encode_all(self@.memos);
        let list = self.memos_list();
        let n = list.len();
        let mut out: Vec<MemoRecord> = Vec::new();
        let mut i: usize = 0;
        while i < n
            invariant
                n == list@.len(),
                crate::models::memo_views(list@) == self@.memos,
                target == encode_all(self@.memos),
                0 <= i <= n,
                record_views(out@) == target.take(i as int),
            decreases n - i,
        {
            let encoded = to_record(&list[i]);
            out.push(encoded);
            proof {
                assert(self@.memos[i as int] == crate::models::memo_views(list@)[i as int]);
                assert(target[i as int] == spec_to_record(self@.memos[i as int]));
                assert(encoded@ == target[i as int]);
                let lhs = record_views(out@);
                let rhs = target.take(i + 1);
                assert(target.len() == self@.memos.len());
                assert(i < target.len());
                assert(target.take(i as int).len() == i as int);
                assert(out@.len() == i + 1);
                assert(lhs.len() == i + 1);
                assert forall|j: int| 0 <= j < i + 1 implies lhs[j] == rhs[j] by {
                    if j < i {
                        assert(lhs[j] == out@[j]@);
                    } else {
                        assert(lhs[j] == encoded@);
                    }
                }
                assert(lhs =~= rhs);
            }
            i += 1;
        }
        proof {
            assert(target.take(n as int) =~= target);
        }
        out
    }
}

/// A load always yields a well-formed board.
pub proof fn lemma_load_wf(config: Config, records: Seq<RecordModel>, stack: Seq<i32>, now: u64)
    requires
        record_ids_unique(records),
    ensures
        spec_load(config, records, stack, now).wf(),
{
    let b = spec_load(config, records, stack, now);
    let memos = decode_all(records, now);
    lemma_clean_stack_wf(stack, memos);
    let cleaned = clean_stack(stack, memos);
    assert(crate::board::nodup(b.hot_stack)) by {
        if cleaned.len() > config.max_hot_count {
            assert(forall|k: int| 0 <= k < b.hot_stack.len() ==> b.hot_stack[k] == cleaned[k]);
        }
    }
    assert forall|k: int| 0 <= k < b.hot_stack.len() implies b.has_memo(#[trigger] b.hot_stack[k])
        && b.memo_of(b.hot_stack[k]).status == MemoStatus::Hot by {
        assert(b.hot_stack[k] == cleaned[k]);
        assert(is_hot_in(memos, cleaned[k]));
        let i = choose|i: int|
            0 <= i < memos.len() && memos[i].id == cleaned[k] && memos[i].status
                == MemoStatus::Hot;
        crate::board::lemma_memo_ix_unique(b, cleaned[k], i);
    }
    assert(b.wf());
}

/// The healed stack has no duplicates and names only `Hot` memos.
proof fn lemma_clean_stack_wf(stack: Seq<i32>, memos: Seq<MemoModel>)
    ensures
        crate::board::nodup(clean_stack(stack, memos)),
        forall|k: int|
            0 <= k < clean_stack(stack, memos).len() ==> is_hot_in(
                memos,
                #[trigger] clean_stack(stack, memos)[k],
            ),
        clean_stack(stack, memos).len() <= stack.len(),
    decreases stack.len(),
{
    if stack.len() > 0 {
        lemma_clean_stack_wf(stack.drop_last(), memos);
        let r = clean_stack(stack.drop_last(), memos);
        let x = stack.last();
        if is_hot_in(memos, x) && !r.contains(x) {
            let c = clean_stack(stack, memos);
            assert(c == r.push(x));
            assert(crate::board::nodup(c)) by {
                assert(forall|k: int| 0 <= k < r.len() ==> r.contains(#[trigger] r[k]));
            }
        }
    }
}

} // verus!
