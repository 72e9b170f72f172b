//! The read-only search and filter view over the memo store.
//!
//! A query names a status and a case-insensitive substring; a memo matches
//! when the substring occurs in its title or body (an effectively empty
//! search matches everything). `Cold` results come newest first by
//! creation time; `Done` results come newest first by completion time,
//! with memos lacking one placed last and ordered among themselves by
//! creation time. `Hot` and `Delayed` results keep store order: hot
//! ordering belongs to the hot stack alone.

use vstd::prelude::*;
use vstd::multiset::Multiset;

use crate::board::MemoBoard;
use crate::models::memo_views;
use crate::models::MemoData;
use crate::models::MemoModel;
use crate::models::MemoStatus;
use crate::text::contains_sub;
use crate::text::contains_chars;
use crate::text::lower_of;
use crate::text::to_lowercase_str;
use crate::text::trim_spec;
use crate::text::trim_str;

verus! {

/// Whether a memo matches a search string: an effectively empty search
/// matches everything, otherwise the lowercased search must occur in the
/// lowercased title or body.
pub open spec fn memo_matches(m: MemoModel, search: Seq<char>) -> bool {
    if trim_spec(search).len() == 0 {
        true
    } else {
        contains_sub(lower_of(m.title), lower_of(search)) || contains_sub(
            lower_of(m.body),
            lower_of(search),
        )
    }
}

/// The memos of the given status that match the search, in store order.
pub open spec fn filtered_memos(
    memos: Seq<MemoModel>,
    status: MemoStatus,
    search: Seq<char>,
) -> Seq<MemoModel> {
    memos.filter(|m: MemoModel| m.status == status && memo_matches(m, search))
}

/// `Cold` ordering: newer creation times first.
pub open spec fn cold_le(a: MemoModel, b: MemoModel) -> bool {
    b.creation_date <= a.creation_date
}

/// `Done` ordering: newer completion times first; memos without one come
/// after all that have one and fall back to creation time among
/// themselves.
pub open spec fn done_le(a: MemoModel, b: MemoModel) -> bool {
    match (a.moved_to_done_date, b.moved_to_done_date) {
        (Some(x), Some(y)) => y <= x,
        (Some(_), None) => true,
        (None, Some(_)) => false,
        (None, None) => b.creation_date <= a.creation_date,
    }
}

/// The ordering a status's results use; `Hot` and `Delayed` results are
/// not order-normalized.
pub open spec fn le_for(status: MemoStatus, a: MemoModel, b: MemoModel) -> bool {
    match status {
        MemoStatus::Cold => cold_le(a, b),
        MemoStatus::Done => done_le(a, b),
        _ => true,
    }
}

/// Whether a sequence is ordered for the given status.
pub open spec fn sorted_for(status: MemoStatus, s: Seq<MemoModel>) -> bool {
    forall|i: int, j: int| 0 <= i < j < s.len() ==> le_for(status, s[i], s[j])
}

/// Whether results of this status are order-normalized.
pub open spec fn status_sorts(status: MemoStatus) -> bool {
    status == MemoStatus::Cold || status == MemoStatus::Done
}

fn le_exec(status: MemoStatus, a: &MemoData, b: &MemoData) -> (r: bool)
    ensures
        r == le_for(status, a@, b@),
{
    match status {
        MemoStatus::Cold => b.creation_date <= a.creation_date,
        MemoStatus::Done => match (a.moved_to_done_date, b.moved_to_done_date) {
            (Some(x), Some(y)) => y <= x,
            (Some(_), None) => true,
            (None, Some(_)) => false,
            (None, None) => b.creation_date <= a.creation_date,
        },
        _ => true,
    }
}

proof fn lemma_le_total(status: MemoStatus, a: MemoModel, b: MemoModel)
    ensures
        le_for(status, a, b) || le_for(status, b, a),
        le_for(status, a, a),
{
}

proof fn lemma_le_trans(status: MemoStatus, a: MemoModel, b: MemoModel, c: MemoModel)
    requires
        le_for(status, a, b),
        le_for(status, b, c),
    ensures
        le_for(status, a, c),
{
}

fn sort_memos(v: Vec<MemoData>, status: MemoStatus) -> (r: Vec<MemoData>)
    ensures
        memo_views(r@).to_multiset() == memo_views(v@).to_multiset(),
        sorted_for(status, memo_views(r@)),
{
    broadcast use vstd::seq_lib::group_to_multiset_ensures;

    let ghost orig = memo_views(v@);
    let mut rest = v;
    let mut out: Vec<MemoData> = Vec::new();
    while rest.len() > 0
        invariant
            orig.to_multiset() == memo_views(out@).to_multiset().add(
                memo_views(rest@).to_multiset(),
            ),
            sorted_for(status, memo_views(out@)),
            forall|i: int, j: int|
                0 <= i < out@.len() && 0 <= j < rest@.len() ==> le_for(
                    status,
                    memo_views(out@)[i],
                    memo_views(rest@)[j],
                ),
        decreases rest@.len(),
    {
        let mut min_i: usize = 0;
        let mut j: usize = 1;
        while j < rest.len()
            invariant
                rest@.len() > 0,
                0 <= min_i < rest@.len(),
                1 <= j <= rest@.len(),
                forall|k: int|
                    0 <= k < j ==> le_for(
                        status,
                        memo_views(rest@)[min_i as int],
                        memo_views(rest@)[k],
                    ),
            decreases rest@.len() - j,
        {
            if !le_exec(status, &rest[min_i], &rest[j]) {
                proof {
                    lemma_le_total(status, memo_views(rest@)[min_i as int], memo_views(
                        rest@,
                    )[j as int]);
                    assert forall|k: int|
                        0 <= k < j + 1 implies le_for(
                        status,
                        memo_views(rest@)[j as int],
                        #[trigger] memo_views(rest@)[k],
                    ) by {
                        if k < j {
                            assert(le_for(
                                status,
                                memo_views(rest@)[min_i as int],
                                memo_views(rest@)[k],
                            ));
                            lemma_le_trans(
                                status,
                                memo_views(rest@)[j as int],
                                memo_views(rest@)[min_i as int],
                                memo_views(rest@)[k],
                            );
                        } else {
                            lemma_le_total(status, memo_views(rest@)[j as int], memo_views(
                                rest@,
                            )[j as int]);
                        }
                    }
                }
                min_i = j;
            } else {
                proof {
                    lemma_le_total(status, memo_views(rest@)[j as int], memo_views(
                        rest@,
                    )[j as int]);
                }
            }
            j += 1;
        }
        let ghost pre_rest = rest@;
        let ghost pre_out = out@;
        let picked = rest.remove(min_i);
        out.push(picked);
        proof {
            let pm = memo_views(pre_rest);
            pm.to_multiset_ensures();
            memo_views(pre_out).to_multiset_ensures();
            assert(memo_views(pre_rest.remove(min_i as int)) =~= pm.remove(min_i as int));
            assert(pm.remove(min_i as int).to_multiset() =~= pm.to_multiset().remove(
                pm[min_i as int],
            ));
            assert(picked@ == pm[min_i as int]);
            assert(memo_views(rest@).to_multiset() =~= pm.to_multiset().remove(picked@));
            let po = memo_views(pre_out);
            assert(memo_views(out@) =~= po.push(picked@));
            assert(po.push(picked@).to_multiset() =~= po.to_multiset().insert(picked@));
            assert(pm.to_multiset().count(picked@) > 0) by {
                assert(pm.contains(pm[min_i as int]));
            }
            assert(orig.to_multiset() =~~= memo_views(out@).to_multiset().add(
                memo_views(rest@).to_multiset(),
            ));
            assert forall|i: int, j2: int|
                0 <= i < out@.len() && 0 <= j2 < rest@.len() implies le_for(
                status,
                memo_views(out@)[i],
                memo_views(rest@)[j2],
            ) by {
                let x = memo_views(rest@)[j2];
                assert(rest@[j2] == if j2 < min_i {
                    pre_rest[j2]
                } else {
                    pre_rest[j2 + 1]
                });
                if i < out@.len() - 1 {
                    assert(le_for(status, memo_views(out@)[i], x));
                } else {
                    assert(memo_views(out@)[i] == picked@);
                    assert(le_for(status, picked@, x));
                }
            }
            assert(sorted_for(status, memo_views(out@))) by {
                assert(forall|i: int|
                    0 <= i < out@.len() - 1 ==> le_for(
                        status,
                        #[trigger] memo_views(out@)[i],
                        picked@,
                    ));
            }
        }
    }
    proof {
        assert(memo_views(rest@).to_multiset() =~~= Multiset::<MemoModel>::empty());
        assert(orig.to_multiset() =~~= memo_views(out@).to_multiset());
    }
    out
}

impl MemoBoard {
    /// The memos of the given status that match the search. `Cold` and
    /// `Done` results come ordered as the view defines; `Hot` and
    /// `Delayed` results keep store order.
    pub fn get_filtered_memos(&self, status: MemoStatus, search: &str) -> (r: Vec<MemoData>)
        ensures
            status_sorts(status) ==> memo_views(r@).to_multiset() == filtered_memos(
                self@.memos,
                status,
                search@,
            ).to_multiset() && sorted_for(status, memo_views(r@)),
            !status_sorts(status) ==> memo_views(r@) == filtered_memos(
                self@.memos,
                status,
                search@,
            ),
    {
        let trimmed = trim_str(search);
        let apply = trimmed.unicode_len() > 0;
        let search_lower = to_lowercase_str(search);
        let list = self.memos_list();
        let n = list.len();
        let mut picked: Vec<MemoData> = Vec::new();
        let mut i: usize = 0;
        while i < n
            invariant
                n == list@.len(),
                memo_views(list@) == self@.memos,
                apply == (trim_spec(search@).len() != 0),
                search_lower@ == lower_of(search@),
                memo_views(picked@) == filtered_memos(self@.memos.take(i as int), status, search@),
                0 <= i <= n,
            decreases n - i,
        {
            let m = &list[i];
            proof {
                let pre = self@.memos.take(i + 1);
                assert(pre.drop_last() =~= self@.memos.take(i as int));
                assert(pre.last() == self@.memos[i as int]);
            }
            let mut keep = false;
            if m.status == status {
                if !apply {
                    keep = true;
                } else {
                    let title_lower = to_lowercase_str(m.title.as_str());
                    if contains_chars(title_lower.as_str(), search_lower.as_str()) {
                        keep = true;
                    } else {
                        let body_lower = to_lowercase_str(m.body.as_str());
                        if contains_chars(body_lower.as_str(), search_lower.as_str()) {
                            keep = true;
                        }
                    }
                }
            }
            proof {
                assert(keep == (self@.memos[i as int].status == status && memo_matches(
                    self@.memos[i as int],
                    search@,
                )));
            }
            if keep {
                picked.push(m.clone());
            }
            proof {
                reveal(Seq::filter);
                let pred = |mm: MemoModel| mm.status == status && memo_matches(mm, search@);
                let pre = self@.memos.take(i + 1);
                if keep {
                    assert(pre.filter(pred) == pre.drop_last().filter(pred).push(pre.last()));
                } else {
                    assert(pre.filter(pred) == pre.drop_last().filter(pred));
                }
                assert(memo_views(picked@) =~= filtered_memos(pre, status, search@));
            }
            i += 1;
        }
        proof {
            assert(self@.memos.take(n as int) =~= self@.memos);
        }
        if matches!(status, MemoStatus::Cold) || matches!(status, MemoStatus::Done) {
            sort_memos(picked, status)
        } else {
            picked
        }
    }
}

} // verus!
