//! Core data model: memo records, lifecycle statuses, and configuration.

use vstd::prelude::*;

verus! {

/// Lifecycle status of a memo.
///
/// `Hot` memos are the actively surfaced working set (ordered by the hot
/// stack), `Cold` memos are archived, `Done` memos are completed, and
/// `Delayed` memos wait until a computed ready time before surfacing.
#[derive(Clone, Copy, Debug, PartialEq, Eq, Structural)]
pub enum MemoStatus {
    Hot,
    Cold,
    Done,
    Delayed,
}

/// Which view of the memo collection is active. Purely presentational.
#[derive(Clone, Copy, Debug, PartialEq, Eq, Structural)]
pub enum ActiveTab {
    Hot,
    Cold,
    Done,
    Delayed,
}

impl MemoStatus {
    /// The status a persisted tag string decodes to. Unknown tags default
    /// to `Hot` rather than failing the load.
    pub open spec fn spec_from_chars(s: Seq<char>) -> MemoStatus {
        if s == "hot"@ {
            MemoStatus::Hot
        } else if s == "cold"@ {
            MemoStatus::Cold
        } else if s == "done"@ {
            MemoStatus::Done
        } else if s == "delayed"@ {
            MemoStatus::Delayed
        } else {
            MemoStatus::Hot
        }
    }

    /// The tag string a status is persisted as.
    pub open spec fn spec_tag(self) -> Seq<char> {
        match self {
            MemoStatus::Hot => "hot"@,
            MemoStatus::Cold => "cold"@,
            MemoStatus::Done => "done"@,
            MemoStatus::Delayed => "delayed"@,
        }
    }

    /// Decode a persisted status tag; unknown tags default to `Hot`.
    pub fn from_string(s: &str) -> (r: Self)
        ensures
            r == Self::spec_from_chars(s@),
    {
        if crate::text::str_eq(s, "hot") {
            MemoStatus::Hot
        } else if crate::text::str_eq(s, "cold") {
            MemoStatus::Cold
        } else if crate::text::str_eq(s, "done") {
            MemoStatus::Done
        } else if crate::text::str_eq(s, "delayed") {
            MemoStatus::Delayed
        } else {
            MemoStatus::Hot
        }
    }

    /// Encode a status as its persisted tag.
    pub fn to_tag(self) -> (r: &'static str)
        ensures
            r@ == self.spec_tag(),
    {
        match self {
            MemoStatus::Hot => "hot",
            MemoStatus::Cold => "cold",
            MemoStatus::Done => "done",
            MemoStatus::Delayed => "delayed",
        }
    }

    /// Decoding a tag produced by `spec_tag` gives the status back.
    pub proof fn lemma_tag_round_trip(self)
        ensures
            Self::spec_from_chars(self.spec_tag()) == self,
    {
        broadcast use vstd::string::group_string_axioms;

        reveal_strlit("hot");
        reveal_strlit("cold");
        reveal_strlit("done");
        reveal_strlit("delayed");
        assert("hot"@.len() == 3);
        assert("cold"@.len() == 4);
        assert("done"@.len() == 4);
        assert("delayed"@.len() == 7);
        assert("cold"@[0] == 'c' && "done"@[0] == 'd');
    }
}

/// A single memo.
///
/// `creation_date` and `moved_to_done_date` are in seconds; `delay_minutes`
/// records the delay a memo was captured with (a historical field, kept even
/// after the memo leaves `Delayed`). `expanded` is transient presentation
/// state and is never persisted.
#[derive(Debug)]
pub struct MemoData {
    pub id: i32,
    pub title: String,
    pub body: String,
    pub status: MemoStatus,
    pub creation_date: u64,
    pub moved_to_done_date: Option<u64>,
    pub delay_minutes: Option<u32>,
    pub expanded: bool,
}

/// Mathematical model of a memo: the same fields over sequences of
/// characters.
pub ghost struct MemoModel {
    pub id: i32,
    pub title: Seq<char>,
    pub body: Seq<char>,
    pub status: MemoStatus,
    pub creation_date: u64,
    pub moved_to_done_date: Option<u64>,
    pub delay_minutes: Option<u32>,
    pub expanded: bool,
}

impl View for MemoData {
    type V = MemoModel;

    open spec fn view(&self) -> MemoModel {
        MemoModel {
            id: self.id,
            title: self.title@,
            body: self.body@,
            status: self.status,
            creation_date: self.creation_date,
            moved_to_done_date: self.moved_to_done_date,
            delay_minutes: self.delay_minutes,
            expanded: self.expanded,
        }
    }
}

impl MemoModel {
    /// A memo is well formed when its completion time is present exactly
    /// while it is `Done`.
    pub open spec fn wf(self) -> bool {
        self.moved_to_done_date is Some <==> self.status == MemoStatus::Done
    }
}

/// The models of a sequence of memos.
pub open spec fn memo_views(memos: Seq<MemoData>) -> Seq<MemoModel> {
    memos.map_values(|m: MemoData| m@)
}

impl Clone for MemoData {
    fn clone(&self) -> (r: Self)
        ensures
            r@ == self@,
    {
        MemoData {
            id: self.id,
            title: self.title.clone(),
            body: self.body.clone(),
            status: self.status,
            creation_date: self.creation_date,
            moved_to_done_date: self.moved_to_done_date,
            delay_minutes: self.delay_minutes,
            expanded: self.expanded,
        }
    }
}

/// The configuration values the lifecycle core consumes, supplied once at
/// startup and immutable thereafter.
#[derive(Clone, Copy, Debug, PartialEq, Eq, Structural)]
pub struct Config {
    /// Capacity of the hot stack.
    pub max_hot_count: usize,
    /// Seconds between spotlight resamples; `0` disables the spotlight.
    pub cold_spotlight_interval_seconds: u64,
}

impl Default for Config {
    fn default() -> (r: Self)
        ensures
            r.max_hot_count == 7,
            r.cold_spotlight_interval_seconds == 60,
    {
        Config { max_hot_count: 7, cold_spotlight_interval_seconds: 60 }
    }
}

} // verus!
