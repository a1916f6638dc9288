//! A Monte Carlo simulator for the card game Set.
//!
//! The heart of the crate is an incremental set-discovery engine: it keeps,
//! across deals and removals, the list of all valid three-card sets in the
//! current hand without rescanning the whole hand, and re-indexes tracked
//! sets when a removal shifts card positions.

pub mod card;
pub mod deck;
pub mod find_all_sets;
pub mod rm_first_set;
pub mod text;

use vstd::prelude::*;
use vstd::string::StringExecFns;
use crate::text::{
    spec_digits, spec_parse_u64, spec_split, split_chars, split_on, str_chars, parse_u64,
    u64_to_string,
};

verus! {

/// Whether the hand grew (cards were just dealt) or shrank (a set was just
/// removed) at the step a snapshot describes.
#[derive(Hash, Eq, PartialEq, Debug, Copy, Clone, Structural)]
pub enum HandType {
    Ascending,
    Descending,
}

/// The text under which a hand type is persisted.
pub open spec fn spec_hand_type_text(t: HandType) -> Seq<char> {
    match t {
        HandType::Ascending => "ascending"@,
        HandType::Descending => "descending"@,
    }
}

/// The error returned when a persisted hand type is neither of the two
/// known words.
#[derive(Eq, PartialEq, Debug, Copy, Clone, Structural)]
pub struct ParseTypeError;

impl HandType {
    /// The name of this hand type.
    pub fn name(&self) -> (s: &'static str)
        ensures
            s@ == spec_hand_type_text(*self),
    {
        match self {
            HandType::Ascending => "ascending",
            HandType::Descending => "descending",
        }
    }
}

/// Records info about a hand: one snapshot per game step.
#[derive(Hash, Eq, PartialEq, Debug, Copy, Clone, Structural)]
pub struct Info {
    /// Number of sets found in the hand.
    pub set_count: usize,
    /// Number of cards in the hand.
    pub hand_size: usize,
    /// How many times cards have been dealt from the deck.
    pub deals: usize,
    /// Whether the hand just grew or shrank.
    pub hand_type: HandType,
}

/// What parsing a hand-type field yields: one of the two known words, or
/// nothing.
pub open spec fn spec_parse_hand_type(s: Seq<char>) -> Option<HandType> {
    if s == spec_hand_type_text(HandType::Ascending) {
        Some(HandType::Ascending)
    } else if s == spec_hand_type_text(HandType::Descending) {
        Some(HandType::Descending)
    } else {
        None
    }
}

/// Parses a hand-type field.
pub fn parse_hand_type(s: &Vec<char>) -> (r: Option<HandType>)
    ensures
        r == spec_parse_hand_type(s@),
{
    proof {
        reveal_strlit("ascending");
        reveal_strlit("descending");
    }
    if s.len() == 9 && s[0] == 'a' && s[1] == 's' && s[2] == 'c' && s[3] == 'e' && s[4] == 'n'
        && s[5] == 'd' && s[6] == 'i' && s[7] == 'n' && s[8] == 'g' {
        proof {
            assert(s@ =~= "ascending"@);
        }
        Some(HandType::Ascending)
    } else if s.len() == 10 && s[0] == 'd' && s[1] == 'e' && s[2] == 's' && s[3] == 'c' && s[4]
        == 'e' && s[5] == 'n' && s[6] == 'd' && s[7] == 'i' && s[8] == 'n' && s[9] == 'g' {
        proof {
            assert(s@ =~= "descending"@);
        }
        Some(HandType::Descending)
    } else {
        proof {
            assert(s@ != "ascending"@) by {
                if s@ == "ascending"@ {
                    assert(s@[0] == 'a' && s@[1] == 's' && s@[2] == 'c' && s@[3] == 'e' && s@[4]
                        == 'n' && s@[5] == 'd' && s@[6] == 'i' && s@[7] == 'n' && s@[8] == 'g');
                }
            }
            assert(s@ != "descending"@) by {
                if s@ == "descending"@ {
                    assert(s@[0] == 'd' && s@[1] == 'e' && s@[2] == 's' && s@[3] == 'c' && s@[4]
                        == 'e' && s@[5] == 'n' && s@[6] == 'd' && s@[7] == 'i' && s@[8] == 'n'
                        && s@[9] == 'g');
                }
            }
        }
        None
    }
}

impl HandType {
    /// Reads a hand type back from its persisted name: exactly the two
    /// known words are accepted.
    pub fn from_str(s: &str) -> (r: Result<HandType, ParseTypeError>)
        ensures
            r matches Ok(t) ==> spec_parse_hand_type(s@) == Some(t),
            r is Err <==> spec_parse_hand_type(s@) is None,
    {
        let v = str_chars(s);
        match parse_hand_type(&v) {
            Some(t) => Ok(t),
            None => Err(ParseTypeError),
        }
    }
}

/// The persisted text of one snapshot: its three counters and the hand
/// type, separated by commas.
pub open spec fn spec_serialize_info(i: Info) -> Seq<char> {
    spec_digits(i.set_count as nat) + seq![','] + spec_digits(i.hand_size as nat) + seq![',']
        + spec_digits(i.deals as nat) + seq![','] + spec_hand_type_text(i.hand_type)
}

impl Info {
    /// Renders this snapshot as one row of the persisted format.
    pub fn serialize(&self) -> (s: String)
        ensures
            s@ == spec_serialize_info(*self),
    {
        let mut s = u64_to_string(self.set_count as u64);
        s.append(",");
        s.append(u64_to_string(self.hand_size as u64).as_str());
        s.append(",");
        s.append(u64_to_string(self.deals as u64).as_str());
        s.append(",");
        s.append(self.hand_type.name());
        proof {
            reveal_strlit(",");
            assert(s@ =~= spec_serialize_info(*self));
        }
        s
    }
}

/// One persisted row: the snapshot's own text, a comma, and its count.
pub open spec fn spec_row_text(i: Info, count: u64) -> Seq<char> {
    spec_serialize_info(i) + seq![','] + spec_digits(count as nat)
}

/// The rows joined by line breaks, in table order.
pub open spec fn spec_render_rows(entries: Seq<(Info, u64)>) -> Seq<char>
    decreases entries.len(),
{
    if entries.len() == 0 {
        Seq::empty()
    } else if entries.len() == 1 {
        spec_row_text(entries[0].0, entries[0].1)
    } else {
        spec_render_rows(entries.drop_last()) + seq!['\n'] + spec_row_text(
            entries.last().0,
            entries.last().1,
        )
    }
}

/// The whole persisted table: a header line, then the rows.
pub open spec fn spec_render_table(entries: Seq<(Info, u64)>) -> Seq<char> {
    "sets,hand_size,deals,hand_type,count\n"@ + spec_render_rows(entries)
}

/// What parsing one persisted row yields: the snapshot and its count when
/// the row has exactly five well-formed fields, nothing otherwise.
pub open spec fn spec_parse_row(line: Seq<char>) -> Option<(Info, u64)> {
    let fields = spec_split(line, ',');
    if fields.len() == 5 {
        match (spec_parse_u64(fields[0]), spec_parse_u64(fields[1]), spec_parse_u64(fields[2]),
        spec_parse_hand_type(fields[3]), spec_parse_u64(fields[4])) {
            (Some(sc), Some(hs), Some(d), Some(ht), Some(cnt)) => if sc <= usize::MAX && hs
                <= usize::MAX && d <= usize::MAX {
                Some(
                    (
                        Info {
                            set_count: sc as usize,
                            hand_size: hs as usize,
                            deals: d as usize,
                            hand_type: ht,
                        },
                        cnt,
                    ),
                )
            } else {
                None
            },
            _ => None,
        }
    } else {
        None
    }
}

/// What parsing the rows of a table yields: all of them, or nothing as soon
/// as one is malformed.
pub open spec fn spec_parse_rows(lines: Seq<Seq<char>>) -> Option<Seq<(Info, u64)>>
    decreases lines.len(),
{
    if lines.len() == 0 {
        Some(Seq::empty())
    } else {
        match spec_parse_rows(lines.drop_last()) {
            None => None,
            Some(rows) => match spec_parse_row(lines.last()) {
                None => None,
                Some(r) => Some(rows.push(r)),
            },
        }
    }
}

/// What parsing a whole persisted table yields: every line after the header
/// as a row, or nothing when any of them is malformed.
pub open spec fn spec_parse_table(s: Seq<char>) -> Option<Seq<(Info, u64)>> {
    spec_parse_rows(spec_split(s, '\n').drop_first())
}

/// Once some prefix of the rows fails to parse, the whole table fails.
proof fn lemma_parse_rows_none(lines: Seq<Seq<char>>, j: int)
    requires
        0 <= j <= lines.len(),
        spec_parse_rows(lines.take(j)) is None,
    ensures
        spec_parse_rows(lines) is None,
    decreases lines.len() - j,
{
    if j < lines.len() {
        assert(lines.take(j + 1).drop_last() =~= lines.take(j));
        lemma_parse_rows_none(lines, j + 1);
    } else {
        assert(lines.take(j) =~= lines);
    }
}

/// Parses one persisted row.
pub fn parse_row(line: &Vec<char>) -> (r: Option<(Info, u64)>)
    ensures
        r == spec_parse_row(line@),
{
    let fields = split_chars(line, ',');
    if fields.len() != 5 {
        return None;
    }
    let sc = match parse_u64(&fields[0]) {
        Some(v) => v,
        None => {
            return None;
        },
    };
    let hs = match parse_u64(&fields[1]) {
        Some(v) => v,
        None => {
            return None;
        },
    };
    let d = match parse_u64(&fields[2]) {
        Some(v) => v,
        None => {
            return None;
        },
    };
    let ht = match parse_hand_type(&fields[3]) {
        Some(v) => v,
        None => {
            return None;
        },
    };
    let cnt = match parse_u64(&fields[4]) {
        Some(v) => v,
        None => {
            return None;
        },
    };
    if sc > usize::MAX as u64 || hs > usize::MAX as u64 || d > usize::MAX as u64 {
        return None;
    }
    Some(
        (
            Info {
                set_count: sc as usize,
                hand_size: hs as usize,
                deals: d as usize,
                hand_type: ht,
            },
            cnt,
        ),
    )
}

/// Parses a whole persisted table: the header line is skipped, and every
/// later line must be a well-formed row, or nothing is returned.
pub fn parse_table(contents: &str) -> (r: Option<Vec<(Info, u64)>>)
    ensures
        r matches Some(rows) ==> spec_parse_table(contents@) == Some(rows@),
        r is None ==> spec_parse_table(contents@) is None,
{
    let lines = split_on(contents, '\n');
    let ghost all = spec_split(contents@, '\n');
    let ghost lviews = all.drop_first();
    proof {
        crate::text::lemma_split_len(contents@, '\n');
        assert(lviews.take(0) =~= Seq::<Seq<char>>::empty());
    }
    let mut rows: Vec<(Info, u64)> = Vec::new();
    let mut i: usize = 1;
    while i < lines.len()
        invariant
            1 <= i,
            i <= lines@.len() || lines@.len() < 1,
            lines@.len() == all.len(),
            all == spec_split(contents@, '\n'),
            lviews == all.drop_first(),
            forall|m: int| 0 <= m < lines@.len() ==> (#[trigger] lines@[m])@ == all[m],
            Some(rows@) == spec_parse_rows(lviews.take(i - 1)),
        decreases lines@.len() - i,
    {
        match parse_row(&lines[i]) {
            Some(row) => {
                rows.push(row);
                proof {
                    assert(lviews.take(i as int).drop_last() =~= lviews.take(i as int - 1));
                    assert(lviews.take(i as int).last() == lviews[i as int - 1]);
                    assert(lviews[i as int - 1] == all[i as int]);
                }
            },
            None => {
                proof {
                    assert(lviews.take(i as int).drop_last() =~= lviews.take(i as int - 1));
                    assert(lviews.take(i as int).last() == lviews[i as int - 1]);
                    assert(lviews[i as int - 1] == all[i as int]);
                    assert(spec_parse_rows(lviews.take(i as int)) is None);
                    lemma_parse_rows_none(lviews, i as int);
                }
                return None;
            },
        }
        i = i + 1;
    }
    proof {
        assert(lviews.take(lviews.len() as int) =~= lviews);
        assert(i - 1 == lviews.len());
    }
    Some(rows)
}

/// The total count the listed entries record under `key`.
pub open spec fn spec_count_of(entries: Seq<(Info, u64)>, key: Info) -> int
    decreases entries.len(),
{
    if entries.len() == 0 {
        0
    } else {
        spec_count_of(entries.drop_last(), key) + if entries.last().0 == key {
            entries.last().1 as int
        } else {
            0int
        }
    }
}

/// A count capped at the largest representable value.
pub open spec fn spec_saturate(v: int) -> int {
    if v > u64::MAX {
        u64::MAX as int
    } else {
        v
    }
}

/// How many of the listed snapshots equal `key`.
pub open spec fn spec_occurrences(data: Seq<Info>, key: Info) -> int
    decreases data.len(),
{
    if data.len() == 0 {
        0
    } else {
        spec_occurrences(data.drop_last(), key) + if data.last() == key {
            1int
        } else {
            0int
        }
    }
}

/// Counts recorded under keys are never negative.
pub proof fn lemma_count_nonneg(entries: Seq<(Info, u64)>, key: Info)
    ensures
        spec_count_of(entries, key) >= 0,
    decreases entries.len(),
{
    if entries.len() > 0 {
        lemma_count_nonneg(entries.drop_last(), key);
    }
}

/// A list never holds a negative number of occurrences of a key.
pub proof fn lemma_occurrences_nonneg(data: Seq<Info>, key: Info)
    ensures
        spec_occurrences(data, key) >= 0,
    decreases data.len(),
{
    if data.len() > 0 {
        lemma_occurrences_nonneg(data.drop_last(), key);
    }
}

/// Appending an entry adds its count under its own key and nothing else.
proof fn lemma_count_push(entries: Seq<(Info, u64)>, e: (Info, u64), key: Info)
    ensures
        spec_count_of(entries.push(e), key) == spec_count_of(entries, key) + if e.0 == key {
            e.1 as int
        } else {
            0int
        },
{
    assert(entries.push(e).drop_last() =~= entries);
    assert(entries.push(e).last() == e);
}

/// Replacing the entry at `i` adjusts the counts by the difference of the
/// old and new entry, and touches no other key.
proof fn lemma_count_update(entries: Seq<(Info, u64)>, i: int, e: (Info, u64), key: Info)
    requires
        0 <= i < entries.len(),
    ensures
        spec_count_of(entries.update(i, e), key) == spec_count_of(entries, key) - (
        if entries[i].0 == key {
            entries[i].1 as int
        } else {
            0int
        }) + (if e.0 == key {
            e.1 as int
        } else {
            0int
        }),
    decreases entries.len(),
{
    let upd = entries.update(i, e);
    if i == entries.len() - 1 {
        assert(upd.drop_last() =~= entries.drop_last());
        assert(upd.last() == e);
    } else {
        assert(upd.drop_last() =~= entries.drop_last().update(i, e));
        assert(upd.last() == entries.last());
        lemma_count_update(entries.drop_last(), i, e, key);
    }
}

/// When exactly one entry carries `key`, the count under `key` is that
/// entry's count.
proof fn lemma_count_single(entries: Seq<(Info, u64)>, i: int, key: Info)
    requires
        0 <= i < entries.len(),
        entries[i].0 == key,
        forall|m: int| 0 <= m < entries.len() && m != i ==> (#[trigger] entries[m]).0 != key,
    ensures
        spec_count_of(entries, key) == entries[i].1 as int,
    decreases entries.len(),
{
    if i == entries.len() - 1 {
        lemma_count_none(entries.drop_last(), key);
    } else {
        assert(entries.last().0 != key);
        lemma_count_single(entries.drop_last(), i, key);
    }
}

/// With one row per key, no count can exceed what one row can hold.
proof fn lemma_count_bounded(entries: Seq<(Info, u64)>, key: Info)
    requires
        forall|m: int, n: int|
            0 <= m < n < entries.len() ==> (#[trigger] entries[m]).0 != (#[trigger] entries[n]).0,
    ensures
        0 <= spec_count_of(entries, key) <= u64::MAX,
    decreases entries.len(),
{
    if entries.len() > 0 {
        let rest = entries.drop_last();
        if entries.last().0 == key {
            assert forall|m: int| 0 <= m < rest.len() implies (#[trigger] rest[m]).0 != key by {
                assert(entries[m].0 != entries[entries.len() - 1].0);
            }
            lemma_count_none(rest, key);
        } else {
            lemma_count_bounded(rest, key);
        }
    }
}

/// When no entry carries `key`, the count under `key` is zero.
proof fn lemma_count_none(entries: Seq<(Info, u64)>, key: Info)
    requires
        forall|m: int| 0 <= m < entries.len() ==> (#[trigger] entries[m]).0 != key,
    ensures
        spec_count_of(entries, key) == 0,
    decreases entries.len(),
{
    if entries.len() > 0 {
        lemma_count_none(entries.drop_last(), key);
    }
}

/// The cross-game frequency table: a count for every distinct snapshot seen,
/// grown only by merging in lists of snapshots or previously persisted
/// counts.
pub struct AggregateTable {
    entries: Vec<(Info, u64)>,
}

impl AggregateTable {
    /// The rows of the table, in insertion order.
    pub closed spec fn entries(self) -> Seq<(Info, u64)> {
        self.entries@
    }

    /// The total count recorded under a key.
    pub open spec fn count(self, key: Info) -> int {
        spec_count_of(self.entries(), key)
    }

    /// Every key has at most one row.
    pub open spec fn wf(self) -> bool {
        forall|m: int, n: int|
            0 <= m < n < self.entries().len() ==> (#[trigger] self.entries()[m]).0 != (
            #[trigger] self.entries()[n]).0
    }

    /// An empty table: every count is zero.
    pub fn new() -> (t: Self)
        ensures
            t.wf(),
            t.entries().len() == 0,
            forall|k: Info| #[trigger] t.count(k) == 0,
    {
        AggregateTable { entries: Vec::new() }
    }

    /// The number of distinct keys recorded.
    pub fn len(&self) -> (n: usize)
        ensures
            n == self.entries().len(),
    {
        self.entries.len()
    }

    /// Adds `amount` under `key`, creating the row if the key is new; the
    /// count saturates at the largest representable value.
    pub fn add(&mut self, key: Info, amount: u64)
        requires
            old(self).wf(),
        ensures
            final(self).wf(),
            forall|k: Info| #[trigger]
                final(self).count(k) == if k == key {
                    spec_saturate(old(self).count(k) + amount)
                } else {
                    old(self).count(k)
                },
    {
        let ghost entries0 = self.entries@;
        proof {
            assert forall|m2: int, n2: int|
                0 <= m2 < n2 < entries0.len() implies (#[trigger] entries0[m2]).0 != (
            #[trigger] entries0[n2]).0 by {
                assert(entries0[m2] == old(self).entries()[m2]);
                assert(entries0[n2] == old(self).entries()[n2]);
            }
        }
        let mut m: usize = 0;
        while m < self.entries.len()
            invariant
                m <= self.entries@.len(),
                self.entries@ == entries0,
                old(self).wf(),
                entries0 == old(self).entries(),
                forall|m2: int, n2: int|
                    0 <= m2 < n2 < entries0.len() ==> (#[trigger] entries0[m2]).0 != (
                    #[trigger] entries0[n2]).0,
                forall|n: int| 0 <= n < m ==> (#[trigger] entries0[n]).0 != key,
            decreases self.entries@.len() - m,
        {
            let e = self.entries[m];
            if e.0 == key {
                let total = if e.1 > u64::MAX - amount {
                    u64::MAX
                } else {
                    e.1 + amount
                };
                self.entries.set(m, (key, total));
                proof {
                    assert forall|n: int|
                        0 <= n < entries0.len() && n != m implies (#[trigger] entries0[n]).0
                        != key by {
                        if n > m {
                            assert(entries0[m as int].0 != entries0[n].0);
                        }
                    }
                    lemma_count_single(entries0, m as int, key);
                    /* only the count at `m` changed, so key distinctness is kept */
                    assert forall|m2: int, n2: int|
                        0 <= m2 < n2 < self.entries@.len() implies (
                    #[trigger] self.entries@[m2]).0 != (#[trigger] self.entries@[n2]).0 by {
                        assert(self.entries@[m2].0 == entries0[m2].0);
                        assert(self.entries@[n2].0 == entries0[n2].0);
                    }
                    assert forall|k: Info| #[trigger]
                        self.count(k) == (if k == key {
                            spec_saturate(old(self).count(k) + amount)
                        } else {
                            old(self).count(k)
                        }) by {
                        assert(self.count(k) == spec_count_of(self.entries@, k));
                        assert(old(self).count(k) == spec_count_of(entries0, k));
                        lemma_count_update(entries0, m as int, (key, total), k);
                    }
                }
                return ;
            }
            m = m + 1;
        }
        proof {
            lemma_count_none(entries0, key);
        }
        self.entries.push((key, amount));
        proof {
            /* the new row's key was under no earlier row */
            assert forall|m2: int, n2: int|
                0 <= m2 < n2 < self.entries@.len() implies (#[trigger] self.entries@[m2]).0 != (
            #[trigger] self.entries@[n2]).0 by {
                assert(self.entries@[m2] == entries0[m2]);
                if n2 == entries0.len() {
                    assert(self.entries@[n2].0 == key);
                } else {
                    assert(self.entries@[n2] == entries0[n2]);
                }
            }
            assert forall|k: Info| #[trigger]
                self.count(k) == (if k == key {
                    spec_saturate(old(self).count(k) + amount)
                } else {
                    old(self).count(k)
                }) by {
                assert(self.count(k) == spec_count_of(self.entries@, k));
                assert(old(self).count(k) == spec_count_of(entries0, k));
                lemma_count_push(entries0, (key, amount), k);
                if k == key {
                    lemma_count_nonneg(entries0, k);
                }
            }
        }
    }

    /// Merges one game's snapshot list into the table: each snapshot adds
    /// one to its own key's count.
    pub fn merge_game(&mut self, data: &Vec<Info>)
        requires
            old(self).wf(),
        ensures
            final(self).wf(),
            forall|k: Info| #[trigger]
                final(self).count(k) == spec_saturate(
                    old(self).count(k) + spec_occurrences(data@, k),
                ),
    {
        proof {
            assert(data@.take(0) =~= Seq::<Info>::empty());
            assert forall|k: Info| #[trigger]
                self.count(k) == spec_saturate(
                    old(self).count(k) + spec_occurrences(data@.take(0), k),
                ) by {
                lemma_count_bounded(old(self).entries(), k);
            }
        }
        let mut i: usize = 0;
        while i < data.len()
            invariant
                i <= data@.len(),
                self.wf(),
                forall|k: Info| #[trigger]
                    self.count(k) == spec_saturate(
                        old(self).count(k) + spec_occurrences(data@.take(i as int), k),
                    ),
            decreases data@.len() - i,
        {
            let ghost mid = *self;
            self.add(data[i], 1);
            proof {
                assert forall|k: Info| #[trigger]
                    self.count(k) == spec_saturate(
                        old(self).count(k) + spec_occurrences(data@.take(i as int + 1), k),
                    ) by {
                    assert(data@.take(i as int + 1).drop_last() =~= data@.take(i as int));
                    assert(data@.take(i as int + 1).last() == data@[i as int]);
                    lemma_occurrences_nonneg(data@.take(i as int), k);
                    lemma_count_nonneg(old(self).entries(), k);
                }
            }
            i = i + 1;
        }
        proof {
            assert(data@.take(data@.len() as int) =~= data@);
        }
    }

    /// Merges previously persisted rows into the table: each row adds its
    /// whole count under its key.
    pub fn merge_rows(&mut self, rows: &Vec<(Info, u64)>)
        requires
            old(self).wf(),
        ensures
            final(self).wf(),
            forall|k: Info| #[trigger]
                final(self).count(k) == spec_saturate(
                    old(self).count(k) + spec_count_of(rows@, k),
                ),
    {
        proof {
            assert(rows@.take(0) =~= Seq::<(Info, u64)>::empty());
            assert forall|k: Info| #[trigger]
                self.count(k) == spec_saturate(
                    old(self).count(k) + spec_count_of(rows@.take(0), k),
                ) by {
                lemma_count_bounded(old(self).entries(), k);
            }
        }
        let mut i: usize = 0;
        while i < rows.len()
            invariant
                i <= rows@.len(),
                self.wf(),
                forall|k: Info| #[trigger]
                    self.count(k) == spec_saturate(
                        old(self).count(k) + spec_count_of(rows@.take(i as int), k),
                    ),
            decreases rows@.len() - i,
        {
            let e = rows[i];
            self.add(e.0, e.1);
            proof {
                assert forall|k: Info| #[trigger]
                    self.count(k) == spec_saturate(
                        old(self).count(k) + spec_count_of(rows@.take(i as int + 1), k),
                    ) by {
                    assert(rows@.take(i as int + 1).drop_last() =~= rows@.take(i as int));
                    assert(rows@.take(i as int + 1).last() == rows@[i as int]);
                    lemma_count_nonneg(rows@.take(i as int), k);
                    lemma_count_nonneg(old(self).entries(), k);
                }
            }
            i = i + 1;
        }
        proof {
            assert(rows@.take(rows@.len() as int) =~= rows@);
        }
    }

    /// Renders the whole table in the persisted format: the header line,
    /// then one row per distinct snapshot, in table order.
    pub fn render(&self) -> (s: String)
        ensures
            s@ == spec_render_table(self.entries()),
    {
        let ghost entries0 = self.entries@;
        let mut s = String::from_str("sets,hand_size,deals,hand_type,count\n");
        proof {
            assert(entries0.take(0) =~= Seq::<(Info, u64)>::empty());
            assert(s@ =~= spec_render_table(entries0.take(0)));
        }
        let mut m: usize = 0;
        while m < self.entries.len()
            invariant
                m <= entries0.len(),
                self.entries@ == entries0,
                s@ == spec_render_table(entries0.take(m as int)),
            decreases entries0.len() - m,
        {
            if m > 0 {
                s.append("\n");
            }
            let e = self.entries[m];
            let row = e.0.serialize();
            s.append(row.as_str());
            s.append(",");
            let cnt = u64_to_string(e.1);
            s.append(cnt.as_str());
            proof {
                reveal_strlit("\n");
                reveal_strlit(",");
                assert(entries0.take(m as int + 1).drop_last() =~= entries0.take(m as int));
                assert(entries0.take(m as int + 1).last() == entries0[m as int]);
                assert(s@ =~= spec_render_table(entries0.take(m as int + 1)));
            }
            m = m + 1;
        }
        proof {
            assert(entries0.take(entries0.len() as int) =~= entries0);
        }
        s
    }

    /// Loads one persisted table and adds its counts in: nothing is merged
    /// and the table is left unchanged when any row of the text is
    /// malformed, so a garbled file cannot bias the aggregate.
    pub fn load_table(&mut self, contents: &str) -> (ok: bool)
        requires
            old(self).wf(),
        ensures
            final(self).wf(),
            ok <==> spec_parse_table(contents@) is Some,
            spec_parse_table(contents@) matches Some(rows) ==> forall|k: Info| #[trigger]
                final(self).count(k) == spec_saturate(old(self).count(k) + spec_count_of(rows, k)),
            !ok ==> *final(self) == *old(self),
    {
        match parse_table(contents) {
            Some(rows) => {
                self.merge_rows(&rows);
                true
            },
            None => false,
        }
    }

    /// Law: idempotent aggregation. Merging the same snapshot list twice
    /// differs from merging it once by exactly doubled contributions: every
    /// key gains twice its occurrences, and no key is split or lost. Stated
    /// below the cap at which counts saturate.
    pub proof fn lemma_merge_twice_doubles(
        t0: AggregateTable,
        t1: AggregateTable,
        t2: AggregateTable,
        data: Seq<Info>,
        key: Info,
    )
        requires
            t1.count(key) == spec_saturate(t0.count(key) + spec_occurrences(data, key)),
            t2.count(key) == spec_saturate(t1.count(key) + spec_occurrences(data, key)),
            t0.count(key) + 2 * spec_occurrences(data, key) <= u64::MAX,
        ensures
            t2.count(key) == t0.count(key) + 2 * spec_occurrences(data, key),
    {
        lemma_count_nonneg(t0.entries(), key);
        lemma_occurrences_nonneg(data, key);
    }
}

} // verus!
