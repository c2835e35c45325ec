use crate::checkpoint::{
    checkpoint_ids, read_checkpoint_ids, checkpoint_of_lines, checkpoint_text, contents, format_checkpoint, lemma_checkpoint_round_trip,
    lemma_split_lines_append, lists, parse_checkpoint, parse_checkpoint_spec,
    single_line_values,
};
use crate::error::{DatabaseError, ErrorKind};
use crate::record::{
    format_record, lemma_record_line_round_trip, parse_line, parse_line_spec, record_line, writable,
    Operation, Record, RecordView,
};
use crate::text::{
    decimal_text, find_char, has_no, lemma_decimal_round_trip, lemma_find_char, lemma_find_char_at,
    lemma_split_lines_cons, lemma_split_lines_no_newline, lines_of, split_lines,
};
use std::collections::HashMap;
use vstd::prelude::*;
use vstd::string::*;

verus! {

broadcast use vstd::std_specs::hash::group_hash_axioms;

/// One record folded into a snapshot: a delete removes a present key, an
/// insert adds an absent one; an insert of a present key and a delete of an
/// absent one change nothing (the value already stored wins).
pub open spec fn apply_record(m: Map<u64, Seq<char>>, r: RecordView) -> Map<u64, Seq<char>> {
    if m.contains_key(r.id) {
        if r.operation == Operation::REMOVE {
            m.remove(r.id)
        } else {
            m
        }
    } else if r.operation == Operation::APPEND && r.content is Some {
        m.insert(r.id, r.content->0)
    } else {
        m
    }
}

/// Records folded into a snapshot in order.
pub open spec fn fold_records(m: Map<u64, Seq<char>>, rs: Seq<RecordView>) -> Map<u64, Seq<char>>
    decreases rs.len(),
{
    if rs.len() == 0 {
        m
    } else {
        apply_record(fold_records(m, rs.drop_last()), rs.last())
    }
}

/// The records of change-log lines, in order; malformed and empty lines are
/// skipped.
pub open spec fn change_records(lines: Seq<Seq<char>>) -> Seq<RecordView>
    decreases lines.len(),
{
    if lines.len() == 0 {
        Seq::empty()
    } else {
        match parse_line_spec(lines.last()) {
            Some(r) => change_records(lines.drop_last()).push(r),
            None => change_records(lines.drop_last()),
        }
    }
}

/// The current snapshot: the change log replayed over the checkpoint; none
/// where the checkpoint is malformed.
pub open spec fn aggregate_spec(checkpoint: Seq<char>, change: Seq<char>) -> Option<
    Map<u64, Seq<char>>,
> {
    match parse_checkpoint_spec(checkpoint) {
        Some(base) => Some(fold_records(base, change_records(split_lines(change)))),
        None => None,
    }
}

pub open spec fn views(rs: Seq<Record>) -> Seq<RecordView> {
    rs.map_values(|r: Record| r@)
}

/// The records of a change log's text, in order, skipping lines that are empty
/// or malformed.
pub fn read_change_records(text: &str) -> (r: Vec<Record>)
    ensures
        views(r@) == change_records(split_lines(text@)),
{
    let lines = lines_of(text);
    let ghost ls = split_lines(text@);
    let mut records: Vec<Record> = Vec::new();
    let mut idx: usize = 0;
    assert(ls.take(0) =~= Seq::<Seq<char>>::empty());
    assert(views(records@) =~= Seq::<RecordView>::empty());
    while idx < lines.len()
        invariant
            lines@.len() == ls.len(),
            ls == split_lines(text@),
            forall|k: int| 0 <= k < lines@.len() ==> #[trigger] lines@[k]@ == ls[k],
            idx <= lines@.len(),
            views(records@) == change_records(ls.take(idx as int)),
        decreases lines@.len() - idx,
    {
        assert(ls.take(idx + 1).drop_last() =~= ls.take(idx as int));
        assert(ls.take(idx + 1).last() == ls[idx as int]);
        match parse_line(lines[idx].as_str()) {
            Ok(rec) => {
                let ghost before = records@;
                records.push(rec);
                assert(views(records@) =~= views(before).push(rec@));
            },
            Err(_) => {},
        }
        idx = idx + 1;
    }
    assert(ls.take(idx as int) =~= ls);
    records
}

/// A record that folding skips: an insert of a present key, or a delete of
/// (or an insert without content for) an absent one.
pub open spec fn is_conflict(m: Map<u64, Seq<char>>, r: RecordView) -> bool {
    if m.contains_key(r.id) {
        r.operation == Operation::APPEND
    } else {
        !(r.operation == Operation::APPEND && r.content is Some)
    }
}

/// The ids of the records that folding `rs` into `m` skips, in order.
pub open spec fn conflicts(m: Map<u64, Seq<char>>, rs: Seq<RecordView>) -> Seq<u64>
    decreases rs.len(),
{
    if rs.len() == 0 {
        Seq::empty()
    } else if is_conflict(fold_records(m, rs.drop_last()), rs.last()) {
        conflicts(m, rs.drop_last()).push(rs.last().id)
    } else {
        conflicts(m, rs.drop_last())
    }
}

/// Folds `records`, in order, into `base`; also gives the ids of the records
/// skipped as conflicts, in order.
pub fn replay(base: HashMap<u64, String>, records: &Vec<Record>) -> (r: (HashMap<u64, String>, Vec<u64>))
    ensures
        contents(r.0@) == fold_records(contents(base@), views(records@)),
        r.1@ == conflicts(contents(base@), views(records@)),
{
    let mut result = base;
    let mut skipped: Vec<u64> = Vec::new();
    let mut idx: usize = 0;
    let ghost b = contents(base@);
    assert(views(records@).take(0) =~= Seq::<RecordView>::empty());
    while idx < records.len()
        invariant
            idx <= records@.len(),
            b == contents(base@),
            contents(result@) == fold_records(b, views(records@).take(idx as int)),
            skipped@ == conflicts(b, views(records@).take(idx as int)),
        decreases records@.len() - idx,
    {
        let record = &records[idx];
        let ghost rs = views(records@).take(idx + 1);
        assert(rs.drop_last() =~= views(records@).take(idx as int));
        assert(rs.last() == record@);
        if result.contains_key(&record.id) {
            if record.operation == Operation::REMOVE {
                result.remove(&record.id);
                assert(contents(result@) =~= fold_records(b, rs));
            } else {
                skipped.push(record.id);
            }
        } else {
            match &record.content {
                Some(c) => {
                    if record.operation == Operation::APPEND {
                        result.insert(record.id, c.clone());
                        assert(contents(result@) =~= fold_records(b, rs));
                    } else {
                        skipped.push(record.id);
                    }
                },
                None => {
                    skipped.push(record.id);
                },
            }
        }
        idx = idx + 1;
    }
    assert(views(records@).take(idx as int) =~= views(records@));
    (result, skipped)
}

/// The state that a compaction leaves: the change log empty and the checkpoint
/// holding the entries of `m`, one line each, in some order.
pub open spec fn compacted_to(checkpoint: Seq<char>, change: Seq<char>, m: Map<u64, Seq<char>>) -> bool {
    &&& change.len() == 0
    &&& exists|es: Seq<(u64, Seq<char>)>| lists(es, m) && checkpoint == checkpoint_text(es)
}

/// What comes before a record's line so that it starts a line of its own.
pub open spec fn line_start(change: Seq<char>) -> Seq<char> {
    if change.len() > 0 && change.last() != '\n' {
        seq!['\n']
    } else {
        Seq::empty()
    }
}

/// The text that adding `r` appends to the change log.
pub open spec fn appended_text(change: Seq<char>, r: RecordView) -> Seq<char> {
    line_start(change) + record_line(r) + seq!['\n']
}

/// Relies on rand's `Rng::gen_ratio` on the thread-local generator: `true` with
/// chance `numerator / denominator`; always `true` when the two are equal and
/// always `false` when `numerator` is 0. It panics when `denominator` is 0 or
/// `numerator` exceeds it.
#[verifier::external_body]
fn chance(numerator: u32, denominator: u32) -> (r: bool)
    requires
        0 < denominator,
        numerator <= denominator,
    ensures
        numerator == denominator ==> r,
        numerator == 0 ==> !r,
{
    rand::Rng::gen_ratio(&mut rand::thread_rng(), numerator, denominator)
}

/// Relies on std's `SystemTime::now` measured from `UNIX_EPOCH`: the whole
/// seconds since the epoch, or 0 for a clock set before it.
#[verifier::external_body]
fn epoch_seconds() -> (r: u64) {
    match std::time::SystemTime::now().duration_since(std::time::UNIX_EPOCH) {
        Ok(d) => d.as_secs(),
        Err(_) => 0,
    }
}

/// The largest of `ids`, or 0 where there is none.
pub open spec fn max_id(ids: Seq<u64>) -> u64
    decreases ids.len(),
{
    if ids.len() == 0 {
        0
    } else if ids.last() > max_id(ids.drop_last()) {
        ids.last()
    } else {
        max_id(ids.drop_last())
    }
}

/// The largest id that the checkpoint or change-log text mentions in a line
/// that reads, or 0 where there is none.
pub open spec fn highest_id(checkpoint: Seq<char>, change: Seq<char>) -> u64 {
    max_id(
        checkpoint_ids(split_lines(checkpoint)) + change_records(split_lines(change)).map_values(
            |r: RecordView| r.id,
        ),
    )
}

/// The largest of `ids`, or 0 where there is none.
pub fn largest(ids: &Vec<u64>) -> (r: u64)
    ensures
        r == max_id(ids@),
{
    let mut acc: u64 = 0;
    let mut idx: usize = 0;
    assert(ids@.take(0) =~= Seq::<u64>::empty());
    while idx < ids.len()
        invariant
            idx <= ids@.len(),
            acc == max_id(ids@.take(idx as int)),
        decreases ids@.len() - idx,
    {
        assert(ids@.take(idx + 1).drop_last() =~= ids@.take(idx as int));
        if ids[idx] > acc {
            acc = ids[idx];
        }
        idx = idx + 1;
    }
    assert(ids@.take(idx as int) =~= ids@);
    acc
}

/// The id to hand out when the clock reads `now` seconds and `last_id` was
/// the last one handed out: `now`, unless that is not above `last_id`, then
/// the one after `last_id` (or `u64::MAX` where there is none).
pub open spec fn next_id_spec(last_id: u64, now: u64) -> u64 {
    if now > last_id {
        now
    } else if last_id < u64::MAX {
        (last_id + 1) as u64
    } else {
        u64::MAX
    }
}

/// The id that `next_id_spec` gives.
pub fn next_id_after(last_id: u64, now: u64) -> (r: u64)
    ensures
        r == next_id_spec(last_id, now),
{
    if now > last_id {
        now
    } else if last_id < u64::MAX {
        last_id + 1
    } else {
        u64::MAX
    }
}

/// The store: the text of its checkpoint file and of its change log, and the
/// chance that an aggregation compacts them.
///
/// One owner at a time: nothing here guards against two writers.
pub struct Database {
    checkpoint: String,
    change: String,
    last_id: u64,
    chance_numerator: u32,
    chance_denominator: u32,
    skipped: Vec<u64>,
}

impl Database {
    pub closed spec fn checkpoint_view(&self) -> Seq<char> {
        self.checkpoint@
    }

    pub closed spec fn change_view(&self) -> Seq<char> {
        self.change@
    }

    pub closed spec fn last_id_view(&self) -> u64 {
        self.last_id
    }

    pub closed spec fn chance_view(&self) -> (u32, u32) {
        (self.chance_numerator, self.chance_denominator)
    }

    pub closed spec fn skipped_view(&self) -> Seq<u64> {
        self.skipped@
    }

    /// The ids of the records that the last successful aggregation skipped as
    /// conflicts, in log order.
    pub fn skipped_ids(&self) -> (r: &Vec<u64>)
        ensures
            r@ == self.skipped_view(),
    {
        &self.skipped
    }

    /// A store over the given checkpoint and change-log texts, compacting with
    /// chance 1 in 10. The largest id in the texts counts as handed out, so
    /// `get_next_id` goes above it.
    pub fn open(checkpoint: &str, change: &str) -> (r: Database)
        ensures
            r.checkpoint_view() == checkpoint@,
            r.change_view() == change@,
            r.last_id_view() == highest_id(checkpoint@, change@),
            r.chance_view() == (1u32, 10u32),
            r.skipped_view().len() == 0,
    {
        let mut ids = read_checkpoint_ids(checkpoint);
        let records = read_change_records(change);
        let ghost cp_ids = ids@;
        let mut idx: usize = 0;
        while idx < records.len()
            invariant
                idx <= records@.len(),
                ids@ == cp_ids + views(records@).take(idx as int).map_values(|r: RecordView| r.id),
            decreases records@.len() - idx,
        {
            ids.push(records[idx].id);
            idx = idx + 1;
            assert(ids@ =~= cp_ids + views(records@).take(idx as int).map_values(
                |r: RecordView| r.id,
            ));
        }
        assert(views(records@).take(idx as int) =~= views(records@));
        let last_id = largest(&ids);
        Database {
            checkpoint: checkpoint.to_owned(),
            change: change.to_owned(),
            last_id,
            chance_numerator: 1,
            chance_denominator: 10,
            skipped: Vec::new(),
        }
    }

    /// The checkpoint file's text.
    pub fn checkpoint_text(&self) -> (r: &str)
        ensures
            r@ == self.checkpoint_view(),
    {
        self.checkpoint.as_str()
    }

    /// The change log's text.
    pub fn change_text(&self) -> (r: &str)
        ensures
            r@ == self.change_view(),
    {
        self.change.as_str()
    }

    /// Sets the chance `numerator / denominator` that an aggregation compacts;
    /// refused (and nothing changed) unless `0 < denominator` and
    /// `numerator <= denominator`.
    pub fn set_compaction_chance(&mut self, numerator: u32, denominator: u32) -> (r: bool)
        ensures
            r == (0 < denominator && numerator <= denominator),
            final(self).chance_view() == (if r {
                (numerator, denominator)
            } else {
                old(self).chance_view()
            }),
            final(self).checkpoint_view() == old(self).checkpoint_view(),
            final(self).change_view() == old(self).change_view(),
            final(self).last_id_view() == old(self).last_id_view(),
            final(self).skipped_view() == old(self).skipped_view(),
    {
        if 0 < denominator && numerator <= denominator {
            self.chance_numerator = numerator;
            self.chance_denominator = denominator;
            true
        } else {
            false
        }
    }

    /// Appends `record` to the change log and returns the text appended: its
    /// line, on a line of its own. An error, with nothing appended, where the
    /// record cannot be written so as to read back the same.
    pub fn add_record(&mut self, record: &Record) -> (r: Result<String, DatabaseError>)
        ensures
            final(self).checkpoint_view() == old(self).checkpoint_view(),
            final(self).last_id_view() == old(self).last_id_view(),
            final(self).chance_view() == old(self).chance_view(),
            final(self).skipped_view() == old(self).skipped_view(),
            match r {
                Ok(text) => {
                    &&& writable(record@)
                    &&& text@ == appended_text(old(self).change_view(), record@)
                    &&& final(self).change_view() == old(self).change_view() + text@
                },
                Err(e) => {
                    &&& !writable(record@)
                    &&& e.spec_kind() == ErrorKind::UnwritableRecord
                    &&& final(self).change_view() == old(self).change_view()
                },
            },
    {
        let line = match format_record(record) {
            Ok(l) => l,
            Err(e) => {
                return Err(e);
            },
        };
        proof {
            reveal_strlit("\n");
        }
        let mut text = String::new();
        let n = self.change.as_str().unicode_len();
        if n > 0 && self.change.as_str().get_char(n - 1) != '\n' {
            text.append("\n");
        }
        text.append(line.as_str());
        text.append("\n");
        assert(text@ =~= appended_text(self.change@, record@));
        self.change.append(text.as_str());
        Ok(text)
    }

    /// A new id: the current Unix time in seconds, as `next_id_after` makes of
    /// it, never at or below the last id handed out (or noted at `open`).
    /// Ids therefore do not repeat within one `Database` value; ids handed out
    /// by another value over the same files are seen only if they reached the
    /// texts given to `open`.
    pub fn get_next_id(&mut self) -> (r: u64)
        ensures
            final(self).last_id_view() == r,
            exists|now: u64| r == next_id_spec(old(self).last_id_view(), now),
            old(self).last_id_view() < u64::MAX ==> r > old(self).last_id_view(),
            final(self).checkpoint_view() == old(self).checkpoint_view(),
            final(self).change_view() == old(self).change_view(),
            final(self).chance_view() == old(self).chance_view(),
            final(self).skipped_view() == old(self).skipped_view(),
    {
        let now = epoch_seconds();
        let id = next_id_after(self.last_id, now);
        assert(id == next_id_spec(old(self).last_id_view(), now));
        self.last_id = id;
        id
    }

    /// Replays the change log over the checkpoint and returns the snapshot;
    /// where `compact` holds, also rewrites the checkpoint with the snapshot and
    /// empties the change log. An error, with nothing changed, where the
    /// checkpoint is malformed; malformed change-log lines are skipped.
    pub fn aggregate_with(&mut self, compact: bool) -> (r: Result<HashMap<u64, String>, DatabaseError>)
        ensures
            final(self).last_id_view() == old(self).last_id_view(),
            final(self).chance_view() == old(self).chance_view(),
            match r {
                Ok(m) => {
                    &&& aggregate_spec(old(self).checkpoint_view(), old(self).change_view()) == Some(
                        contents(m@),
                    )
                    &&& final(self).skipped_view() == conflicts(
                        parse_checkpoint_spec(old(self).checkpoint_view())->0,
                        change_records(split_lines(old(self).change_view())),
                    )
                    &&& if compact {
                        compacted_to(final(self).checkpoint_view(), final(self).change_view(), contents(m@))
                    } else {
                        final(self).checkpoint_view() == old(self).checkpoint_view()
                            && final(self).change_view() == old(self).change_view()
                    }
                },
                Err(e) => {
                    &&& aggregate_spec(old(self).checkpoint_view(), old(self).change_view()) is None
                    &&& e.spec_kind() == ErrorKind::MalformedCheckpoint
                    &&& final(self).skipped_view() == old(self).skipped_view()
                    &&& final(self).checkpoint_view() == old(self).checkpoint_view()
                    &&& final(self).change_view() == old(self).change_view()
                },
            },
    {
        let base = match parse_checkpoint(self.checkpoint.as_str()) {
            Ok(b) => b,
            Err(e) => {
                return Err(e);
            },
        };
        let records = read_change_records(self.change.as_str());
        let (result, skipped) = replay(base, &records);
        if compact {
            self.checkpoint = format_checkpoint(&result);
            self.change = String::new();
        }
        self.skipped = skipped;
        Ok(result)
    }

    /// Replays the change log over the checkpoint and returns the snapshot,
    /// compacting with the store's chance: always where the chance is 1, never
    /// where it is 0. (A store's chance is always valid: `open` and
    /// `set_compaction_chance` see to it.)
    pub fn aggregate(&mut self) -> (r: Result<HashMap<u64, String>, DatabaseError>)
        ensures
            final(self).last_id_view() == old(self).last_id_view(),
            final(self).chance_view() == old(self).chance_view(),
            match r {
                Ok(m) => {
                    &&& aggregate_spec(old(self).checkpoint_view(), old(self).change_view()) == Some(
                        contents(m@),
                    )
                    &&& final(self).skipped_view() == conflicts(
                        parse_checkpoint_spec(old(self).checkpoint_view())->0,
                        change_records(split_lines(old(self).change_view())),
                    )
                    &&& {
                        ||| compacted_to(final(self).checkpoint_view(), final(self).change_view(), contents(m@))
                        ||| (final(self).checkpoint_view() == old(self).checkpoint_view()
                            && final(self).change_view() == old(self).change_view())
                    }
                    &&& 0 < old(self).chance_view().1 && old(self).chance_view().0 == old(
                        self,
                    ).chance_view().1 ==> compacted_to(
                        final(self).checkpoint_view(),
                        final(self).change_view(),
                        contents(m@),
                    )
                    &&& old(self).chance_view().0 == 0 ==> final(self).checkpoint_view() == old(
                        self,
                    ).checkpoint_view() && final(self).change_view() == old(self).change_view()
                },
                Err(e) => {
                    &&& aggregate_spec(old(self).checkpoint_view(), old(self).change_view()) is None
                    &&& e.spec_kind() == ErrorKind::MalformedCheckpoint
                    &&& final(self).skipped_view() == old(self).skipped_view()
                    &&& final(self).checkpoint_view() == old(self).checkpoint_view()
                    &&& final(self).change_view() == old(self).change_view()
                },
            },
    {
        let compact = if 0 < self.chance_denominator && self.chance_numerator
            <= self.chance_denominator {
            chance(self.chance_numerator, self.chance_denominator)
        } else {
            false
        };
        self.aggregate_with(compact)
    }
}

proof fn lemma_subrange_has_no(s: Seq<char>, a: int, b: int, c: char)
    requires
        has_no(s, c),
        0 <= a <= b <= s.len(),
    ensures
        has_no(s.subrange(a, b), c),
{
    assert forall|k: int| 0 <= k < b - a implies #[trigger] s.subrange(a, b)[k] != c by {
        assert(s.subrange(a, b)[k] == s[a + k]);
    }
}

spec fn single_line_record(r: RecordView) -> bool {
    match r.content {
        Some(c) => has_no(c, '\n'),
        None => true,
    }
}

proof fn lemma_checkpoint_single_line(lines: Seq<Seq<char>>)
    requires
        forall|k: int| 0 <= k < lines.len() ==> has_no(#[trigger] lines[k], '\n'),
    ensures
        checkpoint_of_lines(lines) matches Some(m) ==> single_line_values(m),
    decreases lines.len(),
{
    if lines.len() > 0 {
        let prev = lines.drop_last();
        assert forall|k: int| 0 <= k < prev.len() implies has_no(#[trigger] prev[k], '\n') by {
            assert(prev[k] == lines[k]);
        }
        lemma_checkpoint_single_line(prev);
        let l = lines.last();
        assert(has_no(lines[lines.len() - 1], '\n'));
        let i = find_char(l, ',') as int;
        if i < l.len() {
            lemma_subrange_has_no(l, i + 1, l.len() as int, '\n');
        }
    }
}

proof fn lemma_change_single_line(lines: Seq<Seq<char>>)
    requires
        forall|k: int| 0 <= k < lines.len() ==> has_no(#[trigger] lines[k], '\n'),
    ensures
        forall|k: int|
            0 <= k < change_records(lines).len() ==> single_line_record(
                #[trigger] change_records(lines)[k],
            ),
    decreases lines.len(),
{
    if lines.len() > 0 {
        let prev = lines.drop_last();
        assert forall|k: int| 0 <= k < prev.len() implies has_no(#[trigger] prev[k], '\n') by {
            assert(prev[k] == lines[k]);
        }
        lemma_change_single_line(prev);
        let l = lines.last();
        assert(has_no(lines[lines.len() - 1], '\n'));
        let i = find_char(l, ',') as int;
        if i < l.len() {
            let rest = l.subrange(i + 1, l.len() as int);
            lemma_subrange_has_no(l, i + 1, l.len() as int, '\n');
            let j = find_char(rest, ',') as int;
            if j < rest.len() {
                lemma_subrange_has_no(rest, j + 1, rest.len() as int, '\n');
            }
        }
        if let Some(r) = parse_line_spec(l) {
            assert(single_line_record(r));
            let rs = change_records(lines);
            assert(rs == change_records(prev).push(r));
            assert forall|k: int| 0 <= k < rs.len() implies single_line_record(#[trigger] rs[k]) by {
                if k < rs.len() - 1 {
                    assert(rs[k] == change_records(prev)[k]);
                }
            }
        }
    }
}

proof fn lemma_fold_single_line(m: Map<u64, Seq<char>>, rs: Seq<RecordView>)
    requires
        single_line_values(m),
        forall|k: int| 0 <= k < rs.len() ==> single_line_record(#[trigger] rs[k]),
    ensures
        single_line_values(fold_records(m, rs)),
    decreases rs.len(),
{
    if rs.len() > 0 {
        let prev = rs.drop_last();
        assert forall|k: int| 0 <= k < prev.len() implies single_line_record(#[trigger] prev[k]) by {
            assert(prev[k] == rs[k]);
        }
        lemma_fold_single_line(m, prev);
        assert(rs[rs.len() - 1] == rs.last());
    }
}

/// No content of an aggregated snapshot holds a newline.
proof fn lemma_aggregate_single_line(checkpoint: Seq<char>, change: Seq<char>)
    ensures
        aggregate_spec(checkpoint, change) matches Some(m) ==> single_line_values(m),
{
    lemma_split_lines_no_newline(checkpoint);
    lemma_split_lines_no_newline(change);
    lemma_checkpoint_single_line(split_lines(checkpoint));
    lemma_change_single_line(split_lines(change));
    if let Some(base) = parse_checkpoint_spec(checkpoint) {
        lemma_fold_single_line(base, change_records(split_lines(change)));
    }
}

/// Aggregating again with no record added in between gives the same snapshot,
/// whether or not the first aggregation compacted the store.
pub proof fn lemma_aggregate_idempotent(
    checkpoint: Seq<char>,
    change: Seq<char>,
    m: Map<u64, Seq<char>>,
    checkpoint2: Seq<char>,
    change2: Seq<char>,
)
    requires
        aggregate_spec(checkpoint, change) == Some(m),
        (checkpoint2 == checkpoint && change2 == change) || compacted_to(checkpoint2, change2, m),
    ensures
        aggregate_spec(checkpoint2, change2) == Some(m),
{
    if !(checkpoint2 == checkpoint && change2 == change) {
        lemma_aggregate_single_line(checkpoint, change);
        let es = choose|es: Seq<(u64, Seq<char>)>| lists(es, m) && checkpoint2 == checkpoint_text(es);
        lemma_checkpoint_round_trip(es, m);
        assert(change2 =~= Seq::<char>::empty());
        assert(split_lines(change2) =~= Seq::<Seq<char>>::empty());
    }
}

/// Splitting after a final newline that ends a line gives the same lines.
proof fn lemma_split_lines_close(s: Seq<char>)
    requires
        s.len() > 0,
        s.last() != '\n',
    ensures
        split_lines(s + seq!['\n']) == split_lines(s),
    decreases s.len(),
{
    let t = s + seq!['\n'];
    lemma_find_char(s, '\n');
    let i = find_char(s, '\n') as int;
    assert forall|j: int| 0 <= j < i implies t[j] != '\n' by {
        assert(t[j] == s[j]);
    }
    if i >= s.len() {
        lemma_find_char_at(t, '\n', s.len() as int);
        assert(t.subrange(0, s.len() as int) =~= s);
        assert(t.subrange(s.len() as int + 1, t.len() as int) =~= Seq::<char>::empty());
        assert(split_lines(Seq::<char>::empty()) =~= Seq::<Seq<char>>::empty());
        assert(split_lines(t) =~= seq![s]);
    } else {
        lemma_find_char_at(t, '\n', i);
        let rest = s.subrange(i + 1, s.len() as int);
        assert(i < s.len() - 1) by {
            if i == s.len() - 1 {
                assert(s.last() == s[i]);
            }
        }
        assert(rest.last() == s.last());
        lemma_split_lines_close(rest);
        assert(t.subrange(0, i) =~= s.subrange(0, i));
        assert(t.subrange(i + 1, t.len() as int) =~= rest + seq!['\n']);
    }
}

/// The record that a record's line reads back as.
pub open spec fn normalized(r: RecordView) -> RecordView {
    if r.operation == Operation::REMOVE {
        RecordView { id: r.id, content: None, operation: Operation::REMOVE }
    } else {
        r
    }
}

/// A record's line holds no newline.
proof fn lemma_record_line_single(r: RecordView)
    requires
        writable(r),
    ensures
        has_no(record_line(r), '\n'),
{
    let line = record_line(r);
    lemma_decimal_round_trip(r.id as nat);
    let d = decimal_text(r.id as nat);
    assert forall|j: int| 0 <= j < line.len() implies line[j] != '\n' by {
        if j < d.len() {
            assert(line[j] == d[j]);
        } else if r.operation == Operation::APPEND && j >= d.len() + 3 {
            assert(line[j] == r.content->0[j - d.len() - 3]);
        }
    }
}

/// The text that adding a record appends makes one more line: the record's.
proof fn lemma_appended_lines(change: Seq<char>, r: RecordView)
    requires
        writable(r),
    ensures
        split_lines(change + appended_text(change, r)) == split_lines(change).push(record_line(r)),
{
    let ch1 = change + line_start(change);
    if change.len() > 0 && change.last() != '\n' {
        lemma_split_lines_close(change);
    } else {
        assert(ch1 =~= change);
    }
    let line = record_line(r);
    lemma_record_line_single(r);
    lemma_split_lines_cons(line, Seq::empty());
    assert(line + seq!['\n'] + Seq::<char>::empty() =~= line + seq!['\n']);
    assert(split_lines(Seq::<char>::empty()) =~= Seq::<Seq<char>>::empty());
    assert(ch1.len() == 0 || ch1.last() == '\n');
    lemma_split_lines_append(ch1, line + seq!['\n']);
    assert(change + appended_text(change, r) =~= ch1 + (line + seq!['\n']));
    assert(split_lines(change + appended_text(change, r)) =~= split_lines(change).push(line));
}

/// Adding a record to the change log and aggregating folds that record into
/// the snapshot that aggregating gave before.
pub proof fn lemma_add_then_aggregate(checkpoint: Seq<char>, change: Seq<char>, r: RecordView)
    requires
        writable(r),
    ensures
        aggregate_spec(checkpoint, change + appended_text(change, r)) == match aggregate_spec(
            checkpoint,
            change,
        ) {
            Some(m) => Some(apply_record(m, r)),
            None => None,
        },
{
    let n = normalized(r);
    assert(record_line(n) == record_line(r));
    lemma_record_line_round_trip(n);
    lemma_appended_lines(change, r);
    let lines = split_lines(change).push(record_line(r));
    assert(lines.drop_last() =~= split_lines(change));
    assert(lines.last() == record_line(r));
    let rs = change_records(lines);
    assert(rs == change_records(split_lines(change)).push(n));
    if let Some(base) = parse_checkpoint_spec(checkpoint) {
        assert(rs.drop_last() =~= change_records(split_lines(change)));
        let m = fold_records(base, change_records(split_lines(change)));
        assert(fold_records(base, rs) == apply_record(m, n));
        assert(apply_record(m, n) =~= apply_record(m, r));
    }
}

/// Records on different keys can be folded in either order.
pub proof fn lemma_disjoint_records_commute(m: Map<u64, Seq<char>>, r1: RecordView, r2: RecordView)
    requires
        r1.id != r2.id,
    ensures
        apply_record(apply_record(m, r1), r2) == apply_record(apply_record(m, r2), r1),
{
    assert(apply_record(apply_record(m, r1), r2) =~= apply_record(apply_record(m, r2), r1));
}

/// A line with no delimiter, added to the change log, is skipped: aggregating
/// gives what it gave before, and fails only where it failed before.
pub proof fn lemma_malformed_line_skipped(checkpoint: Seq<char>, change: Seq<char>, line: Seq<char>)
    requires
        has_no(line, ','),
        has_no(line, '\n'),
    ensures
        aggregate_spec(checkpoint, change + line_start(change) + line + seq!['\n']) == aggregate_spec(
            checkpoint,
            change,
        ),
{
    let ch1 = change + line_start(change);
    if change.len() > 0 && change.last() != '\n' {
        lemma_split_lines_close(change);
    } else {
        assert(ch1 =~= change);
    }
    lemma_split_lines_cons(line, Seq::empty());
    assert(line + seq!['\n'] + Seq::<char>::empty() =~= line + seq!['\n']);
    assert(split_lines(Seq::<char>::empty()) =~= Seq::<Seq<char>>::empty());
    assert(ch1.len() == 0 || ch1.last() == '\n');
    lemma_split_lines_append(ch1, line + seq!['\n']);
    assert(ch1 + line + seq!['\n'] =~= ch1 + (line + seq!['\n']));
    let lines = split_lines(ch1 + (line + seq!['\n']));
    assert(lines =~= split_lines(change).push(line));
    assert(lines.drop_last() =~= split_lines(change));
    lemma_find_char_at(line, ',', line.len() as int);
    assert(parse_line_spec(line) is None);
    assert(change_records(lines) == change_records(split_lines(change)));
}

} // verus!
