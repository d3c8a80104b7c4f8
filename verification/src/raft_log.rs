use vstd::prelude::*;
use vstd::std_specs::convert::FromSpecImpl;

verus! {

/// One slot of a log. The root stands at position 0 of every log and carries
/// nothing; every other slot records the term it was written in, its position
/// and a payload.
#[derive(PartialEq, Eq, Debug)]
pub enum LogEntry {
    Root,
    Node { term: usize, index: usize, contents: String },
}

/// A log entry as contracts see it.
pub ghost enum Entry {
    Root,
    Node { term: usize, index: usize, contents: Seq<char> },
}

impl View for LogEntry {
    type V = Entry;

    open spec fn view(&self) -> Entry {
        match *self {
            LogEntry::Root => Entry::Root,
            LogEntry::Node { term, index, contents } => Entry::Node {
                term,
                index,
                contents: contents@,
            },
        }
    }
}

impl Clone for LogEntry {
    fn clone(&self) -> (copy: Self)
        ensures
            copy@ == self@,
    {
        match self {
            LogEntry::Root => LogEntry::Root,
            LogEntry::Node { term, index, contents } => LogEntry::Node {
                term: *term,
                index: *index,
                contents: contents.clone(),
            },
        }
    }
}

/// The entries of a slice or vector as contracts see them.
pub open spec fn entries_of(entries: Seq<LogEntry>) -> Seq<Entry> {
    entries.map_values(|entry: LogEntry| entry@)
}

/// Whether the entry found at `prev_index` is the one the sender believes to
/// be there. The root matches whatever the sender believes.
pub open spec fn prev_term_matches(found: Entry, prev_index: int, prev_term: int) -> bool {
    match found {
        Entry::Root => true,
        Entry::Node { term, index, .. } => term == prev_term && index == prev_index,
    }
}

/// Whether `first` is numbered as the direct successor of `prev_index`.
pub open spec fn follows(first: Entry, prev_index: int) -> bool {
    match first {
        Entry::Root => false,
        Entry::Node { index, .. } => index == prev_index + 1,
    }
}

/// Whether an append is accepted: the log has an entry at `prev_index`, and
/// either nothing is to be appended, or that entry matches and the first new
/// entry follows it directly.
pub open spec fn accepts(log: Seq<Entry>, prev_index: int, prev_term: int, entries: Seq<Entry>) -> bool {
    &&& 0 <= prev_index < log.len()
    &&& entries.len() > 0 ==> prev_term_matches(log[prev_index], prev_index, prev_term) && follows(
        entries[0],
        prev_index,
    )
}

/// The log after an append: an accepted, non-empty append cuts the log behind
/// `prev_index` and puts the new entries there; anything else leaves the log
/// as it was.
pub open spec fn appended(log: Seq<Entry>, prev_index: int, prev_term: int, entries: Seq<Entry>) -> Seq<Entry> {
    if accepts(log, prev_index, prev_term, entries) && entries.len() > 0 {
        log.take(prev_index + 1) + entries
    } else {
        log
    }
}

/// Whether every position holds the entry that belongs there: the root at 0,
/// and at each later position `i` a node numbered `first + i`.
pub open spec fn numbered_from(entries: Seq<Entry>, first: int) -> bool {
    forall|i: int|
        0 <= i < entries.len() ==> match #[trigger] entries[i] {
            Entry::Root => first + i == 0,
            Entry::Node { index, .. } => index == first + i && first + i > 0,
        }
}

/// An ordered history of entries.
#[derive(Debug)]
pub struct RaftLog(pub Vec<LogEntry>);

impl View for RaftLog {
    type V = Seq<Entry>;

    open spec fn view(&self) -> Seq<Entry> {
        entries_of(self.0@)
    }
}

impl RaftLog {
    /// A log starts with the root.
    pub open spec fn wf(&self) -> bool {
        self@.len() > 0 && self@[0] is Root
    }

    /// Checks that the log agrees with the sender at `prev_index` and, if so,
    /// replaces everything behind `prev_index` by `entries`.
    ///
    /// With no entries to append the call only checks that the log reaches
    /// `prev_index`. Of the new entries only the first is checked for its
    /// number. An accepted append drops the old suffix even where it equals
    /// the new one.
    pub fn append_entries(&mut self, prev_index: usize, prev_term: usize, entries: &[LogEntry]) -> (ok:
        bool)
        ensures
            ok == accepts(old(self)@, prev_index as int, prev_term as int, entries_of(entries@)),
            final(self)@ == appended(
                old(self)@,
                prev_index as int,
                prev_term as int,
                entries_of(entries@),
            ),
            old(self).wf() ==> final(self).wf(),
    {
        if prev_index >= self.0.len() {
            return false;
        }
        let prev_term_matches = match &self.0[prev_index] {
            LogEntry::Root => true,
            LogEntry::Node { term, index, .. } => *term == prev_term && *index == prev_index,
        };
        if entries.len() == 0 {
            return true;
        }
        let new_entry_is_contiguous = match &entries[0] {
            LogEntry::Node { index, .. } => *index == prev_index + 1,
            LogEntry::Root => false,
        };
        if prev_term_matches && new_entry_is_contiguous {
            self.0.truncate(prev_index + 1);
            let mut i: usize = 0;
            while i < entries.len()
                invariant
                    i <= entries.len(),
                    prev_index < old(self).0@.len(),
                    entries_of(self.0@) == old(self)@.take(prev_index + 1) + entries_of(
                        entries@,
                    ).take(i as int),
                decreases entries.len() - i,
            {
                let ghost before = self.0@;
                let entry = entries[i].clone();
                self.0.push(entry);
                proof {
                    let news = entries_of(entries@);
                    assert(entries_of(self.0@) =~= entries_of(before).push(entry@));
                    assert(news.take(i + 1) =~= news.take(i as int).push(news[i as int]));
                    assert(entries_of(self.0@) =~= old(self)@.take(prev_index + 1) + news.take(
                        i + 1,
                    ));
                }
                i += 1;
            }
            assert(entries_of(entries@).take(i as int) == entries_of(entries@));
        }
        prev_term_matches && new_entry_is_contiguous
    }
}

impl std::ops::Deref for RaftLog {
    type Target = Vec<LogEntry>;

    fn deref(&self) -> (entries: &Vec<LogEntry>)
        ensures
            *entries == self.0,
    {
        &self.0
    }
}

impl Default for RaftLog {
    /// The log that holds the root and nothing else.
    fn default() -> (log: Self)
        ensures
            log@ == seq![Entry::Root],
    {
        let mut entries: Vec<LogEntry> = Vec::new();
        entries.push(LogEntry::Root);
        assert(entries_of(entries@) =~= seq![Entry::Root]);
        RaftLog(entries)
    }
}

impl From<&[LogEntry]> for RaftLog {
    /// A log with a copy of `entries`, checked for nothing.
    fn from(entries: &[LogEntry]) -> (log: Self)
        ensures
            log@ == entries_of(entries@),
    {
        let mut copies: Vec<LogEntry> = Vec::new();
        let mut i: usize = 0;
        while i < entries.len()
            invariant
                i <= entries.len(),
                entries_of(copies@) == entries_of(entries@).take(i as int),
            decreases entries.len() - i,
        {
            let ghost before = copies@;
            let entry = entries[i].clone();
            copies.push(entry);
            proof {
                let all = entries_of(entries@);
                assert(entries_of(copies@) =~= entries_of(before).push(entry@));
                assert(all.take(i + 1) =~= all.take(i as int).push(all[i as int]));
            }
            i += 1;
        }
        assert(entries_of(entries@).take(i as int) == entries_of(entries@));
        RaftLog(copies)
    }
}

/// A log cannot be written down as a ghost value, so the conversion states
/// its result in its own `ensures` and leaves `from_spec` unused.
impl FromSpecImpl<&[LogEntry]> for RaftLog {
    open spec fn obeys_from_spec() -> bool {
        false
    }

    open spec fn from_spec(entries: &[LogEntry]) -> Self {
        arbitrary()
    }
}

/// An append of no entries is accepted exactly when the log has an entry at
/// `prev_index`, whatever that entry is, and never changes the log.
pub proof fn lemma_empty_append(log: Seq<Entry>, prev_index: int, prev_term: int)
    ensures
        accepts(log, prev_index, prev_term, Seq::empty()) <==> 0 <= prev_index < log.len(),
        appended(log, prev_index, prev_term, Seq::empty()) == log,
{
}

/// A refused append leaves the log as it was.
pub proof fn lemma_refused_append(log: Seq<Entry>, prev_index: int, prev_term: int, entries: Seq<Entry>)
    requires
        !accepts(log, prev_index, prev_term, entries),
    ensures
        appended(log, prev_index, prev_term, entries) == log,
{
}

/// An accepted append of at least one entry keeps the log up to `prev_index`,
/// drops what stood behind it, and ends with the entries given, in order: the
/// last entry of the log is then the last entry given.
pub proof fn lemma_accepted_append(log: Seq<Entry>, prev_index: int, prev_term: int, entries: Seq<Entry>)
    requires
        accepts(log, prev_index, prev_term, entries),
        entries.len() > 0,
    ensures
        appended(log, prev_index, prev_term, entries).len() == prev_index + 1 + entries.len(),
        forall|i: int|
            0 <= i <= prev_index ==> #[trigger] appended(log, prev_index, prev_term, entries)[i]
                == log[i],
        forall|j: int|
            0 <= j < entries.len() ==> appended(log, prev_index, prev_term, entries)[prev_index + 1
                + j] == #[trigger] entries[j],
        appended(log, prev_index, prev_term, entries).last() == entries.last(),
{
}

/// A log that starts with the root still does after any append.
pub proof fn lemma_append_keeps_root(log: Seq<Entry>, prev_index: int, prev_term: int, entries: Seq<Entry>)
    requires
        log.len() > 0,
        log[0] is Root,
    ensures
        appended(log, prev_index, prev_term, entries).len() > 0,
        appended(log, prev_index, prev_term, entries)[0] is Root,
{
}

/// A log without gaps stays without gaps when the entries appended are
/// themselves numbered one after the other from `prev_index + 1`. The append
/// checks the first number only, so the rest is for the sender to keep.
pub proof fn lemma_append_keeps_numbering(
    log: Seq<Entry>,
    prev_index: int,
    prev_term: int,
    entries: Seq<Entry>,
)
    requires
        numbered_from(log, 0),
        numbered_from(entries, prev_index + 1),
    ensures
        numbered_from(appended(log, prev_index, prev_term, entries), 0),
{
    let after = appended(log, prev_index, prev_term, entries);
    if accepts(log, prev_index, prev_term, entries) && entries.len() > 0 {
        assert forall|i: int| 0 <= i < after.len() implies match #[trigger] after[i] {
            Entry::Root => i == 0,
            Entry::Node { index, .. } => index == i && i > 0,
        } by {
            if i <= prev_index {
                assert(after[i] == log[i]);
            } else {
                assert(after[i] == entries[i - prev_index - 1]);
            }
        }
    }
}

} // verus!
