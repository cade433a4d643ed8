use crate::date::{decimal, decimal_text, extract_date, utc_date_of};
use vstd::prelude::*;

verus! {

/// Which timestamp of a file its date is read from.
#[derive(Clone, Copy, PartialEq, Eq, Debug)]
pub enum TimestampType {
    CREATED,
    MODIFIED,
}

/// A calendar level of grouping, ordered `YEAR < MONTH < DAY`.
#[allow(non_camel_case_types)]
#[derive(Clone, Copy, PartialEq, Eq, Debug, Structural)]
pub enum TreeDepth {
    YEAR,
    MONTH,
    DAY,
}

/// The level with the given rank: 1 is the year, 2 the month, 3 (or more) the day.
pub open spec fn level_of_rank(r: int) -> TreeDepth {
    if r <= 1 {
        TreeDepth::YEAR
    } else if r == 2 {
        TreeDepth::MONTH
    } else {
        TreeDepth::DAY
    }
}

impl TreeDepth {
    /// Position of the level in the order: the year is 1, the month 2, the day 3.
    pub open spec fn rank(self) -> int {
        match self {
            TreeDepth::YEAR => 1,
            TreeDepth::MONTH => 2,
            TreeDepth::DAY => 3,
        }
    }

    pub open spec fn spec_deeper(self) -> TreeDepth {
        match self {
            TreeDepth::YEAR => TreeDepth::MONTH,
            TreeDepth::MONTH => TreeDepth::DAY,
            TreeDepth::DAY => TreeDepth::DAY,
        }
    }

    /// The next finer level; the day is the finest and stays the day.
    #[verifier::when_used_as_spec(spec_deeper)]
    pub fn deeper(self) -> (r: Self)
        ensures
            r == self.spec_deeper(),
    {
        match self {
            TreeDepth::YEAR => TreeDepth::MONTH,
            TreeDepth::MONTH => TreeDepth::DAY,
            TreeDepth::DAY => TreeDepth::DAY,
        }
    }

    pub open spec fn spec_from_level(n: i32) -> TreeDepth {
        if n == 2 {
            TreeDepth::MONTH
        } else if n == 3 {
            TreeDepth::DAY
        } else {
            TreeDepth::YEAR
        }
    }

    /// The depth that a command line number selects: 1 is the year, 2 the month, 3 the day;
    /// any other number selects the year.
    #[verifier::when_used_as_spec(spec_from_level)]
    pub fn from_level(n: i32) -> (r: Self)
        ensures
            r == Self::spec_from_level(n),
    {
        if n == 2 {
            TreeDepth::MONTH
        } else if n == 3 {
            TreeDepth::DAY
        } else {
            TreeDepth::YEAR
        }
    }
}

/// `d` after `n` steps of `deeper`.
pub open spec fn deeper_times(d: TreeDepth, n: nat) -> TreeDepth
    decreases n,
{
    if n == 0 {
        d
    } else {
        deeper_times(d.spec_deeper(), (n - 1) as nat)
    }
}

/// Any number of steps of `deeper` never goes past the day, never comes back up, and leaves the
/// day where it is.
pub proof fn lemma_deeper_saturates(d: TreeDepth, n: nat)
    ensures
        d.rank() <= deeper_times(d, n).rank() <= TreeDepth::DAY.rank(),
        deeper_times(TreeDepth::DAY, n) == TreeDepth::DAY,
    decreases n,
{
    if n > 0 {
        lemma_deeper_saturates(d.spec_deeper(), (n - 1) as nat);
        lemma_deeper_saturates(TreeDepth::DAY, (n - 1) as nat);
    }
}

/// A file as the grouping sees it: the date it is grouped by, and its name.
#[derive(PartialEq, Eq, PartialOrd, Ord, Clone, Debug)]
pub struct FileEntry {
    pub year: i32,
    pub month: u32,
    pub day: u32,
    pub file_name: String,
}

/// The mathematical value of a `FileEntry`.
pub struct EntryView {
    pub year: int,
    pub month: int,
    pub day: int,
    pub name: Seq<char>,
}

impl View for FileEntry {
    type V = EntryView;

    open spec fn view(&self) -> EntryView {
        EntryView {
            year: self.year as int,
            month: self.month as int,
            day: self.day as int,
            name: self.file_name@,
        }
    }
}

/// The values of a sequence of entries.
pub open spec fn entry_views(v: Seq<FileEntry>) -> Seq<EntryView> {
    v.map_values(|e: FileEntry| e@)
}

/// The date field of an entry that a level groups by.
pub open spec fn key_at(e: EntryView, level: TreeDepth) -> int {
    match level {
        TreeDepth::YEAR => e.year,
        TreeDepth::MONTH => e.month,
        TreeDepth::DAY => e.day,
    }
}

/// The entry with its name replaced by the text of its date field at `level`: the value of
/// the group node that holds it at that level.
pub open spec fn group_value(e: EntryView, level: TreeDepth) -> EntryView {
    EntryView { name: decimal(key_at(e, level)), ..e }
}

impl FileEntry {
    /// An entry for the named directory, with no date.
    pub fn from_name(name: String) -> (r: FileEntry)
        ensures
            r@ == (EntryView { year: 0, month: 0, day: 0, name: name@ }),
    {
        FileEntry { year: 0, month: 0, day: 0, file_name: name }
    }

    /// The entry of a file named `file_name` whose timestamp is `secs` seconds after the Unix
    /// epoch, dated in UTC; none where the timestamp has no date.
    pub fn from_timestamp(file_name: String, secs: u64) -> (r: Option<FileEntry>)
        ensures
            secs > i64::MAX ==> r is None,
            secs <= i64::MAX ==> match utc_date_of(secs as i64) {
                Some((y, m, d)) => r matches Some(e) && e@ == (EntryView {
                    year: y as int,
                    month: m as int,
                    day: d as int,
                    name: file_name@,
                }),
                None => r is None,
            },
            r matches Some(e) ==> 1 <= e.month <= 12 && 1 <= e.day <= 31,
    {
        match extract_date(secs) {
            Some((year, month, day)) => Some(FileEntry { year, month, day, file_name }),
            None => None,
        }
    }

    /// A copy of the entry.
    pub fn duplicate(&self) -> (r: FileEntry)
        ensures
            r@ == self@,
    {
        FileEntry {
            year: self.year,
            month: self.month,
            day: self.day,
            file_name: self.file_name.clone(),
        }
    }

    /// The date field that `level` groups by.
    pub fn key(&self, level: TreeDepth) -> (k: i64)
        ensures
            k == key_at(self@, level),
    {
        match level {
            TreeDepth::YEAR => self.year as i64,
            TreeDepth::MONTH => self.month as i64,
            TreeDepth::DAY => self.day as i64,
        }
    }

    /// The value of the year group that holds this entry.
    pub fn year_entry(&self) -> (r: FileEntry)
        ensures
            r@ == group_value(self@, TreeDepth::YEAR),
    {
        FileEntry {
            file_name: decimal_text(self.year as i64),
            month: self.month,
            day: self.day,
            year: self.year,
        }
    }

    /// The value of the month group that holds this entry.
    pub fn month_entry(&self) -> (r: FileEntry)
        ensures
            r@ == group_value(self@, TreeDepth::MONTH),
    {
        FileEntry {
            file_name: decimal_text(self.month as i64),
            month: self.month,
            day: self.day,
            year: self.year,
        }
    }

    /// The value of the day group that holds this entry.
    pub fn day_entry(&self) -> (r: FileEntry)
        ensures
            r@ == group_value(self@, TreeDepth::DAY),
    {
        FileEntry {
            file_name: decimal_text(self.day as i64),
            month: self.month,
            day: self.day,
            year: self.year,
        }
    }

    /// The value of the group that holds this entry at `level`.
    pub fn group_entry(&self, level: TreeDepth) -> (r: FileEntry)
        ensures
            r@ == group_value(self@, level),
    {
        match level {
            TreeDepth::YEAR => self.year_entry(),
            TreeDepth::MONTH => self.month_entry(),
            TreeDepth::DAY => self.day_entry(),
        }
    }
}

} // verus!
