//! Save history: one snapshot of the previous file per save.
//!
//! A snapshot lives at `<history directory>/<id>/<stamp>.json`. The store
//! keeps the newest `SNAPSHOT_LIMIT` snapshots per artifact and deletes the
//! rest, so one bad edit is one restore away.

use vstd::prelude::*;

use crate::model::Duplicate;
use crate::order;
use crate::order::comes_before;
use crate::text;
use crate::text::{
    chars_of, decimal_of, digit, find_char, finishes_with, owned, part, text_of,
};
use crate::time;
use crate::time::rfc3339;
use crate::uploads;
use crate::uploads::offset_of;

verus! {

/// Snapshots kept per artifact. The next save deletes older ones.
pub const SNAPSHOT_LIMIT: usize = 50;

/// Longest stamp accepted from a request: a time plus a short suffix.
pub const STAMP_LENGTH_LIMIT: usize = 32;

/// Where the snapshots lie: one directory per artifact.
#[derive(Debug)]
pub struct HistoryStore {
    directory: String,
}

/// One row of a history.
#[derive(Debug, PartialEq, Eq)]
pub struct Snapshot {
    /// File stem of the snapshot, used in the restore route.
    pub stamp: String,
    /// When the snapshot was taken, as an RFC 3339 UTC text.
    pub saved_at: String,
    /// Size of the snapshot file.
    pub size_bytes: u64,
}

// -- Paths ------------------------------------------------------------------

/// The path of `name` in `directory`. An absolute name stands for itself.
pub open spec fn joined(directory: Seq<char>, name: Seq<char>) -> Seq<char> {
    if directory.len() == 0 || (name.len() > 0 && name[0] == '/') {
        name
    } else if directory.last() == '/' {
        directory + name
    } else {
        directory + "/"@ + name
    }
}

fn join_path(directory: &str, name: &str) -> (r: String)
    ensures
        r@ == joined(directory@, name@),
{
    let head = chars_of(directory);
    let tail = chars_of(name);
    if head.len() == 0 || (tail.len() > 0 && tail[0] == '/') {
        owned(name)
    } else {
        let mut r = owned(directory);
        if head[head.len() - 1] != '/' {
            r.append("/");
        }
        r.append(name);
        r
    }
}

/// The file of a stamp.
pub open spec fn file_name(stamp: Seq<char>) -> Seq<char> {
    stamp + ".json"@
}

fn file_of(stamp: &str) -> (r: String)
    ensures
        r@ == file_name(stamp@),
{
    let mut r = owned(stamp);
    r.append(".json");
    r
}

impl HistoryStore {
    /// The directory of the store.
    pub closed spec fn root(&self) -> Seq<char> {
        self.directory@
    }

    /// Creates a store over `directory`. The directory may not exist yet; it
    /// is created on the first snapshot.
    pub fn new(directory: String) -> (r: HistoryStore)
        ensures
            r.root() == directory@,
    {
        HistoryStore { directory }
    }

    /// The directory of the store.
    pub fn directory(&self) -> (r: &str)
        ensures
            r@ == self.root(),
    {
        self.directory.as_str()
    }

    /// The directory of one artifact's snapshots.
    pub fn design_directory(&self, id: &str) -> (r: String)
        ensures
            r@ == joined(self.root(), id@),
    {
        join_path(self.directory.as_str(), id)
    }

    /// The file of one snapshot.
    pub fn path_of(&self, id: &str, stamp: &str) -> (r: String)
        ensures
            r@ == joined(joined(self.root(), id@), file_name(stamp@)),
    {
        join_path(self.design_directory(id).as_str(), file_of(stamp).as_str())
    }
}

// -- Stamps -----------------------------------------------------------------

/// True for a character that a stamp may hold.
pub open spec fn is_stamp_char(c: char) -> bool {
    text::is_digit(c) || c == '-' || c == 'T' || c == 'Z'
}

/// True for a stamp the store could have written: digits, `T`, `Z`, and
/// hyphens only. That excludes path separators and `.` segments.
pub open spec fn valid_stamp(stamp: Seq<char>) -> bool {
    &&& 0 < stamp.len() <= STAMP_LENGTH_LIMIT
    &&& forall|i: int| 0 <= i < stamp.len() ==> is_stamp_char(#[trigger] stamp[i])
}

/// A valid stamp holds no path separator and no dot, so it names a file
/// directly below its directory.
pub proof fn law_a_valid_stamp_is_no_path(stamp: Seq<char>)
    requires
        valid_stamp(stamp),
    ensures
        !stamp.contains('/'),
        !stamp.contains('\\'),
        !stamp.contains('.'),
{
}

fn valid_chars(chars: &[char]) -> (r: bool)
    ensures
        r == valid_stamp(chars@),
{
    if chars.len() == 0 || chars.len() > STAMP_LENGTH_LIMIT {
        return false;
    }
    let mut i: usize = 0;
    while i < chars.len()
        invariant
            i <= chars@.len(),
            0 < chars@.len() <= STAMP_LENGTH_LIMIT,
            forall|j: int| 0 <= j < i ==> is_stamp_char(#[trigger] chars@[j]),
        decreases chars@.len() - i,
    {
        let c = chars[i];
        if !(digit(c) || c == '-' || c == 'T' || c == 'Z') {
            return false;
        }
        i += 1;
    }
    true
}

/// True for a stamp the store could have written.
pub fn is_valid_stamp(stamp: &str) -> (r: bool)
    ensures
        r == valid_stamp(stamp@),
{
    valid_chars(&chars_of(stamp))
}

/// `s` with `to` in place of every `from`.
pub open spec fn exchanged(s: Seq<char>, from: char, to: char) -> Seq<char> {
    s.map_values(
        |c: char|
            if c == from {
                to
            } else {
                c
            },
    )
}

fn exchange(chars: &[char], from: char, to: char) -> (r: Vec<char>)
    ensures
        r@ == exchanged(chars@, from, to),
{
    let mut r: Vec<char> = Vec::new();
    let mut i: usize = 0;
    while i < chars.len()
        invariant
            i <= chars@.len(),
            r@ == exchanged(chars@, from, to).take(i as int),
        decreases chars@.len() - i,
    {
        let c = chars[i];
        r.push(
            if c == from {
                to
            } else {
                c
            },
        );
        assert(r@ =~= exchanged(chars@, from, to).take(i + 1));
        i += 1;
    }
    assert(exchanged(chars@, from, to).take(i as int) =~= exchanged(chars@, from, to));
    r
}

/// The stamp of a snapshot taken at `seconds`: the RFC 3339 UTC time with
/// every `:` replaced by `-`, so it is a safe file name.
pub open spec fn stamp_at(seconds: int) -> Seq<char> {
    exchanged(time::time_text(time::moment_at(seconds), ':'), ':', '-')
}

/// The file stem for a snapshot taken at `unix_seconds`.
pub fn stamp_from_unix(unix_seconds: u64) -> (r: String)
    ensures
        r@ == stamp_at(unix_seconds as int),
{
    text_of(&exchange(&chars_of(rfc3339(unix_seconds).as_str()), ':', '-'))
}

/// The character that starts at byte `offset`, searched from character `i`
/// on.
pub open spec fn char_at_byte(s: Seq<char>, offset: int, i: int) -> Option<int>
    decreases s.len() + 1 - i,
{
    if i < 0 || i > s.len() {
        None
    } else if uploads::byte_offset(s, i) == offset {
        Some(i)
    } else {
        char_at_byte(s, offset, i + 1)
    }
}

fn find_byte(chars: &[char], offset: usize) -> (r: Option<usize>)
    ensures
        text::position(r) == char_at_byte(chars@, offset as int, 0),
        r is Some ==> r->0 <= chars@.len() && uploads::byte_offset(chars@, r->0 as int) == offset,
{
    let length: usize = chars.len();
    let mut i: usize = 0;
    loop
        invariant
            i <= length,
            length == chars@.len(),
            char_at_byte(chars@, offset as int, 0) == char_at_byte(
                chars@,
                offset as int,
                i as int,
            ),
        decreases length - i,
    {
        if offset_of(chars, i) == offset {
            return Some(i);
        }
        if i == length {
            return None;
        }
        i += 1;
    }
}

/// The RFC 3339 time that a stamp encodes: its first ten bytes, and behind
/// the eleventh the next nine with `:` for `-`. Any other text stays.
pub open spec fn saved_at(stamp: Seq<char>) -> Seq<char> {
    match (char_at_byte(stamp, 10, 0), char_at_byte(stamp, 11, 0), char_at_byte(stamp, 20, 0)) {
        (Some(date), Some(start), Some(end)) => if start <= end {
            stamp.take(date) + "T"@ + exchanged(stamp.subrange(start, end), '-', ':')
        } else {
            stamp
        },
        _ => stamp,
    }
}

/// The RFC 3339 time a stamp encodes. A same-second suffix is dropped.
pub fn saved_at_of(stamp: &str) -> (r: String)
    ensures
        r@ == saved_at(stamp@),
{
    let chars = chars_of(stamp);
    match (find_byte(&chars, 10), find_byte(&chars, 11), find_byte(&chars, 20)) {
        (Some(date), Some(start), Some(end)) => {
            if start <= end {
                let mut r = text_of(&part(&chars, 0, date));
                r.append("T");
                let clock = exchange(&part(&chars, start, end), '-', ':');
                r.append(text_of(&clock).as_str());
                assert(chars@.take(date as int) =~= chars@.subrange(0, date as int));
                r
            } else {
                owned(stamp)
            }
        },
        _ => owned(stamp),
    }
}

// -- Free stamps ------------------------------------------------------------

/// The `n`th stamp to try for one second: `base`, `base-2`, `base-3`, and so
/// on.
pub open spec fn candidate(base: Seq<char>, n: nat) -> Seq<char> {
    if n <= 1 {
        base
    } else {
        base + "-"@ + text::decimal(n)
    }
}

/// True when a directory with these files holds a snapshot of the stamp.
pub open spec fn is_taken(files: Seq<Seq<char>>, stamp: Seq<char>) -> bool {
    files.contains(file_name(stamp))
}

/// True when `stamp` is the first candidate that no snapshot uses.
pub open spec fn is_first_free(stamp: Seq<char>, base: Seq<char>, files: Seq<Seq<char>>) -> bool {
    exists|n: nat|
        #![trigger candidate(base, n)]
        {
            &&& 1 <= n
            &&& stamp == candidate(base, n)
            &&& !is_taken(files, stamp)
            &&& forall|m: nat| 1 <= m < n ==> is_taken(files, #[trigger] candidate(base, m))
        }
}

/// Different candidates have different files.
proof fn lemma_candidates_differ(base: Seq<char>, a: nat, b: nat)
    requires
        1 <= a < b,
    ensures
        file_name(candidate(base, a)) != file_name(candidate(base, b)),
{
    reveal_strlit("-");
    let x = candidate(base, a);
    let y = candidate(base, b);
    let head = base + "-"@;
    if a == 1 {
        assert(y.len() > x.len());
    } else {
        order::lemma_decimals_ascend(a, b);
        assert(x.skip(head.len() as int) =~= text::decimal(a));
        assert(y.skip(head.len() as int) =~= text::decimal(b));
    }
    assert(file_name(x).take(x.len() as int) =~= x);
    assert(file_name(y).take(y.len() as int) =~= y);
}

/// So many different candidates cannot all be taken.
proof fn lemma_some_candidate_is_free(base: Seq<char>, files: Seq<Seq<char>>, n: nat)
    requires
        forall|m: nat| 1 <= m <= n ==> is_taken(files, #[trigger] candidate(base, m)),
    ensures
        n <= files.len(),
{
    let tried = Seq::new(n, |i: int| file_name(candidate(base, (i + 1) as nat)));
    assert(tried.no_duplicates()) by {
        assert forall|i: int, j: int|
            0 <= i < tried.len() && 0 <= j < tried.len() && i != j implies tried[i] != tried[j] by {
            if i < j {
                lemma_candidates_differ(base, (i + 1) as nat, (j + 1) as nat);
            } else {
                lemma_candidates_differ(base, (j + 1) as nat, (i + 1) as nat);
            }
        }
    }
    tried.unique_seq_to_set();
    assert(tried.to_set().subset_of(files.to_set())) by {
        assert forall|name: Seq<char>| tried.to_set().contains(name) implies files.to_set().contains(
            name,
        ) by {
            let i = choose|i: int| 0 <= i < tried.len() && tried[i] == name;
            assert(is_taken(files, candidate(base, (i + 1) as nat)));
        }
    }
    files.lemma_cardinality_of_set();
    vstd::seq_lib::seq_to_set_is_finite(files);
    vstd::set_lib::lemma_len_subset(tried.to_set(), files.to_set());
}

fn holds_file(files: &[String], name: &str) -> (r: bool)
    ensures
        r == text::strings(files@).contains(name@),
{
    let mut k: usize = 0;
    while k < files.len()
        invariant
            k <= files@.len(),
            forall|j: int| 0 <= j < k ==> text::strings(files@)[j] != name@,
        decreases files@.len() - k,
    {
        if *files[k].as_str() == *name {
            assert(text::strings(files@)[k as int] == name@);
            return true;
        }
        k += 1;
    }
    false
}

/// `base` when no snapshot uses it yet, else `base-2`, `base-3`, and so on,
/// so two saves in one second keep two snapshots. `files` are the names in
/// the artifact's history directory.
pub fn free_stamp(base: &str, files: &[String]) -> (r: String)
    ensures
        is_first_free(r@, base@, text::strings(files@)),
{
    let ghost names = text::strings(files@);
    let count: usize = files.len();
    let mut n: u128 = 1;
    let mut stamp = owned(base);
    while holds_file(files, file_of(stamp.as_str()).as_str())
        invariant
            names == text::strings(files@),
            count == files@.len(),
            1 <= n <= count + 1,
            stamp@ == candidate(base@, n as nat),
            forall|m: nat| 1 <= m < n ==> is_taken(names, #[trigger] candidate(base@, m)),
        decreases count + 1 - n,
    {
        proof {
            assert(is_taken(names, candidate(base@, n as nat)));
            lemma_some_candidate_is_free(base@, names, n as nat);
        }
        n += 1;
        stamp = owned(base);
        stamp.append("-");
        stamp.append(decimal_of(n).as_str());
    }
    stamp
}

// -- The order of stamps ----------------------------------------------------

/// Where the time of a stamp ends: behind the first `Z`.
pub open spec fn time_end(stamp: Seq<char>) -> int {
    match text::find_char_from(stamp, 'Z', 0) {
        Some(i) => i + 1,
        None => stamp.len() as int,
    }
}

/// True when the first stamp is older: an earlier time, or the same time
/// with a lower suffix.
pub open spec fn is_older(a: Seq<char>, b: Seq<char>) -> bool {
    let x = a.take(time_end(a));
    let y = b.take(time_end(b));
    order::precedes(x, y) || (x == y && order::precedes(a.skip(time_end(a)), b.skip(time_end(b))))
}

proof fn lemma_time_end(stamp: Seq<char>)
    ensures
        0 <= time_end(stamp) <= stamp.len(),
{
    text::lemma_find_char_from(stamp, 'Z', 0);
}

proof fn lemma_older_is_transitive(a: Seq<char>, b: Seq<char>, c: Seq<char>)
    requires
        is_older(a, b),
        is_older(b, c),
    ensures
        is_older(a, c),
{
    let (x, y, z) = (a.take(time_end(a)), b.take(time_end(b)), c.take(time_end(c)));
    let (p, q, r) = (a.skip(time_end(a)), b.skip(time_end(b)), c.skip(time_end(c)));
    if order::precedes(x, y) && order::precedes(y, z) {
        order::lemma_precedes_is_transitive(x, y, z);
    }
    if order::precedes(p, q) && order::precedes(q, r) {
        order::lemma_precedes_is_transitive(p, q, r);
    }
}

fn end_of_time(chars: &[char]) -> (r: usize)
    ensures
        r == time_end(chars@),
        r <= chars@.len(),
{
    let length: usize = chars.len();
    proof {
        lemma_time_end(chars@);
        text::lemma_find_char_from(chars@, 'Z', 0);
    }
    match find_char(chars, 'Z', 0) {
        Some(i) => i + 1,
        None => length,
    }
}

fn older(a: &str, b: &str) -> (r: bool)
    ensures
        r == is_older(a@, b@),
{
    let first = chars_of(a);
    let second = chars_of(b);
    let i = end_of_time(&first);
    let j = end_of_time(&second);
    let x = part(&first, 0, i);
    let y = part(&second, 0, j);
    proof {
        assert(x@ =~= a@.take(i as int));
        assert(y@ =~= b@.take(j as int));
        assert(first@.subrange(i as int, first@.len() as int) =~= a@.skip(i as int));
        assert(second@.subrange(j as int, second@.len() as int) =~= b@.skip(j as int));
        order::lemma_precedes_is_total(x@, y@);
        order::lemma_precedes_is_strict(x@);
    }
    if comes_before(&x, &y) {
        true
    } else if comes_before(&y, &x) {
        proof {
            if x@ == y@ {
                order::lemma_precedes_is_strict(x@);
            }
        }
        false
    } else {
        comes_before(&part(&first, i, first.len()), &part(&second, j, second.len()))
    }
}

/// True when no stamp stands before a newer one.
pub open spec fn newest_first(stamps: Seq<Seq<char>>) -> bool {
    forall|i: int, j: int|
        0 <= i < j < stamps.len() ==> !is_older(#[trigger] stamps[i], #[trigger] stamps[j])
}

/// Putting a stamp behind those that are not older keeps the order.
proof fn lemma_put_stamp(stamps: Seq<Seq<char>>, k: int, new: Seq<char>)
    requires
        0 <= k <= stamps.len(),
        newest_first(stamps),
        forall|i: int| 0 <= i < k ==> !is_older(#[trigger] stamps[i], new),
        k < stamps.len() ==> is_older(stamps[k], new),
    ensures
        newest_first(stamps.insert(k, new)),
        stamps.insert(k, new).to_multiset() == stamps.to_multiset().insert(new),
{
    vstd::seq_lib::to_multiset_insert(stamps, k, new);
    let after = stamps.insert(k, new);
    assert forall|i: int, j: int| 0 <= i < j < after.len() implies !is_older(
        #[trigger] after[i],
        #[trigger] after[j],
    ) by {
        let x = if i < k {
            stamps[i]
        } else {
            stamps[i - 1]
        };
        let y = if j < k {
            stamps[j]
        } else {
            stamps[j - 1]
        };
        if i == k && is_older(new, y) {
            lemma_older_is_transitive(stamps[k], new, y);
            lemma_nothing_is_older_than_itself(stamps[k]);
        }
    }
}

fn put_stamp(sorted: &mut Vec<String>, stamp: String)
    requires
        newest_first(text::strings(old(sorted)@)),
    ensures
        newest_first(text::strings(final(sorted)@)),
        text::strings(final(sorted)@).to_multiset() == text::strings(
            old(sorted)@,
        ).to_multiset().insert(stamp@),
{
    let ghost before = text::strings(sorted@);
    let ghost new = stamp@;
    let mut k: usize = 0;
    while k < sorted.len() && !older(sorted[k].as_str(), stamp.as_str())
        invariant
            k <= sorted@.len(),
            text::strings(sorted@) == before,
            stamp@ == new,
            forall|i: int| 0 <= i < k ==> !is_older(#[trigger] before[i], new),
        decreases sorted@.len() - k,
    {
        k += 1;
    }
    assert(k < sorted@.len() ==> before[k as int] == sorted@[k as int]@);
    proof {
        lemma_put_stamp(before, k as int, new);
    }
    sorted.insert(k, stamp);
    assert(text::strings(sorted@) =~= before.insert(k as int, new));
}

proof fn lemma_nothing_is_older_than_itself(stamp: Seq<char>)
    ensures
        !is_older(stamp, stamp),
{
    order::lemma_precedes_is_strict(stamp.take(time_end(stamp)));
    order::lemma_precedes_is_strict(stamp.skip(time_end(stamp)));
}

// -- The directory ----------------------------------------------------------

/// The stamp of the snapshot in a file, when it is one.
pub open spec fn stamp_in(file: Seq<char>) -> Option<Seq<char>> {
    let stem = file.take(file.len() - ".json"@.len());
    if text::ends_with(file, ".json"@) && valid_stamp(stem) {
        Some(stem)
    } else {
        None
    }
}

/// The stamps of the snapshots among the first `n` files.
pub open spec fn stamps_in(files: Seq<Seq<char>>, n: int) -> Seq<Seq<char>>
    decreases n,
{
    if n <= 0 {
        Seq::empty()
    } else {
        match stamp_in(files[n - 1]) {
            Some(stamp) => stamps_in(files, n - 1).push(stamp),
            None => stamps_in(files, n - 1),
        }
    }
}

/// True when `stamps` are the snapshots in a directory with these files,
/// newest first.
pub open spec fn lists(stamps: Seq<Seq<char>>, files: Seq<Seq<char>>) -> bool {
    &&& newest_first(stamps)
    &&& stamps.to_multiset() == stamps_in(files, files.len() as int).to_multiset()
}

fn stamp_of_file(file: &str) -> (r: Option<String>)
    ensures
        match r {
            Some(stamp) => stamp_in(file@) == Some(stamp@),
            None => stamp_in(file@) is None,
        },
{
    let chars = chars_of(file);
    proof {
        reveal_strlit(".json");
    }
    if finishes_with(&chars, ".json") {
        let stem = part(&chars, 0, chars.len() - 5);
        assert(stem@ =~= file@.take(file@.len() - 5));
        if valid_chars(&stem) {
            return Some(text_of(&stem));
        }
    }
    None
}

/// Every stamp stored for an artifact, newest first. `files` are the names
/// in its history directory.
pub fn stored_stamps(files: &[String]) -> (r: Vec<String>)
    ensures
        lists(text::strings(r@), text::strings(files@)),
{
    let ghost names = text::strings(files@);
    let mut r: Vec<String> = Vec::new();
    let mut k: usize = 0;
    assert(text::strings(r@) =~= Seq::<Seq<char>>::empty());
    while k < files.len()
        invariant
            k <= files@.len(),
            names == text::strings(files@),
            newest_first(text::strings(r@)),
            text::strings(r@).to_multiset() == stamps_in(names, k as int).to_multiset(),
        decreases files@.len() - k,
    {
        if let Some(stamp) = stamp_of_file(files[k].as_str()) {
            proof {
                vstd::seq_lib::to_multiset_build(stamps_in(names, k as int), stamp@);
            }
            put_stamp(&mut r, stamp);
        }
        k += 1;
    }
    r
}

/// What saving a snapshot does to an artifact's history directory.
#[derive(Debug)]
pub struct SnapshotPlan {
    /// The stamp of the new snapshot.
    pub stamp: String,
    /// The stamps to delete once the new file is written.
    pub removed: Vec<String>,
}

/// The stamps past the limit.
pub open spec fn stale(stamps: Seq<Seq<char>>) -> Seq<Seq<char>> {
    if stamps.len() > SNAPSHOT_LIMIT {
        stamps.skip(SNAPSHOT_LIMIT as int)
    } else {
        Seq::empty()
    }
}

/// The stamps past the limit.
pub fn stale_stamps(stamps: &[String]) -> (r: Vec<String>)
    ensures
        text::strings(r@) == stale(text::strings(stamps@)),
{
    let mut r: Vec<String> = Vec::new();
    let mut k: usize = SNAPSHOT_LIMIT;
    while k < stamps.len()
        invariant
            SNAPSHOT_LIMIT <= k,
            stamps@.len() > SNAPSHOT_LIMIT ==> k <= stamps@.len() && r@ == stamps@.subrange(
                SNAPSHOT_LIMIT as int,
                k as int,
            ),
            stamps@.len() <= SNAPSHOT_LIMIT ==> r@.len() == 0,
        decreases stamps@.len() - k,
    {
        r.push(stamps[k].duplicate());
        assert(r@ =~= stamps@.subrange(SNAPSHOT_LIMIT as int, k + 1));
        k += 1;
    }
    assert(stamps@.len() > SNAPSHOT_LIMIT ==> r@ =~= stamps@.skip(SNAPSHOT_LIMIT as int));
    assert(text::strings(r@) =~= stale(text::strings(stamps@)));
    r
}

/// Plans a snapshot taken at `unix_seconds`: a stamp of its own, then the
/// deletion of the snapshots past `SNAPSHOT_LIMIT`. `files` are the names in
/// the artifact's history directory.
pub fn plan_snapshot(files: &[String], unix_seconds: u64) -> (r: SnapshotPlan)
    ensures
        is_first_free(r.stamp@, stamp_at(unix_seconds as int), text::strings(files@)),
        exists|all: Seq<Seq<char>>|
            #[trigger] lists(all, text::strings(files@).push(file_name(r.stamp@)))
                && text::strings(r.removed@) == stale(all),
{
    let stamp = free_stamp(stamp_from_unix(unix_seconds).as_str(), files);
    let mut after: Vec<String> = Vec::new();
    let mut k: usize = 0;
    while k < files.len()
        invariant
            k <= files@.len(),
            after@ == files@.take(k as int),
        decreases files@.len() - k,
    {
        after.push(files[k].duplicate());
        k += 1;
    }
    after.push(file_of(stamp.as_str()));
    assert(text::strings(after@) =~= text::strings(files@).push(file_name(stamp@)));
    let all = stored_stamps(&after);
    let removed = stale_stamps(&all);
    let ghost stamps = text::strings(all@);
    let plan = SnapshotPlan { stamp, removed };
    assert(lists(stamps, text::strings(files@).push(file_name(plan.stamp@))));
    assert(text::strings(plan.removed@) == stale(stamps));
    plan
}

// -- Laws -------------------------------------------------------------------

/// Every snapshot kept is at least as new as every one deleted, and no more
/// than `SNAPSHOT_LIMIT` are kept.
pub proof fn law_the_newest_snapshots_are_kept(
    stamps: Seq<Seq<char>>,
    files: Seq<Seq<char>>,
    kept: int,
    deleted: int,
)
    requires
        lists(stamps, files),
        0 <= kept < stamps.len() - stale(stamps).len(),
        0 <= deleted < stale(stamps).len(),
    ensures
        !is_older(stamps[kept], stale(stamps)[deleted]),
        stamps.len() - stale(stamps).len() <= SNAPSHOT_LIMIT,
{
    assert(stale(stamps)[deleted] == stamps[SNAPSHOT_LIMIT + deleted]);
}

/// A number below ten to the `k` has at most `k` digits.
proof fn lemma_decimal_length(n: nat, k: nat)
    requires
        1 <= k,
        n < vstd::arithmetic::power::pow(10, k),
    ensures
        text::decimal(n).len() <= k,
    decreases n,
{
    reveal(vstd::arithmetic::power::pow);
    if n >= 10 {
        if k == 1 {
            assert(vstd::arithmetic::power::pow(10, 0) == 1);
        } else {
            let p = vstd::arithmetic::power::pow(10, (k - 1) as nat);
            assert(vstd::arithmetic::power::pow(10, k) == 10 * p);
            assert(n / 10 < p) by (nonlinear_arith)
                requires
                    n < 10 * p,
            ;
            lemma_decimal_length(n / 10, (k - 1) as nat);
        }
    }
}

/// A stamp is the time with hyphens in the clock.
proof fn lemma_stamp(seconds: int)
    requires
        0 <= seconds,
    ensures
        stamp_at(seconds) == time::time_text(time::moment_at(seconds), '-'),
{
    let at = time::moment_at(seconds);
    order::lemma_decimal_holds_digits(at.year as nat);
    assert(stamp_at(seconds) =~= time::time_text(at, '-'));
}

proof fn lemma_year_is_short(seconds: u64)
    ensures
        text::decimal(time::moment_at(seconds as int).year as nat).len() <= 12,
        time::moment_at(seconds as int).year >= 1970,
{
    let at = time::moment_at(seconds as int);
    time::law_dates_count_back(seconds as int / 86400);
    reveal_with_fuel(vstd::arithmetic::power::pow, 13);
    assert(vstd::arithmetic::power::pow(10, 12) == 1000000000000);
    time::lemma_year_bound(seconds as int / 86400);
    lemma_decimal_length(at.year as nat, 12);
}

/// Every stamp that the store makes of a time is valid.
pub proof fn law_stamps_of_times_are_valid(seconds: u64)
    ensures
        valid_stamp(stamp_at(seconds as int)),
{
    let at = time::moment_at(seconds as int);
    lemma_stamp(seconds as int);
    lemma_year_is_short(seconds);
    order::lemma_decimal_holds_digits(at.year as nat);
    let year = text::decimal(at.year as nat);
    let tail = time::behind_year(at, '-');
    let stamp = stamp_at(seconds as int);
    assert forall|i: int| 0 <= i < stamp.len() implies is_stamp_char(#[trigger] stamp[i]) by {
        if i < year.len() {
            assert(stamp[i] == year[i]);
        } else {
            assert(stamp[i] == tail[i - year.len()]);
        }
    }
}

/// The time of a snapshot's stamp ends with the stamp of its second.
proof fn lemma_candidate_time(seconds: int, n: nat)
    requires
        0 <= seconds,
    ensures
        time_end(candidate(stamp_at(seconds), n)) == stamp_at(seconds).len(),
        candidate(stamp_at(seconds), n).take(stamp_at(seconds).len() as int) == stamp_at(seconds),
        candidate(stamp_at(seconds), n).skip(stamp_at(seconds).len() as int) == if n <= 1 {
            Seq::empty()
        } else {
            "-"@ + text::decimal(n)
        },
{
    let stamp = stamp_at(seconds);
    let all = candidate(stamp, n);
    let at = time::moment_at(seconds);
    let year = text::decimal(at.year as nat);
    let tail = time::behind_year(at, '-');
    lemma_stamp(seconds);
    order::lemma_decimal_holds_digits(at.year as nat);
    assert(all.take(stamp.len() as int) =~= stamp);
    if n > 1 {
        assert(all.skip(stamp.len() as int) =~= "-"@ + text::decimal(n));
    } else {
        assert(all.skip(stamp.len() as int) =~= Seq::<char>::empty());
    }
    text::lemma_find_char_from(all, 'Z', 0);
    let last = stamp.len() - 1;
    assert(all[last] == tail[15]);
    assert forall|j: int| 0 <= j < last implies all[j] != 'Z' by {
        if j < year.len() {
            assert(all[j] == year[j]);
            assert(text::is_digit(year[j]));
        } else {
            assert(all[j] == tail[j - year.len()]);
        }
    }
}

/// Two texts that agree up to a two-digit field, where the first has the
/// smaller number, are in order.
proof fn lemma_field(a: Seq<char>, b: Seq<char>, k: int, x: int, y: int)
    requires
        a.len() == b.len(),
        0 <= k,
        k + 1 < a.len(),
        a.take(k) == b.take(k),
        0 <= x < y < 100,
        a[k] == time::tens(x),
        a[k + 1] == time::ones(x),
        b[k] == time::tens(y),
        b[k + 1] == time::ones(y),
    ensures
        order::precedes(a, b),
{
    if x / 10 < y / 10 {
        assert(order::smaller_at(a, b, k));
    } else {
        assert(x / 10 == y / 10);
        assert(a.take(k + 1) =~= a.take(k).push(a[k]));
        assert(b.take(k + 1) =~= b.take(k).push(b[k]));
        assert(order::smaller_at(a, b, k + 1));
    }
}

/// The parts of a later second of a day come later.
proof fn lemma_clock_ascends(earlier: int, later: int)
    requires
        0 <= earlier < later,
        earlier / 86400 == later / 86400,
    ensures
        ({
            let a = (earlier % 86400 / 3600, earlier % 3600 / 60, earlier % 60);
            let b = (later % 86400 / 3600, later % 3600 / 60, later % 60);
            time::comes_before(a, b)
        }),
{
    assert(earlier % 3600 == earlier % 86400 % 3600);
    assert(later % 3600 == later % 86400 % 3600);
    assert(earlier % 60 == earlier % 3600 % 60);
    assert(later % 60 == later % 3600 % 60);
}

/// Two times of one year are in order.
proof fn lemma_times_of_a_year(a: time::Moment, b: time::Moment)
    requires
        0 <= a.month < 100 && 0 <= b.month < 100,
        0 <= a.day < 100 && 0 <= b.day < 100,
        0 <= a.hour < 100 && 0 <= b.hour < 100,
        0 <= a.minute < 100 && 0 <= b.minute < 100,
        0 <= a.second < 100 && 0 <= b.second < 100,
        time::comes_before((0, a.month, a.day), (0, b.month, b.day)) || (a.month == b.month
            && a.day == b.day && time::comes_before(
            (a.hour, a.minute, a.second),
            (b.hour, b.minute, b.second),
        )),
    ensures
        order::precedes(time::behind_year(a, '-'), time::behind_year(b, '-')),
{
    let x = time::behind_year(a, '-');
    let y = time::behind_year(b, '-');
    if a.month < b.month {
        assert(x.take(1) =~= y.take(1));
        lemma_field(x, y, 1, a.month, b.month);
    } else if a.day < b.day {
        assert(x.take(4) =~= y.take(4));
        lemma_field(x, y, 4, a.day, b.day);
    } else if a.hour < b.hour {
        assert(x.take(7) =~= y.take(7));
        lemma_field(x, y, 7, a.hour, b.hour);
    } else if a.minute < b.minute {
        assert(x.take(10) =~= y.take(10));
        lemma_field(x, y, 10, a.minute, b.minute);
    } else {
        assert(x.take(13) =~= y.take(13));
        lemma_field(x, y, 13, a.second, b.second);
    }
}

proof fn lemma_stamps_ascend(earlier: int, later: int)
    requires
        0 <= earlier < later,
    ensures
        order::precedes(stamp_at(earlier), stamp_at(later)),
{
    let a = time::moment_at(earlier);
    let b = time::moment_at(later);
    lemma_stamp(earlier);
    lemma_stamp(later);
    time::law_dates_count_back(earlier / 86400);
    time::law_dates_count_back(later / 86400);
    if earlier / 86400 < later / 86400 {
        time::law_later_days_have_later_dates(earlier / 86400, later / 86400);
    } else {
        lemma_clock_ascends(earlier, later);
    }
    let x = text::decimal(a.year as nat);
    let y = text::decimal(b.year as nat);
    let (p, q) = (time::behind_year(a, '-'), time::behind_year(b, '-'));
    if a.year < b.year {
        order::lemma_decimals_ascend(a.year as nat, b.year as nat);
        order::lemma_precedes_with_tails(x, y, p, q);
    } else {
        lemma_times_of_a_year(a, b);
        order::lemma_precedes_behind(x, p, q);
    }
}

/// A snapshot of a later second is newer, and so is a later snapshot of the
/// same second: the newest first is the one saved last.
pub proof fn law_later_snapshots_are_newer(earlier: int, m: nat, later: int, n: nat)
    requires
        0 <= earlier,
        1 <= m,
        1 <= n,
        earlier < later || (earlier == later && m < n),
    ensures
        is_older(candidate(stamp_at(earlier), m), candidate(stamp_at(later), n)),
{
    lemma_candidate_time(earlier, m);
    lemma_candidate_time(later, n);
    if earlier < later {
        lemma_stamps_ascend(earlier, later);
    } else if m > 1 {
        order::lemma_decimals_ascend(m, n);
        order::lemma_precedes_behind("-"@, text::decimal(m), text::decimal(n));
    } else {
        reveal_strlit("-");
    }
}

/// A stamp gives back the time it was made of, with or without a suffix, up
/// to the year 9999.
pub proof fn law_stamps_give_their_time_back(seconds: int, n: nat)
    requires
        0 <= seconds,
        time::moment_at(seconds).year <= 9999,
    ensures
        saved_at(candidate(stamp_at(seconds), n)) == time::time_text(
            time::moment_at(seconds),
            ':',
        ),
{
    let at = time::moment_at(seconds);
    let year = text::decimal(at.year as nat);
    let tail = time::behind_year(at, '-');
    let stamp = stamp_at(seconds);
    let all = candidate(stamp, n);
    time::law_dates_count_back(seconds / 86400);
    lemma_stamp(seconds);
    lemma_candidate_time(seconds, n);
    assert(year.len() == 4) by {
        reveal_with_fuel(text::decimal, 5);
    }
    order::lemma_decimal_holds_digits(at.year as nat);
    lemma_candidate_is_ascii(seconds, n);
    lemma_ascii_offsets(all, 10, 0);
    lemma_ascii_offsets(all, 11, 0);
    lemma_ascii_offsets(all, 20, 0);
    reveal_strlit("T");
    assert(all.take(10) + "T"@ =~= year + tail.take(7));
    let clock = exchanged(all.subrange(11, 20), '-', ':');
    assert forall|i: int| 0 <= i < 9 implies clock[i] == time::behind_year(at, ':')[i + 7] by {
        assert(all[i + 11] == tail[i + 7]);
    }
    assert(saved_at(all) =~= time::time_text(at, ':'));
}

proof fn lemma_candidate_is_ascii(seconds: int, n: nat)
    requires
        0 <= seconds,
    ensures
        vstd::utf8::is_ascii_chars(candidate(stamp_at(seconds), n)),
{
    let at = time::moment_at(seconds);
    let year = text::decimal(at.year as nat);
    let tail = time::behind_year(at, '-');
    let stamp = stamp_at(seconds);
    let all = candidate(stamp, n);
    lemma_stamp(seconds);
    order::lemma_decimal_holds_digits(at.year as nat);
    order::lemma_decimal_holds_digits(n);
    reveal_strlit("-");
    assert forall|i: int| 0 <= i < all.len() implies 0 <= #[trigger] all[i] as nat && (all[i] as nat)
        < 128 by {
        if i < year.len() {
            assert(text::is_digit(year[i]));
        } else if i < stamp.len() {
            assert(all[i] == tail[i - year.len()]);
        } else if i == stamp.len() {
            assert(all[i] == '-');
        } else {
            assert(text::is_digit(text::decimal(n)[i - stamp.len() - 1]));
        }
    }
}

/// Every character of an ASCII text starts at the byte of its index.
proof fn lemma_ascii_offsets(s: Seq<char>, offset: int, i: int)
    requires
        vstd::utf8::is_ascii_chars(s),
        0 <= i <= offset <= s.len(),
    ensures
        char_at_byte(s, offset, i) == Some(offset),
    decreases offset - i,
{
    let head = s.take(i);
    assert forall|j: int| 0 <= j < head.len() implies 0 <= #[trigger] head[j] as nat && (
    head[j] as nat) < 128 by {
        assert(head[j] == s[j]);
    }
    vstd::utf8::is_ascii_chars_encode_utf8(head);
    assert(uploads::byte_offset(s, i) == i);
    if i < offset {
        lemma_ascii_offsets(s, offset, i + 1);
    }
}

/// One row of a history.
pub fn snapshot_row(stamp: String, size_bytes: u64) -> (r: Snapshot)
    ensures
        r.stamp == stamp,
        r.saved_at@ == saved_at(stamp@),
        r.size_bytes == size_bytes,
{
    Snapshot { saved_at: saved_at_of(stamp.as_str()), stamp, size_bytes }
}

/// Every snapshot file of a directory is listed by its stamp, and nothing
/// else is.
pub proof fn law_every_snapshot_is_listed(files: Seq<Seq<char>>, n: int)
    requires
        0 <= n <= files.len(),
    ensures
        forall|k: int, stamp: Seq<char>|
            0 <= k < n && valid_stamp(stamp) && #[trigger] files[k] == #[trigger] file_name(stamp)
                ==> stamps_in(files, n).contains(stamp),
        forall|stamp: Seq<char>| #[trigger]
            stamps_in(files, n).contains(stamp) ==> valid_stamp(stamp) && exists|k: int|
                0 <= k < n && #[trigger] files[k] == file_name(stamp),
    decreases n,
{
    reveal_strlit(".json");
    if n > 0 {
        law_every_snapshot_is_listed(files, n - 1);
        let before = stamps_in(files, n - 1);
        let all = stamps_in(files, n);
        let file = files[n - 1];
        assert forall|stamp: Seq<char>| before.contains(stamp) implies #[trigger] all.contains(
            stamp,
        ) by {
            let at = choose|at: int| 0 <= at < before.len() && before[at] == stamp;
            assert(all[at] == stamp);
        }
        assert forall|k: int, stamp: Seq<char>|
            0 <= k < n && valid_stamp(stamp) && #[trigger] files[k] == #[trigger] file_name(
                stamp,
            ) implies all.contains(stamp) by {
            if k == n - 1 {
                assert(file.take(file.len() - 5) =~= stamp);
                assert(file.subrange(file.len() - 5, file.len() as int) =~= ".json"@);
                assert(all[all.len() - 1] == stamp);
            }
        }
        assert forall|stamp: Seq<char>| #[trigger] all.contains(stamp) implies valid_stamp(stamp)
            && exists|k: int| 0 <= k < n && #[trigger] files[k] == file_name(stamp) by {
            let at = choose|at: int| 0 <= at < all.len() && all[at] == stamp;
            if at < before.len() {
                assert(before[at] == stamp);
                assert(before.contains(stamp));
                let k = choose|k: int| 0 <= k < n - 1 && #[trigger] files[k] == file_name(stamp);
                assert(files[k] == file_name(stamp));
            } else {
                assert(file =~= file.take(file.len() - 5) + file.subrange(
                    file.len() - 5,
                    file.len() as int,
                ));
                assert(files[n - 1] == file_name(stamp));
            }
        }
    }
}

} // verus!
