//! Which backups are to go.
//!
//! A backup is a file whose name is an RFC 3339 timestamp. Backups are kept by
//! age: of those whose names parse, only the most recent few stay. A file whose
//! name does not parse is neither counted nor removed.

use vstd::prelude::*;

verus! {

/// How many backups stay when nothing else is asked for.
pub const MAX_BACKUPS: usize = 10;

/// What the store reads of a backup's timestamp: the instant, as seconds since
/// the Unix epoch and nanoseconds within the second (a leap second may take
/// the latter over 999,999,999), and the timestamp written out in RFC 3339.
#[derive(Debug, PartialEq, Eq)]
pub struct Stamp {
    pub seconds: i64,
    pub nanos: u32,
    pub name: String,
}

impl View for Stamp {
    type V = (i64, u32, Seq<char>);

    open spec fn view(&self) -> (i64, u32, Seq<char>) {
        (self.seconds, self.nanos, self.name@)
    }
}

/// The views of a sequence of stamps.
pub open spec fn stamp_views(stamps: Seq<Stamp>) -> Seq<(i64, u32, Seq<char>)> {
    stamps.map_values(|s: Stamp| s@)
}

/// The views of a sequence of strings.
pub open spec fn texts(names: Seq<String>) -> Seq<Seq<char>> {
    names.map_values(|n: String| n@)
}

/// What `text` parses to as an RFC 3339 timestamp: seconds, nanoseconds and
/// the timestamp written out again; `None` where it is no such timestamp.
pub uninterp spec fn rfc3339_parsed(text: Seq<char>) -> Option<(i64, u32, Seq<char>)>;

/// The stamp's name is a timestamp, and the stamp's own: it parses to the
/// stamp again.
pub open spec fn reads_back(stamp: (i64, u32, Seq<char>)) -> bool {
    rfc3339_parsed(stamp.2) == Some(stamp)
}

/// The timestamp `text` written out canonically; `text` itself where it is no
/// timestamp.
pub open spec fn canonical(text: Seq<char>) -> Seq<char> {
    match rfc3339_parsed(text) {
        Some(stamp) => stamp.2,
        None => text,
    }
}

/// Every stamp's name parses to the stamp again.
pub open spec fn all_read_back(stamps: Seq<(i64, u32, Seq<char>)>) -> bool {
    forall|i: int| 0 <= i < stamps.len() ==> reads_back(#[trigger] stamps[i])
}

/// Every name is a timestamp.
pub open spec fn all_parse(names: Seq<Seq<char>>) -> bool {
    forall|i: int| 0 <= i < names.len() ==> rfc3339_parsed(#[trigger] names[i]) is Some
}

/// `chrono::DateTime::parse_from_rfc3339`, with the parsed time handed out as
/// its `timestamp()`, its `timestamp_subsec_nanos()` and its `to_rfc3339()`.
/// All four are functions of their argument alone, and the contract gives the
/// outcome the name `rfc3339_parsed`. What `to_rfc3339` writes is the date,
/// the time and the offset that were read, in the form that the parser reads:
/// so the name of a stamp parses to the same stamp.
#[verifier::external_body]
pub(crate) fn parse_rfc3339(text: &str) -> (r: Option<Stamp>)
    ensures
        match r {
            Some(stamp) => rfc3339_parsed(text@) == Some(stamp@) && reads_back(stamp@),
            None => rfc3339_parsed(text@) is None,
        },
{
    match chrono::DateTime::parse_from_rfc3339(text) {
        Ok(at) => Some(
            Stamp {
                seconds: at.timestamp(),
                nanos: at.timestamp_subsec_nanos(),
                name: at.to_rfc3339(),
            },
        ),
        Err(_) => None,
    }
}

/// `a` is no later than `b`.
pub open spec fn not_after(a: (i64, u32, Seq<char>), b: (i64, u32, Seq<char>)) -> bool {
    a.0 < b.0 || (a.0 == b.0 && a.1 <= b.1)
}

/// The stamps of the names that parse, in the order of the names.
pub open spec fn stamps_of(names: Seq<Seq<char>>) -> Seq<(i64, u32, Seq<char>)>
    decreases names.len(),
{
    if names.len() == 0 {
        Seq::empty()
    } else {
        match rfc3339_parsed(names.last()) {
            Some(stamp) => stamps_of(names.drop_last()).push(stamp),
            None => stamps_of(names.drop_last()),
        }
    }
}

/// `sorted` with `stamp` put behind every stamp that is no later than it.
pub open spec fn placed(sorted: Seq<(i64, u32, Seq<char>)>, stamp: (i64, u32, Seq<char>)) -> Seq<
    (i64, u32, Seq<char>),
>
    decreases sorted.len(),
{
    if sorted.len() == 0 || not_after(sorted.last(), stamp) {
        sorted.push(stamp)
    } else {
        placed(sorted.drop_last(), stamp).push(sorted.last())
    }
}

/// The stamps from the earliest to the latest; stamps of one instant keep the
/// order they came in.
pub open spec fn ordered(stamps: Seq<(i64, u32, Seq<char>)>) -> Seq<(i64, u32, Seq<char>)>
    decreases stamps.len(),
{
    if stamps.len() == 0 {
        Seq::empty()
    } else {
        placed(ordered(stamps.drop_last()), stamps.last())
    }
}

/// The names of the stamps.
pub open spec fn names_of(stamps: Seq<(i64, u32, Seq<char>)>) -> Seq<Seq<char>> {
    stamps.map_values(|s: (i64, u32, Seq<char>)| s.2)
}

/// How many of `count` backups are to go when `keep` may stay.
pub open spec fn surplus(count: nat, keep: nat) -> nat {
    if count > keep {
        (count - keep) as nat
    } else {
        0
    }
}

/// The names under which the oldest stamps are removed, oldest first, so that
/// `keep` stamps stay.
pub open spec fn oldest(stamps: Seq<(i64, u32, Seq<char>)>, keep: nat) -> Seq<Seq<char>> {
    names_of(ordered(stamps).take(surplus(stamps.len(), keep) as int))
}

/// The file names to remove from a backups directory that holds `names`, so
/// that `keep` backups stay.
pub open spec fn expired(names: Seq<Seq<char>>, keep: nat) -> Seq<Seq<char>> {
    oldest(stamps_of(names), keep)
}

/// Where `stamp` is placed: behind the stamp at `at - 1`, which is no later,
/// and before those from `at` on, which are all later.
pub proof fn lemma_placed_at(
    sorted: Seq<(i64, u32, Seq<char>)>,
    stamp: (i64, u32, Seq<char>),
    at: int,
)
    requires
        0 <= at <= sorted.len(),
        at > 0 ==> not_after(sorted[at - 1], stamp),
        forall|j: int| at <= j < sorted.len() ==> !not_after(sorted[j], stamp),
    ensures
        placed(sorted, stamp) == sorted.take(at).push(stamp) + sorted.skip(at),
    decreases sorted.len(),
{
    if at == sorted.len() {
        assert(sorted.take(at) =~= sorted);
        assert(sorted.push(stamp) + sorted.skip(at) =~= sorted.push(stamp));
    } else {
        let front = sorted.drop_last();
        assert(!not_after(sorted.last(), stamp));
        assert(at > 0 ==> front[at - 1] == sorted[at - 1]);
        assert forall|j: int| at <= j < front.len() implies !not_after(front[j], stamp) by {
            assert(front[j] == sorted[j]);
        }
        lemma_placed_at(front, stamp, at);
        assert(front.take(at) =~= sorted.take(at));
        assert((front.take(at).push(stamp) + front.skip(at)).push(sorted.last())
            =~= sorted.take(at).push(stamp) + sorted.skip(at));
    }
}

/// No stamp stands before an earlier one.
pub open spec fn is_ordered(stamps: Seq<(i64, u32, Seq<char>)>) -> bool {
    forall|i: int, j: int| 0 <= i < j < stamps.len() ==> not_after(stamps[i], stamps[j])
}

/// The stamps that stay when `keep` may stay: the latest ones.
pub open spec fn kept(stamps: Seq<(i64, u32, Seq<char>)>, keep: nat) -> Seq<
    (i64, u32, Seq<char>),
> {
    ordered(stamps).skip(surplus(stamps.len(), keep) as int)
}

/// The stamps that go when `keep` may stay: the earliest ones.
pub open spec fn dropped(stamps: Seq<(i64, u32, Seq<char>)>, keep: nat) -> Seq<
    (i64, u32, Seq<char>),
> {
    ordered(stamps).take(surplus(stamps.len(), keep) as int)
}

/// Placing a stamp among ordered stamps leaves them ordered, and adds that
/// stamp and no other.
pub proof fn lemma_placed(sorted: Seq<(i64, u32, Seq<char>)>, stamp: (i64, u32, Seq<char>))
    requires
        is_ordered(sorted),
    ensures
        is_ordered(placed(sorted, stamp)),
        placed(sorted, stamp).to_multiset() == sorted.to_multiset().insert(stamp),
        placed(sorted, stamp).len() == sorted.len() + 1,
    decreases sorted.len(),
{
    broadcast use vstd::seq_lib::to_multiset_build;

    let after = placed(sorted, stamp);
    if sorted.len() == 0 || not_after(sorted.last(), stamp) {
        assert forall|i: int, j: int| 0 <= i < j < after.len() implies not_after(
            after[i],
            after[j],
        ) by {
            if j == sorted.len() {
                assert(after[i] == sorted[i]);
                if i < sorted.len() - 1 {
                    assert(not_after(sorted[i], sorted.last()));
                }
            } else {
                assert(after[i] == sorted[i] && after[j] == sorted[j]);
            }
        }
    } else {
        let front = sorted.drop_last();
        let last = sorted.last();
        assert(is_ordered(front)) by {
            assert forall|i: int, j: int| 0 <= i < j < front.len() implies not_after(
                front[i],
                front[j],
            ) by {
                assert(front[i] == sorted[i] && front[j] == sorted[j]);
            }
        }
        lemma_placed(front, stamp);
        let inner = placed(front, stamp);
        assert(front.push(last) =~= sorted);
        assert(after.to_multiset() =~= sorted.to_multiset().insert(stamp));
        assert forall|i: int, j: int| 0 <= i < j < after.len() implies not_after(
            after[i],
            after[j],
        ) by {
            if j == inner.len() {
                assert(after[i] == inner[i]);
                assert(inner.contains(inner[i]));
                vstd::seq_lib::to_multiset_contains(inner, inner[i]);
                if inner[i] != stamp {
                    assert(front.to_multiset().count(inner[i]) > 0);
                    vstd::seq_lib::to_multiset_contains(front, inner[i]);
                    let k = choose|k: int| 0 <= k < front.len() && front[k] == inner[i];
                    assert(front[k] == sorted[k]);
                    assert(not_after(sorted[k], sorted.last()));
                }
            } else {
                assert(after[i] == inner[i] && after[j] == inner[j]);
            }
        }
    }
}

/// The ordered stamps are ordered, and are the same stamps, each as often.
pub proof fn lemma_ordered(stamps: Seq<(i64, u32, Seq<char>)>)
    ensures
        is_ordered(ordered(stamps)),
        ordered(stamps).to_multiset() == stamps.to_multiset(),
        ordered(stamps).len() == stamps.len(),
    decreases stamps.len(),
{
    broadcast use vstd::seq_lib::to_multiset_build;

    if stamps.len() == 0 {
        assert(ordered(stamps) =~= stamps);
    } else {
        lemma_ordered(stamps.drop_last());
        lemma_placed(ordered(stamps.drop_last()), stamps.last());
        assert(stamps.drop_last().push(stamps.last()) =~= stamps);
    }
}

/// The cap on backups: of the stamps in a directory, those that go and those
/// that stay are together all of them; no more than `keep` stay, and all of
/// them where there are no more than `keep`; and no stamp that goes is later
/// than one that stays.
pub proof fn law_backup_cap(stamps: Seq<(i64, u32, Seq<char>)>, keep: nat)
    ensures
        oldest(stamps, keep) == names_of(dropped(stamps, keep)),
        oldest(stamps, keep).len() == surplus(stamps.len(), keep),
        kept(stamps, keep).len() <= keep,
        kept(stamps, keep).len() == if stamps.len() <= keep {
            stamps.len()
        } else {
            keep
        },
        (dropped(stamps, keep) + kept(stamps, keep)).to_multiset() == stamps.to_multiset(),
        forall|i: int, j: int|
            0 <= i < dropped(stamps, keep).len() && 0 <= j < kept(stamps, keep).len()
                ==> not_after(
                #[trigger] dropped(stamps, keep)[i],
                #[trigger] kept(stamps, keep)[j],
            ),
{
    lemma_ordered(stamps);
    let all = ordered(stamps);
    let extra = surplus(stamps.len(), keep) as int;
    assert(all.take(extra) + all.skip(extra) =~= all);
    assert forall|i: int, j: int|
        0 <= i < dropped(stamps, keep).len() && 0 <= j < kept(stamps, keep).len()
            implies not_after(
        #[trigger] dropped(stamps, keep)[i],
        #[trigger] kept(stamps, keep)[j],
    ) by {
        assert(dropped(stamps, keep)[i] == all[i]);
        assert(kept(stamps, keep)[j] == all[extra + j]);
    }
}

/// Stamps that are in order already are ordered as they stand.
pub proof fn lemma_ordered_of_ordered(stamps: Seq<(i64, u32, Seq<char>)>)
    requires
        is_ordered(stamps),
    ensures
        ordered(stamps) == stamps,
    decreases stamps.len(),
{
    if stamps.len() > 0 {
        let front = stamps.drop_last();
        assert(is_ordered(front)) by {
            assert forall|i: int, j: int| 0 <= i < j < front.len() implies not_after(
                front[i],
                front[j],
            ) by {
                assert(front[i] == stamps[i] && front[j] == stamps[j]);
            }
        }
        lemma_ordered_of_ordered(front);
        if front.len() > 0 {
            assert(front.last() == stamps[stamps.len() - 2]);
        }
        assert(front.push(stamps.last()) =~= stamps);
    }
}

/// The stamps in a backups directory after one save: of those that were
/// there, the latest `keep`, and the stamp of the backup that the save made.
/// The files that a save removes are those of the stamps that are dropped
/// (`law_expired_names`), and the file that it adds is its own backup.
pub open spec fn after_save(
    stamps: Seq<(i64, u32, Seq<char>)>,
    made: (i64, u32, Seq<char>),
    keep: nat,
) -> Seq<(i64, u32, Seq<char>)> {
    kept(stamps, keep).push(made)
}

/// The stamps in a backups directory that was empty, after one save for each
/// stamp of `made`, in their order.
pub open spec fn after_saves(made: Seq<(i64, u32, Seq<char>)>, keep: nat) -> Seq<
    (i64, u32, Seq<char>),
>
    decreases made.len(),
{
    if made.len() == 0 {
        Seq::empty()
    } else {
        after_save(after_saves(made.drop_last(), keep), made.last(), keep)
    }
}

/// Backups after a run of saves. A save removes old backups before it makes
/// its own, so one more than `keep` can be there when it is done: after saves
/// at times that do not go backwards, into a directory that was empty, the
/// backups are the latest `keep + 1` that were made, or all of them where
/// fewer were made.
pub proof fn law_backups_after_saves(made: Seq<(i64, u32, Seq<char>)>, keep: nat)
    requires
        is_ordered(made),
    ensures
        after_saves(made, keep) == made.skip(surplus(made.len(), keep + 1) as int),
        after_saves(made, keep).len() == if made.len() <= keep + 1 {
            made.len()
        } else {
            keep + 1
        },
    decreases made.len(),
{
    if made.len() == 0 {
        assert(made.skip(0) =~= made);
    } else {
        let front = made.drop_last();
        assert(is_ordered(front)) by {
            assert forall|i: int, j: int| 0 <= i < j < front.len() implies not_after(
                front[i],
                front[j],
            ) by {
                assert(front[i] == made[i] && front[j] == made[j]);
            }
        }
        law_backups_after_saves(front, keep);
        let a = surplus(front.len(), keep + 1) as int;
        let there = after_saves(front, keep);
        assert(is_ordered(there)) by {
            assert forall|i: int, j: int| 0 <= i < j < there.len() implies not_after(
                there[i],
                there[j],
            ) by {
                assert(there[i] == front[a + i] && there[j] == front[a + j]);
            }
        }
        lemma_ordered_of_ordered(there);
        let b = surplus(there.len(), keep) as int;
        assert(kept(there, keep) =~= front.skip(a + b));
        assert(front.skip(a + b).push(made.last()) =~= made.skip(a + b));
    }
}

/// Every name that is a timestamp is that timestamp written out: it parses
/// to a stamp that carries the name itself.
pub open spec fn is_canonical(names: Seq<Seq<char>>) -> bool {
    forall|i: int|
        0 <= i < names.len() ==> match rfc3339_parsed(#[trigger] names[i]) {
            Some(stamp) => stamp.2 == names[i],
            None => true,
        }
}

/// The stamps of the names are what the names that parse do parse to.
pub proof fn lemma_stamps_of(names: Seq<Seq<char>>, stamp: (i64, u32, Seq<char>))
    ensures
        stamps_of(names).contains(stamp) <==> exists|i: int|
            0 <= i < names.len() && rfc3339_parsed(#[trigger] names[i]) == Some(stamp),
    decreases names.len(),
{
    if names.len() == 0 {
        assert(!stamps_of(names).contains(stamp));
    } else {
        let front = names.drop_last();
        lemma_stamps_of(front, stamp);
        let all = stamps_of(names);
        let some = stamps_of(front);
        if all.contains(stamp) {
            let k = choose|k: int| 0 <= k < all.len() && all[k] == stamp;
            if k < some.len() {
                assert(some[k] == stamp);
                let i = choose|i: int|
                    0 <= i < front.len() && rfc3339_parsed(#[trigger] front[i]) == Some(stamp);
                assert(names[i] == front[i]);
            } else {
                assert(rfc3339_parsed(names[names.len() - 1]) == Some(stamp));
            }
        }
        if exists|i: int|
            0 <= i < names.len() && rfc3339_parsed(#[trigger] names[i]) == Some(stamp) {
            let i = choose|i: int|
                0 <= i < names.len() && rfc3339_parsed(#[trigger] names[i]) == Some(stamp);
            if i < front.len() {
                assert(front[i] == names[i]);
                let k = choose|k: int| 0 <= k < some.len() && some[k] == stamp;
                assert(all[k] == stamp);
            } else {
                assert(all[all.len() - 1] == stamp);
            }
        }
    }
}

/// Which files go. In a directory whose timestamps are written out
/// canonically, a file is named for removal exactly when its name is a
/// timestamp and its stamp is among the oldest, those that are dropped. A file
/// whose name is no timestamp is never named.
pub proof fn law_expired_names(names: Seq<Seq<char>>, keep: nat, name: Seq<char>)
    requires
        is_canonical(names),
        names.contains(name),
    ensures
        expired(names, keep).contains(name) <==> rfc3339_parsed(name) is Some && dropped(
            stamps_of(names),
            keep,
        ).contains(rfc3339_parsed(name)->0),
{
    let all = stamps_of(names);
    let gone = dropped(all, keep);
    let at = choose|i: int| 0 <= i < names.len() && names[i] == name;
    lemma_ordered(all);
    if expired(names, keep).contains(name) {
        let k = choose|k: int| 0 <= k < names_of(gone).len() && names_of(gone)[k] == name;
        let stamp = gone[k];
        assert(ordered(all)[k] == stamp);
        assert(ordered(all).contains(stamp));
        vstd::seq_lib::to_multiset_contains(ordered(all), stamp);
        vstd::seq_lib::to_multiset_contains(all, stamp);
        assert(all.contains(stamp));
        lemma_stamps_of(names, stamp);
        let i = choose|i: int|
            0 <= i < names.len() && rfc3339_parsed(#[trigger] names[i]) == Some(stamp);
        assert(names[i] == name);
        assert(gone.contains(stamp));
    }
    if rfc3339_parsed(name) is Some && gone.contains(rfc3339_parsed(name)->0) {
        let stamp = rfc3339_parsed(name)->0;
        let k = choose|k: int| 0 <= k < gone.len() && gone[k] == stamp;
        assert(rfc3339_parsed(names[at]) is Some);
        assert(names_of(gone)[k] == name);
    }
}

/// Reads the timestamps off the names that are timestamps.
pub fn parse_stamps(names: &Vec<String>) -> (stamps: Vec<Stamp>)
    ensures
        stamp_views(stamps@) == stamps_of(texts(names@)),
        all_read_back(stamp_views(stamps@)),
{
    let mut stamps: Vec<Stamp> = Vec::new();
    let mut i: usize = 0;
    while i < names.len()
        invariant
            i <= names.len(),
            stamp_views(stamps@) == stamps_of(texts(names@).take(i as int)),
            all_read_back(stamp_views(stamps@)),
        decreases names.len() - i,
    {
        let ghost before = stamp_views(stamps@);
        proof {
            let upto = texts(names@).take(i + 1);
            assert(upto.drop_last() =~= texts(names@).take(i as int));
            assert(upto.last() == names@[i as int]@);
        }
        match parse_rfc3339(names[i].as_str()) {
            Some(stamp) => {
                stamps.push(stamp);
                proof {
                    assert(stamp_views(stamps@) =~= before.push(stamp@));
                    assert forall|k: int| 0 <= k < stamps@.len() implies reads_back(
                        #[trigger] stamp_views(stamps@)[k],
                    ) by {
                        if k < before.len() {
                            assert(stamp_views(stamps@)[k] == before[k]);
                        }
                    }
                }
            },
            None => {},
        }
        i += 1;
    }
    proof {
        assert(texts(names@).take(i as int) =~= texts(names@));
    }
    stamps
}

/// Puts the stamps in order, the earliest first; stamps of one instant keep
/// the order they came in.
pub fn sort_stamps(stamps: Vec<Stamp>) -> (sorted: Vec<Stamp>)
    ensures
        stamp_views(sorted@) == ordered(stamp_views(stamps@)),
{
    let ghost all = stamp_views(stamps@);
    let mut sorted: Vec<Stamp> = Vec::new();
    for stamp in it: stamps.into_iter()
        invariant
            it.seq() == stamps@,
            stamp_views(sorted@) == ordered(all.take(it.index())),
            all == stamp_views(stamps@),
    {
        let ghost before = stamp_views(sorted@);
        let ghost n = it.index();
        let mut at: usize = sorted.len();
        while at > 0 && !(sorted[at - 1].seconds < stamp.seconds || (sorted[at - 1].seconds
            == stamp.seconds && sorted[at - 1].nanos <= stamp.nanos))
            invariant
                at <= sorted.len(),
                before == stamp_views(sorted@),
                forall|j: int| at <= j < sorted.len() ==> !not_after(before[j], stamp@),
            decreases at,
        {
            at -= 1;
        }
        proof {
            lemma_placed_at(before, stamp@, at as int);
            let upto = all.take(n + 1);
            assert(upto.drop_last() =~= all.take(n));
            assert(upto.last() == stamp@);
        }
        sorted.insert(at, stamp);
        proof {
            assert(stamp_views(sorted@) =~= before.take(at as int).push(stamp@) + before.skip(
                at as int,
            ));
        }
    }
    proof {
        assert(all.take(stamps@.len() as int) =~= all);
    }
    sorted
}

/// The names under which the oldest of `stamps` are to be removed, oldest
/// first, so that `keep` of them stay.
pub fn select_expired(stamps: Vec<Stamp>, keep: usize) -> (names: Vec<String>)
    ensures
        texts(names@) == oldest(stamp_views(stamps@), keep as nat),
{
    let ghost all = stamp_views(stamps@);
    proof {
        lemma_ordered(all);
    }
    let count = stamps.len();
    let extra: usize = if count > keep { count - keep } else { 0 };
    let sorted = sort_stamps(stamps);
    let mut names: Vec<String> = Vec::new();
    let mut i: usize = 0;
    while i < extra
        invariant
            i <= extra <= sorted.len(),
            texts(names@) == names_of(stamp_views(sorted@).take(i as int)),
        decreases extra - i,
    {
        let ghost before = texts(names@);
        let name = sorted[i].name.clone();
        names.push(name);
        proof {
            assert(texts(names@) =~= before.push(name@));
            assert(names_of(stamp_views(sorted@).take(i + 1)) =~= before.push(name@));
        }
        i += 1;
    }
    names
}

/// The names under which the oldest stamps go are names of those stamps: where
/// every stamp's name parses to the stamp, every name that goes is a timestamp.
pub proof fn lemma_oldest_parse(stamps: Seq<(i64, u32, Seq<char>)>, keep: nat)
    requires
        all_read_back(stamps),
    ensures
        all_parse(oldest(stamps, keep)),
{
    lemma_ordered(stamps);
    let gone = dropped(stamps, keep);
    assert forall|i: int| 0 <= i < oldest(stamps, keep).len() implies rfc3339_parsed(
        #[trigger] oldest(stamps, keep)[i],
    ) is Some by {
        let stamp = gone[i];
        assert(ordered(stamps)[i] == stamp);
        assert(ordered(stamps).contains(stamp));
        vstd::seq_lib::to_multiset_contains(ordered(stamps), stamp);
        vstd::seq_lib::to_multiset_contains(stamps, stamp);
        let k = choose|k: int| 0 <= k < stamps.len() && stamps[k] == stamp;
        assert(reads_back(stamps[k]));
        assert(oldest(stamps, keep)[i] == stamp.2);
    }
}

/// The file names to remove from a backups directory that holds `names`, so
/// that no more than `keep` backups stay: the oldest first. Every name that
/// it gives is a timestamp: a file whose name is none is never to go.
pub fn expired_backups(names: &Vec<String>, keep: usize) -> (gone: Vec<String>)
    ensures
        texts(gone@) == expired(texts(names@), keep as nat),
        all_parse(texts(gone@)),
{
    let stamps = parse_stamps(names);
    proof {
        lemma_oldest_parse(stamp_views(stamps@), keep as nat);
    }
    select_expired(stamps, keep)
}

} // verus!
