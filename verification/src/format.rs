//! The store file's format: one record per line, written `key=value`.
//!
//! A line is what stands between two line feeds. A line that holds `=` is a
//! record: its key is what stands before the first `=`, its value what stands
//! after it, both without the white space at their ends. Any other line is
//! passed over.

use vstd::prelude::*;
use vstd::string::StringExecFns;
use crate::text::{
    chars_of, find, index_of, is_trimmed, lemma_index_of, lemma_index_of_unique, string_of, trim,
    trim_range,
};

verus! {

/// One record of the store file: a key and the text of its value.
#[derive(Debug, PartialEq, Eq)]
pub struct Record {
    pub key: String,
    pub value: String,
}

impl View for Record {
    type V = (Seq<char>, Seq<char>);

    open spec fn view(&self) -> (Seq<char>, Seq<char>) {
        (self.key@, self.value@)
    }
}

/// The views of a sequence of records.
pub open spec fn views(records: Seq<Record>) -> Seq<(Seq<char>, Seq<char>)> {
    records.map_values(|r: Record| r@)
}

/// The lines of a text: the pieces between line feeds. A line feed at the very
/// end closes the last line and opens no new one.
pub open spec fn lines(s: Seq<char>) -> Seq<Seq<char>>
    decreases s.len(),
{
    let i = index_of(s, '\n');
    if s.len() == 0 {
        Seq::empty()
    } else if 0 <= i < s.len() {
        seq![s.take(i)] + lines(s.skip(i + 1))
    } else {
        seq![s]
    }
}

/// The record that a line holds, if it holds one.
pub open spec fn record_of(line: Seq<char>) -> Option<(Seq<char>, Seq<char>)> {
    let i = index_of(line, '=');
    if 0 <= i < line.len() {
        Some((trim(line.take(i)), trim(line.skip(i + 1))))
    } else {
        None
    }
}

/// The records that a sequence of lines holds, in order.
pub open spec fn collect(ls: Seq<Seq<char>>) -> Seq<(Seq<char>, Seq<char>)>
    decreases ls.len(),
{
    if ls.len() == 0 {
        Seq::empty()
    } else {
        match record_of(ls[0]) {
            Some(r) => seq![r] + collect(ls.drop_first()),
            None => collect(ls.drop_first()),
        }
    }
}

/// The records of a store file, in the order of its lines.
pub open spec fn records(s: Seq<char>) -> Seq<(Seq<char>, Seq<char>)> {
    collect(lines(s))
}

/// The line that one record is written as: key, `=`, value, line feed.
pub open spec fn rendered_record(key: Seq<char>, value: Seq<char>) -> Seq<char> {
    key + seq!['='] + value + seq!['\n']
}

/// The text that a sequence of records is written as.
pub open spec fn rendered(records: Seq<(Seq<char>, Seq<char>)>) -> Seq<char>
    decreases records.len(),
{
    if records.len() == 0 {
        Seq::empty()
    } else {
        rendered(records.drop_last()) + rendered_record(records.last().0, records.last().1)
    }
}

/// The records of a text are those of its first line, then those of the rest.
pub proof fn lemma_records_step(s: Seq<char>)
    requires
        s.len() > 0,
    ensures
        ({
            let i = index_of(s, '\n');
            let rest = if i < s.len() { records(s.skip(i + 1)) } else { Seq::empty() };
            records(s) == match record_of(s.take(i)) {
                Some(r) => seq![r] + rest,
                None => rest,
            }
        }),
{
    lemma_index_of(s, '\n');
    let i = index_of(s, '\n');
    let ls = lines(s);
    if i < s.len() {
        assert(ls[0] == s.take(i));
        assert(ls.drop_first() =~= lines(s.skip(i + 1)));
    } else {
        assert(s.take(i) =~= s);
        assert(ls[0] == s);
        assert(ls.drop_first() =~= Seq::<Seq<char>>::empty());
        assert(collect(ls.drop_first()) =~= Seq::empty());
        assert(seq![record_of(s)->0] + Seq::empty() =~= seq![record_of(s)->0]);
    }
}

/// A text is whole when it is empty or ends with a line feed: what is written
/// behind it begins a new line.
pub open spec fn is_whole(s: Seq<char>) -> bool {
    s.len() > 0 ==> s.last() == '\n'
}

/// A key that a record can carry: no `=`, no line feed, no white space at its ends.
pub open spec fn is_key(key: Seq<char>) -> bool {
    !key.contains('=') && !key.contains('\n') && is_trimmed(key)
}

/// A value text that a record can carry: no line feed, no white space at its ends.
pub open spec fn is_value(value: Seq<char>) -> bool {
    !value.contains('\n') && is_trimmed(value)
}

/// Every record has a key and a value that a record can carry.
pub open spec fn are_records(records: Seq<(Seq<char>, Seq<char>)>) -> bool {
    forall|i: int|
        0 <= i < records.len() ==> is_key((#[trigger] records[i]).0) && is_value(records[i].1)
}

/// The records of a whole text followed by another text are those of the
/// first, then those of the second.
pub proof fn lemma_records_concat(a: Seq<char>, b: Seq<char>)
    requires
        is_whole(a),
    ensures
        records(a + b) == records(a) + records(b),
    decreases a.len(),
{
    if a.len() == 0 {
        assert(a + b =~= b);
        assert(records(a) + records(b) =~= records(b));
    } else {
        lemma_index_of(a, '\n');
        let i = index_of(a, '\n');
        assert(i < a.len()) by {
            if i == a.len() {
                assert(a[a.len() - 1] == '\n');
            }
        }
        lemma_index_of_unique(a + b, '\n', i);
        let tail = a.skip(i + 1);
        assert((a + b).take(i) =~= a.take(i));
        assert((a + b).skip(i + 1) =~= tail + b);
        assert(is_whole(tail)) by {
            if tail.len() > 0 {
                assert(tail.last() == a.last());
            }
        }
        lemma_records_concat(tail, b);
        lemma_records_step(a);
        lemma_records_step(a + b);
        match record_of(a.take(i)) {
            Some(r) => {
                assert(seq![r] + (records(tail) + records(b)) =~= (seq![r] + records(tail))
                    + records(b));
            },
            None => {},
        }
    }
}

/// A line without `=` holds no record.
pub proof fn lemma_line_without_separator(line: Seq<char>)
    requires
        !line.contains('='),
        !line.contains('\n'),
    ensures
        records(line + seq!['\n']) == Seq::<(Seq<char>, Seq<char>)>::empty(),
{
    let text = line + seq!['\n'];
    assert forall|j: int| 0 <= j < line.len() implies text[j] != '\n' by {
        assert(line.contains(line[j]));
    }
    lemma_index_of_unique(text, '\n', line.len() as int);
    assert(text.take(line.len() as int) =~= line);
    assert(text.skip(line.len() as int + 1) =~= Seq::<char>::empty());
    assert forall|j: int| 0 <= j < line.len() implies line[j] != '=' by {
        assert(line.contains(line[j]));
    }
    lemma_index_of_unique(line, '=', line.len() as int);
    lemma_records_step(text);
    assert(lines(Seq::<char>::empty()) =~= Seq::<Seq<char>>::empty());
}

/// A line without `=` is passed over: with such a line put between two texts,
/// the first of them whole, the records are those of the two texts alone.
pub proof fn law_line_without_separator_is_ignored(
    before: Seq<char>,
    line: Seq<char>,
    after: Seq<char>,
)
    requires
        is_whole(before),
        !line.contains('='),
        !line.contains('\n'),
    ensures
        records(before + line + seq!['\n'] + after) == records(before + after),
        records(before + line + seq!['\n'] + after) == records(before) + records(after),
{
    let middle = line + seq!['\n'];
    assert(before + line + seq!['\n'] + after =~= before + (middle + after));
    lemma_records_concat(before, middle + after);
    lemma_records_concat(middle, after);
    lemma_line_without_separator(line);
    lemma_records_concat(before, after);
    assert(Seq::<(Seq<char>, Seq<char>)>::empty() + records(after) =~= records(after));
}

/// The line of one record reads back as that record.
pub proof fn lemma_record_round_trip(key: Seq<char>, value: Seq<char>)
    requires
        is_key(key),
        is_value(value),
    ensures
        records(rendered_record(key, value)) == seq![(key, value)],
        is_whole(rendered_record(key, value)),
{
    let line = key + seq!['='] + value;
    let text = rendered_record(key, value);
    assert(text =~= line + seq!['\n']);
    assert forall|j: int| 0 <= j < line.len() implies line[j] != '\n' by {
        if j < key.len() {
            assert(key.contains(key[j]));
        } else if j > key.len() {
            assert(value.contains(value[j - key.len() - 1]));
            assert(line[j] == value[j - key.len() - 1]);
        }
    }
    lemma_index_of_unique(text, '\n', line.len() as int);
    assert(text.take(line.len() as int) =~= line);
    assert(text.skip(line.len() as int + 1) =~= Seq::<char>::empty());
    assert forall|j: int| 0 <= j < key.len() implies line[j] != '=' by {
        assert(key.contains(key[j]));
    }
    lemma_index_of_unique(line, '=', key.len() as int);
    assert(line.take(key.len() as int) =~= key);
    assert(line.skip(key.len() as int + 1) =~= value);
    assert(record_of(line) == Some((key, value)));
    lemma_records_step(text);
    assert(lines(Seq::<char>::empty()) =~= Seq::<Seq<char>>::empty());
    assert(seq![(key, value)] + Seq::empty() =~= seq![(key, value)]);
}

/// What is written reads back: the text of records that a record can carry
/// holds exactly those records, in their order.
pub proof fn law_records_round_trip(rs: Seq<(Seq<char>, Seq<char>)>)
    requires
        are_records(rs),
    ensures
        records(rendered(rs)) == rs,
        is_whole(rendered(rs)),
    decreases rs.len(),
{
    if rs.len() == 0 {
        assert(lines(Seq::<char>::empty()) =~= Seq::<Seq<char>>::empty());
        assert(records(rendered(rs)) =~= rs);
    } else {
        let front = rs.drop_last();
        assert(are_records(front)) by {
            assert forall|i: int| 0 <= i < front.len() implies is_key((#[trigger] front[i]).0)
                && is_value(front[i].1) by {
                assert(front[i] == rs[i]);
            }
        }
        law_records_round_trip(front);
        lemma_record_round_trip(rs.last().0, rs.last().1);
        lemma_records_concat(rendered(front), rendered_record(rs.last().0, rs.last().1));
        assert(front + seq![rs.last()] =~= rs);
    }
}

/// Reads the records of a store file.
pub fn parse_records(contents: &str) -> (out: Vec<Record>)
    ensures
        views(out@) == records(contents@),
{
    let chars = chars_of(contents);
    let n = chars.len();
    let mut out: Vec<Record> = Vec::new();
    let mut pos: usize = 0;
    assert(chars@.skip(0) =~= chars@);
    assert(views(out@) + records(chars@) =~= records(chars@));
    while pos < n
        invariant
            pos <= n == chars.len(),
            records(chars@) == views(out@) + records(chars@.skip(pos as int)),
        decreases n - pos,
    {
        let ghost rest = chars@.skip(pos as int);
        let ghost before = views(out@);
        let end = find(&chars, pos, n, '\n');
        let eq = find(&chars, pos, end, '=');
        proof {
            assert(chars@.subrange(pos as int, n as int) =~= rest);
            assert(rest.take(end - pos) =~= chars@.subrange(pos as int, end as int));
            lemma_records_step(rest);
            if end < n {
                assert(rest.skip(end - pos + 1) =~= chars@.skip(end + 1));
            }
        }
        if eq < end {
            let key_at = trim_range(&chars, pos, eq);
            let value_at = trim_range(&chars, eq + 1, end);
            let record = Record {
                key: string_of(&chars, key_at.0, key_at.1),
                value: string_of(&chars, value_at.0, value_at.1),
            };
            proof {
                let line = chars@.subrange(pos as int, end as int);
                assert(line.take(eq - pos) =~= chars@.subrange(pos as int, eq as int));
                assert(line.skip(eq - pos + 1) =~= chars@.subrange(eq + 1, end as int));
                assert(record_of(line) == Some(record@));
            }
            out.push(record);
            proof {
                assert(views(out@) =~= before + seq![record@]);
            }
        }
        pos = if end < n { end + 1 } else { n };
        proof {
            if end >= n {
                assert(chars@.skip(pos as int) =~= Seq::<char>::empty());
            }
            assert(records(chars@) =~= views(out@) + records(chars@.skip(pos as int)));
        }
    }
    proof {
        assert(chars@.skip(pos as int) =~= Seq::<char>::empty());
        assert(views(out@) + records(Seq::<char>::empty()) =~= views(out@));
    }
    out
}

/// Writes one record at the end of `out`.
pub fn render_record(out: &mut String, key: &str, value: &str)
    ensures
        final(out)@ == old(out)@ + rendered_record(key@, value@),
{
    out.append(key);
    out.push('=');
    out.append(value);
    out.push('\n');
    proof {
        assert(out@ =~= old(out)@ + rendered_record(key@, value@));
    }
}

/// Writes records as the text of a store file.
pub fn render_records(records: &Vec<Record>) -> (out: String)
    ensures
        out@ == rendered(views(records@)),
{
    let mut out = String::new();
    let mut i: usize = 0;
    while i < records.len()
        invariant
            i <= records.len(),
            out@ == rendered(views(records@).take(i as int)),
        decreases records.len() - i,
    {
        proof {
            let upto = views(records@).take(i + 1);
            assert(upto.drop_last() =~= views(records@).take(i as int));
            assert(upto.last() == records@[i as int]@);
        }
        render_record(&mut out, records[i].key.as_str(), records[i].value.as_str());
        i += 1;
    }
    proof {
        assert(views(records@).take(i as int) =~= views(records@));
    }
    out
}

} // verus!
