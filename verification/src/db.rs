//! Reading a store from the text of its file, and writing one as such a text.

use vstd::prelude::*;
use serde_json::Value;
use crate::codec::{
    decode_value, encode_value, error_text, is_compact, is_mark, json_decoded, json_encoded,
};
use crate::error::{message_prefix, DBError, ErrorKind};
use crate::format::{
    are_records, is_key, is_value, is_whole, law_line_without_separator_is_ignored,
    law_records_round_trip, parse_records, records, render_record, rendered, views,
};
use crate::store::{
    distinct_keys, gathered, lemma_gathered, lemma_gathered_distinct, map_of, pairs_of, Store,
};

verus! {

/// Every record's value is valid JSON.
pub open spec fn decodes(recs: Seq<(Seq<char>, Seq<char>)>) -> bool {
    forall|i: int| 0 <= i < recs.len() ==> json_decoded((#[trigger] recs[i]).1) is Ok
}

/// The records with their values decoded.
pub open spec fn decoded(recs: Seq<(Seq<char>, Seq<char>)>) -> Seq<(Seq<char>, Value)> {
    recs.map_values(|r: (Seq<char>, Seq<char>)| (r.0, json_decoded(r.1)->Ok_0))
}

/// The decoder's error on the first record whose value is not valid JSON.
pub open spec fn decode_failure(recs: Seq<(Seq<char>, Seq<char>)>) -> Option<serde_json::Error>
    decreases recs.len(),
{
    if recs.len() == 0 {
        None
    } else {
        match json_decoded(recs[0].1) {
            Err(cause) => Some(cause),
            Ok(_) => decode_failure(recs.drop_first()),
        }
    }
}

/// Every value can be written as JSON.
pub open spec fn encodes(pairs: Seq<(Seq<char>, Value)>) -> bool {
    forall|i: int| 0 <= i < pairs.len() ==> json_encoded((#[trigger] pairs[i]).1) is Ok
}

/// The pairs with their values encoded.
pub open spec fn encoded(pairs: Seq<(Seq<char>, Value)>) -> Seq<(Seq<char>, Seq<char>)> {
    pairs.map_values(|p: (Seq<char>, Value)| (p.0, json_encoded(p.1)->Ok_0))
}

/// The encoder's error on the first value that cannot be written as JSON.
pub open spec fn encode_failure(pairs: Seq<(Seq<char>, Value)>) -> Option<serde_json::Error>
    decreases pairs.len(),
{
    if pairs.len() == 0 {
        None
    } else {
        match json_encoded(pairs[0].1) {
            Err(cause) => Some(cause),
            Ok(_) => encode_failure(pairs.drop_first()),
        }
    }
}

/// Every value that can be written as JSON is written as a compact text.
pub open spec fn encodes_compactly(pairs: Seq<(Seq<char>, Value)>) -> bool {
    forall|i: int|
        0 <= i < pairs.len() && json_encoded((#[trigger] pairs[i]).1) is Ok ==> is_compact(
            json_encoded(pairs[i].1)->Ok_0,
        )
}

/// Every key can stand in a record.
pub open spec fn keys_fit(pairs: Seq<(Seq<char>, Value)>) -> bool {
    forall|i: int| 0 <= i < pairs.len() ==> is_key((#[trigger] pairs[i]).0)
}

/// A value that comes back from its JSON text: it can be written as JSON, and
/// what is written decodes to the value again.
pub open spec fn encodable(value: Value) -> bool {
    json_encoded(value) is Ok && json_decoded(json_encoded(value)->Ok_0) == Ok::<
        Value,
        serde_json::Error,
    >(value)
}

/// Every value comes back from its JSON text.
pub open spec fn values_come_back(pairs: Seq<(Seq<char>, Value)>) -> bool {
    forall|i: int| 0 <= i < pairs.len() ==> encodable((#[trigger] pairs[i]).1)
}

/// The store that a file's text holds: the records of its lines, inserted in
/// order, so that of two records with one key the later one stays.
pub open spec fn loaded(text: Seq<char>) -> Map<Seq<char>, Value> {
    map_of(decoded(records(text)))
}

/// The text that a store is saved as: one line for each entry, in the order
/// the store keeps them.
pub open spec fn saved(pairs: Seq<(Seq<char>, Value)>) -> Seq<char> {
    rendered(encoded(pairs))
}

/// No decoder's error: every value decodes, and the other way round.
pub proof fn lemma_decode_failure(recs: Seq<(Seq<char>, Seq<char>)>)
    ensures
        decode_failure(recs) is None <==> decodes(recs),
    decreases recs.len(),
{
    if recs.len() > 0 {
        let rest = recs.drop_first();
        lemma_decode_failure(rest);
        if decodes(recs) {
            assert(json_decoded(recs[0].1) is Ok);
            assert forall|i: int| 0 <= i < rest.len() implies json_decoded(
                (#[trigger] rest[i]).1,
            ) is Ok by {
                assert(rest[i] == recs[i + 1]);
            }
        }
        if decode_failure(recs) is None {
            assert forall|i: int| 0 <= i < recs.len() implies json_decoded(
                (#[trigger] recs[i]).1,
            ) is Ok by {
                if i > 0 {
                    assert(recs[i] == rest[i - 1]);
                }
            }
        }
    }
}

/// No encoder's error: every value encodes, and the other way round.
pub proof fn lemma_encode_failure(pairs: Seq<(Seq<char>, Value)>)
    ensures
        encode_failure(pairs) is None <==> encodes(pairs),
    decreases pairs.len(),
{
    if pairs.len() > 0 {
        let rest = pairs.drop_first();
        lemma_encode_failure(rest);
        if encodes(pairs) {
            assert(json_encoded(pairs[0].1) is Ok);
            assert forall|i: int| 0 <= i < rest.len() implies json_encoded(
                (#[trigger] rest[i]).1,
            ) is Ok by {
                assert(rest[i] == pairs[i + 1]);
            }
        }
        if encode_failure(pairs) is None {
            assert forall|i: int| 0 <= i < pairs.len() implies json_encoded(
                (#[trigger] pairs[i]).1,
            ) is Ok by {
                if i > 0 {
                    assert(pairs[i] == rest[i - 1]);
                }
            }
        }
    }
}

/// A compact text can stand as the value of a record.
pub proof fn lemma_compact_is_value(text: Seq<char>)
    requires
        is_compact(text),
    ensures
        is_value(text),
{
}

/// Reads a store from the text of its file; `None` stands for a file that is
/// not there, and gives the empty store.
///
/// Fails exactly when some record's value is not valid JSON: with an error of
/// kind `Decode` that carries what the decoder said of the first such value.
pub fn load_db(contents: Option<&str>) -> (r: Result<Store<Value>, DBError>)
    ensures
        contents is None ==> r is Ok && r->Ok_0.pairs() == Seq::<(Seq<char>, Value)>::empty()
            && r->Ok_0@ == Map::<Seq<char>, Value>::empty(),
        contents is Some ==> (r is Ok <==> decodes(records(contents->0@))),
        contents is Some && r is Ok ==> r->Ok_0@ == loaded(contents->0@) && r->Ok_0.pairs()
            == gathered(decoded(records(contents->0@))),
        r is Err ==> contents is Some && decode_failure(records(contents->0@)) is Some
            && r->Err_0.kind == ErrorKind::Decode && r->Err_0.message@ == message_prefix(
            ErrorKind::Decode,
        ) + error_text(decode_failure(records(contents->0@))->0),
{
    let mut store: Store<Value> = Store::new();
    let text = match contents {
        Some(text) => text,
        None => { return Ok(store); },
    };
    let parsed = parse_records(text);
    let ghost recs = records(text@);
    let mut i: usize = 0;
    proof {
        assert(recs.skip(0) =~= recs);
    }
    while i < parsed.len()
        invariant
            i <= parsed.len(),
            contents == Some(text),
            recs == records(text@),
            views(parsed@) == recs,
            decodes(recs.take(i as int)),
            decode_failure(recs) == decode_failure(recs.skip(i as int)),
            store.pairs() == gathered(decoded(recs.take(i as int))),
        decreases parsed.len() - i,
    {
        let ghost upto = recs.take(i + 1);
        proof {
            assert(recs[i as int] == parsed@[i as int]@);
            assert(upto.drop_last() =~= recs.take(i as int));
            assert(decoded(upto).drop_last() =~= decoded(recs.take(i as int)));
            assert(recs.skip(i as int)[0] == recs[i as int]);
            assert(recs.skip(i as int).drop_first() =~= recs.skip(i + 1));
        }
        match decode_value(parsed[i].value.as_str()) {
            Ok(value) => {
                store.insert(parsed[i].key.clone(), value);
                proof {
                    assert forall|j: int| 0 <= j < upto.len() implies json_decoded(
                        (#[trigger] upto[j]).1,
                    ) is Ok by {
                        if j < i {
                            assert(upto[j] == recs.take(i as int)[j]);
                        }
                    }
                }
            },
            Err(cause) => {
                proof {
                    assert(json_decoded(recs[i as int].1) is Err);
                    lemma_decode_failure(recs);
                }
                return Err(DBError::decode(&cause));
            },
        }
        i += 1;
    }
    proof {
        assert(recs.take(i as int) =~= recs);
        lemma_gathered(decoded(recs));
        lemma_decode_failure(recs);
        store.lemma_view();
    }
    Ok(store)
}

/// Writes a store as the text of its file.
///
/// Fails exactly when some value cannot be written as JSON: with an error of
/// kind `Encode` that carries what the encoder said of the first such value.
///
/// What is written reads back. Where every key can stand in a record and
/// every value comes back from its JSON text, the text that is written loads
/// without error, as the same map, with the same entries in the same order.
pub fn save_db(store: &Store<Value>) -> (r: Result<String, DBError>)
    ensures
        r is Ok <==> encodes(store.pairs()),
        r is Ok ==> r->Ok_0@ == saved(store.pairs()) && is_whole(r->Ok_0@) && encodes_compactly(
            store.pairs(),
        ),
        r is Ok && keys_fit(store.pairs()) && values_come_back(store.pairs()) ==> decodes(
            records(r->Ok_0@),
        ) && loaded(r->Ok_0@) == store@ && gathered(decoded(records(r->Ok_0@))) == store.pairs(),
        r is Err ==> encode_failure(store.pairs()) is Some && r->Err_0.kind == ErrorKind::Encode
            && r->Err_0.message@ == message_prefix(ErrorKind::Encode) + error_text(
            encode_failure(store.pairs())->0,
        ),
{
    let entries = store.entries();
    let ghost pairs = store.pairs();
    let mut out = String::new();
    let mut i: usize = 0;
    proof {
        assert(pairs.skip(0) =~= pairs);
    }
    while i < entries.len()
        invariant
            i <= entries.len(),
            pairs == store.pairs(),
            pairs_of(entries@) == pairs,
            encodes(pairs.take(i as int)),
            encodes_compactly(pairs.take(i as int)),
            encode_failure(pairs) == encode_failure(pairs.skip(i as int)),
            out@ == saved(pairs.take(i as int)),
        decreases entries.len() - i,
    {
        let ghost upto = pairs.take(i + 1);
        proof {
            assert(upto.drop_last() =~= pairs.take(i as int));
            assert(encoded(upto).drop_last() =~= encoded(pairs.take(i as int)));
            assert(pairs[i as int] == (entries@[i as int].key@, entries@[i as int].value));
            assert(pairs.skip(i as int)[0] == pairs[i as int]);
            assert(pairs.skip(i as int).drop_first() =~= pairs.skip(i + 1));
        }
        match encode_value(&entries[i].value) {
            Ok(text) => {
                render_record(&mut out, entries[i].key.as_str(), text.as_str());
                proof {
                    assert forall|j: int| 0 <= j < upto.len() implies json_encoded(
                        (#[trigger] upto[j]).1,
                    ) is Ok && is_compact(json_encoded(upto[j].1)->Ok_0) by {
                        if j < i {
                            assert(upto[j] == pairs.take(i as int)[j]);
                        }
                    }
                }
            },
            Err(cause) => {
                proof {
                    assert(json_encoded(pairs[i as int].1) is Err);
                    lemma_encode_failure(pairs);
                }
                return Err(DBError::encode(&cause));
            },
        }
        i += 1;
    }
    proof {
        assert(pairs.take(i as int) =~= pairs);
        lemma_encode_failure(pairs);
        store.lemma_view();
        if keys_fit(pairs) && values_come_back(pairs) {
            law_save_then_load(pairs);
        }
        lemma_saved_is_whole(pairs);
    }
    Ok(out)
}

/// The text that a store is saved as ends every line with a line feed.
pub proof fn lemma_saved_is_whole(pairs: Seq<(Seq<char>, Value)>)
    ensures
        is_whole(saved(pairs)),
{
    lemma_rendered_is_whole(encoded(pairs));
}

/// The text of any records ends every line with a line feed.
pub proof fn lemma_rendered_is_whole(rs: Seq<(Seq<char>, Seq<char>)>)
    ensures
        is_whole(rendered(rs)),
    decreases rs.len(),
{
    if rs.len() > 0 {
        let line = crate::format::rendered_record(rs.last().0, rs.last().1);
        assert(line.last() == '\n');
        assert(rendered(rs).last() == line.last());
    }
}

/// Entries that come back from a save and a load: no key occurs twice, every
/// key can stand in a record, every value comes back from its JSON text, and
/// the encoder writes compactly, as a save finds that it does.
pub open spec fn storable(pairs: Seq<(Seq<char>, Value)>) -> bool {
    &&& distinct_keys(pairs)
    &&& keys_fit(pairs)
    &&& values_come_back(pairs)
    &&& encodes_compactly(pairs)
}

/// Saving and then loading gives the store back: the text that storable
/// entries are saved as loads without error, as the same map, with the same
/// entries in the same order.
pub proof fn law_save_then_load(pairs: Seq<(Seq<char>, Value)>)
    requires
        storable(pairs),
    ensures
        encodes(pairs),
        decodes(records(saved(pairs))),
        loaded(saved(pairs)) == map_of(pairs),
        gathered(decoded(records(saved(pairs)))) == pairs,
        is_whole(saved(pairs)),
{
    let written = encoded(pairs);
    assert(encodes(pairs)) by {
        assert forall|i: int| 0 <= i < pairs.len() implies json_encoded(
            (#[trigger] pairs[i]).1,
        ) is Ok by {
            assert(encodable(pairs[i].1));
        }
    }
    assert(are_records(written)) by {
        assert forall|i: int| 0 <= i < written.len() implies is_key((#[trigger] written[i]).0)
            && is_value(written[i].1) by {
            assert(is_key(pairs[i].0));
            assert(encodable(pairs[i].1));
            lemma_compact_is_value(json_encoded(pairs[i].1)->Ok_0);
        }
    }
    law_records_round_trip(written);
    assert(decodes(written)) by {
        assert forall|i: int| 0 <= i < written.len() implies json_decoded(
            (#[trigger] written[i]).1,
        ) is Ok by {
            assert(encodable(pairs[i].1));
        }
    }
    assert(decoded(written) =~= pairs) by {
        assert forall|i: int| 0 <= i < pairs.len() implies decoded(written)[i] == pairs[i] by {
            assert(encodable(pairs[i].1));
        }
    }
    lemma_gathered_distinct(pairs);
}

/// Loading is a function of the text: two loads of one text that both
/// succeed give equal maps, and one fails exactly when the other does.
pub proof fn law_load_is_repeatable(
    text: Seq<char>,
    first: Option<Map<Seq<char>, Value>>,
    second: Option<Map<Seq<char>, Value>>,
)
    requires
        first is Some <==> decodes(records(text)),
        first is Some ==> first->0 == loaded(text),
        second is Some <==> decodes(records(text)),
        second is Some ==> second->0 == loaded(text),
    ensures
        first == second,
{
}

/// A line without `=` is passed over by a load: with such a line put between
/// two texts, the first of them whole, the load fails or succeeds as without
/// the line, and gives the same store.
pub proof fn law_load_ignores_line_without_separator(
    before: Seq<char>,
    line: Seq<char>,
    after: Seq<char>,
)
    requires
        is_whole(before),
        !line.contains('='),
        !line.contains('\n'),
    ensures
        decodes(records(before + line + seq!['\n'] + after)) == decodes(
            records(before + after),
        ),
        decode_failure(records(before + line + seq!['\n'] + after)) == decode_failure(
            records(before + after),
        ),
        loaded(before + line + seq!['\n'] + after) == loaded(before + after),
        gathered(decoded(records(before + line + seq!['\n'] + after))) == gathered(
            decoded(records(before + after)),
        ),
{
    law_line_without_separator_is_ignored(before, line, after);
}

} // verus!
