//! The file of known player names.
//!
//! The file is a JSON object. Its keys are the ids of the players; each player has a list of
//! aliases, each of them an object with a name.

use crate::players::PlayerAliases;
use crate::text::{all_digits, digits, id_of, is_text, lowercase, parse_id, text_lt};
use serde_json::Value;
use std::collections::HashMap;
use vstd::prelude::*;

verus! {

/// A JSON value, as the parser gives it.
#[verifier::external_type_specification]
#[verifier::external_body]
pub struct ExValue(Value);

/// What can go wrong with JSON, as the parser has it.
#[verifier::external_type_specification]
#[verifier::external_body]
pub struct ExJsonError(serde_json::Error);

/// A JSON value. Numbers are kept as texts, and objects as their entries in the order of the keys.
pub enum Json {
    Null,
    Bool(bool),
    Number(String),
    Text(String),
    List(Vec<Json>),
    Object(Vec<(String, Json)>),
}

/// What a [`Json`] value stands for.
pub enum JsonView {
    Null,
    Bool(bool),
    Number(Seq<char>),
    Text(Seq<char>),
    List(Seq<JsonView>),
    Object(Seq<(Seq<char>, JsonView)>),
}

impl Json {
    /// What this value stands for.
    pub open spec fn content(self) -> JsonView
        decreases self,
    {
        match self {
            Json::Null => JsonView::Null,
            Json::Bool(truth) => JsonView::Bool(truth),
            Json::Number(number) => JsonView::Number(number@),
            Json::Text(text) => JsonView::Text(text@),
            Json::List(items) => JsonView::List(
                Seq::new(
                    items@.len(),
                    |i: int|
                        if 0 <= i < items@.len() {
                            items@[i].content()
                        } else {
                            JsonView::Null
                        },
                ),
            ),
            Json::Object(entries) => JsonView::Object(
                Seq::new(
                    entries@.len(),
                    |i: int|
                        if 0 <= i < entries@.len() {
                            (entries@[i].0@, entries@[i].1.content())
                        } else {
                            (Seq::empty(), JsonView::Null)
                        },
                ),
            ),
        }
    }
}

/// The value that a JSON text stands for, if it is one.
pub uninterp spec fn json_of(text: Seq<char>) -> Option<JsonView>;

/// What a JSON value holds.
pub uninterp spec fn value_content(value: Value) -> JsonView;

/// A JSON value as a text, spread over lines.
pub uninterp spec fn pretty_json(content: JsonView) -> Seq<char>;

/// Whether no two entries have the same key.
pub open spec fn distinct_keys(entries: Seq<(Seq<char>, JsonView)>) -> bool {
    forall|i: int, j: int|
        0 <= i < j < entries.len() ==> (#[trigger] entries[i]).0 != (#[trigger] entries[j]).0
}

/// Whether neither the value nor a value right below it has two entries with the same key.
pub open spec fn has_distinct_keys(content: JsonView) -> bool {
    content matches JsonView::Object(entries) ==> distinct_keys(entries) && forall|i: int|
        0 <= i < entries.len() ==> ((#[trigger] entries[i]).1 matches JsonView::Object(fields)
            ==> distinct_keys(fields))
}

/// Whether a number is written as a whole number, without a point or an exponent.
pub open spec fn is_whole(number: Seq<char>) -> bool {
    let digits = if number.len() > 0 && number[0] == '-' {
        number.drop_first()
    } else {
        number
    };
    digits.len() > 0 && all_digits(digits)
}

/// Whether all numbers of a value are whole, and its lists and objects are nested at most so deep.
pub open spec fn is_plain(content: JsonView, depth: nat) -> bool
    decreases depth,
{
    match content {
        JsonView::Number(number) => is_whole(number),
        JsonView::List(items) => depth > 0 && forall|i: int|
            0 <= i < items.len() ==> is_plain(#[trigger] items[i], (depth - 1) as nat),
        JsonView::Object(entries) => depth > 0 && forall|i: int|
            0 <= i < entries.len() ==> is_plain((#[trigger] entries[i]).1, (depth - 1) as nat),
        _ => true,
    }
}

/// How deep lists and objects may be nested in a text that can be read.
pub const MAX_DEPTH: usize = 127;

/// Parses with `serde_json::from_str`.
#[verifier::external_body]
fn parse_json(text: &str) -> (parsed: Result<Value, serde_json::Error>)
    ensures
        match parsed {
            Ok(value) => json_of(text@) == Some(value_content(value)),
            Err(_) => json_of(text@) is None,
        },
{
    serde_json::from_str(text)
}

/// What a `serde_json::Value` holds. The keys of its objects are all different.
#[verifier::external_body]
fn to_json(value: &Value) -> (json: Json)
    ensures
        json.content() == value_content(*value),
        has_distinct_keys(json.content()),
{
    match value {
        Value::Null => Json::Null,
        Value::Bool(truth) => Json::Bool(*truth),
        Value::Number(number) => Json::Number(number.to_string()),
        Value::String(text) => Json::Text(text.clone()),
        Value::Array(items) => Json::List(items.iter().map(to_json).collect()),
        Value::Object(map) => {
            Json::Object(map.iter().map(|entry| (entry.0.clone(), to_json(entry.1))).collect())
        },
    }
}

/// Whether one of the entries has this key.
pub open spec fn has_key(entries: Seq<(Seq<char>, JsonView)>, key: Seq<char>) -> bool {
    exists|i: int| 0 <= i < entries.len() && (#[trigger] entries[i]).0 == key
}

/// The entries with a value under a key: in place of the one that is there, or else where the order
/// of the keys puts it.
pub open spec fn with_entry(
    entries: Seq<(Seq<char>, JsonView)>,
    key: Seq<char>,
    value: JsonView,
) -> Seq<(Seq<char>, JsonView)> {
    if has_key(entries, key) {
        let i = choose|i: int| 0 <= i < entries.len() && (#[trigger] entries[i]).0 == key;
        entries.update(i, (key, value))
    } else {
        entries.filter(|entry: (Seq<char>, JsonView)| text_lt(entry.0, key)).push((key, value))
            + entries.filter(|entry: (Seq<char>, JsonView)| !text_lt(entry.0, key))
    }
}

/// An object with a number under a key. A value that is not an object stays as it is.
pub open spec fn with_number(content: JsonView, key: Seq<char>, number: nat) -> JsonView {
    match content {
        JsonView::Object(entries) => JsonView::Object(
            with_entry(entries, key, JsonView::Number(digits(number))),
        ),
        _ => content,
    }
}

/// Whether a value is an object with an object under a name.
pub open spec fn has_object(content: JsonView, name: Seq<char>) -> bool {
    content matches JsonView::Object(entries) && exists|i: int|
        0 <= i < entries.len() && (#[trigger] entries[i]).0 == name && entries[i].1 is Object
}

/// An object in which the value under a name has a number under a key.
pub open spec fn with_number_in(
    content: JsonView,
    name: Seq<char>,
    key: Seq<char>,
    number: nat,
) -> JsonView {
    match content {
        JsonView::Object(entries) => JsonView::Object(
            entries.map_values(
                |entry: (Seq<char>, JsonView)|
                    if entry.0 == name {
                        (entry.0, with_number(entry.1, key, number))
                    } else {
                        entry
                    },
            ),
        ),
        _ => content,
    }
}

/// Puts a number under a key of the object under a name with `serde_json::Map::insert`. The map
/// keeps its entries in the order of their keys. `serde_json::Value::get_mut` finds the value under
/// a name that is there, and `serde_json::Value::as_object_mut` gives the map of an object.
#[verifier::external_body]
fn set_number(value: &mut Value, name: &str, key: &str, number: usize)
    requires
        has_object(value_content(*old(value)), name@),
    ensures
        value_content(*final(value)) == with_number_in(
            value_content(*old(value)),
            name@,
            key@,
            number as nat,
        ),
{
    let object = value.get_mut(name).unwrap().as_object_mut().unwrap();
    object.insert(key.to_string(), Value::from(number));
}

/// The value as a text, from `serde_json::to_string_pretty`, which does not fail on a
/// `serde_json::Value`. `serde_json::from_str` reads the same value back from it, if all numbers
/// are whole and the value is not nested too deep for it; a number with a fraction may come back
/// with another last digit, and nothing is said of it.
#[verifier::external_body]
fn print_json(value: &Value) -> (text: Result<String, serde_json::Error>)
    ensures
        text is Ok,
        text.unwrap()@ == pretty_json(value_content(*value)),
        is_plain(value_content(*value), MAX_DEPTH as nat) ==> json_of(text.unwrap()@) == Some(
            value_content(*value),
        ),
{
    serde_json::to_string_pretty(value)
}

/// Why a file of player names cannot be used.
#[derive(Clone, Copy, PartialEq, Eq, Structural, Debug)]
pub enum NamesError {
    /// It is not JSON.
    Malformed,
    /// It is not an object.
    NotAnObject,
    /// One of its keys is not an id.
    BadId,
}

/// The value under a key of an object.
pub open spec fn field(content: JsonView, key: Seq<char>) -> Option<JsonView> {
    match content {
        JsonView::Object(entries) => if has_key(entries, key) {
            Some(entries[first_key(entries, key)].1)
        } else {
            None
        },
        _ => None,
    }
}

/// The place of the first entry with a key.
pub open spec fn first_key(entries: Seq<(Seq<char>, JsonView)>, key: Seq<char>) -> int
    decreases entries.len(),
{
    if entries.len() == 0 || entries[0].0 == key {
        0
    } else {
        1 + first_key(entries.drop_first(), key)
    }
}

/// The aliases of a player.
pub open spec fn aliases_of(player: JsonView) -> Seq<JsonView> {
    match field(player, "aliases"@) {
        Some(JsonView::List(aliases)) => aliases,
        _ => Seq::empty(),
    }
}

/// The name of an alias.
pub open spec fn name_of(alias: JsonView) -> Option<Seq<char>> {
    match field(alias, "name"@) {
        Some(JsonView::Text(name)) => Some(name),
        _ => None,
    }
}

/// The table with the names of some aliases added, in lower case.
pub open spec fn with_aliases(
    table: Map<Seq<char>, i16>,
    aliases: Seq<JsonView>,
    id: i16,
) -> Map<Seq<char>, i16>
    decreases aliases.len(),
{
    if aliases.len() == 0 {
        table
    } else {
        let rest = with_aliases(table, aliases.drop_last(), id);
        match name_of(aliases.last()) {
            Some(name) => rest.insert(lowercase(name), id),
            None => rest,
        }
    }
}

/// The ids of the players by the names of their aliases. Of two players with the same name, the one
/// that comes last has it.
pub open spec fn alias_table(players: Seq<(Seq<char>, JsonView)>) -> Map<Seq<char>, i16>
    decreases players.len(),
{
    if players.len() == 0 {
        Map::empty()
    } else {
        with_aliases(
            alias_table(players.drop_last()),
            aliases_of(players.last().1),
            id_of(players.last().0).unwrap(),
        )
    }
}

/// Whether one of the keys is not an id.
pub open spec fn has_bad_id(players: Seq<(Seq<char>, JsonView)>) -> bool {
    exists|i: int| 0 <= i < players.len() && id_of((#[trigger] players[i]).0) is None
}

/// The ids of the players by their names that the content of a file gives, or why it cannot be
/// used.
pub open spec fn names_in(content: JsonView) -> Result<Map<Seq<char>, i16>, NamesError> {
    match content {
        JsonView::Object(players) => if has_bad_id(players) {
            Err(NamesError::BadId)
        } else {
            Ok(alias_table(players))
        },
        _ => Err(NamesError::NotAnObject),
    }
}

/// The ids of the players by their names that a file gives, or why it cannot be used.
pub open spec fn names_in_file(text: Seq<char>) -> Result<Map<Seq<char>, i16>, NamesError> {
    match json_of(text) {
        None => Err(NamesError::Malformed),
        Some(content) => names_in(content),
    }
}

/// The value under a key of an object.
fn get_field<'a>(json: &'a Json, key: &str) -> (found: Option<&'a Json>)
    ensures
        match found {
            Some(value) => field(json.content(), key@) == Some(value.content()),
            None => field(json.content(), key@) is None,
        },
{
    match json {
        Json::Object(entries) => {
            let n: usize = entries.len();
            let ghost all = Seq::new(
                entries@.len(),
                |i: int| (entries@[i].0@, entries@[i].1.content()),
            );
            assert(json.content() matches JsonView::Object(own) && own =~= all);
            assert(all.skip(0) =~= all);
            for i in 0..n
                invariant
                    n == entries@.len(),
                    all == Seq::new(
                        entries@.len(),
                        |i: int| (entries@[i].0@, entries@[i].1.content()),
                    ),
                    json.content() == JsonView::Object(all),
                    forall|j: int| 0 <= j < i ==> (#[trigger] all[j]).0 != key@,
                    first_key(all, key@) == i + first_key(all.skip(i as int), key@),
            {
                assert(all.skip(i as int)[0] == all[i as int]);
                assert(all.skip(i as int).drop_first() =~= all.skip(i + 1));
                if is_text(&entries[i].0, key) {
                    assert(all[i as int].0 == key@);
                    assert(first_key(all.skip(i as int), key@) == 0);
                    assert(all[i as int].1 == entries@[i as int].1.content());
                    return Some(&entries[i].1);
                }
            }
            None
        },
        _ => None,
    }
}

/// Adds the names of the aliases of a player.
fn add_aliases(table: &mut PlayerAliases, player: &Json, id: i16)
    ensures
        final(table)@ == with_aliases(old(table)@, aliases_of(player.content()), id),
{
    if let Some(Json::List(aliases)) = get_field(player, "aliases") {
        let n: usize = aliases.len();
        let ghost start = table@;
        let ghost all = Seq::new(aliases@.len(), |i: int| aliases@[i].content());
        assert(aliases_of(player.content()) =~= all);
        for i in 0..n
            invariant
                n == aliases@.len(),
                all == Seq::new(aliases@.len(), |i: int| aliases@[i].content()),
                table@ == with_aliases(start, all.take(i as int), id),
        {
            assert(all.take(i + 1).drop_last() =~= all.take(i as int));
            assert(all.take(i + 1).last() == aliases@[i as int].content());
            if let Some(Json::Text(name)) = get_field(&aliases[i], "name") {
                table.insert(name.as_str(), id);
            }
        }
        assert(all.take(n as int) =~= all);
    }
}

/// The ids of the players by their names, from the content of the file of names.
pub fn read_player_aliases(json: &Json) -> (aliases: Result<PlayerAliases, NamesError>)
    ensures
        match aliases {
            Ok(table) => names_in(json.content()) == Ok::<Map<Seq<char>, i16>, NamesError>(table@),
            Err(error) => names_in(json.content()) == Err::<Map<Seq<char>, i16>, NamesError>(
                error,
            ),
        },
{
    let players = match json {
        Json::Object(players) => players,
        _ => {
            return Err(NamesError::NotAnObject);
        },
    };
    let n: usize = players.len();
    let ghost all = Seq::new(players@.len(), |i: int| (players@[i].0@, players@[i].1.content()));
    assert(json.content() matches JsonView::Object(own) && own =~= all);
    let mut table = PlayerAliases::new();
    for i in 0..n
        invariant
            n == players@.len(),
            all == Seq::new(players@.len(), |i: int| (players@[i].0@, players@[i].1.content())),
            json.content() == JsonView::Object(all),
            forall|j: int| 0 <= j < i ==> id_of((#[trigger] all[j]).0) is Some,
            table@ == alias_table(all.take(i as int)),
    {
        assert(all.take(i + 1).drop_last() =~= all.take(i as int));
        assert(all.take(i + 1).last() == all[i as int]);
        let id = match parse_id(players[i].0.as_str()) {
            Some(id) => id,
            None => {
                assert(id_of(all[i as int].0) is None);
                return Err(NamesError::BadId);
            },
        };
        add_aliases(&mut table, &players[i].1, id);
    }
    assert(all.take(n as int) =~= all);
    Ok(table)
}

/// The ids of the players by their names, from the text of the file of names.
pub fn load_player_aliases(text: &str) -> (aliases: Result<PlayerAliases, NamesError>)
    ensures
        match aliases {
            Ok(table) => names_in_file(text@) == Ok::<Map<Seq<char>, i16>, NamesError>(table@),
            Err(error) => names_in_file(text@) == Err::<Map<Seq<char>, i16>, NamesError>(error),
        },
{
    match parse_json(text) {
        Ok(value) => {
            let json = to_json(&value);
            read_player_aliases(&json)
        },
        Err(_) => Err(NamesError::Malformed),
    }
}

/// The number of games of a player.
pub open spec fn games_of(counts: Map<i16, usize>, id: i16) -> nat {
    if counts.contains_key(id) {
        counts[id] as nat
    } else {
        0
    }
}

/// The number of games of the player with this key, if the key is an id.
pub fn games_count_of(key: &str, player_id_counts: &HashMap<i16, usize>) -> (count: Option<usize>)
    ensures
        match id_of(key@) {
            Some(id) => count matches Some(own) && own == games_of(player_id_counts@, id),
            None => count is None,
        },
{
    broadcast use vstd::std_specs::hash::group_hash_axioms;

    match parse_id(key) {
        Some(id) => match player_id_counts.get(&id) {
            Some(count) => Some(*count),
            None => Some(0),
        },
        None => None,
    }
}

/// A player with its number of games, if its key is an id.
pub open spec fn with_games_count(
    player: (Seq<char>, JsonView),
    counts: Map<i16, usize>,
) -> (Seq<char>, JsonView) {
    match id_of(player.0) {
        Some(id) => (player.0, with_number(player.1, "games_count"@, games_of(counts, id))),
        None => player,
    }
}

/// The players with their numbers of games. A file that is not an object stays as it is.
pub open spec fn with_games_counts(content: JsonView, counts: Map<i16, usize>) -> JsonView {
    match content {
        JsonView::Object(players) => JsonView::Object(
            players.map_values(
                |player: (Seq<char>, JsonView)| with_games_count(player, counts),
            ),
        ),
        _ => content,
    }
}

/// The file of names with the number of games that each player plays in. Players that are not in
/// the table play in none.
pub fn update_player_names_with_games_count(
    text: &str,
    player_id_counts: &HashMap<i16, usize>,
) -> (updated: Result<String, NamesError>)
    ensures
        match updated {
            Ok(new) => json_of(text@) matches Some(content) && {
                let counted = with_games_counts(content, player_id_counts@);
                &&& new@ == pretty_json(counted)
                &&& has_distinct_keys(content)
                &&& is_plain(counted, MAX_DEPTH as nat) ==> json_of(new@) == Some(counted)
            },
            Err(error) => error == NamesError::Malformed && json_of(text@) is None,
        },
{
    let mut value = match parse_json(text) {
        Ok(value) => value,
        Err(_) => {
            return Err(NamesError::Malformed);
        },
    };
    let json = to_json(&value);
    if let Json::Object(players) = &json {
        let n: usize = players.len();
        let ghost all = Seq::new(
            players@.len(),
            |i: int| (players@[i].0@, players@[i].1.content()),
        );
        let ghost counted = all.map_values(
            |player: (Seq<char>, JsonView)| with_games_count(player, player_id_counts@),
        );
        assert(json.content() matches JsonView::Object(own) && own =~= all);
        assert(counted.take(0) + all.skip(0) =~= all);
        for i in 0..n
            invariant
                n == players@.len(),
                all == Seq::new(
                    players@.len(),
                    |i: int| (players@[i].0@, players@[i].1.content()),
                ),
                distinct_keys(all),
                counted == all.map_values(
                    |player: (Seq<char>, JsonView)| with_games_count(player, player_id_counts@),
                ),
                value_content(value) == JsonView::Object(
                    counted.take(i as int) + all.skip(i as int),
                ),
        {
            let ghost now = counted.take(i as int) + all.skip(i as int);
            let ghost next = counted.take(i + 1) + all.skip(i + 1);
            let name = players[i].0.as_str();
            let is_object = matches!(&players[i].1, Json::Object(_));
            let count = games_count_of(name, player_id_counts);
            assert(now[i as int] == all[i as int]);
            if is_object && count.is_some() {
                let count: usize = count.unwrap();
                set_number(&mut value, name, "games_count", count);
                proof {
                    let changed = now.map_values(
                        |entry: (Seq<char>, JsonView)|
                            if entry.0 == name@ {
                                (entry.0, with_number(entry.1, "games_count"@, count as nat))
                            } else {
                                entry
                            },
                    );
                    assert forall|j: int| 0 <= j < all.len() implies #[trigger] changed[j]
                        == next[j] by {
                        assert(all[i as int].0 == name@);
                        assert(now[j].0 == all[j].0);
                        if j < i {
                            assert(all[j].0 != all[i as int].0);
                        } else if j > i {
                            assert(all[i as int].0 != all[j].0);
                        }
                    }
                    assert(changed =~= next);
                }
            } else {
                assert(counted[i as int] == all[i as int]);
                assert(now =~= next);
            }
        }
        assert(counted.take(n as int) + all.skip(n as int) =~= counted);
    }
    Ok(print_json(&value).unwrap())
}

} // verus!
