//! What holds of the names of players: how they are cleaned, and for whom they stand.

use crate::baduk::PlayerView;
use crate::names::{
    alias_table, aliases_of, field, first_key, has_key, json_of, name_of, names_in, names_in_file,
    JsonView, NamesError,
};
use crate::players::{as_in_name, cleaned, may_stand_in_name, multiple_players, resolved};
use crate::record_laws::{
    goes_by, known_names_are_those_of_players, lists_name, names_belong_to_the_last_player,
};
use crate::text::{
    id_of, is_space, lowercase, occurrences, occurs, trimmed_end, trimmed_start,
};
use vstd::prelude::*;

verus! {

/// White space is what has the property of that name in Unicode: the space, the tab and the
/// characters up to the carriage return, and a few others.
pub proof fn white_space_is_that_of_unicode(c: char)
    ensures
        is_space(c) <==> {
            ||| c == ' '
            ||| '\t' <= c <= '\r'
            ||| c == '\u{85}'
            ||| c == '\u{a0}'
            ||| c == '\u{1680}'
            ||| '\u{2000}' <= c <= '\u{200a}'
            ||| c == '\u{2028}'
            ||| c == '\u{2029}'
            ||| c == '\u{202f}'
            ||| c == '\u{205f}'
            ||| c == '\u{3000}'
        },
{
}

/// A name before white space is taken off its ends.
spec fn untrimmed(name: Seq<char>) -> Seq<char> {
    name.map_values(|c: char| as_in_name(c)).filter(may_stand_in_name())
}

proof fn lemma_untrimmed_push(name: Seq<char>, c: char)
    ensures
        untrimmed(name.push(c)) == (if c == ',' {
            untrimmed(name)
        } else if c == '\n' {
            untrimmed(name).push(' ')
        } else {
            untrimmed(name).push(c)
        }),
{
    reveal(Seq::filter);
    let spaced = name.push(c).map_values(|c: char| as_in_name(c));
    assert(spaced.drop_last() =~= name.map_values(|c: char| as_in_name(c)));
    assert(spaced.last() == as_in_name(c));
}

proof fn lemma_untrimmed_joined(a: Seq<char>, b: Seq<char>)
    ensures
        untrimmed(a + b) == untrimmed(a) + untrimmed(b),
    decreases b.len(),
{
    reveal(Seq::filter);
    if b.len() == 0 {
        assert(a + b =~= a);
        assert(b.map_values(|c: char| as_in_name(c)) =~= Seq::empty());
        assert(untrimmed(a) + untrimmed(b) =~= untrimmed(a));
    } else {
        let rest = b.drop_last();
        assert(a + b =~= (a + rest).push(b.last()));
        assert(b =~= rest.push(b.last()));
        lemma_untrimmed_joined(a, rest);
        lemma_untrimmed_push(a + rest, b.last());
        lemma_untrimmed_push(rest, b.last());
        assert(untrimmed(a + b) =~= untrimmed(a) + untrimmed(b));
    }
}

proof fn lemma_untrimmed_one(c: char)
    ensures
        untrimmed(seq![c]) == (if c == ',' {
            Seq::empty()
        } else if c == '\n' {
            seq![' ']
        } else {
            seq![c]
        }),
{
    reveal(Seq::filter);
    lemma_untrimmed_push(Seq::empty(), c);
    assert(seq![c] =~= Seq::empty().push(c));
    assert(Seq::<char>::empty().map_values(|c: char| as_in_name(c)) =~= Seq::empty());
    assert(untrimmed(Seq::empty()) =~= Seq::empty());
    assert(seq![' '] =~= Seq::empty().push(' '));
}

/// A comma in a name is as good as none, wherever it stands.
pub proof fn commas_are_left_out_of_names(a: Seq<char>, b: Seq<char>)
    ensures
        cleaned(a + seq![','] + b) == cleaned(a + b),
{
    lemma_untrimmed_joined(a + seq![','], b);
    lemma_untrimmed_joined(a, seq![',']);
    lemma_untrimmed_joined(a, b);
    lemma_untrimmed_one(',');
    assert(untrimmed(a) + Seq::<char>::empty() =~= untrimmed(a));
}

/// A line feed in a name is as good as a space, wherever it stands.
pub proof fn line_feeds_are_spaces_in_names(a: Seq<char>, b: Seq<char>)
    ensures
        cleaned(a + seq!['\n'] + b) == cleaned(a + seq![' '] + b),
{
    lemma_untrimmed_joined(a + seq!['\n'], b);
    lemma_untrimmed_joined(a, seq!['\n']);
    lemma_untrimmed_joined(a + seq![' '], b);
    lemma_untrimmed_joined(a, seq![' ']);
    lemma_untrimmed_one('\n');
    lemma_untrimmed_one(' ');
}

proof fn lemma_trimmed_start_push(text: Seq<char>, c: char)
    requires
        is_space(c),
    ensures
        trimmed_end(trimmed_start(text.push(c))) == trimmed_end(trimmed_start(text)),
    decreases text.len(),
{
    let more = text.push(c);
    if text.len() == 0 {
        assert(more[0] == c);
        assert(more.drop_first() =~= text);
        assert(trimmed_start(more) == trimmed_start(text));
    } else if is_space(text[0]) {
        assert(more[0] == text[0]);
        assert(more.drop_first() =~= text.drop_first().push(c));
        lemma_trimmed_start_push(text.drop_first(), c);
    } else {
        assert(more[0] == text[0]);
        assert(more.drop_last() =~= text);
        assert(more.last() == c);
    }
}

/// White space at either end of a name is as good as none.
pub proof fn white_space_around_names_is_left_out(name: Seq<char>, c: char)
    requires
        is_space(c),
    ensures
        cleaned(seq![c] + name) == cleaned(name),
        cleaned(name.push(c)) == cleaned(name),
{
    lemma_untrimmed_joined(seq![c], name);
    lemma_untrimmed_one(c);
    lemma_untrimmed_push(name, c);
    let inner = untrimmed(name);
    let own: char = if c == '\n' {
        ' '
    } else {
        c
    };
    assert(is_space(own));
    assert(untrimmed(seq![c] + name) == seq![own] + inner);
    assert((seq![own] + inner)[0] == own);
    assert((seq![own] + inner).drop_first() =~= inner);
    assert(trimmed_start(seq![own] + inner) == trimmed_start(inner));
    lemma_trimmed_start_push(inner, own);
}

/// A name without commas and line feeds, and without white space at its ends, stays as it is.
pub proof fn clean_names_stay(name: Seq<char>)
    requires
        !name.contains(','),
        !name.contains('\n'),
        name.len() > 0 ==> !is_space(name[0]) && !is_space(name.last()),
    ensures
        cleaned(name) == name,
{
    lemma_unchanged(name);
}

proof fn lemma_unchanged(name: Seq<char>)
    requires
        !name.contains(','),
        !name.contains('\n'),
    ensures
        untrimmed(name) == name,
    decreases name.len(),
{
    reveal(Seq::filter);
    if name.len() == 0 {
        assert(name.map_values(|c: char| as_in_name(c)) =~= Seq::empty());
        assert(untrimmed(name) =~= name);
    } else {
        let rest = name.drop_last();
        assert(name =~= rest.push(name.last()));
        assert(name[name.len() - 1] == name.last());
        assert forall|c: char| rest.contains(c) implies name.contains(c) by {
            let k = choose|k: int| 0 <= k < rest.len() && rest[k] == c;
            assert(name[k] == c);
        }
        lemma_unchanged(rest);
        lemma_untrimmed_push(rest, name.last());
    }
}

/// A name stands for the player with the id under which the cleaned name is known, in upper or
/// lower case, and keeps its spelling otherwise. A name that is not known stands for an unknown
/// player, and so does one with nothing left of it.
pub proof fn names_stand_for_known_players(name: Seq<char>, aliases: Map<Seq<char>, i16>)
    ensures
        ({
            let clean = cleaned(name);
            let lower = lowercase(clean);
            &&& clean.len() > 0 && aliases.dom().contains(lower) ==> resolved(name, aliases)
                == PlayerView::Id(aliases[lower], clean)
            &&& clean.len() == 0 || !aliases.dom().contains(lower) ==> resolved(name, aliases)
                == PlayerView::Unknown(clean)
        }),
{
}

/// Whether a value of a file has a value under a key: it is an object, and its first entry with the
/// key has that value.
pub open spec fn holds(content: JsonView, key: Seq<char>, value: JsonView) -> bool {
    content matches JsonView::Object(entries) && exists|i: int|
        0 <= i < entries.len() && #[trigger] entries[i] == (key, value) && forall|j: int|
            0 <= j < i ==> (#[trigger] entries[j]).0 != key
}

/// Whether a player of a file has a name: the list of its aliases has an alias with that name.
pub open spec fn has_alias(player: JsonView, name: Seq<char>) -> bool {
    exists|list: Seq<JsonView>, j: int|
        #![trigger list[j]]
        {
            &&& holds(player, "aliases"@, JsonView::List(list))
            &&& 0 <= j < list.len()
            &&& holds(list[j], "name"@, JsonView::Text(name))
        }
}

proof fn lemma_first_key(entries: Seq<(Seq<char>, JsonView)>, key: Seq<char>)
    ensures
        ({
            let i = first_key(entries, key);
            &&& 0 <= i <= entries.len()
            &&& i < entries.len() <==> has_key(entries, key)
            &&& i < entries.len() ==> entries[i].0 == key
            &&& forall|j: int| 0 <= j < i ==> (#[trigger] entries[j]).0 != key
        }),
    decreases entries.len(),
{
    if entries.len() > 0 && entries[0].0 != key {
        let rest = entries.drop_first();
        lemma_first_key(rest, key);
        assert forall|j: int| 0 <= j < first_key(entries, key) implies (#[trigger] entries[j]).0
            != key by {
            if j > 0 {
                assert(rest[j - 1] == entries[j]);
            }
        }
        if has_key(entries, key) {
            let k = choose|k: int| 0 <= k < entries.len() && (#[trigger] entries[k]).0 == key;
            assert(rest[k - 1].0 == key);
        }
    }
}

/// Having a value under a key is having it as a field.
pub(crate) proof fn lemma_field(content: JsonView, key: Seq<char>, value: JsonView)
    ensures
        field(content, key) == Some(value) <==> holds(content, key, value),
{
    if let JsonView::Object(entries) = content {
        lemma_first_key(entries, key);
        let i = first_key(entries, key);
        if field(content, key) == Some(value) {
            assert(entries[i] == (key, value));
        }
        if holds(content, key, value) {
            let k = choose|k: int|
                0 <= k < entries.len() && #[trigger] entries[k] == (key, value) && forall|j: int|
                    0 <= j < k ==> (#[trigger] entries[j]).0 != key;
            assert(entries[k].0 == key);
            if i < k {
                assert(entries[i].0 != key);
            } else if k < i {
                assert(entries[k].0 != key);
            }
        }
    }
}

/// Going by a name is having it as an alias.
proof fn lemma_goes_by(player: (Seq<char>, JsonView), lower: Seq<char>)
    ensures
        goes_by(player, lower) <==> exists|name: Seq<char>|
            #![trigger has_alias(player.1, name)]
            has_alias(player.1, name) && lowercase(name) == lower,
{
    let aliases = aliases_of(player.1);
    if goes_by(player, lower) {
        let j = choose|j: int|
            0 <= j < aliases.len() && (name_of(#[trigger] aliases[j]) matches Some(name)
                && lowercase(name) == lower);
        let name = name_of(aliases[j]).unwrap();
        lemma_field(player.1, "aliases"@, JsonView::List(aliases));
        lemma_field(aliases[j], "name"@, JsonView::Text(name));
        assert(has_alias(player.1, name));
    }
    if exists|name: Seq<char>|
        #![trigger has_alias(player.1, name)]
        has_alias(player.1, name) && lowercase(name) == lower {
        let name = choose|name: Seq<char>|
            #![trigger has_alias(player.1, name)]
            has_alias(player.1, name) && lowercase(name) == lower;
        let (list, j) = choose|list: Seq<JsonView>, j: int|
            #![trigger list[j]]
            {
                &&& holds(player.1, "aliases"@, JsonView::List(list))
                &&& 0 <= j < list.len()
                &&& holds(list[j], "name"@, JsonView::Text(name))
            };
        lemma_field(player.1, "aliases"@, JsonView::List(list));
        lemma_field(list[j], "name"@, JsonView::Text(name));
        assert(aliases == list);
        assert(name_of(aliases[j]) == Some(name));
        assert(lists_name(aliases, lower));
    }
}

/// A file of names is an object with a player under each id. Its names in lower case are known,
/// each for the last of the players that have it as an alias, and no others.
pub proof fn files_tell_the_names_of_players(players: Seq<(Seq<char>, JsonView)>)
    ensures
        match names_in(JsonView::Object(players)) {
            Ok(known) => {
                &&& forall|i: int|
                    0 <= i < players.len() ==> id_of((#[trigger] players[i]).0) is Some
                &&& forall|lower: Seq<char>| #[trigger]
                    known.dom().contains(lower) ==> exists|i: int, name: Seq<char>|
                        #![trigger players[i], lowercase(name)]
                        0 <= i < players.len() && has_alias(players[i].1, name) && lowercase(name)
                            == lower && known[lower] == id_of(players[i].0).unwrap() && forall|
                            k: int,
                            other: Seq<char>,
                        |
                            #![trigger has_alias(players[k].1, other)]
                            i < k < players.len() && has_alias(players[k].1, other)
                                ==> lowercase(other) != lower
                &&& forall|i: int, name: Seq<char>|
                    #![trigger has_alias(players[i].1, name)]
                    0 <= i < players.len() && has_alias(players[i].1, name)
                        ==> known.dom().contains(lowercase(name))
            },
            Err(error) => error == NamesError::BadId && exists|i: int|
                0 <= i < players.len() && id_of((#[trigger] players[i]).0) is None,
        },
{
    if let Ok(known) = names_in(JsonView::Object(players)) {
        assert(known == alias_table(players));
        assert forall|i: int| 0 <= i < players.len() implies id_of((#[trigger] players[i]).0)
            is Some by {}
        assert forall|lower: Seq<char>| #[trigger] known.dom().contains(lower) implies exists|
            i: int,
            name: Seq<char>,
        |
            #![trigger players[i], lowercase(name)]
            0 <= i < players.len() && has_alias(players[i].1, name) && lowercase(name) == lower
                && known[lower] == id_of(players[i].0).unwrap() && forall|
                k: int,
                other: Seq<char>,
            |
                #![trigger has_alias(players[k].1, other)]
                i < k < players.len() && has_alias(players[k].1, other) ==> lowercase(other)
                    != lower by {
            known_names_are_those_of_players(players, lower);
            let i = lemma_last_goes_by(players, lower);
            names_belong_to_the_last_player(players, lower, i);
            lemma_goes_by(players[i], lower);
            let name = choose|name: Seq<char>|
                #![trigger has_alias(players[i].1, name)]
                has_alias(players[i].1, name) && lowercase(name) == lower;
            assert forall|k: int, other: Seq<char>|
                #![trigger has_alias(players[k].1, other)]
                i < k < players.len() && has_alias(players[k].1, other) implies lowercase(other)
                != lower by {
                lemma_goes_by(players[k], lower);
            }
            assert(players[i] == players[i] && lowercase(name) == lower);
        }
        assert forall|i: int, name: Seq<char>|
            #![trigger has_alias(players[i].1, name)]
            0 <= i < players.len() && has_alias(players[i].1, name) implies known.dom().contains(
            lowercase(name),
        ) by {
            lemma_goes_by(players[i], lowercase(name));
            known_names_are_those_of_players(players, lowercase(name));
        }
    }
}

proof fn lemma_last_goes_by(players: Seq<(Seq<char>, JsonView)>, lower: Seq<char>) -> (i: int)
    requires
        exists|i: int| 0 <= i < players.len() && goes_by(#[trigger] players[i], lower),
    ensures
        0 <= i < players.len(),
        goes_by(players[i], lower),
        forall|k: int| i < k < players.len() ==> !goes_by(#[trigger] players[k], lower),
    decreases players.len(),
{
    let n = players.len() as int;
    if goes_by(players[n - 1], lower) {
        n - 1
    } else {
        let rest = players.drop_last();
        let k = choose|k: int| 0 <= k < players.len() && goes_by(#[trigger] players[k], lower);
        assert(rest[k] == players[k]);
        let i = lemma_last_goes_by(rest, lower);
        assert(players[i] == rest[i]);
        assert forall|k: int| i < k < players.len() implies !goes_by(
            #[trigger] players[k],
            lower,
        ) by {
            if k < n - 1 {
                assert(players[k] == rest[k]);
            }
        }
        i
    }
}

/// A file that cannot be read has no names, and neither has one that is not an object.
pub proof fn files_without_players_are_refused(text: Seq<char>)
    ensures
        json_of(text) is None ==> names_in_file(text) == Err::<Map<Seq<char>, i16>, NamesError>(
            NamesError::Malformed,
        ),
        json_of(text) matches Some(content) ==> names_in_file(text) == names_in(content) && (
        !(content is Object) ==> names_in_file(text) == Err::<Map<Seq<char>, i16>, NamesError>(
            NamesError::NotAnObject,
        )),
{
}

/// A name that is clean and that a file gives as an alias of a player, and of no player after that
/// one, stands for that player, whether in upper or lower case.
pub proof fn aliases_stand_for_their_players(
    players: Seq<(Seq<char>, JsonView)>,
    i: int,
    alias: Seq<char>,
    name: Seq<char>,
)
    requires
        0 <= i < players.len(),
        has_alias(players[i].1, alias),
        forall|k: int, other: Seq<char>|
            #![trigger has_alias(players[k].1, other)]
            i < k < players.len() && has_alias(players[k].1, other) ==> lowercase(other)
                != lowercase(alias),
        lowercase(name) == lowercase(alias),
        name.len() > 0,
        !name.contains(','),
        !name.contains('\n'),
        !is_space(name[0]),
        !is_space(name.last()),
    ensures
        names_in(JsonView::Object(players)) matches Ok(known) ==> resolved(name, known)
            == PlayerView::Id(id_of(players[i].0).unwrap(), name),
{
    if let Ok(known) = names_in(JsonView::Object(players)) {
        let lower = lowercase(alias);
        lemma_goes_by(players[i], lower);
        assert forall|k: int| i < k < players.len() implies !goes_by(
            #[trigger] players[k],
            lower,
        ) by {
            lemma_goes_by(players[k], lower);
        }
        names_belong_to_the_last_player(players, lower, i);
        clean_names_stay(name);
    }
}

/// A name seems to stand for several players if and only if it has the word "and" between spaces,
/// an ampersand, two commas, or the words "day 1".
pub proof fn names_of_several_players(name: Seq<char>)
    ensures
        multiple_players(name) <==> {
            ||| exists|i: int|
                0 <= i && i + 5 <= name.len() && #[trigger] name[i] == ' ' && name[i + 1] == 'a'
                    && name[i + 2] == 'n' && name[i + 3] == 'd' && name[i + 4] == ' '
            ||| name.contains('&')
            ||| exists|i: int, j: int|
                0 <= i < j < name.len() && #[trigger] name[i] == ',' && #[trigger] name[j] == ','
            ||| exists|i: int|
                0 <= i && i + 5 <= name.len() && #[trigger] name[i] == 'd' && name[i + 1] == 'a'
                    && name[i + 2] == 'y' && name[i + 3] == ' ' && name[i + 4] == '1'
        },
{
    reveal_strlit(" and ");
    reveal_strlit("&");
    reveal_strlit("day 1");
    let and = " and "@;
    let day = "day 1"@;
    let amp = "&"@;
    if occurs(name, and) {
        let i = choose|i: int|
            0 <= i <= name.len() - and.len() && #[trigger] name.subrange(i, i + and.len()) == and;
        let part = name.subrange(i, i + 5);
        assert(part[0] == name[i] && part[1] == name[i + 1] && part[2] == name[i + 2] && part[3]
            == name[i + 3] && part[4] == name[i + 4]);
    }
    if occurs(name, day) {
        let i = choose|i: int|
            0 <= i <= name.len() - day.len() && #[trigger] name.subrange(i, i + day.len()) == day;
        let part = name.subrange(i, i + 5);
        assert(part[0] == name[i] && part[1] == name[i + 1] && part[2] == name[i + 2] && part[3]
            == name[i + 3] && part[4] == name[i + 4]);
    }
    if occurs(name, amp) {
        let i = choose|i: int|
            0 <= i <= name.len() - amp.len() && #[trigger] name.subrange(i, i + amp.len()) == amp;
        assert(name.subrange(i, i + 1)[0] == name[i]);
    }
    if exists|i: int|
        0 <= i && i + 5 <= name.len() && #[trigger] name[i] == ' ' && name[i + 1] == 'a' && name[i
            + 2] == 'n' && name[i + 3] == 'd' && name[i + 4] == ' ' {
        let i = choose|i: int|
            0 <= i && i + 5 <= name.len() && #[trigger] name[i] == ' ' && name[i + 1] == 'a'
                && name[i + 2] == 'n' && name[i + 3] == 'd' && name[i + 4] == ' ';
        assert(name.subrange(i, i + and.len()) =~= and);
    }
    if exists|i: int|
        0 <= i && i + 5 <= name.len() && #[trigger] name[i] == 'd' && name[i + 1] == 'a' && name[i
            + 2] == 'y' && name[i + 3] == ' ' && name[i + 4] == '1' {
        let i = choose|i: int|
            0 <= i && i + 5 <= name.len() && #[trigger] name[i] == 'd' && name[i + 1] == 'a'
                && name[i + 2] == 'y' && name[i + 3] == ' ' && name[i + 4] == '1';
        assert(name.subrange(i, i + day.len()) =~= day);
    }
    if name.contains('&') {
        let i = choose|i: int| 0 <= i < name.len() && name[i] == '&';
        assert(name.subrange(i, i + amp.len()) =~= amp);
    }
    lemma_occurrences(name, ',');
}

proof fn lemma_occurrences(text: Seq<char>, c: char)
    ensures
        occurrences(text, c) > 0 <==> text.contains(c),
        occurrences(text, c) > 1 <==> exists|i: int, j: int|
            0 <= i < j < text.len() && #[trigger] text[i] == c && #[trigger] text[j] == c,
    decreases text.len(),
{
    reveal(Seq::filter);
    if text.len() > 0 {
        let rest = text.drop_last();
        let n = text.len() as int;
        lemma_occurrences(rest, c);
        if rest.contains(c) {
            let k = choose|k: int| 0 <= k < rest.len() && rest[k] == c;
            assert(text[k] == c);
            if text.last() == c {
                assert(text[k] == c && text[n - 1] == c);
            }
        }
        if text.last() == c {
            assert(text[n - 1] == c);
        }
        if exists|i: int, j: int|
            0 <= i < j < rest.len() && #[trigger] rest[i] == c && #[trigger] rest[j] == c {
            let (i, j) = choose|i: int, j: int|
                0 <= i < j < rest.len() && #[trigger] rest[i] == c && #[trigger] rest[j] == c;
            assert(text[i] == c && text[j] == c);
        }
        if exists|i: int, j: int|
            0 <= i < j < text.len() && #[trigger] text[i] == c && #[trigger] text[j] == c {
            let (i, j) = choose|i: int, j: int|
                0 <= i < j < text.len() && #[trigger] text[i] == c && #[trigger] text[j] == c;
            assert(rest[i] == c);
            if j < n - 1 {
                assert(rest[j] == c);
            }
        }
        if text.contains(c) && text.last() != c {
            let k = choose|k: int| 0 <= k < text.len() && text[k] == c;
            assert(rest[k] == c);
        }
    }
}

} // verus!
