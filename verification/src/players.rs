//! Telling players apart by their names, and records that are left out.

use crate::baduk::{Player, PlayerView};
use crate::text::{
    chars_of, count_char, find_part, is_text, lines, lowercase, occurrences, occurs, split_lines,
    texts_view, to_lowercase, trim, trimmed,
};
use vstd::hash_map::StringHashMap;
use vstd::hash_set::StringHashSet;
use vstd::prelude::*;

verus! {

/// The ids of the players by their names in lower case.
pub struct PlayerAliases {
    ids: StringHashMap<i16>,
}

impl View for PlayerAliases {
    type V = Map<Seq<char>, i16>;

    closed spec fn view(&self) -> Map<Seq<char>, i16> {
        self.ids@
    }
}

impl PlayerAliases {
    /// No names at all.
    pub fn new() -> (aliases: PlayerAliases)
        ensures
            aliases@ == Map::<Seq<char>, i16>::empty(),
    {
        PlayerAliases { ids: StringHashMap::new() }
    }

    /// Adds a name of a player that is in lower case. A name that was there belongs to the new id
    /// from now on.
    pub fn insert_lowercase(&mut self, lower: String, id: i16)
        ensures
            final(self)@ == old(self)@.insert(lower@, id),
    {
        self.ids.insert(lower, id);
    }

    /// Adds a name of a player, in lower case.
    pub fn insert(&mut self, name: &str, id: i16)
        ensures
            final(self)@ == old(self)@.insert(lowercase(name@), id),
    {
        self.insert_lowercase(to_lowercase(name), id);
    }

    /// The id of the player with this name, which is in lower case.
    pub fn find_lowercase(&self, lower: &str) -> (id: Option<i16>)
        ensures
            id == known_id(self@, lower@),
    {
        match self.ids.get(lower) {
            Some(id) => Some(*id),
            None => None,
        }
    }

    /// The id of the player with this name, in upper or lower case.
    pub fn find(&self, name: &str) -> (id: Option<i16>)
        ensures
            id == known_id(self@, lowercase(name@)),
    {
        let lower = to_lowercase(name);
        self.find_lowercase(lower.as_str())
    }
}

/// The id under a name.
pub open spec fn known_id(aliases: Map<Seq<char>, i16>, lower: Seq<char>) -> Option<i16> {
    if aliases.contains_key(lower) {
        Some(aliases[lower])
    } else {
        None
    }
}

/// A character as it stands in a cleaned name: a line feed is a space there.
pub open spec fn as_in_name(c: char) -> char {
    if c == '\n' {
        ' '
    } else {
        c
    }
}

/// Tells whether a character may stand in a cleaned name.
pub open spec fn may_stand_in_name() -> spec_fn(char) -> bool {
    |c: char| c != ','
}

/// A name without line feeds, commas and white space around it.
pub open spec fn cleaned(name: Seq<char>) -> Seq<char> {
    trimmed(name.map_values(|c: char| as_in_name(c)).filter(may_stand_in_name()))
}

/// A name without line feeds, commas and white space around it.
pub fn clean_name(name: &str) -> (clean: String)
    ensures
        clean@ == cleaned(name@),
{
    let chars = chars_of(name);
    let n: usize = chars.len();
    let mut kept: Vec<char> = Vec::new();
    let ghost spaced = name@.map_values(|c: char| as_in_name(c));
    reveal(Seq::filter);
    for i in 0..n
        invariant
            n == chars@.len(),
            chars@ == name@,
            spaced == name@.map_values(|c: char| as_in_name(c)),
            kept@ == spaced.take(i as int).filter(may_stand_in_name()),
    {
        reveal(Seq::filter);
        assert(spaced.take(i + 1).drop_last() =~= spaced.take(i as int));
        assert(spaced.take(i + 1).last() == as_in_name(chars@[i as int]));
        let c = chars[i];
        if c == '\n' {
            kept.push(' ');
        } else if c != ',' {
            kept.push(c);
        }
    }
    assert(spaced.take(n as int) =~= spaced);
    trim(&kept)
}

/// The player with a cleaned name and the id that goes with the name, if there is one. A player
/// without a name has no id.
pub open spec fn named_player(clean: Seq<char>, id: Option<i16>) -> PlayerView {
    match id {
        Some(id) => if clean.len() > 0 {
            PlayerView::Id(id, clean)
        } else {
            PlayerView::Unknown(clean)
        },
        None => PlayerView::Unknown(clean),
    }
}

/// The player with a cleaned name and the id that goes with the name, if there is one.
pub fn player_named(clean: String, id: Option<i16>) -> (player: Player)
    ensures
        player@ == named_player(clean@, id),
{
    match id {
        Some(id) => {
            if clean.as_str().is_empty() {
                Player::Unknown(clean)
            } else {
                Player::Id(id, clean)
            }
        },
        None => Player::Unknown(clean),
    }
}

/// The player that a name in a record stands for.
pub open spec fn resolved(name: Seq<char>, aliases: Map<Seq<char>, i16>) -> PlayerView {
    named_player(cleaned(name), known_id(aliases, lowercase(cleaned(name))))
}

/// The player that a name in a record stands for.
pub fn find_player_id(name: &str, aliases: &PlayerAliases) -> (player: Player)
    ensures
        player@ == resolved(name@, aliases@),
{
    let clean = clean_name(name);
    let id = aliases.find(clean.as_str());
    player_named(clean, id)
}

/// Whether a name seems to stand for several players, or for a game over several days.
pub open spec fn multiple_players(name: Seq<char>) -> bool {
    ||| occurs(name, " and "@)
    ||| occurs(name, "&"@)
    ||| occurrences(name, ',') > 1
    ||| occurs(name, "day 1"@)
}

/// Whether a name seems to stand for several players, or for a game over several days.
pub fn has_multiple_players(name: &str) -> (several: bool)
    ensures
        several == multiple_players(name@),
{
    let chars = chars_of(name);
    find_part(&chars, " and ") || find_part(&chars, "&") || count_char(&chars, ',') > 1
        || find_part(&chars, "day 1")
}

/// Names that are the same once they are cleaned, but for upper and lower case, stand for the same
/// player: for the same id, or for no id.
pub proof fn like_names_give_the_same_player(
    a: Seq<char>,
    b: Seq<char>,
    aliases: Map<Seq<char>, i16>,
    id: i16,
)
    requires
        lowercase(cleaned(a)) == lowercase(cleaned(b)),
        cleaned(a).len() > 0,
        cleaned(b).len() > 0,
    ensures
        resolved(a, aliases).has_id(id) == resolved(b, aliases).has_id(id),
{
}

/// A player gets an id if and only if the cleaned name is not empty and is a known name, and keeps
/// the cleaned name either way.
pub proof fn known_names_give_ids(name: Seq<char>, aliases: Map<Seq<char>, i16>)
    ensures
        resolved(name, aliases) is Id <==> cleaned(name).len() > 0 && aliases.contains_key(
            lowercase(cleaned(name)),
        ),
        resolved(name, aliases).name() == cleaned(name),
{
}

/// The paths of the records that are left out.
pub struct Blocklist {
    paths: StringHashSet,
}

impl View for Blocklist {
    type V = Set<Seq<char>>;

    closed spec fn view(&self) -> Set<Seq<char>> {
        self.paths@
    }
}

impl Blocklist {
    /// Whether the record with this path is left out.
    pub fn contains(&self, path: &str) -> (blocked: bool)
        ensures
            blocked == self@.contains(path@),
    {
        self.paths.contains(path)
    }
}

/// The paths that a list names, one on each line. Without a list no record is left out.
pub fn load_blocklist(contents: Option<&str>) -> (blocklist: Blocklist)
    ensures
        blocklist@ == (match contents {
            Some(text) => lines(text@).to_set(),
            None => Set::empty(),
        }),
{
    let mut paths = StringHashSet::new();
    if let Some(text) = contents {
        let list = split_lines(text);
        let n: usize = list.len();
        let ghost all = lines(text@);
        assert(all.take(0).to_set() =~= Set::empty());
        for i in 0..n
            invariant
                n == list@.len(),
                all == texts_view(list@),
                paths@ == all.take(i as int).to_set(),
        {
            paths.insert(list[i].clone());
            assert(all.take(i + 1) =~= all.take(i as int).push(list@[i as int]@));
            assert(paths@ =~= all.take(i + 1).to_set()) by {
                let head = all.take(i as int);
                let more = all.take(i + 1);
                assert forall|path: Seq<char>| #[trigger]
                    paths@.contains(path) <==> more.to_set().contains(path) by {
                    if head.contains(path) {
                        let k = choose|k: int| 0 <= k < head.len() && head[k] == path;
                        assert(more[k] == path);
                    }
                    if path == list@[i as int]@ {
                        assert(more[i as int] == path);
                    }
                    if more.contains(path) && path != list@[i as int]@ {
                        let k = choose|k: int| 0 <= k < more.len() && more[k] == path;
                        assert(head[k] == path);
                    }
                }
            }
        }
        assert(all.take(n as int) =~= all);
    }
    Blocklist { paths }
}

/// A file or directory that was found among the records.
pub struct FoundFile {
    pub is_file: bool,
    pub extension: Option<String>,
    /// The path below the directory of the records, without the extension.
    pub path: String,
}

/// What becomes of something that was found among the records.
#[derive(Clone, Copy, PartialEq, Eq, Structural, Debug)]
pub enum FileFate {
    /// It is a record and is read.
    Load,
    /// It is a record, but it is to be left out.
    Blocked,
    /// It is not a record.
    Ignored,
}

/// What becomes of something that was found among the records: files with the extension `sgf` are
/// records.
pub open spec fn fate(file: FoundFile, blocked: Set<Seq<char>>) -> FileFate {
    if !file.is_file || !(file.extension matches Some(extension) && extension@ == "sgf"@) {
        FileFate::Ignored
    } else if blocked.contains(file.path@) {
        FileFate::Blocked
    } else {
        FileFate::Load
    }
}

/// What becomes of something that was found among the records.
pub fn fate_of(file: &FoundFile, blocklist: &Blocklist) -> (decided: FileFate)
    ensures
        decided == fate(*file, blocklist@),
{
    let is_record = file.is_file && match &file.extension {
        Some(extension) => is_text(extension, "sgf"),
        None => false,
    };
    if !is_record {
        FileFate::Ignored
    } else if blocklist.contains(file.path.as_str()) {
        FileFate::Blocked
    } else {
        FileFate::Load
    }
}

/// Tells whether what was found at a place is to be read.
pub open spec fn is_to_be_read(files: Seq<FoundFile>, blocked: Set<Seq<char>>) -> spec_fn(
    int,
) -> bool {
    |place: int| fate(files[place], blocked) == FileFate::Load
}

/// The places of the records that are to be read, in their order.
pub open spec fn places_to_read(files: Seq<FoundFile>, blocked: Set<Seq<char>>) -> Seq<int> {
    Seq::new(files.len(), |place: int| place).filter(is_to_be_read(files, blocked))
}

/// The places of the records that are to be read, in their order.
pub fn collect_sgf_files(files: &Vec<FoundFile>, blocklist: &Blocklist) -> (places: Vec<usize>)
    ensures
        places@.map_values(|place: usize| place as int) == places_to_read(files@, blocklist@),
{
    let n: usize = files.len();
    let mut places: Vec<usize> = Vec::new();
    let ghost all = Seq::new(files@.len(), |place: int| place);
    let ghost wanted = is_to_be_read(files@, blocklist@);
    reveal(Seq::filter);
    assert(places@.map_values(|place: usize| place as int) =~= all.take(0).filter(wanted));
    for i in 0..n
        invariant
            n == files@.len(),
            all == Seq::new(files@.len(), |place: int| place),
            wanted == is_to_be_read(files@, blocklist@),
            places@.map_values(|place: usize| place as int) == all.take(i as int).filter(wanted),
    {
        reveal(Seq::filter);
        let ghost before = places@;
        assert(all.take(i + 1).drop_last() =~= all.take(i as int));
        assert(all.take(i + 1).last() == i);
        if fate_of(&files[i], blocklist) == FileFate::Load {
            places.push(i);
            assert(places@.map_values(|place: usize| place as int) =~= before.map_values(
                |place: usize| place as int,
            ).push(i as int));
        }
    }
    assert(all.take(n as int) =~= all);
    places
}

} // verus!
