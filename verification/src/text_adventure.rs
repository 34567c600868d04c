//! The world and the rules of a small text adventure: rooms with exits and
//! items, a player with an inventory, and the commands that move the
//! player through the world. What the game says is handed back as lines
//! of text; reading commands and printing are left to the caller.

use vstd::prelude::*;
use vstd::string::StringExecFns;
use crate::text::{
    char_is_whitespace, chars_of, decimal, decimal_text_wide, eq_ignoring_case, int_decimal,
    int_text, join3, lemma_word_bounds, push_all, same_ignoring_case, slice_of, str_equals,
    text_of, to_lowercase, lowercase, word_end, word_start,
};

verus! {

/// A thing that lies in a room or in the inventory.
#[derive(Debug, Clone)]
pub struct Item {
    pub name: String,
    pub description: String,
    pub usable: bool,
}

/// A place with its ways out and the things that lie in it. A direction
/// leads to the room whose name stands in the first exit for it.
#[derive(Debug, Clone)]
pub struct Room {
    pub name: String,
    pub description: String,
    pub exits: Vec<(String, String)>,
    pub items: Vec<Item>,
    pub visited: bool,
}

/// The player: where they are and what they carry.
#[derive(Debug)]
pub struct Player {
    pub current_room: String,
    pub inventory: Vec<Item>,
    pub health: i32,
    pub score: i32,
}

/// The exits as characters: pairs of a direction and the name of a room.
pub open spec fn exits_view(exits: Seq<(String, String)>) -> Seq<(Seq<char>, Seq<char>)> {
    Seq::new(exits.len(), |i: int| (exits[i].0@, exits[i].1@))
}

/// The index of the first exit at or after `from` for `direction` (the
/// length where there is none).
pub open spec fn exit_position(
    exits: Seq<(Seq<char>, Seq<char>)>,
    direction: Seq<char>,
    from: int,
) -> int
    decreases exits.len() - from,
{
    if from < 0 || from >= exits.len() {
        exits.len() as int
    } else if exits[from].0 == direction {
        from
    } else {
        exit_position(exits, direction, from + 1)
    }
}

/// The room that `direction` leads to, if it leads anywhere.
pub open spec fn exit_to(exits: Seq<(Seq<char>, Seq<char>)>, direction: Seq<char>) -> Option<
    Seq<char>,
> {
    let at = exit_position(exits, direction, 0);
    if at < exits.len() {
        Some(exits[at].1)
    } else {
        None
    }
}

/// The exits after `direction` is made to lead to `room`: the exit for
/// that direction is replaced, or a new exit is added at the end.
pub open spec fn with_exit(
    exits: Seq<(Seq<char>, Seq<char>)>,
    direction: Seq<char>,
    room: Seq<char>,
) -> Seq<(Seq<char>, Seq<char>)> {
    let at = exit_position(exits, direction, 0);
    if at < exits.len() {
        exits.update(at, (direction, room))
    } else {
        exits.push((direction, room))
    }
}

/// The index of the first item at or after `from` whose name is `name`,
/// the case of ASCII letters aside (the length where there is none).
pub open spec fn item_position(items: Seq<Item>, name: Seq<char>, from: int) -> int
    decreases items.len() - from,
{
    if from < 0 || from >= items.len() {
        items.len() as int
    } else if same_ignoring_case(items[from].name@, name) {
        from
    } else {
        item_position(items, name, from + 1)
    }
}

/// `exit_position` and `item_position` stay within their list and find
/// what they look for.
pub proof fn lemma_positions(
    exits: Seq<(Seq<char>, Seq<char>)>,
    direction: Seq<char>,
    items: Seq<Item>,
    name: Seq<char>,
    from: int,
)
    requires
        0 <= from,
    ensures
        from <= exits.len() ==> from <= exit_position(exits, direction, from) <= exits.len(),
        exit_position(exits, direction, from) < exits.len() ==> exits[exit_position(
            exits,
            direction,
            from,
        )].0 == direction,
        from <= items.len() ==> from <= item_position(items, name, from) <= items.len(),
        item_position(items, name, from) < items.len() ==> same_ignoring_case(
            items[item_position(items, name, from)].name@,
            name,
        ),
    decreases exits.len() + items.len() - from,
{
    if from < exits.len() || from < items.len() {
        lemma_positions(exits, direction, items, name, from + 1);
    }
}

/// The lines that list the items from `from` on.
pub open spec fn items_text(items: Seq<Item>, from: int) -> Seq<char>
    decreases items.len() - from,
{
    if from < 0 || from >= items.len() {
        Seq::empty()
    } else {
        "\n  • "@ + items[from].name@ + " - "@ + items[from].description@ + items_text(
            items,
            from + 1,
        )
    }
}

/// The lines that list the directions of the exits from `from` on.
pub open spec fn exits_text(exits: Seq<(String, String)>, from: int) -> Seq<char>
    decreases exits.len() - from,
{
    if from < 0 || from >= exits.len() {
        Seq::empty()
    } else {
        "\n  • "@ + exits[from].0@ + exits_text(exits, from + 1)
    }
}

/// The description of a room: its name and what is said of it, then the
/// items that lie in it and the directions that lead out of it, where
/// there are any.
pub open spec fn room_text(room: Room) -> Seq<char> {
    "📍 "@ + room.name@ + "\n"@ + room.description@ + (if room.items.len() > 0 {
        "\n\n🎒 Items here:"@ + items_text(room.items@, 0)
    } else {
        Seq::empty()
    }) + (if room.exits.len() > 0 {
        "\n\n🚪 Exits:"@ + exits_text(room.exits@, 0)
    } else {
        Seq::empty()
    })
}

impl Item {
    /// An item with the given name and description.
    pub fn new(name: &str, description: &str, usable: bool) -> (item: Item)
        ensures
            item.name@ == name@,
            item.description@ == description@,
            item.usable == usable,
    {
        Item { name: name.to_owned(), description: description.to_owned(), usable }
    }
}

/// The index of the first item whose name is `name`, the case of ASCII
/// letters aside.
pub fn find_item(items: &Vec<Item>, name: &str) -> (at: usize)
    ensures
        at == item_position(items@, name@, 0),
        at <= items.len(),
        at < items.len() ==> same_ignoring_case(items[at as int].name@, name@),
{
    proof {
        lemma_positions(Seq::empty(), Seq::empty(), items@, name@, 0);
    }
    let mut i: usize = 0;
    while i < items.len()
        invariant
            i <= items.len(),
            item_position(items@, name@, 0) == item_position(items@, name@, i as int),
        decreases items.len() - i,
    {
        if eq_ignoring_case(items[i].name.as_str(), name) {
            return i;
        }
        i += 1;
    }
    i
}

impl Room {
    /// A room without exits and items that was not visited yet.
    pub fn new(name: &str, description: &str) -> (room: Room)
        ensures
            room.name@ == name@,
            room.description@ == description@,
            room.exits@.len() == 0,
            room.items@.len() == 0,
            !room.visited,
    {
        Room {
            name: name.to_owned(),
            description: description.to_owned(),
            exits: Vec::new(),
            items: Vec::new(),
            visited: false,
        }
    }

    /// Makes `direction` lead to the room `room_id`, whatever it led to
    /// before.
    pub fn add_exit(&mut self, direction: &str, room_id: &str)
        ensures
            exits_view(final(self).exits@) == with_exit(
                exits_view(old(self).exits@),
                direction@,
                room_id@,
            ),
            exit_to(exits_view(final(self).exits@), direction@) == Some(room_id@),
            final(self).name == old(self).name,
            final(self).description == old(self).description,
            final(self).items == old(self).items,
            final(self).visited == old(self).visited,
    {
        let ghost before = exits_view(self.exits@);
        proof {
            lemma_positions(before, direction@, Seq::empty(), Seq::empty(), 0);
        }
        let mut i: usize = 0;
        while i < self.exits.len()
            invariant
                i <= self.exits.len(),
                *self == *old(self),
                before == exits_view(self.exits@),
                exit_position(before, direction@, 0) == exit_position(before, direction@, i as int),
                forall|j: int| 0 <= j < i ==> (#[trigger] before[j]).0 != direction@,
            decreases self.exits.len() - i,
        {
            if str_equals(self.exits[i].0.as_str(), direction) {
                self.exits[i] = (direction.to_owned(), room_id.to_owned());
                proof {
                    let after = exits_view(self.exits@);
                    assert(after =~= with_exit(before, direction@, room_id@));
                    assert(forall|j: int| 0 <= j < i ==> after[j] == before[j]);
                    lemma_exit_found(after, direction@, i as int);
                }
                return ;
            }
            i += 1;
        }
        self.exits.push((direction.to_owned(), room_id.to_owned()));
        proof {
            let after = exits_view(self.exits@);
            assert(after =~= with_exit(before, direction@, room_id@));
            assert(forall|j: int| 0 <= j < i ==> after[j] == before[j]);
            lemma_exit_found(after, direction@, i as int);
        }
    }

    /// Lays `item` in the room, after the items that lie there.
    pub fn add_item(&mut self, item: Item)
        ensures
            final(self).items@ == old(self).items@.push(item),
            final(self).name == old(self).name,
            final(self).description == old(self).description,
            final(self).exits == old(self).exits,
            final(self).visited == old(self).visited,
    {
        self.items.push(item);
    }

    /// Takes the first item whose name is `item_name`, the case of ASCII
    /// letters aside, out of the room.
    pub fn remove_item(&mut self, item_name: &str) -> (taken: Option<Item>)
        ensures
            final(self).name == old(self).name,
            final(self).description == old(self).description,
            final(self).exits == old(self).exits,
            final(self).visited == old(self).visited,
            ({
                let at = item_position(old(self).items@, item_name@, 0);
                match taken {
                    Some(item) => at < old(self).items.len() && item == old(self).items[at]
                        && final(self).items@ == old(self).items@.remove(at),
                    None => at == old(self).items.len() && final(self).items == old(self).items,
                }
            }),
    {
        let at = find_item(&self.items, item_name);
        if at < self.items.len() {
            Some(self.items.remove(at))
        } else {
            None
        }
    }

    /// The description of the room.
    pub fn describe(&self) -> (text: String)
        ensures
            text@ == room_text(*self),
    {
        let mut description = String::new();
        description.append("📍 ");
        description.append(self.name.as_str());
        description.append("\n");
        description.append(self.description.as_str());
        if self.items.len() > 0 {
            description.append("\n\n🎒 Items here:");
            let ghost head = description@;
            let mut i: usize = 0;
            while i < self.items.len()
                invariant
                    i <= self.items.len(),
                    description@ + items_text(self.items@, i as int) == head + items_text(
                        self.items@,
                        0,
                    ),
                decreases self.items.len() - i,
            {
                let ghost before = description@;
                description.append("\n  • ");
                description.append(self.items[i].name.as_str());
                description.append(" - ");
                description.append(self.items[i].description.as_str());
                proof {
                    assert(description@ + items_text(self.items@, i + 1) =~= before + items_text(
                        self.items@,
                        i as int,
                    ));
                }
                i += 1;
            }
            proof {
                assert(description@ =~= head + items_text(self.items@, 0));
            }
        }
        let ghost middle = description@;
        if self.exits.len() > 0 {
            description.append("\n\n🚪 Exits:");
            let ghost head = description@;
            let mut i: usize = 0;
            while i < self.exits.len()
                invariant
                    i <= self.exits.len(),
                    description@ + exits_text(self.exits@, i as int) == head + exits_text(
                        self.exits@,
                        0,
                    ),
                decreases self.exits.len() - i,
            {
                let ghost before = description@;
                description.append("\n  • ");
                description.append(self.exits[i].0.as_str());
                proof {
                    assert(description@ + exits_text(self.exits@, i + 1) =~= before + exits_text(
                        self.exits@,
                        i as int,
                    ));
                }
                i += 1;
            }
            proof {
                assert(description@ =~= head + exits_text(self.exits@, 0));
            }
        }
        proof {
            assert(description@ =~= room_text(*self));
        }
        description
    }

    /// The room that `direction` leads to, if it leads anywhere.
    pub fn exit(&self, direction: &str) -> (room: Option<&String>)
        ensures
            match room {
                Some(id) => exit_to(exits_view(self.exits@), direction@) == Some(id@),
                None => exit_to(exits_view(self.exits@), direction@) is None,
            },
    {
        let ghost view = exits_view(self.exits@);
        let mut i: usize = 0;
        while i < self.exits.len()
            invariant
                i <= self.exits.len(),
                view == exits_view(self.exits@),
                exit_position(view, direction@, 0) == exit_position(view, direction@, i as int),
            decreases self.exits.len() - i,
        {
            if str_equals(self.exits[i].0.as_str(), direction) {
                return Some(&self.exits[i].1);
            }
            i += 1;
        }
        None
    }
}

/// An exit that stands first for its direction is the exit that is found.
proof fn lemma_exit_found(exits: Seq<(Seq<char>, Seq<char>)>, direction: Seq<char>, at: int)
    requires
        0 <= at < exits.len(),
        exits[at].0 == direction,
        forall|i: int| 0 <= i < at ==> exits[i].0 != direction,
    ensures
        exit_position(exits, direction, 0) == at,
        exit_to(exits, direction) == Some(exits[at].1),
{
    lemma_exit_from(exits, direction, at, 0);
}

proof fn lemma_exit_from(exits: Seq<(Seq<char>, Seq<char>)>, direction: Seq<char>, at: int, from: int)
    requires
        0 <= from <= at < exits.len(),
        exits[at].0 == direction,
        forall|i: int| from <= i < at ==> exits[i].0 != direction,
    ensures
        exit_position(exits, direction, from) == at,
    decreases at - from,
{
    if from < at {
        lemma_exit_from(exits, direction, at, from + 1);
    }
}

impl Player {
    /// A player in the room `starting_room`, in full health, with nothing.
    pub fn new(starting_room: &str) -> (player: Player)
        ensures
            player.current_room@ == starting_room@,
            player.inventory@.len() == 0,
            player.health == 100,
            player.score == 0,
    {
        Player {
            current_room: starting_room.to_owned(),
            inventory: Vec::new(),
            health: 100,
            score: 0,
        }
    }

    /// Puts `item` in the inventory and returns what is said of it.
    pub fn add_item(&mut self, item: Item) -> (said: String)
        ensures
            said@ == "✓ You picked up: "@ + item.name@,
            final(self).inventory@ == old(self).inventory@.push(item),
            final(self).current_room == old(self).current_room,
            final(self).health == old(self).health,
            final(self).score == old(self).score,
    {
        let mut said = String::new();
        said.append("✓ You picked up: ");
        said.append(item.name.as_str());
        proof {
            assert(said@ =~= "✓ You picked up: "@ + item.name@);
        }
        self.inventory.push(item);
        said
    }

    /// Whether the inventory holds an item whose name is `item_name`, the
    /// case of ASCII letters aside.
    pub fn has_item(&self, item_name: &str) -> (has: bool)
        ensures
            has == (item_position(self.inventory@, item_name@, 0) < self.inventory.len()),
            has == exists|i: int|
                0 <= i < self.inventory.len() && same_ignoring_case(
                    #[trigger] self.inventory[i].name@,
                    item_name@,
                ),
    {
        proof {
            lemma_item_exists(self.inventory@, item_name@, 0);
        }
        find_item(&self.inventory, item_name) < self.inventory.len()
    }

    /// Takes the first item whose name is `item_name` out of the
    /// inventory, where that item can be used. One that cannot be used
    /// stays where it is.
    pub fn use_item(&mut self, item_name: &str) -> (used: Option<Item>)
        ensures
            final(self).current_room == old(self).current_room,
            final(self).health == old(self).health,
            final(self).score == old(self).score,
            ({
                let at = item_position(old(self).inventory@, item_name@, 0);
                match used {
                    Some(item) => at < old(self).inventory.len() && item == old(
                        self,
                    ).inventory[at] && item.usable && final(self).inventory@ == old(
                        self,
                    ).inventory@.remove(at),
                    None => final(self).inventory@ == old(self).inventory@ && (at < old(
                        self,
                    ).inventory.len() ==> !old(self).inventory[at].usable),
                }
            }),
    {
        let at = find_item(&self.inventory, item_name);
        if at < self.inventory.len() {
            if self.inventory[at].usable {
                Some(self.inventory.remove(at))
            } else {
                None
            }
        } else {
            None
        }
    }
}

/// An item is found exactly where one with the name exists.
pub proof fn lemma_item_exists(items: Seq<Item>, name: Seq<char>, from: int)
    requires
        0 <= from <= items.len(),
    ensures
        item_position(items, name, from) < items.len() <==> exists|i: int|
            from <= i < items.len() && same_ignoring_case(#[trigger] items[i].name@, name),
    decreases items.len() - from,
{
    if from < items.len() {
        lemma_item_exists(items, name, from + 1);
        if same_ignoring_case(items[from].name@, name) {
            assert(from <= from < items.len() && same_ignoring_case(items[from].name@, name));
        }
    }
}

/// What an item is, as characters.
pub ghost struct ItemView {
    pub name: Seq<char>,
    pub description: Seq<char>,
    pub usable: bool,
}

/// What a room is, as characters.
pub ghost struct RoomView {
    pub name: Seq<char>,
    pub description: Seq<char>,
    pub exits: Seq<(Seq<char>, Seq<char>)>,
    pub items: Seq<ItemView>,
    pub visited: bool,
}

impl View for Item {
    type V = ItemView;

    open spec fn view(&self) -> ItemView {
        ItemView { name: self.name@, description: self.description@, usable: self.usable }
    }
}

/// The items as characters.
pub open spec fn item_views(items: Seq<Item>) -> Seq<ItemView> {
    Seq::new(items.len(), |i: int| items[i]@)
}

impl View for Room {
    type V = RoomView;

    open spec fn view(&self) -> RoomView {
        RoomView {
            name: self.name@,
            description: self.description@,
            exits: exits_view(self.exits@),
            items: item_views(self.items@),
            visited: self.visited,
        }
    }
}

/// The rooms as characters: pairs of a name to go by and a room.
pub open spec fn rooms_view(rooms: Seq<(String, Room)>) -> Seq<(Seq<char>, RoomView)> {
    Seq::new(rooms.len(), |i: int| (rooms[i].0@, rooms[i].1@))
}

/// The index of the first room at or after `from` that goes by `id` (the
/// length where there is none).
pub open spec fn room_position(rooms: Seq<(Seq<char>, RoomView)>, id: Seq<char>, from: int) -> int
    decreases rooms.len() - from,
{
    if from < 0 || from >= rooms.len() {
        rooms.len() as int
    } else if rooms[from].0 == id {
        from
    } else {
        room_position(rooms, id, from + 1)
    }
}

/// The rooms after `room` is made to go by `id`: the room that went by it
/// is replaced, or the room is added at the end.
pub open spec fn with_room(rooms: Seq<(Seq<char>, RoomView)>, id: Seq<char>, room: RoomView) -> Seq<
    (Seq<char>, RoomView),
> {
    let at = room_position(rooms, id, 0);
    if at < rooms.len() {
        rooms.update(at, (id, room))
    } else {
        rooms.push((id, room))
    }
}

/// `room_position` stays within the list and finds what goes by the name.
pub proof fn lemma_room_position(rooms: Seq<(Seq<char>, RoomView)>, id: Seq<char>, from: int)
    requires
        0 <= from <= rooms.len(),
    ensures
        from <= room_position(rooms, id, from) <= rooms.len(),
        room_position(rooms, id, from) < rooms.len() ==> rooms[room_position(rooms, id, from)].0
            == id,
    decreases rooms.len() - from,
{
    if from < rooms.len() {
        lemma_room_position(rooms, id, from + 1);
    }
}

pub const ENTRANCE_TEXT: &'static str =
    "You stand in a grand entrance hall with marble floors and high ceilings. Dust particles dance in the sunlight streaming through tall windows.";

pub const LIBRARY_TEXT: &'static str =
    "Towering bookshelves line the walls of this quiet library. Ancient tomes and scrolls are scattered across wooden tables.";

pub const KITCHEN_TEXT: &'static str =
    "A rustic kitchen with copper pots hanging from the ceiling. The smell of herbs and spices fills the air.";

pub const STUDY_TEXT: &'static str =
    "A cozy study with a large oak desk covered in papers and quills. A fireplace crackles warmly in the corner.";

pub const PANTRY_TEXT: &'static str =
    "A small storage room filled with jars, sacks, and preserved foods. It's quite dark and cramped in here.";

/// An item that can be used.
pub open spec fn tool(name: Seq<char>, description: Seq<char>) -> ItemView {
    ItemView { name, description, usable: true }
}

/// An item that cannot be used.
pub open spec fn ornament(name: Seq<char>, description: Seq<char>) -> ItemView {
    ItemView { name, description, usable: false }
}

/// The entrance hall as the game starts.
pub open spec fn entrance() -> RoomView {
    RoomView {
        name: "Entrance Hall"@,
        description: ENTRANCE_TEXT@,
        exits: with_exit(with_exit(Seq::empty(), "north"@, "library"@), "east"@, "kitchen"@),
        items: seq![tool("key"@, "A rusty old key"@)],
        visited: false,
    }
}

/// The library as the game starts.
pub open spec fn library() -> RoomView {
    RoomView {
        name: "Library"@,
        description: LIBRARY_TEXT@,
        exits: with_exit(with_exit(Seq::empty(), "south"@, "entrance"@), "west"@, "study"@),
        items: seq![
            tool("book"@, "A leather-bound spellbook"@),
            ornament("candle"@, "A flickering candle"@),
        ],
        visited: false,
    }
}

/// The kitchen as the game starts.
pub open spec fn kitchen() -> RoomView {
    RoomView {
        name: "Kitchen"@,
        description: KITCHEN_TEXT@,
        exits: with_exit(with_exit(Seq::empty(), "west"@, "entrance"@), "north"@, "pantry"@),
        items: seq![tool("bread"@, "Fresh baked bread"@)],
        visited: false,
    }
}

/// The study as the game starts.
pub open spec fn study() -> RoomView {
    RoomView {
        name: "Study"@,
        description: STUDY_TEXT@,
        exits: with_exit(Seq::empty(), "east"@, "library"@),
        items: seq![tool("scroll"@, "An ancient scroll with mysterious writing"@)],
        visited: false,
    }
}

/// The pantry as the game starts.
pub open spec fn pantry() -> RoomView {
    RoomView {
        name: "Pantry"@,
        description: PANTRY_TEXT@,
        exits: with_exit(Seq::empty(), "south"@, "kitchen"@),
        items: seq![tool("potion"@, "A glowing health potion"@)],
        visited: false,
    }
}

/// `rooms` with the five rooms of the manor put in.
pub open spec fn with_world(rooms: Seq<(Seq<char>, RoomView)>) -> Seq<(Seq<char>, RoomView)> {
    with_room(
        with_room(
            with_room(
                with_room(with_room(rooms, "entrance"@, entrance()), "library"@, library()),
                "kitchen"@,
                kitchen(),
            ),
            "study"@,
            study(),
        ),
        "pantry"@,
        pantry(),
    )
}

/// The commands that the help lists.
pub open spec fn command_list() -> Seq<Seq<char>> {
    seq![
        "look"@,
        "go <direction>"@,
        "take <item>"@,
        "use <item>"@,
        "inventory"@,
        "status"@,
        "help"@,
        "quit"@,
    ]
}

/// The texts as characters.
pub open spec fn texts(lines: Seq<String>) -> Seq<Seq<char>> {
    Seq::new(lines.len(), |i: int| lines[i]@)
}

/// The most that a score or a health may be for a command to add to it.
pub const HEADROOM: i32 = 2_000_000_000;

/// The game: the world, the player and whether the game is over.
pub struct Game {
    pub rooms: Vec<(String, Room)>,
    pub player: Player,
    pub game_over: bool,
    pub commands: Vec<String>,
}

/// A room with exits and items as listed.
fn build_room(
    name: &str,
    description: &str,
    first_exit: (&str, &str),
    second_exit: Option<(&str, &str)>,
    first_item: Item,
    second_item: Option<Item>,
) -> (room: Room)
    ensures
        room@ == (RoomView {
            name: name@,
            description: description@,
            exits: match second_exit {
                Some(exit) => with_exit(
                    with_exit(Seq::empty(), first_exit.0@, first_exit.1@),
                    exit.0@,
                    exit.1@,
                ),
                None => with_exit(Seq::empty(), first_exit.0@, first_exit.1@),
            },
            items: match second_item {
                Some(item) => seq![first_item@, item@],
                None => seq![first_item@],
            },
            visited: false,
        }),
{
    let mut room = Room::new(name, description);
    proof {
        assert(exits_view(room.exits@) =~= Seq::empty());
    }
    room.add_exit(first_exit.0, first_exit.1);
    match second_exit {
        Some(exit) => {
            room.add_exit(exit.0, exit.1);
        },
        None => {},
    }
    room.add_item(first_item);
    match second_item {
        Some(item) => {
            room.add_item(item);
            proof {
                assert(item_views(room.items@) =~= seq![first_item@, item@]);
            }
        },
        None => {
            proof {
                assert(item_views(room.items@) =~= seq![first_item@]);
            }
        },
    }
    room
}

impl Game {
    /// The index of the first room that goes by `id`.
    pub fn room_index(&self, id: &str) -> (at: usize)
        ensures
            at == room_position(rooms_view(self.rooms@), id@, 0),
            at <= self.rooms.len(),
            at < self.rooms.len() ==> self.rooms[at as int].0@ == id@,
    {
        let ghost view = rooms_view(self.rooms@);
        proof {
            lemma_room_position(view, id@, 0);
        }
        let mut i: usize = 0;
        while i < self.rooms.len()
            invariant
                i <= self.rooms.len(),
                view == rooms_view(self.rooms@),
                room_position(view, id@, 0) == room_position(view, id@, i as int),
            decreases self.rooms.len() - i,
        {
            if str_equals(self.rooms[i].0.as_str(), id) {
                return i;
            }
            i += 1;
        }
        i
    }

    /// Makes `room` go by `id`, in place of the room that went by it.
    pub fn insert_room(&mut self, id: &str, room: Room)
        ensures
            rooms_view(final(self).rooms@) == with_room(rooms_view(old(self).rooms@), id@, room@),
            final(self).player == old(self).player,
            final(self).game_over == old(self).game_over,
            final(self).commands == old(self).commands,
    {
        let at = self.room_index(id);
        if at < self.rooms.len() {
            self.rooms[at] = (id.to_owned(), room);
        } else {
            self.rooms.push((id.to_owned(), room));
        }
        proof {
            assert(rooms_view(self.rooms@) =~= with_room(rooms_view(old(self).rooms@), id@, room@));
        }
    }

    /// A new game: the manor, and the player at its entrance.
    pub fn new() -> (game: Game)
        ensures
            rooms_view(game.rooms@) == with_world(Seq::empty()),
            game.player.current_room@ == "entrance"@,
            game.player.inventory@.len() == 0,
            game.player.health == 100,
            game.player.score == 0,
            !game.game_over,
            texts(game.commands@) == command_list(),
    {
        let mut commands: Vec<String> = Vec::new();
        commands.push("look".to_owned());
        commands.push("go <direction>".to_owned());
        commands.push("take <item>".to_owned());
        commands.push("use <item>".to_owned());
        commands.push("inventory".to_owned());
        commands.push("status".to_owned());
        commands.push("help".to_owned());
        commands.push("quit".to_owned());
        proof {
            assert(texts(commands@) =~= command_list());
        }
        let mut game = Game {
            rooms: Vec::new(),
            player: Player::new("entrance"),
            game_over: false,
            commands,
        };
        proof {
            assert(rooms_view(game.rooms@) =~= Seq::empty());
        }
        game.setup_world();
        game
    }

    /// Puts the five rooms of the manor in the world, each with its exits
    /// and items, in place of rooms that go by the same names.
    pub fn setup_world(&mut self)
        ensures
            rooms_view(final(self).rooms@) == with_world(rooms_view(old(self).rooms@)),
            final(self).player == old(self).player,
            final(self).game_over == old(self).game_over,
            final(self).commands == old(self).commands,
    {
        let entrance = build_room(
            "Entrance Hall",
            ENTRANCE_TEXT,
            ("north", "library"),
            Some(("east", "kitchen")),
            Item::new("key", "A rusty old key", true),
            None,
        );
        let library = build_room(
            "Library",
            LIBRARY_TEXT,
            ("south", "entrance"),
            Some(("west", "study")),
            Item::new("book", "A leather-bound spellbook", true),
            Some(Item::new("candle", "A flickering candle", false)),
        );
        let kitchen = build_room(
            "Kitchen",
            KITCHEN_TEXT,
            ("west", "entrance"),
            Some(("north", "pantry")),
            Item::new("bread", "Fresh baked bread", true),
            None,
        );
        let study = build_room(
            "Study",
            STUDY_TEXT,
            ("east", "library"),
            None,
            Item::new("scroll", "An ancient scroll with mysterious writing", true),
            None,
        );
        let pantry = build_room(
            "Pantry",
            PANTRY_TEXT,
            ("south", "kitchen"),
            None,
            Item::new("potion", "A glowing health potion", true),
            None,
        );
        self.insert_room("entrance", entrance);
        self.insert_room("library", library);
        self.insert_room("kitchen", kitchen);
        self.insert_room("study", study);
        self.insert_room("pantry", pantry);
    }

    /// Whether the player has found the treasure.
    pub fn check_win_condition(&self) -> (won: bool)
        ensures
            won == (item_position(self.player.inventory@, "treasure"@, 0)
                < self.player.inventory.len()),
    {
        self.player.has_item("treasure")
    }
}

/// Whether `longer` starts with the lines of `shorter`.
pub open spec fn extends(longer: Seq<String>, shorter: Seq<String>) -> bool {
    longer.len() >= shorter.len() && longer.subrange(0, shorter.len() as int) == shorter
}

/// What is said of the item at `index` of the inventory.
pub open spec fn inventory_line(items: Seq<Item>, index: int) -> Seq<char> {
    "  "@ + decimal((index + 1) as nat) + ". "@ + items[index].name@ + " - "@
        + items[index].description@ + if items[index].usable {
        " (usable)"@
    } else {
        Seq::empty()
    }
}

impl Player {
    /// Appends what the player carries to `out`, one line per item.
    pub fn show_inventory(&self, out: &mut Vec<String>)
        ensures
            inventory_shown(*self, old(out)@, final(out)@),
    {
        if self.inventory.len() == 0 {
            out.push("🎒 Your inventory is empty.".to_owned());
            proof {
                assert(out@.subrange(0, old(out).len() as int) =~= old(out)@);
            }
            return ;
        }
        out.push("🎒 Inventory:".to_owned());
        let mut i: usize = 0;
        while i < self.inventory.len()
            invariant
                i <= self.inventory.len(),
                out.len() == old(out).len() + 1 + i,
                out@.subrange(0, old(out).len() as int) == old(out)@,
                out[old(out).len() as int]@ == "🎒 Inventory:"@,
                forall|k: int|
                    0 <= k < i ==> (#[trigger] out[old(out).len() + 1 + k])@ == inventory_line(
                        self.inventory@,
                        k,
                    ),
            decreases self.inventory.len() - i,
        {
            let ghost before = out@;
            let item = &self.inventory[i];
            let mut text: Vec<char> = Vec::new();
            text.push(' ');
            text.push(' ');
            let number = decimal_text_wide(i as u128 + 1);
            push_all(&mut text, &number);
            crate::text::push_str(&mut text, ". ");
            crate::text::push_str(&mut text, item.name.as_str());
            crate::text::push_str(&mut text, " - ");
            crate::text::push_str(&mut text, item.description.as_str());
            if item.usable {
                crate::text::push_str(&mut text, " (usable)");
            }
            proof {
                reveal_strlit("  ");
                assert("  "@ =~= seq![' ', ' ']);
                assert(text@ =~= inventory_line(self.inventory@, i as int));
            }
            out.push(text_of(&text));
            proof {
                assert(out@.subrange(0, old(out).len() as int) =~= before.subrange(
                    0,
                    old(out).len() as int,
                ));
                assert forall|k: int| 0 <= k < i + 1 implies (#[trigger] out[old(out).len() + 1
                    + k])@ == inventory_line(self.inventory@, k) by {
                    if k < i {
                        assert(out[old(out).len() + 1 + k] == before[old(out).len() + 1 + k]);
                    }
                }
            }
            i += 1;
        }
    }

    /// Appends the state of the player to `out`: four lines.
    pub fn show_status(&self, out: &mut Vec<String>)
        ensures
            status_shown(*self, old(out)@, final(out)@),
    {
        say(out, "👤 Player Status:".to_owned());
        let ghost a = out@;
        let health = int_text(self.health);
        say(out, join3("  Health: ", health.as_str(), "/100"));
        let ghost b = out@;
        let score = int_text(self.score);
        say(out, join3("  Score: ", score.as_str(), ""));
        let ghost c = out@;
        let count = text_of(&decimal_text_wide(self.inventory.len() as u128));
        say(out, join3("  Items: ", count.as_str(), ""));
        proof {
            lemma_said_chain(old(out)@, a, b);
            lemma_said_chain(old(out)@, b, c);
            lemma_said_chain(old(out)@, c, out@);
            assert(said(out@, old(out)@) =~= seq![
                "👤 Player Status:"@,
                "  Health: "@ + int_decimal(self.health as int) + "/100"@,
                "  Score: "@ + int_decimal(self.score as int) + ""@,
                "  Items: "@ + decimal(self.inventory.len() as nat) + ""@,
            ]);
        }
    }
}

/// The lines of the help: a heading, one line per command, two notes.
pub open spec fn help_lines(commands: Seq<String>, from: int) -> Seq<Seq<char>>
    decreases commands.len() - from,
{
    if from < 0 || from >= commands.len() {
        seq![
            "\nShort forms: l (look), i (inventory), h (help), q (quit)"@,
            "You can also just type direction names: north, south, east, west"@,
        ]
    } else {
        seq!["  • "@ + commands[from]@ + ""@] + help_lines(commands, from + 1)
    }
}

/// The room `room` after it was looked at.
pub open spec fn seen(room: Room) -> Room {
    Room { visited: true, ..room }
}

/// The lines that were appended to `before` to give `after`.
pub open spec fn said(after: Seq<String>, before: Seq<String>) -> Seq<Seq<char>> {
    texts(after.subrange(before.len() as int, after.len() as int))
}

/// One more line after the lines that were said.
pub proof fn lemma_said_more(start: Seq<String>, before: Seq<String>, line: String)
    requires
        extends(before, start),
    ensures
        extends(before.push(line), start),
        said(before.push(line), start) == said(before, start).push(line@),
{
    let after = before.push(line);
    assert(after.subrange(0, start.len() as int) =~= before.subrange(0, start.len() as int));
    assert(said(after, start) =~= said(before, start).push(line@));
}

/// Lines said after lines that were said.
pub proof fn lemma_said_chain(start: Seq<String>, middle: Seq<String>, end: Seq<String>)
    requires
        extends(middle, start),
        extends(end, middle),
    ensures
        extends(end, start),
        said(end, start) == said(middle, start) + said(end, middle),
{
    assert(end.subrange(0, start.len() as int) =~= middle.subrange(0, start.len() as int)) by {
        assert(forall|i: int|
            0 <= i < middle.len() ==> end.subrange(0, middle.len() as int)[i] == middle[i]);
    }
    assert(said(end, start) =~= said(middle, start) + said(end, middle)) by {
        assert(forall|i: int|
            0 <= i < middle.len() ==> end.subrange(0, middle.len() as int)[i] == middle[i]);
    }
}

/// Appends `line` to what is said.
pub fn say(out: &mut Vec<String>, line: String)
    ensures
        final(out)@ == old(out)@.push(line),
        extends(final(out)@, old(out)@),
        said(final(out)@, old(out)@) == seq![line@],
{
    out.push(line);
    proof {
        assert(out@.subrange(0, old(out).len() as int) =~= old(out)@);
        assert(said(out@, old(out)@) =~= seq![line@]);
    }
}

impl Game {
    /// The index of the room that the player is in.
    pub open spec fn here(&self) -> int {
        room_position(rooms_view(self.rooms@), self.player.current_room@, 0)
    }

    /// Looks at the room that the player is in: the room counts as
    /// visited, and its description is appended to `out`. Nothing happens
    /// where the player is in no room of the world.
    pub fn look_around(&mut self, out: &mut Vec<String>)
        ensures
            looked(*old(self), *final(self), old(out)@, final(out)@),
    {
        let at = self.room_index(self.player.current_room.as_str());
        if at < self.rooms.len() {
            self.rooms[at].1.visited = true;
            let text = self.rooms[at].1.describe();
            say(out, text);
        } else {
            proof {
                assert(out@.subrange(0, old(out).len() as int) =~= old(out)@);
                assert(said(out@, old(out)@) =~= Seq::empty());
            }
        }
    }

    /// Goes from the room that the player is in through the exit for
    /// `direction`, and looks at the room behind it. Where there is no such
    /// exit the player stays and is told so.
    pub fn go(&mut self, direction: &str, out: &mut Vec<String>)
        ensures
            went(*old(self), *final(self), direction@, old(out)@, final(out)@),
    {
        let at = self.room_index(self.player.current_room.as_str());
        if at >= self.rooms.len() {
            proof {
                assert(out@.subrange(0, old(out).len() as int) =~= old(out)@);
                assert(said(out@, old(out)@) =~= Seq::empty());
            }
            return ;
        }
        let target = match self.rooms[at].1.exit(direction) {
            Some(id) => id.clone(),
            None => {
                say(out, join3("You can't go ", direction, " from here."));
                return ;
            },
        };
        self.player.current_room = target;
        say(out, join3("🚶 You go ", direction, "."));
        let ghost first = out@;
        let ghost moved = *self;
        self.look_around(out);
        let to = self.room_index(self.player.current_room.as_str());
        proof {
            lemma_said_chain(old(out)@, first, out@);
            lemma_room_position_same(
                rooms_view(moved.rooms@),
                rooms_view(self.rooms@),
                self.player.current_room@,
                0,
            );
        }
        if to < self.rooms.len() {
            if !self.rooms[to].1.visited {
                self.player.score = self.player.score + 10;
                say(out, "🎉 +10 points for discovering a new area!".to_owned());
            }
        }
    }
}

/// Rooms that go by the same names are found at the same places.
pub proof fn lemma_room_position_same(
    a: Seq<(Seq<char>, RoomView)>,
    b: Seq<(Seq<char>, RoomView)>,
    id: Seq<char>,
    from: int,
)
    requires
        a.len() == b.len(),
        forall|i: int| 0 <= i < a.len() ==> a[i].0 == b[i].0,
    ensures
        room_position(a, id, from) == room_position(b, id, from),
    decreases a.len() - from,
{
    if 0 <= from < a.len() {
        lemma_room_position_same(a, b, id, from + 1);
    }
}

/// The health after `gain` is added, which is at most a hundred.
pub open spec fn healed(health: int, gain: int) -> int {
    if health + gain <= 100 {
        health + gain
    } else {
        100
    }
}

/// What is said when the item named `item_name` is used by a player with
/// the inventory `inventory` in the room `current_room`, where `has_study`
/// says whether the world has a study.
pub open spec fn use_lines(
    inventory: Seq<Item>,
    current_room: Seq<char>,
    has_study: bool,
    item_name: Seq<char>,
) -> Seq<Seq<char>> {
    let at = item_position(inventory, item_name, 0);
    let missing = "You don't have a '"@ + item_name + "'."@;
    if at >= inventory.len() {
        seq![missing]
    } else if !inventory[at].usable {
        seq!["You can't use that item."@, missing]
    } else if inventory[at].name@ == "potion"@ {
        seq!["🧪 You drink the health potion and feel refreshed! (+50 health, +15 points)"@]
    } else if inventory[at].name@ == "key"@ {
        if current_room != "study"@ {
            seq!["The key doesn't seem useful here."@]
        } else if has_study {
            seq![
                "🗝️  You use the key to unlock a secret compartment!"@,
                "🎉 +50 points for solving the puzzle!"@,
            ]
        } else {
            seq!["🗝️  You use the key to unlock a secret compartment!"@]
        }
    } else if inventory[at].name@ == "book"@ {
        seq!["📖 You read the spellbook and learn a new spell! (+20 points)"@]
    } else if inventory[at].name@ == "bread"@ {
        seq!["🍞 You eat the bread and feel a bit better! (+20 health)"@]
    } else if inventory[at].name@ == "scroll"@ {
        seq![
            "📜 The scroll reveals the location of hidden treasure!"@,
            "💡 Hint: Try using the key in the study..."@,
        ]
    } else {
        seq!["You can't figure out how to use the "@ + inventory[at].name@ + "."@]
    }
}

/// What is said at the end of a turn: of the treasure where the player has
/// `won`, then of the end of the game where the player has no health left.
pub open spec fn turn_lines(won: bool, health: int, score: int) -> Seq<Seq<char>> {
    (if won {
        seq![
            "\n🎊 Congratulations! You found the treasure!"@,
            "🏆 Final Score: "@ + int_decimal(score) + " points"@,
            "Thanks for playing!"@,
        ]
    } else {
        Seq::empty()
    }) + (if health <= 0 {
        seq![
            "\n💀 Game Over! Your health reached zero."@,
            "🏆 Final Score: "@ + int_decimal(score) + " points"@,
        ]
    } else {
        Seq::empty()
    })
}

/// The treasure that the key unlocks.
pub open spec fn treasure() -> ItemView {
    ornament("treasure"@, "A chest full of gold coins!"@)
}

impl Game {
    /// Takes the first item whose name is `item_name` from the room that
    /// the player is in: the item goes to the end of the inventory, and the
    /// score grows by five. Where no such item lies there, the player is
    /// told so.
    pub fn take_item(&mut self, item_name: &str, out: &mut Vec<String>)
        requires
            old(self).player.score <= HEADROOM,
        ensures
            took(*old(self), *final(self), item_name@, old(out)@, final(out)@),
    {
        let at = self.room_index(self.player.current_room.as_str());
        if at >= self.rooms.len() {
            proof {
                assert(out@.subrange(0, old(out).len() as int) =~= old(out)@);
                assert(said(out@, old(out)@) =~= Seq::empty());
            }
            return ;
        }
        proof {
            lemma_positions(
                Seq::empty(),
                Seq::empty(),
                self.rooms[at as int].1.items@,
                item_name@,
                0,
            );
        }
        match self.rooms[at].1.remove_item(item_name) {
            Some(item) => {
                self.player.score = self.player.score + 5;
                say(out, "🎉 +5 points for finding an item!".to_owned());
                let ghost first = out@;
                let line = self.player.add_item(item);
                say(out, line);
                proof {
                    lemma_said_chain(old(out)@, first, out@);
                    assert(said(out@, old(out)@) =~= seq![
                        "🎉 +5 points for finding an item!"@,
                        "✓ You picked up: "@ + item.name@,
                    ]);
                }
            },
            None => {
                say(out, join3("There's no '", item_name, "' here."));
                proof {
                    assert(self.rooms[at as int].1 == old(self).rooms[at as int].1);
                    assert(self.rooms@ =~= old(self).rooms@);
                }
            },
        }
    }

    /// Uses the first item of the inventory whose name is `item_name`.
    ///
    /// An item that cannot be used stays where it is. One that can be used
    /// leaves the inventory and acts by its name: the potion heals by fifty
    /// and the bread by twenty, up to a hundred; the potion, the book and
    /// the scroll add fifteen, twenty and ten to the score; the key, used in
    /// the study, lays the treasure in the study and adds fifty. The key
    /// used elsewhere, and any other item, goes back to the end of the
    /// inventory.
    pub fn use_item(&mut self, item_name: &str, out: &mut Vec<String>)
        requires
            old(self).player.score <= HEADROOM,
            old(self).player.health <= HEADROOM,
        ensures
            used(*old(self), *final(self), item_name@, old(out)@, final(out)@),
    {
        proof {
            reveal_strlit("potion");
            reveal_strlit("key");
            reveal_strlit("book");
            reveal_strlit("bread");
            reveal_strlit("scroll");
            lemma_room_position(rooms_view(self.rooms@), "study"@, 0);
        }
        let at = find_item(&self.player.inventory, item_name);
        if at >= self.player.inventory.len() {
            say(out, join3("You don't have a '", item_name, "'."));
            return ;
        }
        if !self.player.inventory[at].usable {
            say(out, "You can't use that item.".to_owned());
            let ghost first = out@;
            say(out, join3("You don't have a '", item_name, "'."));
            proof {
                lemma_said_chain(old(out)@, first, out@);
                assert(said(out@, old(out)@) =~= seq![
                    "You can't use that item."@,
                    "You don't have a '"@ + item_name@ + "'."@,
                ]);
            }
            return ;
        }
        let item = self.player.inventory.remove(at);
        if str_equals(item.name.as_str(), "potion") {
            self.player.health = if self.player.health + 50 <= 100 {
                self.player.health + 50
            } else {
                100
            };
            self.player.score = self.player.score + 15;
            say(
                out,
                "🧪 You drink the health potion and feel refreshed! (+50 health, +15 points)".to_owned(),
            );
        } else if str_equals(item.name.as_str(), "key") {
            if str_equals(self.player.current_room.as_str(), "study") {
                say(out, "🗝️  You use the key to unlock a secret compartment!".to_owned());
                let ghost first = out@;
                let study = self.room_index("study");
                if study < self.rooms.len() {
                    let chest = Item::new("treasure", "A chest full of gold coins!", false);
                    let ghost items = self.rooms[study as int].1.items@;
                    self.rooms[study].1.add_item(chest);
                    proof {
                        assert(item_views(self.rooms[study as int].1.items@) =~= item_views(
                            items,
                        ).push(treasure()));
                    }
                    self.player.score = self.player.score + 50;
                    say(out, "🎉 +50 points for solving the puzzle!".to_owned());
                    proof {
                        lemma_said_chain(old(out)@, first, out@);
                        assert(said(out@, old(out)@) =~= seq![
                            "🗝️  You use the key to unlock a secret compartment!"@,
                            "🎉 +50 points for solving the puzzle!"@,
                        ]);
                    }
                }
            } else {
                say(out, "The key doesn't seem useful here.".to_owned());
                self.player.inventory.push(item);
            }
        } else if str_equals(item.name.as_str(), "book") {
            say(out, "📖 You read the spellbook and learn a new spell! (+20 points)".to_owned());
            self.player.score = self.player.score + 20;
        } else if str_equals(item.name.as_str(), "bread") {
            self.player.health = if self.player.health + 20 <= 100 {
                self.player.health + 20
            } else {
                100
            };
            say(out, "🍞 You eat the bread and feel a bit better! (+20 health)".to_owned());
        } else if str_equals(item.name.as_str(), "scroll") {
            say(out, "📜 The scroll reveals the location of hidden treasure!".to_owned());
            let ghost first = out@;
            say(out, "💡 Hint: Try using the key in the study...".to_owned());
            proof {
                lemma_said_chain(old(out)@, first, out@);
                assert(said(out@, old(out)@) =~= seq![
                    "📜 The scroll reveals the location of hidden treasure!"@,
                    "💡 Hint: Try using the key in the study..."@,
                ]);
            }
            self.player.score = self.player.score + 10;
        } else {
            say(out, join3("You can't figure out how to use the ", item.name.as_str(), "."));
            self.player.inventory.push(item);
        }
    }

    /// Appends the help to `out`: a heading, the commands, two notes.
    pub fn show_help(&self, out: &mut Vec<String>)
        ensures
            helped(*self, old(out)@, final(out)@),
    {
        say(out, "🆘 Available Commands:".to_owned());
        let mut i: usize = 0;
        while i < self.commands.len()
            invariant
                i <= self.commands.len(),
                extends(out@, old(out)@),
                said(out@, old(out)@) + help_lines(self.commands@, i as int) == seq![
                    "🆘 Available Commands:"@,
                ] + help_lines(self.commands@, 0),
            decreases self.commands.len() - i,
        {
            let ghost before = out@;
            let line = join3("  • ", self.commands[i].as_str(), "");
            out.push(line);
            proof {
                lemma_said_more(old(out)@, before, line);
                assert(said(out@, old(out)@) + help_lines(self.commands@, i + 1) =~= said(
                    before,
                    old(out)@,
                ) + help_lines(self.commands@, i as int));
            }
            i += 1;
        }
        let ghost before = out@;
        let first = "\nShort forms: l (look), i (inventory), h (help), q (quit)".to_owned();
        out.push(first);
        let ghost middle = out@;
        let second = "You can also just type direction names: north, south, east, west".to_owned();
        out.push(second);
        proof {
            lemma_said_more(old(out)@, before, first);
            lemma_said_more(old(out)@, middle, second);
            assert(said(out@, old(out)@) =~= said(before, old(out)@) + help_lines(
                self.commands@,
                self.commands.len() as int,
            ));
        }
    }

    /// Ends the turn: the game is over once the player carries the
    /// treasure or has no health left, and the player is told the score.
    pub fn finish_turn(&mut self, out: &mut Vec<String>)
        ensures
            final(self).rooms == old(self).rooms,
            final(self).player == old(self).player,
            final(self).commands == old(self).commands,
            final(self).game_over == (old(self).game_over || old(self).player.health <= 0
                || item_position(old(self).player.inventory@, "treasure"@, 0) < old(
                self,
            ).player.inventory.len()),
            extends(final(out)@, old(out)@),
            said(final(out)@, old(out)@) == turn_lines(
                item_position(old(self).player.inventory@, "treasure"@, 0) < old(
                    self,
                ).player.inventory.len(),
                old(self).player.health as int,
                old(self).player.score as int,
            ),
    {
        let ghost start = out@;
        proof {
            assert(out@.subrange(0, start.len() as int) =~= start);
            assert(said(out@, start) =~= Seq::empty());
        }
        if self.check_win_condition() {
            say(out, "\n🎊 Congratulations! You found the treasure!".to_owned());
            let ghost a = out@;
            let score = int_text(self.player.score);
            say(out, join3("🏆 Final Score: ", score.as_str(), " points"));
            let ghost b = out@;
            say(out, "Thanks for playing!".to_owned());
            proof {
                lemma_said_chain(start, a, b);
                lemma_said_chain(start, b, out@);
                assert(said(out@, start) =~= seq![
                    "\n🎊 Congratulations! You found the treasure!"@,
                    "🏆 Final Score: "@ + int_decimal(self.player.score as int) + " points"@,
                    "Thanks for playing!"@,
                ]);
            }
            self.game_over = true;
        }
        let ghost middle = out@;
        if self.player.health <= 0 {
            say(out, "\n💀 Game Over! Your health reached zero.".to_owned());
            let ghost a = out@;
            let score = int_text(self.player.score);
            say(out, join3("🏆 Final Score: ", score.as_str(), " points"));
            proof {
                lemma_said_chain(middle, a, out@);
                lemma_said_chain(start, middle, out@);
                assert(said(out@, middle) =~= seq![
                    "\n💀 Game Over! Your health reached zero."@,
                    "🏆 Final Score: "@ + int_decimal(self.player.score as int) + " points"@,
                ]);
            }
            self.game_over = true;
        } else {
            proof {
                assert(said(out@, start) + Seq::<Seq<char>>::empty() =~= said(out@, start));
            }
        }
    }

    /// Carries out a command. `command` is the first word of what the
    /// player typed, in lower case, and `argument` the second word, if
    /// there is one. A word that is no command changes nothing.
    pub fn run_command(&mut self, command: &str, argument: Option<&str>, out: &mut Vec<String>)
        requires
            old(self).player.score <= HEADROOM,
            old(self).player.health <= HEADROOM,
        ensures
            final(self).commands == old(self).commands,
            final(self).rooms.len() == old(self).rooms.len(),
            final(self).game_over == (old(self).game_over || command@ == "quit"@ || command@
                == "exit"@ || command@ == "q"@),
            old(self).player.score <= final(self).player.score <= old(self).player.score + 50,
            final(self).player.health == old(self).player.health || final(self).player.health
                == healed(old(self).player.health as int, 50) || final(self).player.health
                == healed(old(self).player.health as int, 20),
            extends(final(out)@, old(out)@),
            ran(
                *old(self),
                *final(self),
                command@,
                match argument {
                    Some(word) => Some(word@),
                    None => None,
                },
                old(out)@,
                final(out)@,
            ),
    {
        proof {
            assert(out@.subrange(0, old(out).len() as int) =~= old(out)@);
        }
        if str_equals(command, "quit") || str_equals(command, "exit") || str_equals(command, "q") {
            say(out, "Thanks for playing! Goodbye! 👋".to_owned());
            self.game_over = true;
        } else if str_equals(command, "look") || str_equals(command, "l") {
            self.look_around(out);
        } else if str_equals(command, "go") || str_equals(command, "move") {
            match argument {
                Some(direction) => self.go(direction, out),
                None => say(out, "Go where? Try 'go north' or 'go east'.".to_owned()),
            }
        } else if str_equals(command, "take") || str_equals(command, "get") {
            match argument {
                Some(name) => self.take_item(name, out),
                None => say(out, "Take what? Try 'take key' or 'take book'.".to_owned()),
            }
        } else if str_equals(command, "use") {
            match argument {
                Some(name) => self.use_item(name, out),
                None => say(out, "Use what? Try 'use key' or 'use potion'.".to_owned()),
            }
        } else if str_equals(command, "inventory") || str_equals(command, "inv") || str_equals(
            command,
            "i",
        ) {
            self.player.show_inventory(out);
        } else if str_equals(command, "status") || str_equals(command, "stats") {
            self.player.show_status(out);
        } else if str_equals(command, "help") || str_equals(command, "h") {
            self.show_help(out);
        } else if str_equals(command, "north") || str_equals(command, "south") || str_equals(
            command,
            "east",
        ) || str_equals(command, "west") || str_equals(command, "up") || str_equals(
            command,
            "down",
        ) {
            self.go(command, out);
        } else {
            say(
                out,
                "I don't understand that command. Type 'help' for available commands.".to_owned(),
            );
        }
    }

    /// Carries out what the player typed: the first word, in lower case,
    /// is the command, and the second word what it is applied to.
    pub fn process_command(&mut self, input: &str, out: &mut Vec<String>)
        requires
            old(self).player.score <= HEADROOM,
            old(self).player.health <= HEADROOM,
        ensures
            final(self).commands == old(self).commands,
            final(self).rooms.len() == old(self).rooms.len(),
            old(self).game_over ==> final(self).game_over,
            old(self).player.score <= final(self).player.score <= old(self).player.score + 50,
            extends(final(out)@, old(out)@),
            ({
                let first = word_start(input@, 0);
                let first_end = word_end(input@, first);
                let second = word_start(input@, first_end);
                let second_end = word_end(input@, second);
                if first >= input@.len() {
                    *final(self) == *old(self) && final(out)@ == old(out)@
                } else {
                    ran(
                        *old(self),
                        *final(self),
                        lowercase(input@.subrange(first, first_end)),
                        if second < input@.len() {
                            Some(input@.subrange(second, second_end))
                        } else {
                            None
                        },
                        old(out)@,
                        final(out)@,
                    )
                }
            }),
    {
        proof {
            assert(out@.subrange(0, old(out).len() as int) =~= old(out)@);
        }
        let s = chars_of(input);
        let len = s.len();
        let (first_start, first_end) = next_word(&s, 0);
        if first_start >= len {
            return ;
        }
        let first = text_of(&slice_of(&s, first_start, first_end));
        let command = to_lowercase(first.as_str());
        let (second_start, second_end) = next_word(&s, first_end);
        if second_start < len {
            let second = text_of(&slice_of(&s, second_start, second_end));
            self.run_command(command.as_str(), Some(second.as_str()), out);
        } else {
            self.run_command(command.as_str(), None, out);
        }
    }
}

/// Where the first word at or after `from` starts and ends.
pub fn next_word(s: &Vec<char>, from: usize) -> (word: (usize, usize))
    requires
        from <= s.len(),
    ensures
        word.0 == word_start(s@, from as int),
        word.1 == word_end(s@, word.0 as int),
        from <= word.0 <= word.1 <= s.len(),
{
    proof {
        lemma_word_bounds(s@, from as int);
    }
    let mut start: usize = from;
    while start < s.len() && char_is_whitespace(s[start])
        invariant
            from <= start <= s.len(),
            word_start(s@, from as int) == word_start(s@, start as int),
        decreases s.len() - start,
    {
        start += 1;
    }
    proof {
        lemma_word_bounds(s@, start as int);
    }
    let mut end: usize = start;
    while end < s.len() && !char_is_whitespace(s[end])
        invariant
            start <= end <= s.len(),
            word_end(s@, start as int) == word_end(s@, end as int),
        decreases s.len() - end,
    {
        end += 1;
    }
    (start, end)
}

/// What looking around does to the game and adds to what is said.
pub open spec fn looked(before: Game, after: Game, start: Seq<String>, end: Seq<String>) -> bool {
    &&& after.player == before.player
    &&& after.game_over == before.game_over
    &&& after.commands == before.commands
    &&& after.rooms.len() == before.rooms.len()
    &&& forall|i: int|
        0 <= i < before.rooms.len() && i != before.here() ==> after.rooms[i]
            == before.rooms[i]
    &&& before.here() < before.rooms.len() ==> {
        &&& after.rooms[before.here()].0 == before.rooms[before.here()].0
        &&& after.rooms[before.here()].1 == seen(
            before.rooms[before.here()].1,
        )
    }
    &&& extends(end, start)
    &&& said(end, start) == if before.here() < before.rooms.len() {
        seq![room_text(before.rooms[before.here()].1)]
    } else {
        Seq::empty()
    }
}

/// What going in a direction does to the game and adds to what is said.
pub open spec fn went(
    before: Game,
    after: Game,
    direction: Seq<char>,
    start: Seq<String>,
    end: Seq<String>,
) -> bool {
    &&& after.game_over == before.game_over
    &&& after.commands == before.commands
    &&& after.player.inventory == before.player.inventory
    &&& after.player.health == before.player.health
    &&& after.player.score == before.player.score
    &&& after.rooms.len() == before.rooms.len()
    &&& extends(end, start)
    &&& before.here() >= before.rooms.len() ==> after == before && said(
        end,
        start,
    ) == Seq::<Seq<char>>::empty()
    &&& before.here() < before.rooms.len() ==> match exit_to(
        exits_view(before.rooms[before.here()].1.exits@),
        direction,
    ) {
        None => {
            &&& after == before
            &&& said(end, start) == seq![
                "You can't go "@ + direction + " from here."@,
            ]
        },
        Some(target) => {
            let to = room_position(rooms_view(before.rooms@), target, 0);
            &&& after.player.current_room@ == target
            &&& forall|i: int|
                0 <= i < before.rooms.len() && i != to ==> after.rooms[i] == before.rooms[i]
            &&& to < before.rooms.len() ==> after.rooms[to].1 == seen(
                before.rooms[to].1,
            ) && after.rooms[to].0 == before.rooms[to].0
            &&& said(end, start) == seq!["🚶 You go "@ + direction + "."@]
                + if to < before.rooms.len() {
                seq![room_text(before.rooms[to].1)]
            } else {
                Seq::empty()
            }
        },
    }
}

/// What taking an item does to the game and adds to what is said.
pub open spec fn took(
    before: Game,
    after: Game,
    item_name: Seq<char>,
    start: Seq<String>,
    end: Seq<String>,
) -> bool {
    &&& after.game_over == before.game_over
    &&& after.commands == before.commands
    &&& after.player.current_room == before.player.current_room
    &&& after.player.health == before.player.health
    &&& after.rooms.len() == before.rooms.len()
    &&& forall|i: int|
        0 <= i < before.rooms.len() && i != before.here() ==> after.rooms[i]
            == before.rooms[i]
    &&& extends(end, start)
    &&& before.here() >= before.rooms.len() ==> after == before && said(
        end,
        start,
    ) == Seq::<Seq<char>>::empty()
    &&& before.here() < before.rooms.len() ==> ({
        let room = before.rooms[before.here()].1;
        let at = item_position(room.items@, item_name, 0);
        if at < room.items.len() {
            &&& after.rooms[before.here()].1.items@ == room.items@.remove(at)
            &&& after.player.inventory@ == before.player.inventory@.push(
                room.items[at],
            )
            &&& after.player.score == before.player.score + 5
            &&& said(end, start) == seq![
                "🎉 +5 points for finding an item!"@,
                "✓ You picked up: "@ + room.items[at].name@,
            ]
        } else {
            &&& after.rooms@ == before.rooms@
            &&& after.player == before.player
            &&& said(end, start) == seq![
                "There's no '"@ + item_name + "' here."@,
            ]
        }
    })
}

/// What using an item does to the game and adds to what is said.
pub open spec fn used(
    before: Game,
    after: Game,
    item_name: Seq<char>,
    start: Seq<String>,
    end: Seq<String>,
) -> bool {
    &&& after.game_over == before.game_over
    &&& after.commands == before.commands
    &&& after.player.current_room == before.player.current_room
    &&& after.rooms.len() == before.rooms.len()
    &&& extends(end, start)
    &&& said(end, start) == use_lines(
        before.player.inventory@,
        before.player.current_room@,
        room_position(rooms_view(before.rooms@), "study"@, 0) < before.rooms.len(),
        item_name,
    )
    &&& ({
        let had = before.player;
        let has = after.player;
        let at = item_position(had.inventory@, item_name, 0);
        let study = room_position(rooms_view(before.rooms@), "study"@, 0);
        if at >= had.inventory.len() || !had.inventory[at].usable {
            after == before
        } else {
            let item = had.inventory[at];
            let rest = had.inventory@.remove(at);
            let in_study = had.current_room@ == "study"@ && study < before.rooms.len();
            &&& has.health == if item.name@ == "potion"@ {
                healed(had.health as int, 50)
            } else if item.name@ == "bread"@ {
                healed(had.health as int, 20)
            } else {
                had.health as int
            }
            &&& has.score == had.score + if item.name@ == "potion"@ {
                15int
            } else if item.name@ == "key"@ && in_study {
                50int
            } else if item.name@ == "book"@ {
                20int
            } else if item.name@ == "scroll"@ {
                10int
            } else {
                0int
            }
            &&& has.inventory@ == if item.name@ == "potion"@ || item.name@ == "book"@
                || item.name@ == "bread"@ || item.name@ == "scroll"@ || (item.name@
                == "key"@ && had.current_room@ == "study"@) {
                rest
            } else {
                rest.push(item)
            }
            &&& forall|i: int|
                0 <= i < before.rooms.len() && !(i == study && item.name@ == "key"@
                    && in_study) ==> after.rooms[i] == before.rooms[i]
            &&& item.name@ == "key"@ && in_study ==> item_views(
                after.rooms[study].1.items@,
            ) == item_views(before.rooms[study].1.items@).push(treasure())
        }
    })
}

/// What the help adds to what is said.
pub open spec fn helped(before: Game, start: Seq<String>, end: Seq<String>) -> bool {
    &&& extends(end, start)
    &&& said(end, start) == seq!["🆘 Available Commands:"@] + help_lines(
        before.commands@,
        0,
    )
}

/// What showing the inventory of a player adds to what is said.
pub open spec fn inventory_shown(player: Player, start: Seq<String>, end: Seq<String>) -> bool {
    &&& extends(end, start)
    &&& end.len() == start.len() + 1 + player.inventory.len()
    &&& end[start.len() as int]@ == if player.inventory.len() == 0 {
        "🎒 Your inventory is empty."@
    } else {
        "🎒 Inventory:"@
    }
    &&& forall|i: int|
        0 <= i < player.inventory.len() ==> (#[trigger] end[start.len() + 1 + i])@
            == inventory_line(player.inventory@, i)
}

/// What showing the status of a player adds to what is said.
pub open spec fn status_shown(player: Player, start: Seq<String>, end: Seq<String>) -> bool {
    &&& extends(end, start)
    &&& said(end, start) == seq![
        "👤 Player Status:"@,
        "  Health: "@ + int_decimal(player.health as int) + "/100"@,
        "  Score: "@ + int_decimal(player.score as int) + ""@,
        "  Items: "@ + decimal(player.inventory.len() as nat) + ""@,
    ]
}

/// Whether nothing but what is said has changed, and only `line` was said.
pub open spec fn told(
    before: Game,
    after: Game,
    line: Seq<char>,
    start: Seq<String>,
    end: Seq<String>,
) -> bool {
    after == before && extends(end, start) && said(end, start) == seq![line]
}

/// What a command does to the game and adds to what is said. `command` is
/// the first word that was typed, in lower case, and `argument` the second
/// word.
pub open spec fn ran(
    before: Game,
    after: Game,
    command: Seq<char>,
    argument: Option<Seq<char>>,
    start: Seq<String>,
    end: Seq<String>,
) -> bool {
    if command == "quit"@ || command == "exit"@ || command == "q"@ {
        &&& after == (Game { game_over: true, ..before })
        &&& extends(end, start)
        &&& said(end, start) == seq!["Thanks for playing! Goodbye! 👋"@]
    } else if command == "look"@ || command == "l"@ {
        looked(before, after, start, end)
    } else if command == "go"@ || command == "move"@ {
        match argument {
            Some(direction) => went(before, after, direction, start, end),
            None => told(before, after, "Go where? Try 'go north' or 'go east'."@, start, end),
        }
    } else if command == "take"@ || command == "get"@ {
        match argument {
            Some(name) => took(before, after, name, start, end),
            None => told(before, after, "Take what? Try 'take key' or 'take book'."@, start, end),
        }
    } else if command == "use"@ {
        match argument {
            Some(name) => used(before, after, name, start, end),
            None => told(before, after, "Use what? Try 'use key' or 'use potion'."@, start, end),
        }
    } else if command == "inventory"@ || command == "inv"@ || command == "i"@ {
        after == before && inventory_shown(before.player, start, end)
    } else if command == "status"@ || command == "stats"@ {
        after == before && status_shown(before.player, start, end)
    } else if command == "help"@ || command == "h"@ {
        after == before && helped(before, start, end)
    } else if command == "north"@ || command == "south"@ || command == "east"@ || command
        == "west"@ || command == "up"@ || command == "down"@ {
        went(before, after, command, start, end)
    } else {
        told(
            before,
            after,
            "I don't understand that command. Type 'help' for available commands."@,
            start,
            end,
        )
    }
}

} // verus!
