use toolbox::text_adventure::{Game, Item, Player, Room};

#[test]
fn test_room_creation() {
    let room = Room::new("Test Room", "A test room");
    assert_eq!(room.name, "Test Room");
    assert_eq!(room.description, "A test room");
    assert!(!room.visited);
}

#[test]
fn test_item_management() {
    let mut room = Room::new("Test Room", "A test room");
    let item = Item::new("test_item", "A test item", true);

    room.add_item(item.clone());
    assert_eq!(room.items.len(), 1);

    let removed = room.remove_item("test_item");
    assert!(removed.is_some());
    assert_eq!(room.items.len(), 0);
}

#[test]
fn test_player_inventory() {
    let mut player = Player::new("test_room");
    let item = Item::new("test_item", "A test item", true);

    player.add_item(item);
    assert_eq!(player.inventory.len(), 1);
    assert!(player.has_item("test_item"));
}

#[test]
fn items_are_found_whatever_their_case() {
    let mut room = Room::new("Hall", "A hall");
    room.add_item(Item::new("Lamp", "An oil lamp", true));
    room.add_item(Item::new("lamp", "Another lamp", false));
    assert!(room.remove_item("rope").is_none());
    let first = room.remove_item("LAMP").unwrap();
    assert_eq!(first.description, "An oil lamp");
    assert_eq!(room.items.len(), 1);
    let mut player = Player::new("hall");
    assert_eq!(player.add_item(first), "✓ You picked up: Lamp");
    assert!(player.has_item("lAMP"));
    assert!(!player.has_item("lamps"));
    assert!(!player.has_item("lämp"));
}

#[test]
fn exits_are_replaced_not_doubled() {
    let mut room = Room::new("Hall", "A hall");
    room.add_exit("north", "attic");
    room.add_exit("south", "cellar");
    room.add_exit("north", "roof");
    assert_eq!(room.exits.len(), 2);
    assert_eq!(room.exit("north"), Some(&"roof".to_string()));
    assert_eq!(room.exit("south"), Some(&"cellar".to_string()));
    assert_eq!(room.exit("North"), None);
}

#[test]
fn room_description_lists_items_and_exits() {
    let mut room = Room::new("Hall", "A hall.");
    assert_eq!(room.describe(), "📍 Hall\nA hall.");
    room.add_item(Item::new("lamp", "An oil lamp", true));
    room.add_exit("north", "attic");
    room.add_exit("down", "cellar");
    assert_eq!(
        room.describe(),
        "📍 Hall\nA hall.\n\n🎒 Items here:\n  • lamp - An oil lamp\n\n🚪 Exits:\n  • north\n  • down"
    );
}

#[test]
fn unusable_items_stay_in_the_inventory() {
    let mut player = Player::new("hall");
    player.add_item(Item::new("candle", "A candle", false));
    player.add_item(Item::new("bread", "Bread", true));
    assert!(player.use_item("candle").is_none());
    assert_eq!(player.inventory.len(), 2);
    assert_eq!(player.inventory[0].name, "candle");
    assert_eq!(player.use_item("BREAD").unwrap().name, "bread");
    assert_eq!(player.inventory.len(), 1);
    assert!(player.use_item("bread").is_none());
}

#[test]
fn new_game_starts_at_the_entrance() {
    let game = Game::new();
    assert_eq!(game.player.current_room, "entrance");
    assert_eq!(game.player.health, 100);
    assert_eq!(game.player.score, 0);
    assert!(!game.game_over);
    assert_eq!(game.commands.len(), 8);
    assert_eq!(game.commands[1], "go <direction>");
    let names: Vec<&str> = game.rooms.iter().map(|r| r.0.as_str()).collect();
    assert_eq!(names, vec!["entrance", "library", "kitchen", "study", "pantry"]);
    let library = &game.rooms[game.room_index("library")].1;
    assert_eq!(library.name, "Library");
    assert_eq!(library.items.len(), 2);
    assert!(!library.items[1].usable);
    assert_eq!(library.exit("west"), Some(&"study".to_string()));
    assert!(game.rooms[0].1.description.starts_with("You stand in a grand entrance hall"));
    assert!(game.rooms[0].1.description.contains("ceilings. Dust particles"));
    assert_eq!(game.room_index("garden"), 5);
    assert!(!game.check_win_condition());
}

#[test]
fn setting_the_world_up_again_resets_the_rooms() {
    let mut game = Game::new();
    let mut out = Vec::new();
    game.process_command("take key", &mut out);
    assert_eq!(game.rooms[0].1.items.len(), 0);
    game.setup_world();
    assert_eq!(game.rooms.len(), 5);
    assert_eq!(game.rooms[0].1.items.len(), 1);
}

#[test]
fn the_key_opens_the_treasure_in_the_study() {
    let mut game = Game::new();
    let mut out = Vec::new();
    game.process_command("  TAKE   Key  ", &mut out);
    assert_eq!(out, vec!["🎉 +5 points for finding an item!", "✓ You picked up: key"]);
    assert_eq!(game.player.score, 5);
    out.clear();
    game.process_command("use key", &mut out);
    assert_eq!(out, vec!["The key doesn't seem useful here."]);
    assert!(game.player.has_item("key"));
    out.clear();
    game.process_command("north", &mut out);
    assert_eq!(game.player.current_room, "library");
    assert_eq!(out.len(), 2);
    assert_eq!(out[0], "🚶 You go north.");
    assert!(out[1].starts_with("📍 Library\n"));
    assert!(game.rooms[1].1.visited);
    assert_eq!(game.player.score, 5);
    out.clear();
    game.process_command("go west", &mut out);
    assert_eq!(game.player.current_room, "study");
    out.clear();
    game.process_command("use KEY", &mut out);
    assert_eq!(
        out,
        vec![
            "🗝️  You use the key to unlock a secret compartment!",
            "🎉 +50 points for solving the puzzle!"
        ]
    );
    assert_eq!(game.player.score, 55);
    assert!(!game.player.has_item("key"));
    out.clear();
    game.finish_turn(&mut out);
    assert!(!game.game_over);
    assert!(out.is_empty());
    game.process_command("take treasure", &mut out);
    assert!(game.check_win_condition());
    out.clear();
    game.finish_turn(&mut out);
    assert!(game.game_over);
    assert_eq!(
        out,
        vec![
            "\n🎊 Congratulations! You found the treasure!",
            "🏆 Final Score: 60 points",
            "Thanks for playing!"
        ]
    );
}

#[test]
fn commands_say_what_they_do() {
    let mut game = Game::new();
    let mut out = Vec::new();
    game.process_command("", &mut out);
    game.process_command("   ", &mut out);
    assert!(out.is_empty());
    game.process_command("dance", &mut out);
    assert_eq!(out, vec!["I don't understand that command. Type 'help' for available commands."]);
    out.clear();
    game.process_command("go", &mut out);
    game.process_command("take", &mut out);
    game.process_command("use", &mut out);
    assert_eq!(
        out,
        vec![
            "Go where? Try 'go north' or 'go east'.",
            "Take what? Try 'take key' or 'take book'.",
            "Use what? Try 'use key' or 'use potion'."
        ]
    );
    out.clear();
    game.process_command("go up", &mut out);
    game.process_command("take sword", &mut out);
    game.process_command("use sword", &mut out);
    assert_eq!(
        out,
        vec!["You can't go up from here.", "There's no 'sword' here.", "You don't have a 'sword'."]
    );
    out.clear();
    game.process_command("I", &mut out);
    assert_eq!(out, vec!["🎒 Your inventory is empty."]);
    out.clear();
    game.process_command("take key", &mut out);
    out.clear();
    game.process_command("inventory", &mut out);
    assert_eq!(out, vec!["🎒 Inventory:", "  1. key - A rusty old key (usable)"]);
    out.clear();
    game.process_command("status", &mut out);
    assert_eq!(out, vec!["👤 Player Status:", "  Health: 100/100", "  Score: 5", "  Items: 1"]);
    out.clear();
    game.process_command("help", &mut out);
    assert_eq!(out.len(), 11);
    assert_eq!(out[0], "🆘 Available Commands:");
    assert_eq!(out[1], "  • look");
    assert_eq!(out[9], "\nShort forms: l (look), i (inventory), h (help), q (quit)");
    out.clear();
    game.process_command("look", &mut out);
    assert_eq!(out.len(), 1);
    assert!(game.rooms[0].1.visited);
    out.clear();
    game.process_command("Quit", &mut out);
    assert_eq!(out, vec!["Thanks for playing! Goodbye! 👋"]);
    assert!(game.game_over);
}

#[test]
fn potion_and_bread_heal_up_to_a_hundred() {
    let mut game = Game::new();
    let mut out = Vec::new();
    game.player.health = 40;
    game.player.inventory.push(Item::new("potion", "p", true));
    game.player.inventory.push(Item::new("bread", "b", true));
    game.player.inventory.push(Item::new("bread", "b", true));
    game.player.inventory.push(Item::new("book", "b", true));
    game.player.inventory.push(Item::new("scroll", "s", true));
    game.player.inventory.push(Item::new("candle", "c", false));
    game.player.inventory.push(Item::new("stone", "s", true));
    game.use_item("potion", &mut out);
    assert_eq!((game.player.health, game.player.score), (90, 15));
    game.use_item("bread", &mut out);
    assert_eq!((game.player.health, game.player.score), (100, 15));
    game.player.health = 10;
    game.use_item("bread", &mut out);
    assert_eq!((game.player.health, game.player.score), (30, 15));
    game.use_item("book", &mut out);
    assert_eq!(game.player.score, 35);
    game.use_item("scroll", &mut out);
    assert_eq!(game.player.score, 45);
    out.clear();
    game.use_item("candle", &mut out);
    assert_eq!(out, vec!["You can't use that item.", "You don't have a 'candle'."]);
    out.clear();
    game.use_item("stone", &mut out);
    assert_eq!(out, vec!["You can't figure out how to use the stone."]);
    let left: Vec<&str> = game.player.inventory.iter().map(|i| i.name.as_str()).collect();
    assert_eq!(left, vec!["candle", "stone"]);
    game.player.health = 0;
    out.clear();
    game.finish_turn(&mut out);
    assert!(game.game_over);
    assert_eq!(out, vec!["\n💀 Game Over! Your health reached zero.", "🏆 Final Score: 45 points"]);
}
