use colonizer::chat::{parse_color, Event, LineKind, ParseError, Parser};
use colonizer::hand::Hand;
use colonizer::item::Item;
use colonizer::resource::Resource;

#[test]
fn test_parse() {
    let test_cases = [
        (
            "GuestLookaside received starting resources: grainlumberwool",
            Event::Acquire(0, Hand::from([1, 0, 1, 1, 0])),
        ),
        (
            "GuestPoten77a got: brick",
            Event::Acquire(1, Hand::from([0, 1, 0, 0, 0])),
        ),
        (
            "GuestAleBalu discarded: lumberwoolwoolgrain",
            Event::Discard(2, Hand::from([1, 0, 2, 1, 0])),
        ),
        (
            "GuestPetrovski built a city: +1 VP",
            Event::Purchase(3, Item::City),
        ),
        (
            "GuestYou stole: ore from: Petrovski",
            Event::StealKnown(0, 3, Resource::Ore),
        ),
        (
            "GuestPetrovski stole: brick from you",
            Event::StealKnown(3, 0, Resource::Brick),
        ),
        ("UserPetrovski stole card from: AleBalu", Event::Steal(3, 2)),
        (
            "GuestLookaside wants to give: woolwool for: grain",
            Event::OfferTrade {
                player: 0,
                offer: Hand::from([0, 0, 2, 0, 0]),
                request: Hand::from([0, 0, 0, 1, 0]),
            },
        ),
        (
            "GuestPetrovski wants to give: Lookaside: brick for: wool",
            Event::OfferTrade {
                player: 3,
                offer: Hand::from([0, 1, 0, 0, 0]),
                request: Hand::from([0, 0, 1, 0, 0]),
            },
        ),
        (
            "UserLookaside traded: lumber for: ore with: Petrovski",
            Event::AcceptTrade {
                player: 0,
                counterparty: 3,
                offer: Hand::from([1, 0, 0, 0, 0]),
                request: Hand::from([0, 0, 0, 0, 1]),
            },
        ),
        (
            "GuestLookaside took from bank: ore ore",
            Event::YearOfPlenty(0, Hand::from([0, 0, 0, 0, 2])),
        ),
        (
            "GuestPetrovski gave bank: lumberlumberlumberlumber and took ore",
            Event::BankTrade {
                player: 3,
                offer: Hand::from([4, 0, 0, 0, 0]),
                request: Hand::from([0, 0, 0, 0, 1]),
            },
        ),
        ("GuestLookaside rolled: dice_2 dice_6", Event::Roll(0, 8)),
        (
            "UserPetrovski stole 6: ore",
            Event::Monopoly(3, 6, Resource::Ore),
        ),
    ];

    let mut parser = Parser::with_username("Lookaside".to_owned());
    for (input, expected) in test_cases.iter() {
        let parsed = parser.parse_line(input).unwrap();
        assert_eq!(parsed, *expected);
    }
}

#[test]
fn parse_starting_resources_line() {
    let mut parser = Parser::with_username("Lookaside".to_owned());
    let events = parser
        .parse_text("GuestLookaside received starting resources: grainlumberwool")
        .unwrap();
    assert_eq!(events, vec![Event::Acquire(0, Hand::from([1, 0, 1, 1, 0]))]);
}

#[test]
fn unknown_lines_are_skipped() {
    let mut parser = Parser::with_username("Lookaside".to_owned());
    assert_eq!(parser.parse_line("Hello everyone, good luck!"), Err(ParseError::Unrecognized));
    let events = parser
        .parse_text("Welcome!\nGuestBob got: woolwool\nbye")
        .unwrap();
    assert_eq!(events, vec![Event::Acquire(1, Hand::from([0, 0, 2, 0, 0]))]);
}

#[test]
fn seats_run_out_after_six_players() {
    let mut parser = Parser::new();
    for (i, name) in ["Ann", "Ben", "Cid", "Dot", "Eve", "Fay"].iter().enumerate() {
        let line = format!("Guest{} got: ore", name);
        assert_eq!(parser.parse_line(&line), Ok(Event::Acquire(i, Hand::from([0, 0, 0, 0, 1]))));
    }
    assert_eq!(parser.parse_line("GuestGus got: ore"), Err(ParseError::TooManyPlayers));
    assert_eq!(
        parser.parse_text("GuestAnn got: ore\nGuestGus got: ore"),
        Err(ParseError::TooManyPlayers)
    );
}

#[test]
fn player_names_and_roster() {
    let mut parser = Parser::with_username("Lookaside".to_owned());
    parser.parse_line("GuestPoten77a got: brick").unwrap();
    assert_eq!(parser.player_name(0), "Lookaside");
    assert_eq!(parser.player_name(1), "Poten77a");
    assert_eq!(parser.player_name(4), "Player 4");
    let mut roster = parser.players();
    roster.sort();
    assert_eq!(
        roster,
        vec![
            ("Lookaside".to_owned(), 0, (0, 0, 0)),
            ("Poten77a".to_owned(), 1, (0, 0, 0)),
            ("You".to_owned(), 0, (0, 0, 0)),
            ("you".to_owned(), 0, (0, 0, 0)),
        ]
    );
    parser.set_color(1, (10, 20, 30));
    assert!(parser.players().contains(&("Poten77a".to_owned(), 1, (10, 20, 30))));
}

#[test]
fn fresh_parser_seats_from_zero() {
    let mut parser = Parser::new();
    assert!(parser.players().is_empty());
    assert_eq!(parser.parse_line("botAlpha got: lumber"), Ok(Event::Acquire(0, Hand::from(Resource::Lumber))));
    assert_eq!(parser.player_name(0), "Alpha");
}

#[test]
fn captures_read_into_events() {
    let mut parser = Parser::new();
    let caps = vec![
        Some("Ann stole 3 wool".to_owned()),
        Some("Ann".to_owned()),
        Some("3".to_owned()),
        Some("wool".to_owned()),
    ];
    assert_eq!(parser.parse_captures(LineKind::Monopoly, &caps), Ok(Event::Monopoly(0, 3, Resource::Wool)));
    let bad = vec![Some("x".to_owned()), Some("Ann".to_owned()), Some("300".to_owned()), Some("wool".to_owned())];
    assert_eq!(parser.parse_captures(LineKind::Monopoly, &bad), Err(ParseError::Unrecognized));
    let dice = vec![Some("x".to_owned()), Some("Ben".to_owned()), Some("4".to_owned()), Some("5".to_owned())];
    assert_eq!(parser.parse_captures(LineKind::Roll, &dice), Ok(Event::Roll(1, 9)));
}

#[test]
fn hand_from_text_counts_card_words() {
    assert_eq!(Hand::from_text("lumberwoolwool"), Some(Hand::from([1, 0, 2, 0, 0])));
    assert_eq!(Hand::from_text("ore card brick"), Some(Hand::from([0, 1, 0, 0, 1])));
    assert_eq!(Hand::from_text("nothing here"), Some(Hand::from([0, 0, 0, 0, 0])));
    assert_eq!(Hand::from_text(&"ore".repeat(256)), None);
}

#[test]
fn names_of_resources_and_items() {
    assert_eq!(Resource::from_name("grain"), Some(Resource::Grain));
    assert_eq!(Resource::from_name("card"), None);
    assert_eq!(Item::from_name("development card"), Some(Item::DevelopmentCard));
    assert_eq!(Item::from_name("castle"), None);
    assert_eq!(Item::Road.cost(), Hand::from([1, 1, 0, 0, 0]));
    assert_eq!(Item::Settlement.cost(), Hand::from([1, 1, 1, 1, 0]));
    assert_eq!(Item::City.cost(), Hand::from([0, 0, 0, 2, 3]));
    assert_eq!(Item::DevelopmentCard.cost(), Hand::from([0, 0, 1, 1, 1]));
}

#[test]
fn colors_read_from_style() {
    assert_eq!(parse_color("color: rgb(95, 185, 60);"), Some((95, 185, 60)));
    assert_eq!(parse_color("color: rgb(300, 185, 60);"), None);
    assert_eq!(parse_color("color: red;"), None);
}

#[test]
fn acquiring_player_takes_message_color() {
    let mut parser = Parser::with_username("Lookaside".to_owned());
    let ev = parser.read_message((1, 2, 3), "GuestPetrovski got: ore").unwrap();
    assert_eq!(ev, Event::Acquire(1, Hand::from([0, 0, 0, 0, 1])));
    parser.read_message((9, 9, 9), "GuestPetrovski discarded: ore").unwrap();
    assert!(parser.players().contains(&("Petrovski".to_owned(), 1, (1, 2, 3))));
    assert!(parser.players().contains(&("Lookaside".to_owned(), 0, (0, 0, 0))));
}
