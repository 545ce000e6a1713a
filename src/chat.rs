use vstd::prelude::*;
use crate::card_tracker::MAX_PLAYERS;
use crate::hand::{Hand, hand_in_text};
use crate::item::{Item, item_named};
use crate::patterns::{captures, groups_view, strings_view};
use crate::resource::{Resource, resource_named, str_is};

verus! {

/// A seat index.
pub type Player = usize;

/// One game event read from the log.
#[derive(Debug, Clone, PartialEq, Eq)]
pub enum Event {
    /// A player purchases an item.
    Purchase(Player, Item),
    /// Player acquires cards.
    Acquire(Player, Hand),
    /// Player rolls dice
    Roll(Player, u8),
    /// Player moves robber
    MoveRobber(Player, Resource),
    /// Rob where we don't know what was stolen
    Steal(Player, Player),
    /// Rob where we know what was stolen
    StealKnown(Player, Player, Resource),
    /// Player offers a trade
    OfferTrade { player: Player, offer: Hand, request: Hand },
    /// Trade occurs
    AcceptTrade { player: Player, offer: Hand, request: Hand, counterparty: Player },
    /// Player discards hand on 7
    Discard(Player, Hand),
    /// Year of plenty card
    YearOfPlenty(Player, Hand),
    /// Player trades with bank / port
    BankTrade { player: Player, offer: Hand, request: Hand },
    /// Monopoly card
    Monopoly(Player, u8, Resource),
}

/// Why a log line gave no event.
#[derive(Debug, Clone, Copy, PartialEq, Eq)]
pub enum ParseError {
    /// The line matches no pattern, or a field of the match does not read.
    Unrecognized,
    /// The line names a new player when every seat is taken.
    TooManyPlayers,
}

/// The kinds of log line, in the order their patterns are tried.
#[derive(Debug, Clone, Copy, PartialEq, Eq)]
pub enum LineKind {
    Acquire,
    Discard,
    Purchase,
    Steal,
    OfferTrade,
    AcceptTrade,
    YearOfPlenty,
    BankTrade,
    Monopoly,
    Roll,
}

/// Number of line patterns.
pub const N_PATTERNS: usize = 10;

/// The kind whose pattern is tried at position `i`.
pub open spec fn kind_at(i: int) -> LineKind {
    if i == 0 {
        LineKind::Acquire
    } else if i == 1 {
        LineKind::Discard
    } else if i == 2 {
        LineKind::Purchase
    } else if i == 3 {
        LineKind::Steal
    } else if i == 4 {
        LineKind::OfferTrade
    } else if i == 5 {
        LineKind::AcceptTrade
    } else if i == 6 {
        LineKind::YearOfPlenty
    } else if i == 7 {
        LineKind::BankTrade
    } else if i == 8 {
        LineKind::Monopoly
    } else {
        LineKind::Roll
    }
}

/// The pattern of each kind of line. A name is `(?:Guest|bot|User)?(\w+(?:#\d+)?)`, cards
/// are `((?:(?:lumber|brick|wool|grain|ore|card) ?)+)`.
pub open spec fn pattern_text(kind: LineKind) -> Seq<char> {
    match kind {
        LineKind::Acquire => "(?:Guest|bot|User)?(\\w+(?:#\\d+)?) (?:got|received starting resources) ((?:(?:lumber|brick|wool|grain|ore|card) ?)+)"@,
        LineKind::Discard => "(?:Guest|bot|User)?(\\w+(?:#\\d+)?) discarded ((?:(?:lumber|brick|wool|grain|ore|card) ?)+)"@,
        LineKind::Purchase => "(?:Guest|bot|User)?(\\w+(?:#\\d+)?) (?:built a|bought) (road|settlement|city|development card)"@,
        LineKind::Steal => "(?:Guest|bot|User)?(\\w+(?:#\\d+)?) stole ((?:(?:lumber|brick|wool|grain|ore|card) ?)+) from? (?:Guest|bot|User)?(\\w+(?:#\\d+)?)"@,
        LineKind::OfferTrade => "(?:Guest|bot|User)?(\\w+(?:#\\d+)?) wants to give( (?:Guest|bot|User)?(\\w+(?:#\\d+)?))? ((?:(?:lumber|brick|wool|grain|ore|card) ?)+) for ((?:(?:lumber|brick|wool|grain|ore|card) ?)+)"@,
        LineKind::AcceptTrade => "(?:Guest|bot|User)?(\\w+(?:#\\d+)?) traded ((?:(?:lumber|brick|wool|grain|ore|card) ?)+) for ((?:(?:lumber|brick|wool|grain|ore|card) ?)+) with (?:Guest|bot|User)?(\\w+(?:#\\d+)?)"@,
        LineKind::YearOfPlenty => "(?:Guest|bot|User)?(\\w+(?:#\\d+)?) took from bank ((?:(?:lumber|brick|wool|grain|ore|card) ?)+)"@,
        LineKind::BankTrade => "(?:Guest|bot|User)?(\\w+(?:#\\d+)?) gave bank ((?:(?:lumber|brick|wool|grain|ore|card) ?)+) and took ((?:(?:lumber|brick|wool|grain|ore|card) ?)+)"@,
        LineKind::Monopoly => "(?:Guest|bot|User)?(\\w+(?:#\\d+)?) stole (\\d+) ((?:(?:lumber|brick|wool|grain|ore|card) ?)+)"@,
        LineKind::Roll => "(?:Guest|bot|User)?(\\w+(?:#\\d+)?) rolled (?:dice_([1-6])) (?:dice_([1-6]))"@,
    }
}

/// The kind whose pattern is tried at position `i`.
fn kind_of(i: usize) -> (r: LineKind)
    ensures
        r == kind_at(i as int),
{
    if i == 0 {
        LineKind::Acquire
    } else if i == 1 {
        LineKind::Discard
    } else if i == 2 {
        LineKind::Purchase
    } else if i == 3 {
        LineKind::Steal
    } else if i == 4 {
        LineKind::OfferTrade
    } else if i == 5 {
        LineKind::AcceptTrade
    } else if i == 6 {
        LineKind::YearOfPlenty
    } else if i == 7 {
        LineKind::BankTrade
    } else if i == 8 {
        LineKind::Monopoly
    } else {
        LineKind::Roll
    }
}

/// The pattern of a kind of line.
fn pattern_of(kind: LineKind) -> (r: &'static str)
    ensures
        r@ == pattern_text(kind),
{
    match kind {
        LineKind::Acquire => "(?:Guest|bot|User)?(\\w+(?:#\\d+)?) (?:got|received starting resources) ((?:(?:lumber|brick|wool|grain|ore|card) ?)+)",
        LineKind::Discard => "(?:Guest|bot|User)?(\\w+(?:#\\d+)?) discarded ((?:(?:lumber|brick|wool|grain|ore|card) ?)+)",
        LineKind::Purchase => "(?:Guest|bot|User)?(\\w+(?:#\\d+)?) (?:built a|bought) (road|settlement|city|development card)",
        LineKind::Steal => "(?:Guest|bot|User)?(\\w+(?:#\\d+)?) stole ((?:(?:lumber|brick|wool|grain|ore|card) ?)+) from? (?:Guest|bot|User)?(\\w+(?:#\\d+)?)",
        LineKind::OfferTrade => "(?:Guest|bot|User)?(\\w+(?:#\\d+)?) wants to give( (?:Guest|bot|User)?(\\w+(?:#\\d+)?))? ((?:(?:lumber|brick|wool|grain|ore|card) ?)+) for ((?:(?:lumber|brick|wool|grain|ore|card) ?)+)",
        LineKind::AcceptTrade => "(?:Guest|bot|User)?(\\w+(?:#\\d+)?) traded ((?:(?:lumber|brick|wool|grain|ore|card) ?)+) for ((?:(?:lumber|brick|wool|grain|ore|card) ?)+) with (?:Guest|bot|User)?(\\w+(?:#\\d+)?)",
        LineKind::YearOfPlenty => "(?:Guest|bot|User)?(\\w+(?:#\\d+)?) took from bank ((?:(?:lumber|brick|wool|grain|ore|card) ?)+)",
        LineKind::BankTrade => "(?:Guest|bot|User)?(\\w+(?:#\\d+)?) gave bank ((?:(?:lumber|brick|wool|grain|ore|card) ?)+) and took ((?:(?:lumber|brick|wool|grain|ore|card) ?)+)",
        LineKind::Monopoly => "(?:Guest|bot|User)?(\\w+(?:#\\d+)?) stole (\\d+) ((?:(?:lumber|brick|wool|grain|ore|card) ?)+)",
        LineKind::Roll => "(?:Guest|bot|User)?(\\w+(?:#\\d+)?) rolled (?:dice_([1-6])) (?:dice_([1-6]))",
    }
}

/// The first pattern, from position `i` on, that matches `text`, with its groups.
pub open spec fn first_match_from(text: Seq<char>, i: int) -> Option<(LineKind, Seq<Option<Seq<char>>>)>
    decreases N_PATTERNS - i,
{
    if i < 0 || i >= N_PATTERNS {
        None
    } else {
        match crate::patterns::regex_captures(pattern_text(kind_at(i)), text) {
            Some(c) => Some((kind_at(i), c)),
            None => first_match_from(text, i + 1),
        }
    }
}

/// The roster: each known name with its seat.
pub type Roster = Seq<(Seq<char>, usize)>;

/// The seat of the last roster entry named `name`.
pub open spec fn lookup(roster: Roster, name: Seq<char>) -> Option<usize>
    decreases roster.len(),
{
    if roster.len() == 0 {
        None
    } else if roster.last().0 == name {
        Some(roster.last().1)
    } else {
        lookup(roster.drop_last(), name)
    }
}

/// One more than the largest seat in the roster; 0 for an empty roster.
pub open spec fn next_seat(roster: Roster) -> nat
    decreases roster.len(),
{
    if roster.len() == 0 {
        0
    } else {
        let m = next_seat(roster.drop_last());
        if roster.last().1 + 1 > m {
            (roster.last().1 + 1) as nat
        } else {
            m
        }
    }
}

/// The seat of `name`, giving a new name the next seat; fails when no seat is left.
pub open spec fn register(roster: Roster, name: Seq<char>) -> (Roster, Result<usize, ParseError>) {
    match lookup(roster, name) {
        Some(s) => (roster, Ok(s)),
        None => if next_seat(roster) < MAX_PLAYERS {
            (roster.push((name, next_seat(roster) as usize)), Ok(next_seat(roster) as usize))
        } else {
            (roster, Err(ParseError::TooManyPlayers))
        },
    }
}

/// Group `i` of a match, where it took part.
pub open spec fn group(caps: Seq<Option<Seq<char>>>, i: int) -> Option<Seq<char>> {
    if 0 <= i < caps.len() {
        caps[i]
    } else {
        None
    }
}

/// The seat of the player that group `i` names.
pub open spec fn seat_at(roster: Roster, caps: Seq<Option<Seq<char>>>, i: int) -> (Roster, Result<usize, ParseError>) {
    match group(caps, i) {
        Some(name) => register(roster, name),
        None => (roster, Err(ParseError::Unrecognized)),
    }
}

/// The hand that group `i` describes.
pub open spec fn hand_at(caps: Seq<Option<Seq<char>>>, i: int) -> Option<Hand> {
    match group(caps, i) {
        Some(t) => hand_in_text(t),
        None => None,
    }
}

/// Value of a string of decimal digits.
pub open spec fn digits_value(s: Seq<char>) -> int
    decreases s.len(),
{
    if s.len() == 0 {
        0
    } else {
        digits_value(s.drop_last()) * 10 + (s.last() as int - '0' as int)
    }
}

/// Every character is an ASCII digit.
pub open spec fn all_digits(s: Seq<char>) -> bool {
    forall|i: int| 0 <= i < s.len() ==> '0' <= #[trigger] s[i] <= '9'
}

/// The number that group `i` writes in decimal digits, if it fits 8 bits.
pub open spec fn number_at(caps: Seq<Option<Seq<char>>>, i: int) -> Option<u8> {
    match group(caps, i) {
        Some(t) => if t.len() > 0 && all_digits(t) && digits_value(t) <= 255 {
            Some(digits_value(t) as u8)
        } else {
            None
        },
        None => None,
    }
}

/// The event that a match of the pattern of `kind` with groups `caps` describes, and the
/// roster after the players it names are seated. The seats are taken in the order the
/// fields are read; a field that does not read ends the reading.
pub open spec fn captures_event(roster: Roster, kind: LineKind, caps: Seq<Option<Seq<char>>>) -> (Roster, Result<Event, ParseError>) {
    let (r1, p) = seat_at(roster, caps, 1);
    match p {
        Err(e) => (r1, Err(e)),
        Ok(p) => match kind {
            LineKind::Acquire => match hand_at(caps, 2) {
                Some(h) => (r1, Ok(Event::Acquire(p, h))),
                None => (r1, Err(ParseError::Unrecognized)),
            },
            LineKind::Discard => match hand_at(caps, 2) {
                Some(h) => (r1, Ok(Event::Discard(p, h))),
                None => (r1, Err(ParseError::Unrecognized)),
            },
            LineKind::YearOfPlenty => match hand_at(caps, 2) {
                Some(h) => (r1, Ok(Event::YearOfPlenty(p, h))),
                None => (r1, Err(ParseError::Unrecognized)),
            },
            LineKind::Purchase => match group(caps, 2) {
                Some(t) => match item_named(t) {
                    Some(item) => (r1, Ok(Event::Purchase(p, item))),
                    None => (r1, Err(ParseError::Unrecognized)),
                },
                None => (r1, Err(ParseError::Unrecognized)),
            },
            LineKind::Steal => {
                let (r2, v) = seat_at(r1, caps, 3);
                match v {
                    Err(e) => (r2, Err(e)),
                    Ok(v) => match group(caps, 2) {
                        Some(t) => match resource_named(t) {
                            Some(res) => (r2, Ok(Event::StealKnown(p, v, res))),
                            None => (r2, Ok(Event::Steal(p, v))),
                        },
                        None => (r2, Err(ParseError::Unrecognized)),
                    },
                }
            },
            LineKind::OfferTrade => match (hand_at(caps, 4), hand_at(caps, 5)) {
                (Some(offer), Some(request)) => (r1, Ok(Event::OfferTrade { player: p, offer, request })),
                _ => (r1, Err(ParseError::Unrecognized)),
            },
            LineKind::AcceptTrade => match (hand_at(caps, 2), hand_at(caps, 3)) {
                (Some(offer), Some(request)) => {
                    let (r2, c) = seat_at(r1, caps, 4);
                    match c {
                        Err(e) => (r2, Err(e)),
                        Ok(c) => (r2, Ok(Event::AcceptTrade { player: p, offer, request, counterparty: c })),
                    }
                },
                _ => (r1, Err(ParseError::Unrecognized)),
            },
            LineKind::BankTrade => match (hand_at(caps, 2), hand_at(caps, 3)) {
                (Some(offer), Some(request)) => (r1, Ok(Event::BankTrade { player: p, offer, request })),
                _ => (r1, Err(ParseError::Unrecognized)),
            },
            LineKind::Monopoly => match (number_at(caps, 2), group(caps, 3)) {
                (Some(n), Some(t)) => match resource_named(t) {
                    Some(res) => (r1, Ok(Event::Monopoly(p, n, res))),
                    None => (r1, Err(ParseError::Unrecognized)),
                },
                _ => (r1, Err(ParseError::Unrecognized)),
            },
            LineKind::Roll => match (number_at(caps, 2), number_at(caps, 3)) {
                (Some(a), Some(b)) => if a + b <= 255 {
                    (r1, Ok(Event::Roll(p, (a + b) as u8)))
                } else {
                    (r1, Err(ParseError::Unrecognized))
                },
                _ => (r1, Err(ParseError::Unrecognized)),
            },
        },
    }
}

/// A line with every colon taken out.
pub open spec fn without_colons(line: Seq<char>) -> Seq<char> {
    line.filter(|c: char| c != ':')
}

/// The event that a log line describes, and the roster after: the colons are taken out and
/// the patterns tried in order; the first that matches decides.
pub open spec fn line_event(roster: Roster, line: Seq<char>) -> (Roster, Result<Event, ParseError>) {
    match first_match_from(without_colons(line), 0) {
        Some((kind, caps)) => captures_event(roster, kind, caps),
        None => (roster, Err(ParseError::Unrecognized)),
    }
}

/// Takes every colon out of a line.
fn strip_colons(line: &str) -> (r: String)
    ensures
        r@ == without_colons(line@),
{
    let ghost pred = |c: char| c != ':';
    let n = line.unicode_len();
    let mut r = String::new();
    let mut i: usize = 0;
    while i < n
        invariant
            n == line@.len(),
            i <= n,
            pred == (|c: char| c != ':'),
            r@ == line@.take(i as int).filter(pred),
        decreases n - i,
    {
        let c = line.get_char(i);
        proof {
            reveal(Seq::filter);
            assert(line@.take(i + 1).drop_last() =~= line@.take(i as int));
            assert(line@.take(i + 1).last() == c);
        }
        if c != ':' {
            let piece = line.substring_char(i, i + 1);
            proof {
                assert(piece@ =~= seq![c]);
            }
            r.append(piece);
            proof {
                assert(r@ =~= line@.take(i as int).filter(pred).push(c));
            }
        }
        i += 1;
    }
    proof {
        assert(line@.take(n as int) =~= line@);
    }
    r
}

/// The first pattern that matches `text`, with its groups.
fn match_line(text: &str) -> (r: Option<(LineKind, Vec<Option<String>>)>)
    ensures
        match r {
            Some((kind, caps)) => first_match_from(text@, 0) == Some((kind, groups_view(caps@))),
            None => first_match_from(text@, 0) is None,
        },
{
    let mut i: usize = 0;
    while i < N_PATTERNS
        invariant
            i <= N_PATTERNS,
            first_match_from(text@, 0) == first_match_from(text@, i as int),
        decreases N_PATTERNS - i,
    {
        let kind = kind_of(i);
        match captures(pattern_of(kind), text) {
            Some(caps) => {
                return Some((kind, caps));
            },
            None => {},
        }
        i += 1;
    }
    None
}

/// Reads a string of decimal digits whose value fits 8 bits.
fn read_number(s: &str) -> (r: Option<u8>)
    ensures
        r == (if s@.len() > 0 && all_digits(s@) && digits_value(s@) <= 255 {
            Some(digits_value(s@) as u8)
        } else {
            None
        }),
{
    let n = s.unicode_len();
    if n == 0 {
        return None;
    }
    let mut v: u32 = 0;
    let mut i: usize = 0;
    while i < n
        invariant
            n == s@.len(),
            i <= n,
            all_digits(s@.take(i as int)),
            v == digits_value(s@.take(i as int)),
            v <= 255,
        decreases n - i,
    {
        let c = s.get_char(i);
        proof {
            assert(s@.take(i + 1).drop_last() =~= s@.take(i as int));
            assert(s@.take(i + 1).last() == c);
        }
        if c < '0' || c > '9' {
            proof {
                assert(!all_digits(s@));
            }
            return None;
        }
        let d = (c as u32) - ('0' as u32);
        let w = v * 10 + d;
        if w > 255 {
            proof {
                lemma_digits_prefix(s@, i + 1);
                assert(forall|j: int| 0 <= j < i + 1 ==> s@.take(i + 1)[j] == s@[j]);
            }
            return None;
        }
        v = w;
        proof {
            assert forall|j: int| 0 <= j < i + 1 implies '0' <= #[trigger] s@.take(i + 1)[j] <= '9' by {
                if j < i {
                    assert(s@.take(i + 1)[j] == s@.take(i as int)[j]);
                }
            }
        }
        i += 1;
    }
    proof {
        assert(s@.take(n as int) =~= s@);
    }
    Some(v as u8)
}

/// A prefix of a string of digits is worth no more than the whole.
pub proof fn lemma_digits_prefix(s: Seq<char>, i: int)
    requires
        0 <= i <= s.len(),
        all_digits(s.take(i)),
    ensures
        all_digits(s) ==> digits_value(s.take(i)) <= digits_value(s),
    decreases s.len(),
{
    if i < s.len() && all_digits(s) {
        assert(s.take(i) =~= s.drop_last().take(i));
        assert forall|j: int| 0 <= j < s.drop_last().len() implies '0' <= #[trigger] s.drop_last()[j] <= '9' by {
            assert(s.drop_last()[j] == s[j]);
        }
        lemma_digits_prefix(s.drop_last(), i);
        lemma_digits_nonneg(s.drop_last());
        assert('0' <= s[s.len() - 1] <= '9');
    } else if i == s.len() {
        assert(s.take(i) =~= s);
    }
}

/// A string of digits has a non-negative value.
pub proof fn lemma_digits_nonneg(s: Seq<char>)
    requires
        all_digits(s),
    ensures
        digits_value(s) >= 0,
    decreases s.len(),
{
    if s.len() > 0 {
        assert forall|j: int| 0 <= j < s.drop_last().len() implies '0' <= #[trigger] s.drop_last()[j] <= '9' by {
            assert(s.drop_last()[j] == s[j]);
        }
        lemma_digits_nonneg(s.drop_last());
        assert('0' <= s[s.len() - 1] <= '9');
    }
}

/// The decimal digits of `n`, most significant first.
pub open spec fn decimal(n: nat) -> Seq<char>
    decreases n,
{
    if n < 10 {
        seq![(n + '0' as nat) as char]
    } else {
        decimal(n / 10).push(((n % 10) + '0' as nat) as char)
    }
}

/// Relies on `ToString` for `usize` (its `Display`): the decimal digits of the number.
#[verifier::external_body]
fn decimal_string(n: usize) -> (r: String)
    ensures
        r@ == decimal(n as nat),
{
    n.to_string()
}

/// The lines of a text, as `str::lines` splits it.
pub uninterp spec fn text_lines(text: Seq<char>) -> Seq<Seq<char>>;

/// Relies on `str::lines`: the lines of the text, without their line endings.
#[verifier::external_body]
fn split_lines(text: &str) -> (r: Vec<String>)
    ensures
        strings_view(r@) == text_lines(text@),
{
    text.lines().map(|l| l.to_string()).collect()
}

/// The name of the first roster entry with seat `id`.
pub open spec fn name_of(roster: Roster, id: usize) -> Option<Seq<char>>
    decreases roster.len(),
{
    if roster.len() == 0 {
        None
    } else {
        match name_of(roster.drop_last(), id) {
            Some(n) => Some(n),
            None => if roster.last().1 == id {
                Some(roster.last().0)
            } else {
                None
            },
        }
    }
}

/// The roster of a parser for the local player `username`: that name, `you` and `You`,
/// all at seat 0.
pub open spec fn initial_roster(username: Seq<char>) -> Roster {
    if username == "you"@ || username == "You"@ {
        seq![("you"@, 0usize), ("You"@, 0usize)]
    } else {
        seq![(username, 0usize), ("you"@, 0usize), ("You"@, 0usize)]
    }
}

/// The events of the lines read in order, and the roster after; lines that do not read are
/// skipped, and running out of seats ends the reading.
pub open spec fn lines_events(roster: Roster, lines: Seq<Seq<char>>) -> (Roster, Result<Seq<Event>, ParseError>)
    decreases lines.len(),
{
    if lines.len() == 0 {
        (roster, Ok(Seq::empty()))
    } else {
        let (r0, acc) = lines_events(roster, lines.drop_last());
        match acc {
            Err(e) => (r0, Err(e)),
            Ok(evs) => {
                let (r1, e) = line_event(r0, lines.last());
                match e {
                    Ok(ev) => (r1, Ok(evs.push(ev))),
                    Err(ParseError::TooManyPlayers) => (r1, Err(ParseError::TooManyPlayers)),
                    Err(ParseError::Unrecognized) => (r1, Ok(evs)),
                }
            },
        }
    }
}

/// Reads game-log lines into events, keeping the mapping from player names to seats.
pub struct Parser {
    players: Vec<(String, usize)>,
    /// Colors for each player
    colors: [(u8, u8, u8); MAX_PLAYERS],
}

impl Parser {
    /// Each known name with its seat, in the order they were seated.
    pub closed spec fn roster(&self) -> Roster {
        self.players@.map_values(|e: (String, usize)| (e.0@, e.1))
    }

    /// The color shown for seat `seat`.
    pub closed spec fn color_of(&self, seat: int) -> (u8, u8, u8) {
        self.colors[seat]
    }

    /// Every seat in the roster is below `MAX_PLAYERS`.
    pub open spec fn wf(&self) -> bool {
        forall|i: int| 0 <= i < self.roster().len() ==> (#[trigger] self.roster()[i]).1 < MAX_PLAYERS
    }

    /// A parser that knows no player yet.
    pub fn new() -> (r: Parser)
        ensures
            r.wf(),
            r.roster() == Seq::<(Seq<char>, usize)>::empty(),
            forall|q: int| 0 <= q < MAX_PLAYERS ==> #[trigger] r.color_of(q) == (255u8, 255u8, 255u8),
    {
        let r = Parser { players: Vec::new(), colors: [(255, 255, 255); MAX_PLAYERS] };
        proof {
            assert(r.roster() =~= Seq::<(Seq<char>, usize)>::empty());
        }
        r
    }

    /// A parser for the local player `username`, who sits at seat 0 under that name and as
    /// `you` or `You`.
    pub fn with_username(username: String) -> (r: Parser)
        ensures
            r.wf(),
            r.roster() == initial_roster(username@),
            forall|q: int| 0 <= q < MAX_PLAYERS ==> #[trigger] r.color_of(q) == (0u8, 0u8, 0u8),
    {
        let mut players: Vec<(String, usize)> = Vec::new();
        let is_you = str_is(username.as_str(), "you") || str_is(username.as_str(), "You");
        if !is_you {
            players.push((username, 0));
        }
        players.push((String::from_str("you"), 0));
        players.push((String::from_str("You"), 0));
        let r = Parser { players, colors: [(0, 0, 0); MAX_PLAYERS] };
        proof {
            assert(r.roster() =~= initial_roster(username@));
        }
        r
    }

    /// Each known name with its seat and color.
    pub fn players(&self) -> (r: Vec<(String, usize, (u8, u8, u8))>)
        requires
            self.wf(),
        ensures
            r@.len() == self.roster().len(),
            forall|i: int|
                0 <= i < r@.len() ==> (#[trigger] r@[i]).0@ == self.roster()[i].0 && r@[i].1
                    == self.roster()[i].1 && r@[i].2 == self.color_of(self.roster()[i].1 as int),
    {
        let n = self.players.len();
        let mut r: Vec<(String, usize, (u8, u8, u8))> = Vec::new();
        let mut i: usize = 0;
        while i < n
            invariant
                n == self.roster().len(),
                self.wf(),
                i <= n,
                r@.len() == i,
                forall|j: int|
                    0 <= j < i ==> (#[trigger] r@[j]).0@ == self.roster()[j].0 && r@[j].1
                        == self.roster()[j].1 && r@[j].2 == self.color_of(self.roster()[j].1 as int),
            decreases n - i,
        {
            let entry = &self.players[i];
            let seat = entry.1;
            proof {
                assert(self.roster()[i as int] == (entry.0@, seat));
            }
            r.push((entry.0.clone(), seat, self.colors[seat]));
            i += 1;
        }
        r
    }

    /// Sets the color shown for a seat.
    pub fn set_color(&mut self, seat: usize, color: (u8, u8, u8))
        requires
            seat < MAX_PLAYERS,
        ensures
            final(self).roster() == old(self).roster(),
            final(self).color_of(seat as int) == color,
            forall|q: int| 0 <= q < MAX_PLAYERS && q != seat ==> #[trigger] final(self).color_of(q) == old(self).color_of(q),
    {
        self.colors[seat] = color;
    }

    /// The seat of the player `name`; a new name gets the next seat.
    fn player_idx(&mut self, name: &str) -> (r: Result<usize, ParseError>)
        requires
            old(self).wf(),
        ensures
            final(self).wf(),
            (final(self).roster(), r) == register(old(self).roster(), name@),
            forall|q: int| 0 <= q < MAX_PLAYERS ==> #[trigger] final(self).color_of(q) == old(self).color_of(q),
    {
        let ghost ro = self.roster();
        let n = self.players.len();
        let mut found: Option<usize> = None;
        let mut next: usize = 0;
        let mut i: usize = 0;
        while i < n
            invariant
                ro == self.roster(),
                self.wf(),
                n == ro.len(),
                i <= n,
                found == lookup(ro.take(i as int), name@),
                next == next_seat(ro.take(i as int)),
                next <= MAX_PLAYERS,
            decreases n - i,
        {
            let entry = &self.players[i];
            let seat = entry.1;
            proof {
                assert(ro[i as int] == (entry.0@, seat));
                assert(ro.take(i + 1).drop_last() =~= ro.take(i as int));
                assert(ro.take(i + 1).last() == ro[i as int]);
            }
            if str_is(entry.0.as_str(), name) {
                found = Some(seat);
            }
            if seat + 1 > next {
                next = seat + 1;
            }
            i += 1;
        }
        proof {
            assert(ro.take(n as int) =~= ro);
        }
        match found {
            Some(s) => Ok(s),
            None => {
                if next < MAX_PLAYERS {
                    self.players.push((String::from_str(name), next));
                    proof {
                        assert(self.roster() =~= ro.push((name@, next)));
                    }
                    Ok(next)
                } else {
                    Err(ParseError::TooManyPlayers)
                }
            },
        }
    }

    /// The name of the player at seat `id`, or `Player <id>` where none is known.
    pub fn player_name(&self, id: usize) -> (r: String)
        ensures
            r@ == match name_of(self.roster(), id) {
                Some(n) => n,
                None => "Player "@ + decimal(id as nat),
            },
    {
        let ghost ro = self.roster();
        let n = self.players.len();
        let mut i: usize = 0;
        while i < n
            invariant
                ro == self.roster(),
                n == ro.len(),
                i <= n,
                name_of(ro.take(i as int), id) is None,
            decreases n - i,
        {
            let entry = &self.players[i];
            proof {
                assert(ro[i as int] == (entry.0@, entry.1));
                assert(ro.take(i + 1).drop_last() =~= ro.take(i as int));
                assert(ro.take(i + 1).last() == ro[i as int]);
            }
            if entry.1 == id {
                proof {
                    lemma_name_of_prefix(ro, id, i + 1);
                }
                return entry.0.clone();
            }
            i += 1;
        }
        proof {
            assert(ro.take(n as int) =~= ro);
        }
        let r = String::from_str("Player ").concat(decimal_string(id).as_str());
        r
    }
}

/// A name found in a prefix of the roster is the name found in the whole.
pub proof fn lemma_name_of_prefix(roster: Roster, id: usize, i: int)
    requires
        0 <= i <= roster.len(),
        name_of(roster.take(i), id) is Some,
    ensures
        name_of(roster, id) == name_of(roster.take(i), id),
    decreases roster.len(),
{
    if i < roster.len() {
        assert(roster.take(i) =~= roster.drop_last().take(i));
        lemma_name_of_prefix(roster.drop_last(), id, i);
    } else {
        assert(roster.take(i) =~= roster);
    }
}

/// Group `i` of a match, where it took part.
fn group_of(caps: &Vec<Option<String>>, i: usize) -> (r: Option<String>)
    ensures
        match r {
            Some(t) => group(groups_view(caps@), i as int) == Some(t@),
            None => group(groups_view(caps@), i as int) is None,
        },
{
    if i < caps.len() {
        match &caps[i] {
            Some(t) => Some(t.clone()),
            None => None,
        }
    } else {
        None
    }
}

/// The hand that group `i` describes.
fn hand_from(caps: &Vec<Option<String>>, i: usize) -> (r: Option<Hand>)
    ensures
        r == hand_at(groups_view(caps@), i as int),
{
    match group_of(caps, i) {
        Some(t) => Hand::from_text(t.as_str()),
        None => None,
    }
}

/// The number that group `i` writes in decimal digits, if it fits 8 bits.
fn number_from(caps: &Vec<Option<String>>, i: usize) -> (r: Option<u8>)
    ensures
        r == number_at(groups_view(caps@), i as int),
{
    match group_of(caps, i) {
        Some(t) => read_number(t.as_str()),
        None => None,
    }
}

impl Parser {
    /// The seat of the player that group `i` names.
    fn seat_from(&mut self, caps: &Vec<Option<String>>, i: usize) -> (r: Result<usize, ParseError>)
        requires
            old(self).wf(),
        ensures
            final(self).wf(),
            (final(self).roster(), r) == seat_at(old(self).roster(), groups_view(caps@), i as int),
            forall|q: int| 0 <= q < MAX_PLAYERS ==> #[trigger] final(self).color_of(q) == old(self).color_of(q),
    {
        match group_of(caps, i) {
            Some(name) => self.player_idx(name.as_str()),
            None => Err(ParseError::Unrecognized),
        }
    }

    /// The event that a match of the pattern of `kind` with groups `caps` describes; the
    /// players it names are seated as its fields are read.
    pub fn parse_captures(&mut self, kind: LineKind, caps: &Vec<Option<String>>) -> (r: Result<Event, ParseError>)
        requires
            old(self).wf(),
        ensures
            final(self).wf(),
            (final(self).roster(), r) == captures_event(old(self).roster(), kind, groups_view(caps@)),
            forall|q: int| 0 <= q < MAX_PLAYERS ==> #[trigger] final(self).color_of(q) == old(self).color_of(q),
    {
        let p = match self.seat_from(caps, 1) {
            Err(e) => return Err(e),
            Ok(p) => p,
        };
        match kind {
            LineKind::Acquire => match hand_from(caps, 2) {
                Some(h) => Ok(Event::Acquire(p, h)),
                None => Err(ParseError::Unrecognized),
            },
            LineKind::Discard => match hand_from(caps, 2) {
                Some(h) => Ok(Event::Discard(p, h)),
                None => Err(ParseError::Unrecognized),
            },
            LineKind::YearOfPlenty => match hand_from(caps, 2) {
                Some(h) => Ok(Event::YearOfPlenty(p, h)),
                None => Err(ParseError::Unrecognized),
            },
            LineKind::Purchase => match group_of(caps, 2) {
                Some(t) => match Item::from_name(t.as_str()) {
                    Some(item) => Ok(Event::Purchase(p, item)),
                    None => Err(ParseError::Unrecognized),
                },
                None => Err(ParseError::Unrecognized),
            },
            LineKind::Steal => {
                let v = match self.seat_from(caps, 3) {
                    Err(e) => return Err(e),
                    Ok(v) => v,
                };
                match group_of(caps, 2) {
                    Some(t) => match Resource::from_name(t.as_str()) {
                        Some(res) => Ok(Event::StealKnown(p, v, res)),
                        None => Ok(Event::Steal(p, v)),
                    },
                    None => Err(ParseError::Unrecognized),
                }
            },
            LineKind::OfferTrade => match (hand_from(caps, 4), hand_from(caps, 5)) {
                (Some(offer), Some(request)) => Ok(Event::OfferTrade { player: p, offer, request }),
                _ => Err(ParseError::Unrecognized),
            },
            LineKind::AcceptTrade => match (hand_from(caps, 2), hand_from(caps, 3)) {
                (Some(offer), Some(request)) => match self.seat_from(caps, 4) {
                    Err(e) => Err(e),
                    Ok(c) => Ok(Event::AcceptTrade { player: p, offer, request, counterparty: c }),
                },
                _ => Err(ParseError::Unrecognized),
            },
            LineKind::BankTrade => match (hand_from(caps, 2), hand_from(caps, 3)) {
                (Some(offer), Some(request)) => Ok(Event::BankTrade { player: p, offer, request }),
                _ => Err(ParseError::Unrecognized),
            },
            LineKind::Monopoly => match (number_from(caps, 2), group_of(caps, 3)) {
                (Some(n), Some(t)) => match Resource::from_name(t.as_str()) {
                    Some(res) => Ok(Event::Monopoly(p, n, res)),
                    None => Err(ParseError::Unrecognized),
                },
                _ => Err(ParseError::Unrecognized),
            },
            LineKind::Roll => match (number_from(caps, 2), number_from(caps, 3)) {
                (Some(a), Some(b)) => if a as u16 + b as u16 <= 255 {
                    Ok(Event::Roll(p, a + b))
                } else {
                    Err(ParseError::Unrecognized)
                },
                _ => Err(ParseError::Unrecognized),
            },
        }
    }

    /// Reads one log line: colons are taken out, the patterns are tried in order and the
    /// first that matches gives the event.
    pub fn parse_line(&mut self, value: &str) -> (r: Result<Event, ParseError>)
        requires
            old(self).wf(),
        ensures
            final(self).wf(),
            (final(self).roster(), r) == line_event(old(self).roster(), value@),
            forall|q: int| 0 <= q < MAX_PLAYERS ==> #[trigger] final(self).color_of(q) == old(self).color_of(q),
    {
        let text = strip_colons(value);
        match match_line(text.as_str()) {
            Some((kind, caps)) => self.parse_captures(kind, &caps),
            None => Err(ParseError::Unrecognized),
        }
    }

    /// Reads every line of a text, in order, skipping those that give no event; fails when
    /// a line names a player for whom no seat is left.
    pub fn parse_text(&mut self, text: &str) -> (r: Result<Vec<Event>, ParseError>)
        requires
            old(self).wf(),
        ensures
            final(self).wf(),
            ({
                let (ro, res) = lines_events(old(self).roster(), text_lines(text@));
                final(self).roster() == ro && match r {
                    Ok(evs) => res == Ok::<Seq<Event>, ParseError>(evs@),
                    Err(e) => res == Err::<Seq<Event>, ParseError>(e),
                }
            }),
    {
        let lines = split_lines(text);
        let ghost ls = strings_view(lines@);
        let ghost r0 = self.roster();
        let n = lines.len();
        let mut events: Vec<Event> = Vec::new();
        let mut i: usize = 0;
        while i < n
            invariant
                self.wf(),
                ls == strings_view(lines@),
                ls == text_lines(text@),
                r0 == old(self).roster(),
                n == ls.len(),
                i <= n,
                lines_events(r0, ls.take(i as int)) == (self.roster(), Ok::<Seq<Event>, ParseError>(events@)),
            decreases n - i,
        {
            proof {
                assert(ls.take(i + 1).drop_last() =~= ls.take(i as int));
                assert(ls.take(i + 1).last() == lines@[i as int]@);
            }
            let ghost before = self.roster();
            match self.parse_line(lines[i].as_str()) {
                Ok(ev) => {
                    events.push(ev);
                },
                Err(ParseError::TooManyPlayers) => {
                    proof {
                        assert(line_event(before, ls.take(i + 1).last()) == (
                            self.roster(),
                            Err::<Event, ParseError>(ParseError::TooManyPlayers),
                        ));
                        assert(lines_events(r0, ls.take(i + 1)) == (
                            self.roster(),
                            Err::<Seq<Event>, ParseError>(ParseError::TooManyPlayers),
                        ));
                        lemma_lines_events_stop(r0, ls, i + 1);
                        assert(lines_events(r0, ls) == (
                            self.roster(),
                            Err::<Seq<Event>, ParseError>(ParseError::TooManyPlayers),
                        ));
                    }
                    return Err(ParseError::TooManyPlayers);
                },
                Err(ParseError::Unrecognized) => {},
            }
            i += 1;
        }
        proof {
            assert(ls.take(n as int) =~= ls);
        }
        Ok(events)
    }
}

/// Once the reading fails, later lines change nothing.
pub proof fn lemma_lines_events_stop(roster: Roster, lines: Seq<Seq<char>>, i: int)
    requires
        0 <= i <= lines.len(),
        lines_events(roster, lines.take(i)).1 is Err,
    ensures
        lines_events(roster, lines) == lines_events(roster, lines.take(i)),
    decreases lines.len(),
{
    if i < lines.len() {
        assert(lines.take(i) =~= lines.drop_last().take(i));
        lemma_lines_events_stop(roster, lines.drop_last(), i);
    } else {
        assert(lines.take(i) =~= lines);
    }
}

/// The color that a style text such as `color: rgb(95, 185, 60)` gives: the first three
/// numbers written `r, g, b`, if each fits 8 bits.
pub open spec fn color_in(text: Seq<char>) -> Option<(u8, u8, u8)> {
    match crate::patterns::regex_captures("(\\d+), (\\d+), (\\d+)"@, text) {
        Some(caps) => match (number_at(caps, 1), number_at(caps, 2), number_at(caps, 3)) {
            (Some(r), Some(g), Some(b)) => Some((r, g, b)),
            _ => None,
        },
        None => None,
    }
}

/// Reads the color that a style text gives.
pub fn parse_color(text: &str) -> (r: Option<(u8, u8, u8)>)
    ensures
        r == color_in(text@),
{
    match captures("(\\d+), (\\d+), (\\d+)", text) {
        Some(caps) => match (number_from(&caps, 1), number_from(&caps, 2), number_from(&caps, 3)) {
            (Some(r), Some(g), Some(b)) => Some((r, g, b)),
            _ => None,
        },
        None => None,
    }
}

impl Parser {
    /// Reads one chat message shown in `color`; a player who acquires cards is shown in
    /// that color from then on.
    pub fn read_message(&mut self, color: (u8, u8, u8), text: &str) -> (r: Result<Event, ParseError>)
        requires
            old(self).wf(),
        ensures
            final(self).wf(),
            (final(self).roster(), r) == line_event(old(self).roster(), text@),
            forall|q: int|
                0 <= q < MAX_PLAYERS ==> #[trigger] final(self).color_of(q) == match r {
                    Ok(Event::Acquire(p, _)) => if q == p {
                        color
                    } else {
                        old(self).color_of(q)
                    },
                    _ => old(self).color_of(q),
                },
    {
        let r = self.parse_line(text);
        if let Ok(Event::Acquire(p, _)) = r {
            if p < MAX_PLAYERS {
                self.set_color(p, color);
            }
        }
        r
    }
}

} // verus!
