use chatrelay::game::curio::Curio;
use chatrelay::game::player::Command;
use chatrelay::game::player::Player;
use chatrelay::game::room::Room;
use chatrelay::hanoi::Peg;
use chatrelay::hanoi::hanoi;
use chatrelay::message::Message;
use chatrelay::message::assemble_page;
use chatrelay::message::board_record;
use chatrelay::message::decode_message;
use chatrelay::message::encode_message;
use chatrelay::primes::sieve;
use chatrelay::vecutil::dedup;
use chatrelay::vecutil::filter;
use chatrelay::vecutil::sum;

#[test]
fn sum_small() {
    assert_eq!(sum(&[]), 0);
    assert_eq!(sum(&[1, 2, 3, 4]), 10);
    assert_eq!(sum(&[-5, 5, 7]), 7);
}

#[test]
fn dedup_keeps_first_instances() {
    assert_eq!(dedup(&vec![1, 2, 2, 3, 2, 1, 4]), vec![1, 2, 3, 4]);
    assert_eq!(dedup(&vec![]), vec![]);
    assert_eq!(dedup(&vec![7, 7, 7]), vec![7]);
}

#[test]
fn filter_keeps_satisfying_elements() {
    let evens = filter(&vec![1, 2, 3, 4, 5, 6], |x: i32| x % 2 == 0);
    assert_eq!(evens, vec![2, 4, 6]);
    let none = filter(&vec![1, 3, 5], |x: i32| x % 2 == 0);
    assert_eq!(none, Vec::<i32>::new());
}

#[test]
fn sieve_small() {
    assert_eq!(sieve(7), vec![2, 3, 5]);
    assert_eq!(sieve(2), Vec::<u32>::new());
    assert_eq!(sieve(0), Vec::<u32>::new());
    assert_eq!(sieve(30), vec![2, 3, 5, 7, 11, 13, 17, 19, 23, 29]);
}

#[test]
fn hanoi_small() {
    assert_eq!(hanoi(1, Peg::A, Peg::B, Peg::C), vec![(Peg::A, Peg::C)]);
    assert_eq!(
        hanoi(2, Peg::A, Peg::B, Peg::C),
        vec![(Peg::A, Peg::B), (Peg::A, Peg::C), (Peg::B, Peg::C)]
    );
    assert_eq!(hanoi(4, Peg::A, Peg::B, Peg::C).len(), 15);
}

#[test]
fn curio_arithmetic() {
    let mut p = Player::new(0);
    assert_eq!(p.hp, 25);
    assert_eq!(p.gold, 0);
    p.use_curio(Curio::Chest(7));
    assert_eq!(p.gold, 7);
    p.use_curio(Curio::SpikeTrap(10));
    assert_eq!(p.hp, 15);
    p.use_curio(Curio::Food(100));
    assert_eq!(p.hp, 25);
    p.use_curio(Curio::IronMaiden(Box::new(Curio::Chest(3)), 4));
    assert_eq!(p.hp, 21);
    assert_eq!(p.gold, 10);
    p.use_curio(Curio::FallenAdventurer(Box::new(Curio::SpikeTrap(1))));
    assert_eq!(p.hp, 20);
}

fn two_rooms() -> Vec<Room> {
    let mut start = Room::new();
    start.name = "Entrance".to_string();
    start.halls.push(1);
    let mut lair = Room::new();
    lair.name = "Lair".to_string();
    lair.halls.push(0);
    lair.contents.push(Curio::Chest(5));
    lair.contents.push(Curio::SpikeTrap(3));
    lair.wumpus = true;
    vec![start, lair]
}

#[test]
fn act_go_consumes_room() {
    let mut rooms = two_rooms();
    let mut p = Player::new(0);
    let r = p.act(&mut rooms, Command::Go("lair".to_string()));
    assert!(r.is_ok());
    assert_eq!(p.location, 1);
    assert_eq!(p.hp, 22);
    assert_eq!(p.gold, 5);
    assert!(rooms[1].contents.is_empty());
}

#[test]
fn act_shoot_wumpus() {
    let mut rooms = two_rooms();
    let mut p = Player::new(0);
    assert!(!p.won());
    let r = p.act(&mut rooms, Command::Shoot("LAIR".to_string()));
    assert!(r.is_ok());
    assert!(p.won());
    assert!(!rooms[1].wumpus);
    // Shooting an unknown room is an error and changes nothing.
    let r = p.act(&mut rooms, Command::Shoot("nowhere".to_string()));
    assert!(r.is_err());
}

#[test]
fn neighbors_string_joins_names() {
    let rooms = two_rooms();
    assert_eq!(rooms[0].neighbors_string(&rooms), "Lair");
    let mut hub = Room::new();
    hub.halls.push(0);
    hub.halls.push(1);
    assert_eq!(hub.neighbors_string(&rooms), "Entrance, Lair");
    let lonely = Room::new();
    assert_eq!(lonely.neighbors_string(&rooms), "");
}

#[test]
fn message_round_trip() {
    let m = Message::new("alice".to_string(), "choose a b c".to_string());
    let text = encode_message(&m);
    assert_eq!(text, "{\"user\":\"alice\",\"text\":\"choose a b c\"}");
    let back = decode_message(&text).unwrap();
    assert_eq!(back.user, "alice");
    assert_eq!(back.text, "choose a b c");
    assert!(decode_message("{\"user\":\"alice\"}").is_err());
    assert!(decode_message("not json").is_err());
}

#[test]
fn page_assembly() {
    assert_eq!(assemble_page("<h1>", Some("data"), "</h1>"), "<h1>data</h1>");
    assert_eq!(assemble_page("<h1>", None, "</h1>"), "<h1></h1>");
    let m = Message::new("bob".to_string(), "hi".to_string());
    assert_eq!(board_record(&m), "{\"user\":\"bob\",\"text\":\"hi\"}\n");
}
