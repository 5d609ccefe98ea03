//! The player: location, health and gold, and the effect of commands and
//! curios on them.

use crate::game::curio::Curio;
use crate::game::room::Room;
use vstd::prelude::*;

verus! {

/// Health is capped here.
pub const MAX_HP: i32 = 25;

/// What the player can do: move to a named neighbouring room, or shoot into
/// one.
pub enum Command {
    Go(String),
    Shoot(String),
}

/// The player: where they stand (an index into the room table), their
/// health and gold, and whether they have won.
pub struct Player {
    pub location: usize,
    pub hp: i32,
    pub gold: i32,
    pub won: bool,
}

/// The player's (hp, gold) after using one curio.
pub open spec fn apply_curio(hp: int, gold: int, c: Curio) -> (int, int)
    decreases c,
{
    match c {
        Curio::Chest(g) => (hp, gold + g),
        Curio::SpikeTrap(d) => (hp - d, gold),
        Curio::Food(h) => (if hp + h > MAX_HP { MAX_HP as int } else { hp + h }, gold),
        Curio::IronMaiden(sub, d) => apply_curio(hp - d, gold, *sub),
        Curio::FallenAdventurer(sub) => apply_curio(hp, gold, *sub),
    }
}

/// Whether every intermediate hp/gold value while using `c` stays within
/// `i32`.
pub open spec fn curio_fits(hp: int, gold: int, c: Curio) -> bool
    decreases c,
{
    match c {
        Curio::Chest(g) => i32::MIN <= gold + g <= i32::MAX,
        Curio::SpikeTrap(d) => i32::MIN <= hp - d <= i32::MAX,
        Curio::Food(h) => i32::MIN <= hp + h <= i32::MAX,
        Curio::IronMaiden(sub, d) => i32::MIN <= hp - d <= i32::MAX && curio_fits(
            hp - d,
            gold,
            *sub,
        ),
        Curio::FallenAdventurer(sub) => curio_fits(hp, gold, *sub),
    }
}

/// The player's (hp, gold) after draining a room's contents, which are
/// consumed from the back.
pub open spec fn drain_apply(hp: int, gold: int, contents: Seq<Curio>) -> (int, int)
    decreases contents.len(),
{
    if contents.len() == 0 {
        (hp, gold)
    } else {
        let next = apply_curio(hp, gold, contents.last());
        drain_apply(next.0, next.1, contents.drop_last())
    }
}

/// Whether draining `contents` keeps every intermediate value within `i32`.
pub open spec fn drain_fits(hp: int, gold: int, contents: Seq<Curio>) -> bool
    decreases contents.len(),
{
    if contents.len() == 0 {
        true
    } else {
        let next = apply_curio(hp, gold, contents.last());
        curio_fits(hp, gold, contents.last()) && drain_fits(next.0, next.1, contents.drop_last())
    }
}

/// Relies on `str::to_lowercase`: the result depends on the characters of
/// the input alone.
#[verifier::external_body]
fn lowercase(s: &str) -> (r: String)
    ensures
        r@ == lower_of(s@),
{
    s.to_lowercase()
}

/// The lowercase folding of a character sequence, as `str::to_lowercase`
/// computes it.
pub uninterp spec fn lower_of(s: Seq<char>) -> Seq<char>;

/// The room name a command asks for.
pub open spec fn command_name(cmd: Command) -> Seq<char> {
    match cmd {
        Command::Go(n) => n@,
        Command::Shoot(n) => n@,
    }
}

/// The index of the room that hall `j` of the room at `loc` leads to.
pub open spec fn hall_dst(rooms: Seq<Room>, loc: int, j: int) -> int {
    rooms[loc].halls@[j] as int
}

/// Whether hall `j` of the room at `loc` leads to a room whose lowercased
/// name equals the lowercased `name`.
pub open spec fn hall_matches(rooms: Seq<Room>, loc: int, j: int, name: Seq<char>) -> bool {
    lower_of(rooms[hall_dst(rooms, loc, j)].name@) == lower_of(name)
}

impl Player {
    /// A fresh player standing in the room at `location`, at full health.
    pub fn new(location: usize) -> (p: Player)
        ensures
            p.location == location,
            p.hp == MAX_HP,
            p.gold == 0,
            !p.has_won(),
    {
        Player { location, hp: MAX_HP, gold: 0, won: false }
    }

    /// Whether the player has shot the wumpus.
    pub closed spec fn has_won(self) -> bool {
        self.won
    }

    /// Whether the player has shot the wumpus, as executable code.
    pub fn won(&self) -> (r: bool)
        ensures
            r == self.has_won(),
    {
        self.won
    }

    /// Applies one curio to the player: chests give gold, traps and iron
    /// maidens hurt, food heals up to the cap, and containers are opened
    /// recursively.
    pub fn use_curio(&mut self, curio: Curio)
        requires
            curio_fits(old(self).hp as int, old(self).gold as int, curio),
        ensures
            (final (self).hp as int, final (self).gold as int) == apply_curio(
                old(self).hp as int,
                old(self).gold as int,
                curio,
            ),
            final (self).location == old(self).location,
            final (self).has_won() == old(self).has_won(),
        decreases curio,
    {
        match curio {
            Curio::Chest(gold) => {
                self.gold = self.gold + gold;
            },
            Curio::SpikeTrap(dmg) => {
                self.hp = self.hp - dmg;
            },
            Curio::Food(heal) => {
                let healed = self.hp + heal;
                self.hp = if healed > MAX_HP {
                    MAX_HP
                } else {
                    healed
                };
            },
            Curio::IronMaiden(sub, dmg) => {
                self.hp = self.hp - dmg;
                self.use_curio(*sub);
            },
            Curio::FallenAdventurer(sub) => {
                self.use_curio(*sub);
            },
        }
    }

    /// Find one of the neighbors of the current room based on its name.
    /// Case insensitive.
    pub fn find_room(&self, rooms: &Vec<Room>, room: String) -> (r: Result<usize, ()>)
        requires
            self.location < rooms@.len(),
            forall|j: int|
                0 <= j < rooms@[self.location as int].halls@.len() ==> #[trigger] rooms@[
                    self.location as int].halls@[j] < rooms@.len(),
        ensures
            ({
                let loc = self.location as int;
                let halls = rooms@[loc].halls@;
                &&& (r is Ok <==> exists|j: int|
                    0 <= j < halls.len() && #[trigger] hall_matches(rooms@, loc, j, room@))
                &&& (r matches Ok(i) ==> i < rooms@.len() && (exists|j: int|
                    {
                        &&& 0 <= j < halls.len()
                        &&& halls[j] == i
                        &&& #[trigger] hall_matches(rooms@, loc, j, room@)
                        &&& (forall|t: int|
                            0 <= t < j ==> !hall_matches(rooms@, loc, t, room@))
                    }))
            }),
    {
        let target = lowercase(room.as_str());
        let here = &rooms[self.location];
        let n = here.halls.len();
        let mut j: usize = 0;
        while j < n
            invariant
                0 <= j <= n,
                self.location < rooms@.len(),
                *here == rooms@[self.location as int],
                n == here.halls@.len(),
                target@ == lower_of(room@),
                forall|t: int|
                    0 <= t < here.halls@.len() ==> #[trigger] here.halls@[t] < rooms@.len(),
                forall|t: int|
                    0 <= t < j ==> !#[trigger] hall_matches(
                        rooms@,
                        self.location as int,
                        t,
                        room@,
                    ),
            decreases n - j,
        {
            let other = here.halls[j];
            let other_name = lowercase(rooms[other].name.as_str());
            if other_name == target {
                proof {
                    assert(hall_matches(rooms@, self.location as int, j as int, room@));
                }
                return Ok(other);
            }
            proof {
                assert(!hall_matches(rooms@, self.location as int, j as int, room@));
            }
            j = j + 1;
        }
        proof {
            assert forall|j: int|
                0 <= j < rooms@[self.location as int].halls@.len() implies !#[trigger] hall_matches(
                rooms@,
                self.location as int,
                j,
                room@,
            ) by {}
        }
        Err(())
    }

    /// Execute the given command on the player and board state.
    ///
    /// Going to a neighbouring room consumes everything in it, applying
    /// each curio in turn; shooting into a room kills the wumpus if it is
    /// there. An unknown room name is an error and changes nothing.
    #[verifier::rlimit(50)]
    pub fn act(&mut self, rooms: &mut Vec<Room>, cmd: Command) -> (r: Result<(), ()>)
        requires
            old(self).location < old(rooms)@.len(),
            forall|i: int, j: int|
                0 <= i < old(rooms)@.len() && 0 <= j < old(rooms)@[i].halls@.len() ==> #[trigger]
                    old(rooms)@[i].halls@[j] < old(rooms)@.len(),
            forall|i: int|
                0 <= i < old(rooms)@.len() ==> drain_fits(
                    old(self).hp as int,
                    old(self).gold as int,
                    #[trigger] old(rooms)@[i].contents@,
                ),
        ensures
            final (rooms)@.len() == old(rooms)@.len(),
            final (self).location < final (rooms)@.len(),
            ({
                let loc = old(self).location as int;
                let halls = old(rooms)@[loc].halls@;
                let name = command_name(cmd);
                &&& (r is Ok <==> exists|j: int|
                    0 <= j < halls.len() && #[trigger] hall_matches(old(rooms)@, loc, j, name))
                &&& (r is Err ==> *final(self) == *old(self) && final(rooms)@ == old(rooms)@)
            }),
            (cmd is Go && r is Ok ==> exists|j: int|
                {
                    &&& 0 <= j < old(rooms)@[old(self).location as int].halls@.len()
                    &&& #[trigger] hall_matches(
                        old(rooms)@,
                        old(self).location as int,
                        j,
                        command_name(cmd),
                    )
                    &&& (forall|t: int|
                        0 <= t < j ==> !hall_matches(
                            old(rooms)@,
                            old(self).location as int,
                            t,
                            command_name(cmd),
                        ))
                    &&& final (self).location as int == hall_dst(
                        old(rooms)@,
                        old(self).location as int,
                        j,
                    )
                    &&& final (rooms)@[final (self).location as int].contents@.len() == 0
                    &&& final (rooms)@[final (self).location as int].name == old(rooms)@[
                        final (self).location as int].name
                    &&& final (rooms)@[final (self).location as int].halls == old(rooms)@[
                        final (self).location as int].halls
                    &&& final (rooms)@[final (self).location as int].wumpus == old(rooms)@[
                        final (self).location as int].wumpus
                    &&& (final (self).hp as int, final (self).gold as int) == drain_apply(
                        old(self).hp as int,
                        old(self).gold as int,
                        old(rooms)@[final (self).location as int].contents@,
                    )
                    &&& (forall|i: int|
                        0 <= i < old(rooms)@.len() && i != final (self).location as int
                            ==> final (rooms)@[i] == old(rooms)@[i])
                    &&& final (self).has_won() == old(self).has_won()
                }),
            (cmd is Shoot && r is Ok ==> exists|j: int|
                {
                    &&& 0 <= j < old(rooms)@[old(self).location as int].halls@.len()
                    &&& #[trigger] hall_matches(
                        old(rooms)@,
                        old(self).location as int,
                        j,
                        command_name(cmd),
                    )
                    &&& (forall|t: int|
                        0 <= t < j ==> !hall_matches(
                            old(rooms)@,
                            old(self).location as int,
                            t,
                            command_name(cmd),
                        ))
                    &&& final (self).location == old(self).location
                    &&& final (self).hp == old(self).hp
                    &&& final (self).gold == old(self).gold
                    &&& !final (rooms)@[hall_dst(old(rooms)@, old(self).location as int, j)].wumpus
                    &&& final (rooms)@[hall_dst(old(rooms)@, old(self).location as int, j)].name
                        == old(rooms)@[hall_dst(old(rooms)@, old(self).location as int, j)].name
                    &&& final (rooms)@[hall_dst(
                        old(rooms)@,
                        old(self).location as int,
                        j,
                    )].contents == old(rooms)@[hall_dst(
                        old(rooms)@,
                        old(self).location as int,
                        j,
                    )].contents
                    &&& final (rooms)@[hall_dst(old(rooms)@, old(self).location as int, j)].halls
                        == old(rooms)@[hall_dst(old(rooms)@, old(self).location as int, j)].halls
                    &&& (forall|i: int|
                        0 <= i < old(rooms)@.len() && i != hall_dst(
                            old(rooms)@,
                            old(self).location as int,
                            j,
                        ) ==> final (rooms)@[i] == old(rooms)@[i])
                    &&& final (self).has_won() == (old(self).has_won() || old(rooms)@[hall_dst(
                        old(rooms)@,
                        old(self).location as int,
                        j,
                    )].wumpus)
                }),
    {
        match cmd {
            Command::Go(room) => {
                let ghost nm = room@;
                proof {
                    assert(command_name(cmd) == nm);
                }
                let dst = match self.find_room(rooms, room) {
                    Ok(d) => d,
                    Err(_) => {
                        return Err(());
                    },
                };
                let ghost loc = old(self).location as int;
                let ghost halls = old(rooms)@[loc].halls@;
                let ghost jj = choose|jj: int|
                    {
                        &&& 0 <= jj < halls.len()
                        &&& halls[jj] == dst
                        &&& #[trigger] hall_matches(old(rooms)@, loc, jj, nm)
                        &&& (forall|t: int| 0 <= t < jj ==> !hall_matches(old(rooms)@, loc, t, nm))
                    };
                let ghost start_contents = rooms@[dst as int].contents@;
                let ghost hp0 = self.hp as int;
                let ghost gold0 = self.gold as int;
                while rooms[dst].contents.len() > 0
                    invariant
                        dst < rooms@.len(),
                        self.location < rooms@.len(),
                        drain_fits(self.hp as int, self.gold as int, rooms@[dst as int].contents@),
                        drain_apply(hp0, gold0, start_contents) == drain_apply(
                            self.hp as int,
                            self.gold as int,
                            rooms@[dst as int].contents@,
                        ),
                        forall|i: int|
                            0 <= i < rooms@.len() && i != dst ==> rooms@[i] == old(rooms)@[i],
                        rooms@.len() == old(rooms)@.len(),
                        rooms@[dst as int].name == old(rooms)@[dst as int].name,
                        rooms@[dst as int].halls == old(rooms)@[dst as int].halls,
                        rooms@[dst as int].wumpus == old(rooms)@[dst as int].wumpus,
                        self.has_won() == old(self).has_won(),
                    decreases rooms@[dst as int].contents@.len(),
                {
                    let curio = match rooms[dst].consume_content() {
                        Some(c) => c,
                        None => {
                            proof {
                                assert(false);
                            }
                            return Err(());
                        },
                    };
                    self.use_curio(curio);
                }
                self.location = dst;
                proof {
                    assert(hall_matches(old(rooms)@, old(self).location as int, jj, command_name(cmd)));
                    assert(forall|t: int|
                        0 <= t < jj ==> !hall_matches(
                            old(rooms)@,
                            old(self).location as int,
                            t,
                            command_name(cmd),
                        ));
                    assert(hall_dst(old(rooms)@, old(self).location as int, jj) == dst as int);
                }
                Ok(())
            },
            Command::Shoot(room) => {
                let ghost nm = room@;
                proof {
                    assert(command_name(cmd) == nm);
                }
                let dst = match self.find_room(rooms, room) {
                    Ok(d) => d,
                    Err(_) => {
                        return Err(());
                    },
                };
                let ghost loc = old(self).location as int;
                let ghost halls = old(rooms)@[loc].halls@;
                let ghost jj = choose|jj: int|
                    {
                        &&& 0 <= jj < halls.len()
                        &&& halls[jj] == dst
                        &&& #[trigger] hall_matches(old(rooms)@, loc, jj, nm)
                        &&& (forall|t: int| 0 <= t < jj ==> !hall_matches(old(rooms)@, loc, t, nm))
                    };
                if rooms[dst].wumpus {
                    rooms[dst].wumpus = false;
                    self.won = true;
                } else {
                }
                proof {
                    assert(final(rooms)@[dst as int].wumpus == false);
                    assert(hall_matches(old(rooms)@, old(self).location as int, jj, command_name(cmd)));
                    assert(forall|t: int|
                        0 <= t < jj ==> !hall_matches(
                            old(rooms)@,
                            old(self).location as int,
                            t,
                            command_name(cmd),
                        ));
                    assert(hall_dst(old(rooms)@, old(self).location as int, jj) == dst as int);
                }
                Ok(())
            },
        }
    }
}

} // verus!
