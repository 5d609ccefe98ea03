//! A room of the dungeon. Rooms live in one table, and a room's halls name
//! its neighbours by index into that table.

use crate::game::curio::Curio;
use vstd::prelude::*;

verus! {

/// One room: a name, what lies in it, the indices of its neighbours, and
/// whether the wumpus is here.
pub struct Room {
    pub name: String,
    pub contents: Vec<Curio>,
    pub halls: Vec<usize>,
    pub wumpus: bool,
}

impl PartialEq for Room {
    /// Rooms are compared by name alone.
    fn eq(&self, other: &Self) -> (r: bool) {
        self.name == other.name
    }
}

impl vstd::std_specs::cmp::PartialEqSpecImpl for Room {
    open spec fn obeys_eq_spec() -> bool {
        true
    }

    open spec fn eq_spec(&self, other: &Room) -> bool {
        self.name@ == other.name@
    }
}

/// The names of the rooms that `halls` points to, joined with ", ".
pub open spec fn joined_names(rooms: Seq<Room>, halls: Seq<usize>) -> Seq<char>
    decreases halls.len(),
{
    if halls.len() == 0 {
        Seq::empty()
    } else if halls.len() == 1 {
        rooms[halls[0] as int].name@
    } else {
        joined_names(rooms, halls.drop_last()) + ", "@ + rooms[halls.last() as int].name@
    }
}

impl Room {
    /// An empty, unnamed room.
    pub fn new() -> (r: Self)
        ensures
            r.name@ == Seq::<char>::empty(),
            r.contents@ == Seq::<Curio>::empty(),
            r.halls@ == Seq::<usize>::empty(),
            !r.wumpus,
    {
        Room { name: String::new(), contents: Vec::new(), halls: Vec::new(), wumpus: false }
    }

    /// Takes the most recently added curio out of the room, if any.
    pub fn consume_content(&mut self) -> (r: Option<Curio>)
        ensures
            (old(self).contents@.len() == 0 ==> (r is None && final(self).contents@ == old(
                self,
            ).contents@)),
            (old(self).contents@.len() > 0 ==> (r == Some(old(self).contents@.last())
                && final(self).contents@ == old(self).contents@.drop_last())),
            final (self).name == old(self).name,
            final (self).halls == old(self).halls,
            final (self).wumpus == old(self).wumpus,
    {
        self.contents.pop()
    }

    /// The names of this room's neighbours, joined with ", ".
    pub fn neighbors_string(&self, rooms: &Vec<Room>) -> (r: String)
        requires
            forall|j: int| 0 <= j < self.halls@.len() ==> #[trigger] self.halls@[j] < rooms@.len(),
        ensures
            r@ == joined_names(rooms@, self.halls@),
    {
        let mut out = String::new();
        let n = self.halls.len();
        let mut i: usize = 0;
        proof {
            assert(self.halls@.take(0) =~= Seq::<usize>::empty());
        }
        while i < n
            invariant
                0 <= i <= n,
                n == self.halls@.len(),
                forall|j: int|
                    0 <= j < self.halls@.len() ==> #[trigger] self.halls@[j] < rooms@.len(),
                out@ == joined_names(rooms@, self.halls@.take(i as int)),
            decreases n - i,
        {
            if i > 0 {
                out.append(", ");
            }
            let h = self.halls[i];
            out.append(rooms[h].name.as_str());
            proof {
                assert(self.halls@.take(i + 1).drop_last() =~= self.halls@.take(i as int));
                assert(self.halls@.take(i + 1).last() == self.halls@[i as int]);
                if i == 0 {
                    reveal_strlit("");
                    assert(out@ =~= joined_names(rooms@, self.halls@.take(i + 1)));
                } else {
                    assert(out@ =~= joined_names(rooms@, self.halls@.take(i + 1)));
                }
            }
            i = i + 1;
        }
        proof {
            assert(self.halls@.take(n as int) =~= self.halls@);
        }
        out
    }
}

} // verus!
