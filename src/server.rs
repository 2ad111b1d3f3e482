//! The room coordinator. It owns every session id and every room, applies
//! one request at a time, and answers each with the lines to send, each
//! addressed to one session.
use crate::game::{
    dealt, entries_view, render, role_name, roles_of, sight, valid_count, Assignment, Role,
    SeatView,
};
use rand::Rng;
use vstd::prelude::*;
use vstd::seq_lib::seq_to_set_is_finite;
use vstd::set_lib::{lemma_int_range, lemma_len_subset, lemma_map_size_bound, set_int_range};

verus! {

/// A line for one session.
pub struct Message(pub String);

/// A line and the session it goes to.
pub struct Outbound {
    pub to: usize,
    pub text: String,
}

pub type OutView = (usize, Seq<char>);

pub open spec fn outs_view(v: Seq<Outbound>) -> Seq<OutView> {
    v.map_values(|o: Outbound| (o.to, o.text@))
}

/// A new session asks to be registered.
pub struct Connect;

/// A session is gone.
pub struct Disconnect {
    pub id: usize,
}

/// A session asks for the open rooms.
pub struct ListRooms;

/// Join a room, which must exist.
pub struct Join {
    /// Client id
    pub id: usize,
    /// Client name
    pub session_name: String,
    /// Room name
    pub name: String,
}

/// Create a room and sit in it.
pub struct Create {
    /// Client id
    pub id: usize,
    /// Client name
    pub session_name: String,
    /// Room size
    pub size: u8,
}

pub struct Room {
    name: String,
    /// Room size
    size: u8,
    /// Client id and name, in the order they sat down
    seats: Vec<(usize, String)>,
}

pub struct RoomView {
    pub name: Seq<char>,
    pub size: u8,
    pub seats: Seq<SeatView>,
}

impl View for Room {
    type V = RoomView;

    closed spec fn view(&self) -> RoomView {
        RoomView { name: self.name@, size: self.size, seats: entries_view(self.seats@) }
    }
}

impl Room {
    fn is_full(&self) -> (r: bool)
        ensures
            r == (self@.seats.len() == self.size as int),
    {
        self.seats.len() == self.size as usize
    }
}

pub struct ServerView {
    pub sessions: Seq<usize>,
    pub rooms: Seq<RoomView>,
}

pub open spec fn rooms_view(v: Seq<Room>) -> Seq<RoomView> {
    v.map_values(|r: Room| r@)
}

/// A room as it may stand open: a legal table size, somebody in it, and a
/// free seat left.
pub open spec fn room_ok(r: RoomView) -> bool {
    &&& valid_count(r.size as int)
    &&& 0 < r.seats.len() < r.size
    &&& seats_distinct(r.seats)
}

/// Session `x` has a seat in the list.
pub open spec fn holds(seats: Seq<SeatView>, x: usize) -> bool {
    exists|k: int| 0 <= k < seats.len() && seats[k].0 == x
}

/// No session has two seats in the list.
pub open spec fn seats_distinct(seats: Seq<SeatView>) -> bool {
    forall|a: int, b: int|
        0 <= a < seats.len() && 0 <= b < seats.len() && a != b ==> (#[trigger] seats[a]).0
            != (#[trigger] seats[b]).0
}

/// No session sits in two rooms.
pub open spec fn one_room_each(rooms: Seq<RoomView>) -> bool {
    forall|a: int, b: int, x: usize|
        0 <= a < rooms.len() && 0 <= b < rooms.len() && a != b && #[trigger] holds(
            rooms[a].seats,
            x,
        ) ==> !#[trigger] holds(rooms[b].seats, x)
}

/// No two open rooms share a name.
pub open spec fn names_distinct(rooms: Seq<RoomView>) -> bool {
    forall|a: int, b: int|
        0 <= a < rooms.len() && 0 <= b < rooms.len() && a != b ==> (#[trigger] rooms[a]).name
            != (#[trigger] rooms[b]).name
}

/// `sessions` are the live session ids, the rest are the open rooms.
pub struct ChatServer {
    sessions: Vec<usize>,
    rooms: Vec<Room>,
}

impl View for ChatServer {
    type V = ServerView;

    closed spec fn view(&self) -> ServerView {
        ServerView { sessions: self.sessions@, rooms: rooms_view(self.rooms@) }
    }
}

/// The seats, in order, that are live and are not `skip`, each sent `text`.
pub open spec fn notices(seats: Seq<SeatView>, live: Seq<usize>, skip: Option<usize>, text: Seq<
    char,
>) -> Seq<OutView>
    decreases seats.len(),
{
    if seats.len() == 0 {
        Seq::empty()
    } else {
        let rest = notices(seats.drop_last(), live, skip, text);
        let id = seats.last().0;
        if live.contains(id) && skip != Some(id) {
            rest.push((id, text))
        } else {
            rest
        }
    }
}

/// `text` for session `id`, if it is live.
pub open spec fn to_user(live: Seq<usize>, id: usize, text: Seq<char>) -> Seq<OutView> {
    if live.contains(id) {
        seq![(id, text)]
    } else {
        Seq::empty()
    }
}

/// The seats without those of session `id`.
pub open spec fn without(seats: Seq<SeatView>, id: usize) -> Seq<SeatView>
    decreases seats.len(),
{
    if seats.len() == 0 {
        seats
    } else {
        let rest = without(seats.drop_last(), id);
        if seats.last().0 == id {
            rest
        } else {
            rest.push(seats.last())
        }
    }
}

pub open spec fn seated(seats: Seq<SeatView>, id: usize) -> bool {
    without(seats, id).len() < seats.len()
}

/// The ids without `id`.
pub open spec fn others(ids: Seq<usize>, id: usize) -> Seq<usize>
    decreases ids.len(),
{
    if ids.len() == 0 {
        ids
    } else {
        let rest = others(ids.drop_last(), id);
        if ids.last() == id {
            rest
        } else {
            rest.push(ids.last())
        }
    }
}

/// The rooms once session `id` has left them all: a room it leaves empty
/// closes.
pub open spec fn leave_rooms(rooms: Seq<RoomView>, id: usize) -> Seq<RoomView>
    decreases rooms.len(),
{
    if rooms.len() == 0 {
        rooms
    } else {
        let rest = leave_rooms(rooms.drop_last(), id);
        let r = rooms.last();
        let kept = without(r.seats, id);
        if seated(r.seats, id) && kept.len() == 0 {
            rest
        } else {
            rest.push(RoomView { seats: kept, ..r })
        }
    }
}

pub open spec fn left_text() -> Seq<char> {
    "Someone disconnected"@
}

/// The notices that session `id` has left, to those still in each room it
/// left.
pub open spec fn leave_notices(rooms: Seq<RoomView>, id: usize, live: Seq<usize>) -> Seq<OutView>
    decreases rooms.len(),
{
    if rooms.len() == 0 {
        Seq::empty()
    } else {
        let rest = leave_notices(rooms.drop_last(), id, live);
        let r = rooms.last();
        if seated(r.seats, id) {
            rest + notices(without(r.seats, id), live, None, left_text())
        } else {
            rest
        }
    }
}

/// The state and the lines after session `id` disconnects.
pub open spec fn after_disconnect(v: ServerView, id: usize) -> (ServerView, Seq<OutView>) {
    if v.sessions.contains(id) {
        let live = others(v.sessions, id);
        (
            ServerView { sessions: live, rooms: leave_rooms(v.rooms, id) },
            leave_notices(v.rooms, id, live),
        )
    } else {
        (v, Seq::empty())
    }
}

/// Relies on rand's `random` for a usize: any value may come.
#[verifier::external_body]
fn random_id() -> (r: usize) {
    rand::random::<usize>()
}

/// Relies on rand's Rng::gen_range on the thread-local generator: a number
/// at least `low` and under `high`.
#[verifier::external_body]
fn random_below(low: u32, high: u32) -> (r: u32)
    requires
        low < high,
    ensures
        low <= r < high,
{
    rand::thread_rng().gen_range(low, high)
}

fn contains_id(ids: &Vec<usize>, id: usize) -> (r: bool)
    ensures
        r == ids@.contains(id),
{
    let mut i: usize = 0;
    while i < ids.len()
        invariant
            i <= ids@.len(),
            forall|k: int| 0 <= k < i ==> ids@[k] != id,
        decreases ids@.len() - i,
    {
        if ids[i] == id {
            assert(ids@[i as int] == id);
            return true;
        }
        i += 1;
    }
    false
}

fn send_to(live: &Vec<usize>, id: usize, text: String, out: &mut Vec<Outbound>)
    ensures
        outs_view(final(out)@) == outs_view(old(out)@) + to_user(live@, id, text@),
{
    let ghost before = out@;
    if contains_id(live, id) {
        out.push(Outbound { to: id, text });
        assert(outs_view(out@) =~= outs_view(before) + seq![(id, text@)]);
    } else {
        assert(outs_view(out@) =~= outs_view(before) + Seq::<OutView>::empty());
    }
}

fn broadcast(
    live: &Vec<usize>,
    seats: &Vec<(usize, String)>,
    skip: Option<usize>,
    text: &str,
    out: &mut Vec<Outbound>,
)
    ensures
        outs_view(final(out)@) == outs_view(old(out)@) + notices(
            entries_view(seats@),
            live@,
            skip,
            text@,
        ),
{
    let ghost start = outs_view(out@);
    let mut i: usize = 0;
    while i < seats.len()
        invariant
            i <= seats@.len(),
            outs_view(out@) == start + notices(
                entries_view(seats@.take(i as int)),
                live@,
                skip,
                text@,
            ),
        decreases seats@.len() - i,
    {
        let id = seats[i].0;
        let ghost before = out@;
        let skipped = match skip {
            Some(s) => s == id,
            None => false,
        };
        let ghost seen = entries_view(seats@.take(i as int + 1));
        assert(seen.drop_last() =~= entries_view(seats@.take(i as int)));
        if !skipped && contains_id(live, id) {
            out.push(Outbound { to: id, text: String::from_str(text) });
            assert(outs_view(out@) =~= outs_view(before).push((id, text@)));
        }
        i += 1;
    }
    assert(seats@.take(i as int) =~= seats@);
}

fn drop_seat(seats: &Vec<(usize, String)>, id: usize) -> (r: Vec<(usize, String)>)
    ensures
        entries_view(r@) == without(entries_view(seats@), id),
{
    let mut kept: Vec<(usize, String)> = Vec::new();
    let mut i: usize = 0;
    while i < seats.len()
        invariant
            i <= seats@.len(),
            entries_view(kept@) == without(entries_view(seats@.take(i as int)), id),
        decreases seats@.len() - i,
    {
        let ghost before = kept@;
        let ghost seen = entries_view(seats@.take(i as int + 1));
        assert(seen.drop_last() =~= entries_view(seats@.take(i as int)));
        if seats[i].0 != id {
            kept.push((seats[i].0, seats[i].1.clone()));
            assert(entries_view(kept@) =~= entries_view(before).push(seen.last()));
        }
        i += 1;
    }
    assert(seats@.take(i as int) =~= seats@);
    kept
}

fn drop_id(ids: &Vec<usize>, id: usize) -> (r: Vec<usize>)
    ensures
        r@ == others(ids@, id),
{
    let mut kept: Vec<usize> = Vec::new();
    let mut i: usize = 0;
    while i < ids.len()
        invariant
            i <= ids@.len(),
            kept@ == others(ids@.take(i as int), id),
        decreases ids@.len() - i,
    {
        assert(ids@.take(i + 1).drop_last() =~= ids@.take(i as int));
        if ids[i] != id {
            kept.push(ids[i]);
        }
        i += 1;
    }
    assert(ids@.take(i as int) =~= ids@);
    kept
}

impl Default for ChatServer {
    fn default() -> (r: ChatServer)
        ensures
            r@.sessions.len() == 0,
            r@.rooms.len() == 0,
            r.wf(),
    {
        ChatServer::new()
    }
}

impl ChatServer {
    pub fn new() -> (r: ChatServer)
        ensures
            r@.sessions.len() == 0,
            r@.rooms.len() == 0,
            r.wf(),
    {
        ChatServer { sessions: Vec::new(), rooms: Vec::new() }
    }

    /// No session is registered twice, and every open room may stand open.
    pub open spec fn wf(&self) -> bool {
        &&& self@.sessions.no_duplicates()
        &&& forall|i: int| 0 <= i < self@.rooms.len() ==> room_ok(#[trigger] self@.rooms[i])
        &&& names_distinct(self@.rooms)
        &&& one_room_each(self@.rooms)
    }

    /// Removes session `id` from every room it sits in, closes the rooms it
    /// leaves empty, and tells the others in the rooms it left.
    fn remove_user_from_all_rooms(&mut self, id: usize, out: &mut Vec<Outbound>)
        ensures
            final(self)@.sessions == old(self)@.sessions,
            final(self)@.rooms == leave_rooms(old(self)@.rooms, id),
            outs_view(final(out)@) == outs_view(old(out)@) + leave_notices(
                old(self)@.rooms,
                id,
                old(self)@.sessions,
            ),
    {
        let ghost rooms0 = self@.rooms;
        let ghost start = outs_view(out@);
        let mut kept: Vec<Room> = Vec::new();
        let mut i: usize = 0;
        while i < self.rooms.len()
            invariant
                i <= self.rooms@.len(),
                rooms0 == rooms_view(self.rooms@),
                rooms_view(kept@) == leave_rooms(rooms0.take(i as int), id),
                outs_view(out@) == start + leave_notices(rooms0.take(i as int), id, self@.sessions),
            decreases self.rooms@.len() - i,
        {
            let room = &self.rooms[i];
            let seats = drop_seat(&room.seats, id);
            assert(rooms0.take(i + 1).drop_last() =~= rooms0.take(i as int));
            assert(rooms0.take(i + 1).last() == room@);
            let ghost before = kept@;
            if seats.len() < room.seats.len() {
                broadcast(&self.sessions, &seats, None, "Someone disconnected", out);
                if seats.len() > 0 {
                    let r = Room { name: room.name.clone(), size: room.size, seats };
                    kept.push(r);
                    assert(rooms_view(kept@) =~= rooms_view(before).push(r@));
                }
            } else {
                let r = Room { name: room.name.clone(), size: room.size, seats };
                kept.push(r);
                assert(rooms_view(kept@) =~= rooms_view(before).push(r@));
            }
            i += 1;
        }
        assert(rooms0.take(i as int) =~= rooms0);
        self.rooms = kept;
    }
}


/// The first open room of that name.
pub open spec fn find_room(rooms: Seq<RoomView>, name: Seq<char>) -> Option<int>
    decreases rooms.len(),
{
    if rooms.len() == 0 {
        None
    } else {
        match find_room(rooms.drop_last(), name) {
            Some(j) => Some(j),
            None => if rooms.last().name == name {
                Some(rooms.len() - 1)
            } else {
                None
            },
        }
    }
}

pub open spec fn role_line(role: Role) -> Seq<char> {
    "你的身份是【"@ + role_name(role) + "】，"@
}

pub open spec fn hint(t: Seq<char>) -> Seq<char> {
    if t.len() == 0 {
        "你没有提示"@
    } else {
        t
    }
}

/// The players of a full room: the names of its seats, with the roles dealt.
pub open spec fn seat_players(seats: Seq<SeatView>, roles: Seq<Role>) -> Seq<(Seq<char>, Role)> {
    Seq::new(seats.len(), |i: int| (seats[i].1, roles[i]))
}

/// To each of the first `n` seats: its role, then what that role sees.
pub open spec fn reveals(
    players: Seq<(Seq<char>, Role)>,
    seats: Seq<SeatView>,
    live: Seq<usize>,
    n: int,
) -> Seq<OutView>
    decreases n,
{
    if n <= 0 {
        Seq::empty()
    } else {
        let i = n - 1;
        let role = players[i].1;
        reveals(players, seats, live, i) + to_user(live, seats[i].0, role_line(role)) + to_user(
            live,
            seats[i].0,
            hint(render(sight(players, role), Some(i as usize))),
        )
    }
}

/// The lines to a room that has just filled: the notice to all, then each
/// seat's role and view, for some dealing of the roles.
pub open spec fn fill_notices(seats: Seq<SeatView>, live: Seq<usize>, out: Seq<OutView>) -> bool {
    exists|roles: Seq<Role>|
        #![trigger dealt(roles, seats.len() as int)]
        dealt(roles, seats.len() as int) && out == notices(seats, live, None, "人已经凑齐"@)
            + reveals(seat_players(seats, roles), seats, live, seats.len() as int)
}

/// What joining does: `v` before, `w` after, and the lines sent.
pub open spec fn join_result(
    v: ServerView,
    id: usize,
    who: Seq<char>,
    room: Seq<char>,
    w: ServerView,
    out: Seq<OutView>,
) -> bool {
    match find_room(v.rooms, room) {
        None => w == v && out == to_user(v.sessions, id, "!!! room not exist"@),
        Some(_) => {
            let left = leave_rooms(v.rooms, id);
            let gone = leave_notices(v.rooms, id, v.sessions);
            match find_room(left, room) {
                None => w == ServerView { sessions: v.sessions, rooms: left } && out == gone
                    + to_user(v.sessions, id, "!!! room not exist, may be deleted just now"@),
                Some(j) => {
                    let r = left[j];
                    let seats = r.seats.push((id, who));
                    let greeted = gone + notices(seats, v.sessions, Some(id), who + " connected"@)
                        + to_user(v.sessions, id, "joined"@);
                    if seats.len() == r.size {
                        &&& w == ServerView { sessions: v.sessions, rooms: left.remove(j) }
                        &&& out.len() >= greeted.len()
                        &&& out.take(greeted.len() as int) == greeted
                        &&& fill_notices(seats, v.sessions, out.skip(greeted.len() as int))
                    } else {
                        &&& w == ServerView {
                            sessions: v.sessions,
                            rooms: left.update(j, RoomView { seats, ..r }),
                        }
                        &&& out == greeted
                    }
                },
            }
        },
    }
}

/// What creating a room named `room` does.
pub open spec fn create_result(
    v: ServerView,
    id: usize,
    who: Seq<char>,
    size: u8,
    room: Seq<char>,
    w: ServerView,
    out: Seq<OutView>,
) -> bool {
    if !valid_count(size as int) {
        w == v && out == to_user(v.sessions, id, "!!! invalid room size"@)
    } else if find_room(v.rooms, room) is Some {
        w == v && out == to_user(v.sessions, id, "!!! create room failed"@)
    } else {
        &&& w == ServerView {
            sessions: v.sessions,
            rooms: leave_rooms(v.rooms, id).push(
                RoomView { name: room, size, seats: seq![(id, who)] },
            ),
        }
        &&& out == leave_notices(v.rooms, id, v.sessions) + to_user(
            v.sessions,
            id,
            "room "@ + room + " created."@,
        ) + to_user(v.sessions, id, "请把房间号告诉你的小伙伴们"@)
    }
}

pub open spec fn digit(d: int) -> char {
    seq!['0', '1', '2', '3', '4', '5', '6', '7', '8', '9'][d]
}

/// The decimal digits of `n`.
pub open spec fn decimal(n: nat) -> Seq<char>
    decreases n,
{
    if n < 10 {
        seq![digit(n as int)]
    } else {
        decimal(n / 10).push(digit((n % 10) as int))
    }
}

fn digit_text(d: u32) -> (r: String)
    requires
        d < 10,
    ensures
        r@ == seq![digit(d as int)],
{
    let t = match d {
        0 => "0",
        1 => "1",
        2 => "2",
        3 => "3",
        4 => "4",
        5 => "5",
        6 => "6",
        7 => "7",
        8 => "8",
        _ => "9",
    };
    proof {
        reveal_strlit("0");
        reveal_strlit("1");
        reveal_strlit("2");
        reveal_strlit("3");
        reveal_strlit("4");
        reveal_strlit("5");
        reveal_strlit("6");
        reveal_strlit("7");
        reveal_strlit("8");
        reveal_strlit("9");
    }
    assert(t@ =~= seq![digit(d as int)]);
    String::from_str(t)
}

/// The decimal digits of `n`.
fn decimal_text(n: u32) -> (r: String)
    ensures
        r@ == decimal(n as nat),
    decreases n,
{
    if n < 10 {
        digit_text(n)
    } else {
        let head = decimal_text(n / 10);
        let last = digit_text(n % 10);
        let r = head.concat(last.as_str());
        assert(r@ =~= decimal((n / 10) as nat).push(digit((n % 10) as int)));
        r
    }
}

proof fn lemma_without_len(seats: Seq<SeatView>, id: usize)
    ensures
        without(seats, id).len() <= seats.len(),
    decreases seats.len(),
{
    if seats.len() > 0 {
        lemma_without_len(seats.drop_last(), id);
    }
}

/// Every room left open after a session leaves may still stand open.
proof fn lemma_leave_rooms_ok(rooms: Seq<RoomView>, id: usize)
    requires
        forall|i: int| 0 <= i < rooms.len() ==> room_ok(#[trigger] rooms[i]),
    ensures
        forall|i: int|
            0 <= i < leave_rooms(rooms, id).len() ==> room_ok(#[trigger] leave_rooms(rooms, id)[i]),
        leave_rooms(rooms, id).len() <= rooms.len(),
    decreases rooms.len(),
{
    if rooms.len() > 0 {
        let rest = rooms.drop_last();
        assert forall|i: int| 0 <= i < rest.len() implies room_ok(#[trigger] rest[i]) by {
            assert(rest[i] == rooms[i]);
        }
        lemma_leave_rooms_ok(rest, id);
        lemma_without_len(rooms.last().seats, id);
        lemma_without_facts(rooms.last().seats, id);
        assert(room_ok(rooms[rooms.len() - 1]));
    }
}

proof fn lemma_others(ids: Seq<usize>, id: usize)
    ensures
        forall|x: usize| #[trigger] others(ids, id).contains(x) <==> ids.contains(x) && x != id,
        ids.no_duplicates() ==> others(ids, id).no_duplicates(),
    decreases ids.len(),
{
    if ids.len() > 0 {
        let rest = ids.drop_last();
        lemma_others(rest, id);
        let o = others(rest, id);
        assert forall|x: usize| ids.contains(x) <==> rest.contains(x) || x == ids.last() by {
            if ids.contains(x) {
                let k = choose|k: int| 0 <= k < ids.len() && ids[k] == x;
                if k < rest.len() {
                    assert(rest[k] == x);
                }
            }
            if rest.contains(x) {
                let k = choose|k: int| 0 <= k < rest.len() && rest[k] == x;
                assert(ids[k] == x);
            }
            if x == ids.last() {
                assert(ids[ids.len() - 1] == x);
            }
        }
        if ids.last() != id {
            let p = o.push(ids.last());
            assert forall|x: usize| p.contains(x) <==> o.contains(x) || x == ids.last() by {
                if p.contains(x) {
                    let k = choose|k: int| 0 <= k < p.len() && p[k] == x;
                    if k < o.len() {
                        assert(o[k] == x);
                    }
                }
                if o.contains(x) {
                    let k = choose|k: int| 0 <= k < o.len() && o[k] == x;
                    assert(p[k] == x);
                }
                if x == ids.last() {
                    assert(p[o.len() as int] == x);
                }
            }
            if ids.no_duplicates() {
                assert(rest.no_duplicates());
                assert(!rest.contains(ids.last())) by {
                    if rest.contains(ids.last()) {
                        let k = choose|k: int| 0 <= k < rest.len() && rest[k] == ids.last();
                        assert(ids[k] == ids[ids.len() - 1]);
                    }
                }
                assert forall|a: int, b: int|
                    0 <= a < p.len() && 0 <= b < p.len() && a != b implies p[a] != p[b] by {
                    if a < o.len() && b < o.len() {
                    } else if a < o.len() {
                        assert(o.contains(p[a]));
                    } else if b < o.len() {
                        assert(o.contains(p[b]));
                    }
                }
            }
        }
    }
}

impl ChatServer {
    /// Registers session `id` if no live session has it.
    pub fn register(&mut self, id: usize) -> (r: Option<usize>)
        requires
            old(self).wf(),
        ensures
            final(self).wf(),
            r is Some <==> !old(self)@.sessions.contains(id),
            r is Some ==> r == Some(id) && final(self)@ == (ServerView {
                sessions: old(self)@.sessions.push(id),
                rooms: old(self)@.rooms,
            }),
            r is None ==> final(self)@ == old(self)@,
    {
        if contains_id(&self.sessions, id) {
            return None;
        }
        self.sessions.push(id);
        proof {
            assert forall|a: int, b: int|
                0 <= a < self@.sessions.len() && 0 <= b < self@.sessions.len() && a != b implies
                self@.sessions[a] != self@.sessions[b] by {
                if a == self@.sessions.len() - 1 {
                    assert(old(self)@.sessions.contains(self@.sessions[b]));
                } else if b == self@.sessions.len() - 1 {
                    assert(old(self)@.sessions.contains(self@.sessions[a]));
                }
            }
        }
        Some(id)
    }

    /// The smallest id that no live session has.
    fn free_id(&self) -> (r: usize)
        requires
            self.wf(),
        ensures
            !self@.sessions.contains(r),
    {
        let n = self.sessions.len();
        let mut c: usize = 0;
        loop
            invariant
                c <= n,
                n == self@.sessions.len(),
                self@.sessions.no_duplicates(),
                forall|k: usize| k < c ==> self@.sessions.contains(k),
            decreases n - c,
        {
            if !contains_id(&self.sessions, c) {
                return c;
            }
            proof {
                lemma_ids_exhaust(self@.sessions, c);
            }
            c += 1;
        }
    }

    /// Registers a new session under a random id, or, where that id is
    /// taken, under the smallest free one.
    pub fn connect(&mut self, msg: Connect) -> (r: usize)
        requires
            old(self).wf(),
        ensures
            final(self).wf(),
            !old(self)@.sessions.contains(r),
            final(self)@ == (ServerView {
                sessions: old(self)@.sessions.push(r),
                rooms: old(self)@.rooms,
            }),
    {
        let candidate = random_id();
        let id = if contains_id(&self.sessions, candidate) {
            self.free_id()
        } else {
            candidate
        };
        let registered = self.register(id);
        assert(registered is Some);
        id
    }

    /// Forgets session `id` and takes it out of every room.
    pub fn disconnect(&mut self, msg: Disconnect) -> (out: Vec<Outbound>)
        requires
            old(self).wf(),
        ensures
            final(self).wf(),
            (final(self)@, outs_view(out@)) == after_disconnect(old(self)@, msg.id),
    {
        let mut out: Vec<Outbound> = Vec::new();
        let ghost v = self@;
        if contains_id(&self.sessions, msg.id) {
            self.sessions = drop_id(&self.sessions, msg.id);
            proof {
                lemma_others(v.sessions, msg.id);
                lemma_leave_rooms_ok(v.rooms, msg.id);
                lemma_leave_rooms_distinct(v.rooms, msg.id);
                lemma_leave_one_room(v.rooms, msg.id);
            }
            self.remove_user_from_all_rooms(msg.id, &mut out);
            assert(outs_view(out@) =~= leave_notices(v.rooms, msg.id, self@.sessions));
        } else {
            assert(outs_view(out@) =~= Seq::<OutView>::empty());
        }
        out
    }

    /// The names of the open rooms.
    pub fn list_rooms(&self, msg: ListRooms) -> (r: Vec<String>)
        ensures
            r@.map_values(|s: String| s@) == self@.rooms.map_values(|x: RoomView| x.name),
    {
        let mut names: Vec<String> = Vec::new();
        let mut i: usize = 0;
        while i < self.rooms.len()
            invariant
                i <= self.rooms@.len(),
                names@.len() == i,
                forall|k: int| 0 <= k < i ==> (#[trigger] names@[k])@ == self.rooms@[k].name@,
            decreases self.rooms@.len() - i,
        {
            names.push(self.rooms[i].name.clone());
            i += 1;
        }
        assert(names@.map_values(|s: String| s@) =~= self@.rooms.map_values(|x: RoomView| x.name));
        names
    }

    fn find(&self, name: &String) -> (r: Option<usize>)
        ensures
            match r {
                Some(j) => j < self@.rooms.len() && find_room(self@.rooms, name@) == Some(j as int),
                None => find_room(self@.rooms, name@) is None,
            },
    {
        let ghost rooms = self@.rooms;
        let mut found: Option<usize> = None;
        let mut i: usize = 0;
        while i < self.rooms.len()
            invariant
                i <= self.rooms@.len() == rooms.len(),
                rooms == self@.rooms,
                match found {
                    Some(j) => j < i && find_room(rooms.take(i as int), name@) == Some(j as int),
                    None => find_room(rooms.take(i as int), name@) is None,
                },
            decreases self.rooms@.len() - i,
        {
            assert(rooms.take(i + 1).drop_last() =~= rooms.take(i as int));
            assert(rooms.take(i + 1).last() == rooms[i as int]);
            assert(rooms[i as int] == self.rooms@[i as int]@);
            let same = self.rooms[i].name.eq(name);
            assert(same == (rooms[i as int].name == name@));
            if found.is_none() && same {
                found = Some(i);
            }
            i += 1;
        }
        assert(rooms.take(i as int) =~= rooms);
        found
    }
}


fn role_text(role: Role) -> (r: String)
    ensures
        r@ == role_line(role),
{
    String::from_str("你的身份是【").concat(role.name()).concat("】，")
}

/// Tells each seat of a full room its role and what it sees.
fn tell_roles(
    live: &Vec<usize>,
    seats: &Vec<(usize, String)>,
    a: &Assignment,
    out: &mut Vec<Outbound>,
)
    requires
        a@.len() == seats@.len(),
    ensures
        outs_view(final(out)@) == outs_view(old(out)@) + reveals(
            a@,
            entries_view(seats@),
            live@,
            seats@.len() as int,
        ),
{
    let ghost start = outs_view(out@);
    let ghost sv = entries_view(seats@);
    let mut i: usize = 0;
    while i < seats.len()
        invariant
            i <= seats@.len() == a@.len(),
            sv == entries_view(seats@),
            outs_view(out@) == start + reveals(a@, sv, live@, i as int),
        decreases seats@.len() - i,
    {
        let id = seats[i].0;
        let role = a.players[i].1;
        assert(a@[i as int].1 == role);
        send_to(live, id, role_text(role), out);
        let text = a.see_from_role(role).text_from_player(i);
        let line = if text.as_str().is_empty() {
            String::from_str("你没有提示")
        } else {
            text
        };
        send_to(live, id, line, out);
        i += 1;
    }
}

fn seat_names(seats: &Vec<(usize, String)>) -> (r: Vec<String>)
    ensures
        r@.map_values(|s: String| s@) == entries_view(seats@).map_values(|e: SeatView| e.1),
{
    let mut names: Vec<String> = Vec::new();
    let mut i: usize = 0;
    while i < seats.len()
        invariant
            i <= seats@.len(),
            names@.len() == i,
            forall|k: int| 0 <= k < i ==> (#[trigger] names@[k])@ == seats@[k].1@,
        decreases seats@.len() - i,
    {
        names.push(seats[i].1.clone());
        i += 1;
    }
    assert(names@.map_values(|s: String| s@) =~= entries_view(seats@).map_values(
        |e: SeatView| e.1,
    ));
    names
}

impl ChatServer {
    /// Deals the roles of a full room and tells each seat its own.
    fn assign_and_notify(&self, room: &Room, out: &mut Vec<Outbound>)
        requires
            room@.seats.len() == room.size as int,
            valid_count(room.size as int),
        ensures
            fill_notices(
                room@.seats,
                self@.sessions,
                outs_view(final(out)@).skip(outs_view(old(out)@).len() as int),
            ),
            outs_view(final(out)@).len() >= outs_view(old(out)@).len(),
            outs_view(final(out)@).take(outs_view(old(out)@).len() as int) == outs_view(old(out)@),
    {
        let ghost start = outs_view(out@);
        let seats = &room.seats;
        broadcast(&self.sessions, seats, None, "人已经凑齐", out);
        let names = seat_names(seats);
        assert(names@.map_values(|s: String| s@).len() == names@.len());
        assert(names@.len() == seats@.len());
        match Assignment::new(names) {
            Ok(a) => {
                assert(crate::game::names_of(a@).len() == a@.len());
                tell_roles(&self.sessions, seats, &a, out);
                proof {
                    let sv = entries_view(seats@);
                    let roles = roles_of(a@);
                    assert(a@ =~= seat_players(sv, roles)) by {
                        assert forall|k: int| 0 <= k < a@.len() implies a@[k] == seat_players(
                            sv,
                            roles,
                        )[k] by {
                            assert(crate::game::names_of(a@)[k] == a@[k].0);
                            assert(entries_view(seats@).map_values(|e: SeatView| e.1)[k]
                                == sv[k].1);
                        }
                    }
                    assert(outs_view(out@).skip(start.len() as int) =~= notices(
                        sv,
                        self@.sessions,
                        None,
                        "人已经凑齐"@,
                    ) + reveals(seat_players(sv, roles), sv, self@.sessions, sv.len() as int));
                    assert(dealt(roles, sv.len() as int));
                    assert(outs_view(out@).take(start.len() as int) =~= start);
                }
            },
            Err(_) => {
                broadcast(&self.sessions, seats, None, "分配失败：invalid player number", out);
            },
        }
    }

    /// Seats session `id` in the named room, leaving any room it sat in; a
    /// room that fills is dealt and closed.
    pub fn join(&mut self, msg: Join) -> (out: Vec<Outbound>)
        requires
            old(self).wf(),
        ensures
            final(self).wf(),
            join_result(
                old(self)@,
                msg.id,
                msg.session_name@,
                msg.name@,
                final(self)@,
                outs_view(out@),
            ),
    {
        let ghost v = self@;
        let Join { id, session_name, name } = msg;
        let mut out: Vec<Outbound> = Vec::new();
        if self.find(&name).is_none() {
            send_to(&self.sessions, id, String::from_str("!!! room not exist"), &mut out);
            assert(outs_view(out@) =~= to_user(v.sessions, id, "!!! room not exist"@));
            return out;
        }
        proof {
            lemma_leave_rooms_ok(v.rooms, id);
            lemma_leave_rooms_distinct(v.rooms, id);
            lemma_leave_one_room(v.rooms, id);
            lemma_leave_rooms_unseated(v.rooms, id);
            lemma_leave_members(v.rooms, id);
        }
        self.remove_user_from_all_rooms(id, &mut out);
        let ghost gone = outs_view(out@);
        assert(gone =~= leave_notices(v.rooms, id, v.sessions));
        match self.find(&name) {
            None => {
                send_to(
                    &self.sessions,
                    id,
                    String::from_str("!!! room not exist, may be deleted just now"),
                    &mut out,
                );
                assert(outs_view(out@) =~= gone + to_user(
                    v.sessions,
                    id,
                    "!!! room not exist, may be deleted just now"@,
                ));
                assert(join_result(v, id, session_name@, name@, self@, outs_view(out@)));
                out
            },
            Some(j) => {
                let ghost left = self@.rooms;
                let mut room = self.rooms.remove(j);
                assert(room@ == left[j as int]);
                room.seats.push((id, session_name.clone()));
                assert(room@.seats =~= left[j as int].seats.push((id, session_name@)));
                let text = session_name.concat(" connected");
                broadcast(&self.sessions, &room.seats, Some(id), text.as_str(), &mut out);
                send_to(&self.sessions, id, String::from_str("joined"), &mut out);
                let ghost greeted = outs_view(out@);
                proof {
                    let seats = left[j as int].seats.push((id, session_name@));
                    assert(greeted =~= gone + notices(
                        seats,
                        v.sessions,
                        Some(id),
                        session_name@ + " connected"@,
                    ) + to_user(v.sessions, id, "joined"@));
                    assert(find_room(left, name@) == Some(j as int));
                }
                proof {
                    lemma_leave_rooms_unseated(v.rooms, id);
                    assert(room_ok(left[j as int]));
                    lemma_seat_added(left, j as int, id, session_name@);
                }
                if room.is_full() {
                    self.assign_and_notify(&room, &mut out);
                    proof {
                        lemma_room_removed(left, j as int);
                        assert(self@.rooms =~= left.remove(j as int));
                        assert(outs_view(out@).take(greeted.len() as int) == greeted);
                        assert(join_result(v, id, session_name@, name@, self@, outs_view(out@)));
                    }
                } else {
                    self.rooms.insert(j, room);
                    proof {
                        assert(self@.rooms =~= left.update(
                            j as int,
                            RoomView { seats: room@.seats, ..left[j as int] },
                        ));
                        assert(join_result(v, id, session_name@, name@, self@, outs_view(out@)));
                    }
                }
                out
            },
        }
    }

    /// Opens a room named `room` for session `id`, which leaves any room it
    /// sat in and takes the first seat.
    pub fn create_named(&mut self, msg: Create, room: String) -> (out: Vec<Outbound>)
        requires
            old(self).wf(),
        ensures
            final(self).wf(),
            create_result(
                old(self)@,
                msg.id,
                msg.session_name@,
                msg.size,
                room@,
                final(self)@,
                outs_view(out@),
            ),
    {
        let ghost v = self@;
        let Create { id, session_name, size } = msg;
        let mut out: Vec<Outbound> = Vec::new();
        if (size as usize) < crate::game::LOWER_ROOM_SIZE || (size as usize)
            > crate::game::UPPER_ROOM_SIZE {
            send_to(&self.sessions, id, String::from_str("!!! invalid room size"), &mut out);
            assert(outs_view(out@) =~= to_user(v.sessions, id, "!!! invalid room size"@));
            return out;
        }
        if self.find(&room).is_some() {
            send_to(&self.sessions, id, String::from_str("!!! create room failed"), &mut out);
            assert(outs_view(out@) =~= to_user(v.sessions, id, "!!! create room failed"@));
            return out;
        }
        proof {
            lemma_leave_rooms_ok(v.rooms, id);
            lemma_leave_rooms_distinct(v.rooms, id);
            lemma_leave_one_room(v.rooms, id);
            lemma_leave_rooms_unseated(v.rooms, id);
            lemma_leave_members(v.rooms, id);
        }
        self.remove_user_from_all_rooms(id, &mut out);
        let created = String::from_str("room ").concat(room.as_str()).concat(" created.");
        send_to(&self.sessions, id, created, &mut out);
        send_to(&self.sessions, id, String::from_str("请把房间号告诉你的小伙伴们"), &mut out);
        let mut seats: Vec<(usize, String)> = Vec::new();
        seats.push((id, session_name));
        let r = Room { name: room, size, seats };
        let ghost left = self@.rooms;
        self.rooms.push(r);
        proof {
            lemma_find_room_absent(v.rooms, room@);
            lemma_leave_rooms_names(v.rooms, id);
            assert forall|k: int| 0 <= k < left.len() implies (#[trigger] left[k]).name != room@ by {
                assert(named_after_kept(v.rooms, id, left[k]));
            }
            assert(r@.seats =~= seq![(id, msg.session_name@)]);
            assert(self@.rooms =~= left.push(r@));
            assert(outs_view(out@) =~= leave_notices(v.rooms, id, v.sessions) + to_user(
                v.sessions,
                id,
                "room "@ + room@ + " created."@,
            ) + to_user(v.sessions, id, "请把房间号告诉你的小伙伴们"@));
        }
        out
    }

    /// Opens a room under a random number under a thousand.
    pub fn create(&mut self, msg: Create) -> (out: Vec<Outbound>)
        requires
            old(self).wf(),
        ensures
            final(self).wf(),
            exists|n: nat|
                n < 1000 && create_result(
                    old(self)@,
                    msg.id,
                    msg.session_name@,
                    msg.size,
                    #[trigger] decimal(n),
                    final(self)@,
                    outs_view(out@),
                ),
    {
        let n = random_below(0, 1000);
        let name = decimal_text(n);
        self.create_named(msg, name)
    }
}


proof fn lemma_find_room_none(rooms: Seq<RoomView>, name: Seq<char>)
    requires
        forall|i: int| 0 <= i < rooms.len() ==> (#[trigger] rooms[i]).name != name,
    ensures
        find_room(rooms, name) is None,
    decreases rooms.len(),
{
    if rooms.len() > 0 {
        let rest = rooms.drop_last();
        assert forall|i: int| 0 <= i < rest.len() implies (#[trigger] rest[i]).name != name by {
            assert(rest[i] == rooms[i]);
        }
        lemma_find_room_none(rest, name);
        assert(rooms[rooms.len() - 1].name != name);
    }
}

/// Joining a room that is not open changes nothing, and the caller is told
/// that the room does not exist.
pub proof fn lemma_join_missing_room(
    v: ServerView,
    id: usize,
    who: Seq<char>,
    room: Seq<char>,
    w: ServerView,
    out: Seq<OutView>,
)
    requires
        forall|i: int| 0 <= i < v.rooms.len() ==> (#[trigger] v.rooms[i]).name != room,
        join_result(v, id, who, room, w, out),
    ensures
        w == v,
        out == to_user(v.sessions, id, "!!! room not exist"@),
        v.sessions.contains(id) ==> out == seq![(id, "!!! room not exist"@)],
{
    lemma_find_room_none(v.rooms, room);
}

/// Disconnecting a session that is already gone changes nothing and sends
/// nothing.
pub proof fn lemma_disconnect_twice(v: ServerView, id: usize)
    ensures
        after_disconnect(after_disconnect(v, id).0, id) == (
            after_disconnect(v, id).0,
            Seq::<OutView>::empty(),
        ),
{
    lemma_others(v.sessions, id);
}

proof fn lemma_without_twice(seats: Seq<SeatView>, id: usize)
    ensures
        without(without(seats, id), id) == without(seats, id),
    decreases seats.len(),
{
    if seats.len() > 0 {
        let w = without(seats.drop_last(), id);
        lemma_without_twice(seats.drop_last(), id);
        if seats.last().0 != id {
            assert(w.push(seats.last()).drop_last() =~= w);
        }
    }
}

proof fn lemma_leave_rooms_unseated(rooms: Seq<RoomView>, id: usize)
    ensures
        forall|k: int|
            0 <= k < leave_rooms(rooms, id).len() ==> !seated(
                (#[trigger] leave_rooms(rooms, id)[k]).seats,
                id,
            ),
    decreases rooms.len(),
{
    if rooms.len() > 0 {
        let p = rooms.drop_last();
        lemma_leave_rooms_unseated(p, id);
        let r = rooms.last();
        lemma_without_twice(r.seats, id);
        let rest = leave_rooms(p, id);
        let res = leave_rooms(rooms, id);
        assert forall|k: int| 0 <= k < res.len() implies !seated((#[trigger] res[k]).seats, id) by {
            if k < rest.len() {
                assert(res[k] == rest[k]);
            } else {
                assert(res[k].seats == without(r.seats, id));
            }
        }
    }
}

/// A room that a leaving session does not empty stays, without its seat.
proof fn lemma_leave_rooms_keeps(rooms: Seq<RoomView>, id: usize, i: int)
    requires
        0 <= i < rooms.len(),
        !(seated(rooms[i].seats, id) && without(rooms[i].seats, id).len() == 0),
    ensures
        leave_rooms(rooms, id).contains(
            RoomView { seats: without(rooms[i].seats, id), ..rooms[i] },
        ),
    decreases rooms.len(),
{
    let rest = leave_rooms(rooms.drop_last(), id);
    let x = RoomView { seats: without(rooms[i].seats, id), ..rooms[i] };
    if i == rooms.len() - 1 {
        assert(leave_rooms(rooms, id) == rest.push(x));
        assert(rest.push(x)[rest.len() as int] == x);
    } else {
        assert(rooms.drop_last()[i] == rooms[i]);
        lemma_leave_rooms_keeps(rooms.drop_last(), id, i);
        let k = choose|k: int| 0 <= k < rest.len() && rest[k] == x;
        let r = rooms.last();
        if !(seated(r.seats, id) && without(r.seats, id).len() == 0) {
            assert(rest.push(RoomView { seats: without(r.seats, id), ..r })[k] == x);
        }
    }
}

/// `x` has the name of a room that session `id` did not empty on leaving.
pub open spec fn named_after_kept(rooms: Seq<RoomView>, id: usize, x: RoomView) -> bool {
    exists|j: int|
        0 <= j < rooms.len() && x.name == rooms[j].name && !(seated(rooms[j].seats, id) && without(
            rooms[j].seats,
            id,
        ).len() == 0)
}

/// Each room left open stands for an earlier room of the same name that the
/// leaving session did not empty.
proof fn lemma_leave_rooms_names(rooms: Seq<RoomView>, id: usize)
    ensures
        forall|k: int|
            0 <= k < leave_rooms(rooms, id).len() ==> named_after_kept(
                rooms,
                id,
                #[trigger] leave_rooms(rooms, id)[k],
            ),
    decreases rooms.len(),
{
    if rooms.len() > 0 {
        let p = rooms.drop_last();
        lemma_leave_rooms_names(p, id);
        let rest = leave_rooms(p, id);
        let res = leave_rooms(rooms, id);
        assert forall|k: int| 0 <= k < res.len() implies named_after_kept(
            rooms,
            id,
            #[trigger] res[k],
        ) by {
            if k < rest.len() {
                assert(res[k] == rest[k]);
                assert(named_after_kept(p, id, rest[k]));
                let j = choose|j: int|
                    0 <= j < p.len() && rest[k].name == p[j].name && !(seated(p[j].seats, id)
                        && without(p[j].seats, id).len() == 0);
                assert(p[j] == rooms[j]);
            } else {
                let j = rooms.len() - 1;
                assert(res[k].name == rooms[j].name);
                assert(!(seated(rooms[j].seats, id) && without(rooms[j].seats, id).len() == 0));
            }
        }
    }
}

proof fn lemma_notices_reach(
    seats: Seq<SeatView>,
    live: Seq<usize>,
    text: Seq<char>,
    s: SeatView,
)
    requires
        seats.contains(s),
        live.contains(s.0),
    ensures
        notices(seats, live, None, text).contains((s.0, text)),
    decreases seats.len(),
{
    let rest = notices(seats.drop_last(), live, None, text);
    if seats.last() == s {
        assert(rest.push((s.0, text))[rest.len() as int] == (s.0, text));
    } else {
        let k = choose|k: int| 0 <= k < seats.len() && seats[k] == s;
        assert(seats.drop_last()[k] == s);
        lemma_notices_reach(seats.drop_last(), live, text, s);
        let m = choose|m: int| 0 <= m < rest.len() && rest[m] == (s.0, text);
        if live.contains(seats.last().0) {
            assert(rest.push((seats.last().0, text))[m] == (s.0, text));
        }
    }
}

proof fn lemma_leave_notices_reach(
    rooms: Seq<RoomView>,
    id: usize,
    live: Seq<usize>,
    i: int,
    s: SeatView,
)
    requires
        0 <= i < rooms.len(),
        seated(rooms[i].seats, id),
        without(rooms[i].seats, id).contains(s),
        live.contains(s.0),
    ensures
        leave_notices(rooms, id, live).contains((s.0, left_text())),
    decreases rooms.len(),
{
    let p = rooms.drop_last();
    let rest = leave_notices(p, id, live);
    let r = rooms.last();
    let x = (s.0, left_text());
    if i == rooms.len() - 1 {
        lemma_notices_reach(without(r.seats, id), live, left_text(), s);
        let tail = notices(without(r.seats, id), live, None, left_text());
        let m = choose|m: int| 0 <= m < tail.len() && tail[m] == x;
        assert((rest + tail)[rest.len() + m] == x);
    } else {
        assert(p[i] == rooms[i]);
        lemma_leave_notices_reach(p, id, live, i, s);
        let m = choose|m: int| 0 <= m < rest.len() && rest[m] == x;
        if seated(r.seats, id) {
            let tail = notices(without(r.seats, id), live, None, left_text());
            assert((rest + tail)[m] == x);
        }
    }
}

/// Disconnecting a session that sits in a room takes it out of every room;
/// everyone still live in that room is told; the room stays, without the
/// seat, unless it is left empty, and then no open room has its name.
pub proof fn lemma_disconnect_mid_room(v: ServerView, id: usize, i: int)
    requires
        v.sessions.contains(id),
        0 <= i < v.rooms.len(),
        seated(v.rooms[i].seats, id),
        names_distinct(v.rooms),
    ensures
        ({
            let (w, out) = after_disconnect(v, id);
            let kept = without(v.rooms[i].seats, id);
            &&& forall|k: int| 0 <= k < w.rooms.len() ==> !seated((#[trigger] w.rooms[k]).seats, id)
            &&& forall|s: SeatView|
                kept.contains(s) && #[trigger] w.sessions.contains(s.0) ==> out.contains(
                    (s.0, left_text()),
                )
            &&& kept.len() > 0 ==> w.rooms.contains(RoomView { seats: kept, ..v.rooms[i] })
            &&& kept.len() == 0 ==> forall|k: int|
                0 <= k < w.rooms.len() ==> (#[trigger] w.rooms[k]).name != v.rooms[i].name
        }),
{
    let live = others(v.sessions, id);
    let kept = without(v.rooms[i].seats, id);
    lemma_leave_rooms_unseated(v.rooms, id);
    assert forall|s: SeatView| kept.contains(s) && #[trigger] live.contains(s.0) implies
        leave_notices(v.rooms, id, live).contains((s.0, left_text())) by {
        lemma_leave_notices_reach(v.rooms, id, live, i, s);
    }
    if kept.len() > 0 {
        lemma_leave_rooms_keeps(v.rooms, id, i);
    } else {
        lemma_leave_rooms_names(v.rooms, id);
        let res = leave_rooms(v.rooms, id);
        assert forall|k: int| 0 <= k < res.len() implies (#[trigger] res[k]).name
            != v.rooms[i].name by {
            assert(named_after_kept(v.rooms, id, res[k]));
            let j = choose|j: int|
                0 <= j < v.rooms.len() && res[k].name == v.rooms[j].name && !(seated(
                    v.rooms[j].seats,
                    id,
                ) && without(v.rooms[j].seats, id).len() == 0);
            assert(j != i);
        }
    }
}


proof fn lemma_find_room_absent(rooms: Seq<RoomView>, name: Seq<char>)
    requires
        find_room(rooms, name) is None,
    ensures
        forall|i: int| 0 <= i < rooms.len() ==> (#[trigger] rooms[i]).name != name,
    decreases rooms.len(),
{
    if rooms.len() > 0 {
        let p = rooms.drop_last();
        lemma_find_room_absent(p, name);
        assert forall|i: int| 0 <= i < rooms.len() implies (#[trigger] rooms[i]).name != name by {
            if i < p.len() {
                assert(p[i] == rooms[i]);
            }
        }
    }
}

/// Leaving rooms keeps the names of the open rooms distinct.
proof fn lemma_leave_rooms_distinct(rooms: Seq<RoomView>, id: usize)
    requires
        names_distinct(rooms),
    ensures
        names_distinct(leave_rooms(rooms, id)),
    decreases rooms.len(),
{
    if rooms.len() > 0 {
        let p = rooms.drop_last();
        assert(names_distinct(p)) by {
            assert forall|a: int, b: int|
                0 <= a < p.len() && 0 <= b < p.len() && a != b implies (#[trigger] p[a]).name
                != (#[trigger] p[b]).name by {
                assert(p[a] == rooms[a] && p[b] == rooms[b]);
            }
        }
        lemma_leave_rooms_distinct(p, id);
        lemma_leave_rooms_names(p, id);
        let rest = leave_rooms(p, id);
        let res = leave_rooms(rooms, id);
        let last = rooms.len() - 1;
        assert forall|k: int| 0 <= k < rest.len() implies (#[trigger] rest[k]).name
            != rooms[last].name by {
            assert(named_after_kept(p, id, rest[k]));
            let j = choose|j: int|
                0 <= j < p.len() && rest[k].name == p[j].name && !(seated(p[j].seats, id)
                    && without(p[j].seats, id).len() == 0);
            assert(p[j] == rooms[j]);
        }
        assert forall|a: int, b: int|
            0 <= a < res.len() && 0 <= b < res.len() && a != b implies (#[trigger] res[a]).name
            != (#[trigger] res[b]).name by {
            if a < rest.len() && b < rest.len() {
                assert(res[a] == rest[a] && res[b] == rest[b]);
            } else if a < rest.len() {
                assert(res[a] == rest[a]);
            } else {
                assert(res[b] == rest[b]);
            }
        }
    }
}


/// Ids that cover every number up to `c` are more than `c` in number.
proof fn lemma_ids_exhaust(ids: Seq<usize>, c: usize)
    requires
        ids.no_duplicates(),
        forall|k: usize| k <= c ==> ids.contains(k),
    ensures
        (c as int) < ids.len(),
{
    let t = ids.to_set();
    let f = |x: usize| x as int;
    let b = t.map(f);
    let a = set_int_range(0, c as int + 1);
    lemma_int_range(0, c as int + 1);
    seq_to_set_is_finite(ids);
    ids.unique_seq_to_set();
    lemma_map_size_bound(t, b, f);
    assert forall|i: int| a.contains(i) implies b.contains(i) by {
        let k = i as usize;
        assert(ids.contains(k));
        assert(t.contains(k));
        assert(f(k) == i);
    }
    lemma_len_subset(a, b);
}


proof fn lemma_holds_push(s: Seq<SeatView>, l: SeatView)
    ensures
        forall|x: usize| #[trigger] holds(s.push(l), x) <==> holds(s, x) || l.0 == x,
{
    let t = s.push(l);
    assert forall|x: usize| #[trigger] holds(t, x) <==> holds(s, x) || l.0 == x by {
        if holds(t, x) {
            let k = choose|k: int| 0 <= k < t.len() && t[k].0 == x;
            if k < s.len() {
                assert(t[k] == s[k]);
            }
        }
        if holds(s, x) {
            let k = choose|k: int| 0 <= k < s.len() && s[k].0 == x;
            assert(t[k] == s[k]);
        }
        if l.0 == x {
            assert(t[s.len() as int] == l);
        }
    }
}

/// What taking a session's seats out of a list does to who holds a seat.
proof fn lemma_without_facts(s: Seq<SeatView>, id: usize)
    ensures
        forall|x: usize| #[trigger] holds(without(s, id), x) <==> holds(s, x) && x != id,
        seated(s, id) <==> holds(s, id),
        seats_distinct(s) ==> seats_distinct(without(s, id)),
    decreases s.len(),
{
    if s.len() > 0 {
        let p = s.drop_last();
        let l = s.last();
        lemma_without_facts(p, id);
        lemma_without_len(p, id);
        assert(p.push(l) =~= s);
        lemma_holds_push(p, l);
        let w = without(p, id);
        if l.0 != id {
            lemma_holds_push(w, l);
            if seats_distinct(s) {
                assert(seats_distinct(p)) by {
                    assert forall|a: int, b: int|
                        0 <= a < p.len() && 0 <= b < p.len() && a != b implies (#[trigger] p[a]).0
                        != (#[trigger] p[b]).0 by {
                        assert(p[a] == s[a] && p[b] == s[b]);
                    }
                }
                assert(!holds(p, l.0)) by {
                    if holds(p, l.0) {
                        let k = choose|k: int| 0 <= k < p.len() && p[k].0 == l.0;
                        assert(s[k] == p[k]);
                        assert(s[s.len() - 1] == l);
                    }
                }
                let w2 = w.push(l);
                assert forall|a: int, b: int|
                    0 <= a < w2.len() && 0 <= b < w2.len() && a != b implies (#[trigger] w2[a]).0
                    != (#[trigger] w2[b]).0 by {
                    if a < w.len() && b < w.len() {
                        assert(w2[a] == w[a] && w2[b] == w[b]);
                    } else if a < w.len() {
                        assert(w2[a] == w[a]);
                        assert(holds(w, w[a].0));
                    } else {
                        assert(w2[b] == w[b]);
                        assert(holds(w, w[b].0));
                    }
                }
            }
        }
    }
}

/// `x` holds a seat in some room of the list.
pub open spec fn held_somewhere(rooms: Seq<RoomView>, x: usize) -> bool {
    exists|j: int| 0 <= j < rooms.len() && holds(rooms[j].seats, x)
}

proof fn lemma_leave_members(rooms: Seq<RoomView>, id: usize)
    ensures
        forall|k: int, x: usize|
            0 <= k < leave_rooms(rooms, id).len() && #[trigger] holds(
                leave_rooms(rooms, id)[k].seats,
                x,
            ) ==> x != id && held_somewhere(rooms, x),
    decreases rooms.len(),
{
    if rooms.len() > 0 {
        let p = rooms.drop_last();
        lemma_leave_members(p, id);
        let rest = leave_rooms(p, id);
        let res = leave_rooms(rooms, id);
        let last = rooms.len() - 1;
        lemma_without_facts(rooms[last].seats, id);
        assert forall|k: int, x: usize|
            0 <= k < res.len() && #[trigger] holds(res[k].seats, x) implies x != id
            && held_somewhere(rooms, x) by {
            if k < rest.len() {
                assert(res[k] == rest[k]);
                let j = choose|j: int| 0 <= j < p.len() && holds(p[j].seats, x);
                assert(p[j] == rooms[j]);
            } else {
                assert(res[k].seats == without(rooms[last].seats, id));
                assert(holds(rooms[last].seats, x));
            }
        }
    }
}

/// Leaving rooms keeps every session in one room at most.
proof fn lemma_leave_one_room(rooms: Seq<RoomView>, id: usize)
    requires
        one_room_each(rooms),
    ensures
        one_room_each(leave_rooms(rooms, id)),
    decreases rooms.len(),
{
    if rooms.len() > 0 {
        let p = rooms.drop_last();
        let last = rooms.len() - 1;
        assert(one_room_each(p)) by {
            assert forall|a: int, b: int, x: usize|
                0 <= a < p.len() && 0 <= b < p.len() && a != b && #[trigger] holds(p[a].seats, x)
                implies !#[trigger] holds(p[b].seats, x) by {
                assert(p[a] == rooms[a] && p[b] == rooms[b]);
            }
        }
        lemma_leave_one_room(p, id);
        lemma_leave_members(p, id);
        lemma_without_facts(rooms[last].seats, id);
        let rest = leave_rooms(p, id);
        let res = leave_rooms(rooms, id);
        assert forall|a: int, b: int, x: usize|
            0 <= a < res.len() && 0 <= b < res.len() && a != b && #[trigger] holds(res[a].seats, x)
            implies !#[trigger] holds(res[b].seats, x) by {
            if a < rest.len() && b < rest.len() {
                assert(res[a] == rest[a] && res[b] == rest[b]);
            } else if holds(res[b].seats, x) {
                let (k, m) = if a < rest.len() {
                    (a, b)
                } else {
                    (b, a)
                };
                assert(res[k] == rest[k]);
                assert(holds(rest[k].seats, x));
                let j = choose|j: int| 0 <= j < p.len() && holds(p[j].seats, x);
                assert(p[j] == rooms[j]);
                assert(res[m].seats == without(rooms[last].seats, id));
                assert(holds(rooms[last].seats, x));
                assert(holds(rooms[j].seats, x));
            }
        }
    }
}


/// A session seated nowhere takes a seat in room `j`.
proof fn lemma_seat_added(left: Seq<RoomView>, j: int, id: usize, who: Seq<char>)
    requires
        0 <= j < left.len(),
        one_room_each(left),
        seats_distinct(left[j].seats),
        forall|k: int| 0 <= k < left.len() ==> !seated((#[trigger] left[k]).seats, id),
    ensures
        seats_distinct(left[j].seats.push((id, who))),
        one_room_each(left.update(j, RoomView { seats: left[j].seats.push((id, who)), ..left[j] })),
{
    let old_seats = left[j].seats;
    let seats = old_seats.push((id, who));
    let upd = left.update(j, RoomView { seats, ..left[j] });
    lemma_holds_push(old_seats, (id, who));
    assert forall|k: int| 0 <= k < left.len() implies !holds((#[trigger] left[k]).seats, id) by {
        lemma_without_facts(left[k].seats, id);
    }
    assert forall|a: int, b: int|
        0 <= a < seats.len() && 0 <= b < seats.len() && a != b implies (#[trigger] seats[a]).0
        != (#[trigger] seats[b]).0 by {
        if a < old_seats.len() && b < old_seats.len() {
            assert(seats[a] == old_seats[a] && seats[b] == old_seats[b]);
        } else if a < old_seats.len() {
            assert(seats[a] == old_seats[a]);
            assert(holds(old_seats, old_seats[a].0));
        } else {
            assert(seats[b] == old_seats[b]);
            assert(holds(old_seats, old_seats[b].0));
        }
    }
    assert forall|a: int, b: int, x: usize|
        0 <= a < upd.len() && 0 <= b < upd.len() && a != b && #[trigger] holds(upd[a].seats, x)
        implies !#[trigger] holds(upd[b].seats, x) by {
        if a != j && b != j {
            assert(upd[a] == left[a] && upd[b] == left[b]);
        } else if a == j {
            assert(upd[b] == left[b]);
            if holds(upd[b].seats, x) {
                assert(holds(left[a].seats, x));
            }
        } else {
            assert(upd[a] == left[a]);
            if holds(upd[b].seats, x) {
                assert(holds(left[b].seats, x));
            }
        }
    }
}

/// Closing room `j` keeps the open rooms well formed.
proof fn lemma_room_removed(left: Seq<RoomView>, j: int)
    requires
        0 <= j < left.len(),
        one_room_each(left),
        names_distinct(left),
        forall|i: int| 0 <= i < left.len() ==> room_ok(#[trigger] left[i]),
    ensures
        one_room_each(left.remove(j)),
        names_distinct(left.remove(j)),
        forall|i: int| 0 <= i < left.remove(j).len() ==> room_ok(#[trigger] left.remove(j)[i]),
{
    let r = left.remove(j);
    assert forall|i: int| 0 <= i < r.len() implies r[i] == left[if i < j {
        i
    } else {
        i + 1
    }] by {}
    assert forall|i: int| 0 <= i < r.len() implies room_ok(#[trigger] r[i]) by {
        assert(r[i] == left[if i < j { i } else { i + 1 }]);
    }
    assert forall|a: int, b: int|
        0 <= a < r.len() && 0 <= b < r.len() && a != b implies (#[trigger] r[a]).name
        != (#[trigger] r[b]).name by {
        assert(r[a] == left[if a < j { a } else { a + 1 }]);
        assert(r[b] == left[if b < j { b } else { b + 1 }]);
    }
    assert forall|a: int, b: int, x: usize|
        0 <= a < r.len() && 0 <= b < r.len() && a != b && #[trigger] holds(r[a].seats, x)
        implies !#[trigger] holds(r[b].seats, x) by {
        let a2 = if a < j { a } else { a + 1 };
        let b2 = if b < j { b } else { b + 1 };
        assert(r[a] == left[a2] && r[b] == left[b2]);
        assert(holds(left[a2].seats, x));
    }
}


proof fn lemma_without_absent(s: Seq<SeatView>, id: usize)
    requires
        !holds(s, id),
    ensures
        without(s, id) == s,
    decreases s.len(),
{
    if s.len() > 0 {
        let p = s.drop_last();
        let l = s.last();
        assert(p.push(l) =~= s);
        lemma_holds_push(p, l);
        lemma_without_absent(p, id);
    }
}

/// Leaving changes nothing where the session holds no seat.
proof fn lemma_leave_untouched(rooms: Seq<RoomView>, id: usize, live: Seq<usize>)
    requires
        forall|k: int| 0 <= k < rooms.len() ==> !holds((#[trigger] rooms[k]).seats, id),
    ensures
        leave_rooms(rooms, id) == rooms,
        leave_notices(rooms, id, live) == Seq::<OutView>::empty(),
    decreases rooms.len(),
{
    if rooms.len() > 0 {
        let p = rooms.drop_last();
        let last = rooms.len() - 1;
        assert forall|k: int| 0 <= k < p.len() implies !holds((#[trigger] p[k]).seats, id) by {
            assert(p[k] == rooms[k]);
        }
        lemma_leave_untouched(p, id, live);
        assert(!holds(rooms[last].seats, id));
        lemma_without_absent(rooms[last].seats, id);
        lemma_without_facts(rooms[last].seats, id);
        assert(p.push(RoomView { seats: without(rooms[last].seats, id), ..rooms[last] }) =~= rooms);
    }
}

/// Leaving where the session holds a seat in room `i` alone.
proof fn lemma_leave_single(rooms: Seq<RoomView>, id: usize, i: int, live: Seq<usize>)
    requires
        0 <= i < rooms.len(),
        holds(rooms[i].seats, id),
        forall|k: int| 0 <= k < rooms.len() && k != i ==> !holds((#[trigger] rooms[k]).seats, id),
    ensures
        ({
            let kept = without(rooms[i].seats, id);
            &&& leave_rooms(rooms, id) == if kept.len() == 0 {
                rooms.remove(i)
            } else {
                rooms.update(i, RoomView { seats: kept, ..rooms[i] })
            }
            &&& leave_notices(rooms, id, live) == notices(kept, live, None, left_text())
        }),
    decreases rooms.len(),
{
    let p = rooms.drop_last();
    let last = rooms.len() - 1;
    let kept = without(rooms[i].seats, id);
    lemma_without_facts(rooms[last].seats, id);
    if i == last {
        assert forall|k: int| 0 <= k < p.len() implies !holds((#[trigger] p[k]).seats, id) by {
            assert(p[k] == rooms[k]);
        }
        lemma_leave_untouched(p, id, live);
        if kept.len() == 0 {
            assert(p =~= rooms.remove(i));
        } else {
            assert(p.push(RoomView { seats: kept, ..rooms[i] }) =~= rooms.update(
                i,
                RoomView { seats: kept, ..rooms[i] },
            ));
        }
        assert(Seq::<OutView>::empty() + notices(kept, live, None, left_text()) =~= notices(
            kept,
            live,
            None,
            left_text(),
        ));
    } else {
        assert(p[i] == rooms[i]);
        assert forall|k: int| 0 <= k < p.len() && k != i implies !holds(
            (#[trigger] p[k]).seats,
            id,
        ) by {
            assert(p[k] == rooms[k]);
        }
        lemma_leave_single(p, id, i, live);
        lemma_without_absent(rooms[last].seats, id);
        let x = RoomView { seats: without(rooms[last].seats, id), ..rooms[last] };
        assert(x == rooms[last]);
        if kept.len() == 0 {
            assert(p.remove(i).push(x) =~= rooms.remove(i));
        } else {
            assert(p.update(i, RoomView { seats: kept, ..rooms[i] }).push(x) =~= rooms.update(
                i,
                RoomView { seats: kept, ..rooms[i] },
            ));
        }
    }
}

/// In a well-formed coordinator, disconnecting a session seated in room `i`
/// changes that room alone: it loses the seat, or closes if it is left
/// empty, and every other room stays as it was. The lines sent are one
/// departure notice to each remaining live member of room `i`, in seat
/// order, and nothing else; no member appears twice.
pub proof fn lemma_disconnect_only_room(v: ServerView, id: usize, i: int)
    requires
        v.sessions.contains(id),
        0 <= i < v.rooms.len(),
        holds(v.rooms[i].seats, id),
        forall|k: int| 0 <= k < v.rooms.len() ==> room_ok(#[trigger] v.rooms[k]),
        one_room_each(v.rooms),
    ensures
        ({
            let (w, out) = after_disconnect(v, id);
            let kept = without(v.rooms[i].seats, id);
            &&& !w.sessions.contains(id)
            &&& w.rooms == if kept.len() == 0 {
                v.rooms.remove(i)
            } else {
                v.rooms.update(i, RoomView { seats: kept, ..v.rooms[i] })
            }
            &&& out == notices(kept, w.sessions, None, left_text())
            &&& seats_distinct(kept)
            &&& !holds(kept, id)
        }),
{
    assert forall|k: int| 0 <= k < v.rooms.len() && k != i implies !holds(
        (#[trigger] v.rooms[k]).seats,
        id,
    ) by {
        assert(holds(v.rooms[i].seats, id));
    }
    lemma_others(v.sessions, id);
    lemma_leave_single(v.rooms, id, i, others(v.sessions, id));
    lemma_without_facts(v.rooms[i].seats, id);
    assert(room_ok(v.rooms[i]));
}


proof fn lemma_find_room_some(rooms: Seq<RoomView>, name: Seq<char>)
    ensures
        find_room(rooms, name) matches Some(k) ==> 0 <= k < rooms.len() && rooms[k].name == name,
    decreases rooms.len(),
{
    if rooms.len() > 0 {
        lemma_find_room_some(rooms.drop_last(), name);
        if let Some(k) = find_room(rooms.drop_last(), name) {
            assert(rooms.drop_last()[k] == rooms[k]);
        }
    }
}

/// A join by a session seated nowhere that takes the last free seat of
/// room `j`: the others there are greeted and the joiner is told it
/// joined; then every seat, the joiner's included, gets the room-full
/// notice and its role and view for one dealing of the roles; the room
/// closes, so no open room has its name, and no other room changes.
pub proof fn lemma_join_fills_room(
    v: ServerView,
    id: usize,
    who: Seq<char>,
    j: int,
    w: ServerView,
    out: Seq<OutView>,
)
    requires
        forall|k: int| 0 <= k < v.rooms.len() ==> room_ok(#[trigger] v.rooms[k]),
        names_distinct(v.rooms),
        forall|k: int| 0 <= k < v.rooms.len() ==> !holds((#[trigger] v.rooms[k]).seats, id),
        0 <= j < v.rooms.len(),
        v.rooms[j].seats.len() + 1 == v.rooms[j].size,
        join_result(v, id, who, v.rooms[j].name, w, out),
    ensures
        w.sessions == v.sessions,
        w.rooms == v.rooms.remove(j),
        forall|k: int| 0 <= k < w.rooms.len() ==> (#[trigger] w.rooms[k]).name != v.rooms[j].name,
        ({
            let seats = v.rooms[j].seats.push((id, who));
            let greeted = notices(seats, v.sessions, Some(id), who + " connected"@) + to_user(
                v.sessions,
                id,
                "joined"@,
            );
            &&& out.len() >= greeted.len()
            &&& out.take(greeted.len() as int) == greeted
            &&& fill_notices(seats, v.sessions, out.skip(greeted.len() as int))
        }),
{
    let room = v.rooms[j].name;
    lemma_leave_untouched(v.rooms, id, v.sessions);
    lemma_find_room_some(v.rooms, room);
    if find_room(v.rooms, room) is None {
        lemma_find_room_absent(v.rooms, room);
        assert(false);
    }
    let k = find_room(v.rooms, room)->Some_0;
    assert(k == j);
    let seats = v.rooms[j].seats.push((id, who));
    let g = notices(seats, v.sessions, Some(id), who + " connected"@) + to_user(
        v.sessions,
        id,
        "joined"@,
    );
    assert(Seq::<OutView>::empty() + notices(seats, v.sessions, Some(id), who + " connected"@)
        + to_user(v.sessions, id, "joined"@) =~= g);
    let r = v.rooms.remove(j);
    assert forall|m: int| 0 <= m < r.len() implies (#[trigger] r[m]).name != room by {
        let m2 = if m < j {
            m
        } else {
            m + 1
        };
        assert(r[m] == v.rooms[m2]);
    }
}

} // verus!
