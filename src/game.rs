//! The assignment engine: which roles are in play for a table of a given
//! size, how they are dealt to seats, and what each role gets to see.
use rand::seq::SliceRandom;
use vstd::prelude::*;

verus! {

#[derive(Clone, Copy, PartialEq, Eq, Debug, Structural)]
pub enum Role {
    Assassin,
    Merlin,
    Mordred,
    Morgana,
    Oberon,
    Percival,
    Loyal,
}

#[derive(Clone, Copy, PartialEq, Eq, Debug, Structural)]
pub enum Alliance {
    Resistance,
    Spy,
}

pub open spec fn alliance_of(role: Role) -> Alliance {
    match role {
        Role::Merlin | Role::Percival | Role::Loyal => Alliance::Resistance,
        Role::Assassin | Role::Mordred | Role::Morgana | Role::Oberon => Alliance::Spy,
    }
}

pub open spec fn role_name(role: Role) -> Seq<char> {
    match role {
        Role::Assassin => "刺客"@,
        Role::Merlin => "梅林"@,
        Role::Mordred => "莫德雷德"@,
        Role::Morgana => "莫甘娜"@,
        Role::Oberon => "奥伯伦"@,
        Role::Percival => "派西维尔"@,
        Role::Loyal => "忠臣"@,
    }
}

impl Role {
    pub fn alliance(self) -> (r: Alliance)
        ensures
            r == alliance_of(self),
    {
        match self {
            Role::Merlin | Role::Percival | Role::Loyal => Alliance::Resistance,
            Role::Assassin | Role::Mordred | Role::Morgana | Role::Oberon => Alliance::Spy,
        }
    }

    /// The name shown to players.
    pub fn name(self) -> (r: &'static str)
        ensures
            r@ == role_name(self),
    {
        match self {
            Role::Assassin => "刺客",
            Role::Merlin => "梅林",
            Role::Mordred => "莫德雷德",
            Role::Morgana => "莫甘娜",
            Role::Oberon => "奥伯伦",
            Role::Percival => "派西维尔",
            Role::Loyal => "忠臣",
        }
    }
}

/// One visible seat: its index in the assignment and the player's name.
pub type SeatView = (usize, Seq<char>);

pub open spec fn entries_view(v: Seq<(usize, String)>) -> Seq<SeatView> {
    v.map_values(|e: (usize, String)| (e.0, e.1@))
}

/// What a role is told, as seat lists.
pub enum Sight {
    Normal,
    Spy(Seq<SeatView>),
    Merlin(Seq<SeatView>, Seq<SeatView>),
    Percival(Seq<SeatView>),
}

#[derive(Clone, Debug)]
pub enum SeeingBy {
    Normal,
    Spy(Vec<(usize, String)>),
    Merlin(Vec<(usize, String)>, Vec<(usize, String)>),
    Percival(Vec<(usize, String)>),
}

impl View for SeeingBy {
    type V = Sight;

    open spec fn view(&self) -> Sight {
        match self {
            SeeingBy::Normal => Sight::Normal,
            SeeingBy::Spy(s) => Sight::Spy(entries_view(s@)),
            SeeingBy::Merlin(g, e) => Sight::Merlin(entries_view(g@), entries_view(e@)),
            SeeingBy::Percival(p) => Sight::Percival(entries_view(p@)),
        }
    }
}

/// The text that stands for a seat: "you" for the viewer's own seat.
pub open spec fn label(e: SeatView, viewer: Option<usize>) -> Seq<char> {
    if viewer == Some(e.0) {
        "你"@
    } else {
        e.1
    }
}

pub open spec fn labels(es: Seq<SeatView>, viewer: Option<usize>) -> Seq<Seq<char>> {
    es.map_values(|e: SeatView| label(e, viewer))
}

/// The parts, in order, with `sep` between each two.
pub open spec fn joined(parts: Seq<Seq<char>>, sep: Seq<char>) -> Seq<char>
    decreases parts.len(),
{
    if parts.len() == 0 {
        Seq::empty()
    } else if parts.len() == 1 {
        parts[0]
    } else {
        joined(parts.drop_last(), sep) + sep + parts.last()
    }
}

/// The instructions a view renders to, for a viewer's seat or for no one.
pub open spec fn render(v: Sight, viewer: Option<usize>) -> Seq<char> {
    match v {
        Sight::Normal => Seq::empty(),
        Sight::Spy(s) => joined(labels(s, viewer), "、"@) + " 都是坏人"@,
        Sight::Merlin(g, e) => joined(labels(g, viewer), "、"@) + " 都是好人\n"@ + joined(
            labels(e, viewer),
            "、"@,
        ) + " 都是坏人"@,
        Sight::Percival(p) => joined(labels(p, viewer), " 和 "@) + " 当中有一个是梅林，另一个是莫甘娜"@,
    }
}

/// Relies on itertools::join: the items' text, in order, with `sep` between each two.
#[verifier::external_body]
fn join_texts(parts: &Vec<String>, sep: &str) -> (r: String)
    ensures
        r@ == joined(parts@.map_values(|s: String| s@), sep@),
{
    itertools::join(parts.iter(), sep)
}

fn labels_of(entries: &Vec<(usize, String)>, viewer: Option<usize>) -> (r: Vec<String>)
    ensures
        r@.map_values(|s: String| s@) == labels(entries_view(entries@), viewer),
{
    let mut out: Vec<String> = Vec::new();
    let mut i: usize = 0;
    while i < entries.len()
        invariant
            i <= entries@.len(),
            out@.map_values(|s: String| s@) == labels(entries_view(entries@.take(i as int)), viewer),
        decreases entries@.len() - i,
    {
        let seat = entries[i].0;
        let mine = match viewer {
            Some(v) => v == seat,
            None => false,
        };
        let text = if mine {
            String::from_str("你")
        } else {
            entries[i].1.clone()
        };
        let ghost before = out@;
        out.push(text);
        proof {
            assert(entries@.take(i + 1) =~= entries@.take(i as int).push(entries@[i as int]));
            assert(out@.map_values(|s: String| s@) =~= before.map_values(|s: String| s@).push(
                text@,
            ));
            assert(labels(entries_view(entries@.take(i + 1)), viewer) =~= labels(
                entries_view(entries@.take(i as int)),
                viewer,
            ).push(label((seat, entries@[i as int].1@), viewer)));
        }
        i += 1;
    }
    assert(entries@.take(i as int) =~= entries@);
    out
}

impl SeeingBy {
    /// The instructions, naming every seat.
    pub fn text(&self) -> (r: String)
        ensures
            r@ == render(self@, None),
    {
        self.text_with(None)
    }

    /// The instructions as the player at seat `id` reads them.
    pub fn text_from_player(&self, id: usize) -> (r: String)
        ensures
            r@ == render(self@, Some(id)),
    {
        self.text_with(Some(id))
    }

    fn text_with(&self, viewer: Option<usize>) -> (r: String)
        ensures
            r@ == render(self@, viewer),
    {
        match self {
            SeeingBy::Normal => String::new(),
            SeeingBy::Spy(spies) => {
                let j = join_texts(&labels_of(spies, viewer), "、");
                j.concat(" 都是坏人")
            },
            SeeingBy::Merlin(good, evil) => {
                let g = join_texts(&labels_of(good, viewer), "、");
                let e = join_texts(&labels_of(evil, viewer), "、");
                g.concat(" 都是好人\n").concat(e.as_str()).concat(" 都是坏人")
            },
            SeeingBy::Percival(pair) => {
                let j = join_texts(&labels_of(pair, viewer), " 和 ");
                j.concat(" 当中有一个是梅林，另一个是莫甘娜")
            },
        }
    }
}

/// Which seats a filter lets through.
#[derive(Clone, Copy, PartialEq, Eq, Debug, Structural)]
pub enum Sieve {
    SpiesButOberon,
    AppearGood,
    AppearEvil,
    MerlinOrMorgana,
}

pub open spec fn admits(s: Sieve, role: Role) -> bool {
    match s {
        Sieve::SpiesButOberon => alliance_of(role) == Alliance::Spy && role != Role::Oberon,
        Sieve::AppearGood => !(alliance_of(role) == Alliance::Spy && role != Role::Mordred),
        Sieve::AppearEvil => alliance_of(role) == Alliance::Spy && role != Role::Mordred,
        Sieve::MerlinOrMorgana => role == Role::Merlin || role == Role::Morgana,
    }
}

impl Sieve {
    fn lets_through(self, role: Role) -> (r: bool)
        ensures
            r == admits(self, role),
    {
        let spy = match role.alliance() {
            Alliance::Spy => true,
            Alliance::Resistance => false,
        };
        match self {
            Sieve::SpiesButOberon => spy && !matches!(role, Role::Oberon),
            Sieve::AppearGood => !(spy && !matches!(role, Role::Mordred)),
            Sieve::AppearEvil => spy && !matches!(role, Role::Mordred),
            Sieve::MerlinOrMorgana => matches!(role, Role::Merlin | Role::Morgana),
        }
    }
}

/// The seats, in seat order, whose role the filter lets through.
pub open spec fn sift(players: Seq<(Seq<char>, Role)>, s: Sieve) -> Seq<SeatView>
    decreases players.len(),
{
    if players.len() == 0 {
        Seq::empty()
    } else {
        let rest = sift(players.drop_last(), s);
        if admits(s, players.last().1) {
            rest.push(((players.len() - 1) as usize, players.last().0))
        } else {
            rest
        }
    }
}

/// What a role sees of a table.
pub open spec fn sight(players: Seq<(Seq<char>, Role)>, role: Role) -> Sight {
    match role {
        Role::Assassin | Role::Morgana | Role::Mordred => Sight::Spy(
            sift(players, Sieve::SpiesButOberon),
        ),
        Role::Merlin => Sight::Merlin(
            sift(players, Sieve::AppearGood),
            sift(players, Sieve::AppearEvil),
        ),
        Role::Percival => Sight::Percival(sift(players, Sieve::MerlinOrMorgana)),
        Role::Oberon | Role::Loyal => Sight::Normal,
    }
}

pub const LOWER_ROOM_SIZE: usize = 5;

pub const UPPER_ROOM_SIZE: usize = 10;

/// The roles in play, in order: a table of `n` plays the first `n`.
pub open spec fn role_pool() -> Seq<Role> {
    seq![
        Role::Merlin,
        Role::Assassin,
        Role::Percival,
        Role::Morgana,
        Role::Loyal,
        Role::Loyal,
        Role::Oberon,
        Role::Loyal,
        Role::Loyal,
        Role::Mordred,
    ]
}

pub open spec fn valid_count(n: int) -> bool {
    LOWER_ROOM_SIZE <= n <= UPPER_ROOM_SIZE
}

/// `roles` is an ordering of the first `n` roles of the pool.
pub open spec fn dealt(roles: Seq<Role>, n: int) -> bool {
    &&& roles.len() == n
    &&& roles.to_multiset() == role_pool().take(n).to_multiset()
}

#[derive(Clone, Copy, PartialEq, Eq, Debug, Structural)]
pub enum DealError {
    InvalidPlayerCount(usize),
}

fn pool_role(i: usize) -> (r: Role)
    requires
        i < UPPER_ROOM_SIZE,
    ensures
        r == role_pool()[i as int],
{
    match i {
        0 => Role::Merlin,
        1 => Role::Assassin,
        2 => Role::Percival,
        3 => Role::Morgana,
        4 => Role::Loyal,
        5 => Role::Loyal,
        6 => Role::Oberon,
        7 => Role::Loyal,
        8 => Role::Loyal,
        _ => Role::Mordred,
    }
}

/// Relies on rand's SliceRandom::shuffle with the thread-local generator:
/// it reorders the items in place by swaps.
#[verifier::external_body]
fn shuffle_roles(roles: &mut Vec<Role>)
    ensures
        final(roles)@.len() == old(roles)@.len(),
        final(roles)@.to_multiset() == old(roles)@.to_multiset(),
{
    roles.shuffle(&mut rand::thread_rng());
}

/// Deals the roles of a table of `number` players, in a random order.
pub fn deal(number: usize) -> (r: Result<Vec<Role>, DealError>)
    ensures
        r is Ok <==> valid_count(number as int),
        r matches Ok(v) ==> dealt(v@, number as int),
        r matches Err(e) ==> e == DealError::InvalidPlayerCount(number),
{
    if number < LOWER_ROOM_SIZE || number > UPPER_ROOM_SIZE {
        return Err(DealError::InvalidPlayerCount(number));
    }
    let mut roles: Vec<Role> = Vec::new();
    let mut i: usize = 0;
    while i < number
        invariant
            i <= number <= UPPER_ROOM_SIZE,
            roles@ == role_pool().take(i as int),
        decreases number - i,
    {
        roles.push(pool_role(i));
        assert(role_pool().take(i + 1) =~= role_pool().take(i as int).push(role_pool()[i as int]));
        i += 1;
    }
    shuffle_roles(&mut roles);
    Ok(roles)
}

pub struct Assignment {
    pub players: Vec<(String, Role)>,
}

impl View for Assignment {
    type V = Seq<(Seq<char>, Role)>;

    open spec fn view(&self) -> Seq<(Seq<char>, Role)> {
        self.players@.map_values(|p: (String, Role)| (p.0@, p.1))
    }
}

pub open spec fn names_of(players: Seq<(Seq<char>, Role)>) -> Seq<Seq<char>> {
    players.map_values(|p: (Seq<char>, Role)| p.0)
}

pub open spec fn roles_of(players: Seq<(Seq<char>, Role)>) -> Seq<Role> {
    players.map_values(|p: (Seq<char>, Role)| p.1)
}

impl Assignment {
    /// Seats the players in the order given and deals them their roles.
    pub fn new(names: Vec<String>) -> (r: Result<Assignment, DealError>)
        ensures
            r is Ok <==> valid_count(names@.len() as int),
            r matches Ok(a) ==> names_of(a@) == names@.map_values(|s: String| s@) && dealt(
                roles_of(a@),
                names@.len() as int,
            ),
            r matches Err(e) ==> e == DealError::InvalidPlayerCount(names@.len() as usize),
    {
        let roles = match deal(names.len()) {
            Ok(roles) => roles,
            Err(e) => return Err(e),
        };
        let mut players: Vec<(String, Role)> = Vec::new();
        let mut i: usize = 0;
        while i < names.len()
            invariant
                i <= names@.len() == roles@.len(),
                players@.len() == i,
                forall|k: int|
                    0 <= k < i ==> (#[trigger] players@[k]).0@ == names@[k]@ && players@[k].1
                        == roles@[k],
            decreases names@.len() - i,
        {
            players.push((names[i].clone(), roles[i]));
            i += 1;
        }
        let a = Assignment { players };
        assert(names_of(a@) =~= names@.map_values(|s: String| s@));
        assert(roles_of(a@) =~= roles@);
        Ok(a)
    }

    pub fn player_number(&self) -> (r: usize)
        ensures
            r == self@.len(),
    {
        self.players.len()
    }

    /// The name and role at a seat, if there is such a seat.
    pub fn get_player(&self, index: usize) -> (r: Option<(&str, Role)>)
        ensures
            r is Some <==> index < self@.len(),
            r matches Some(p) ==> p.0@ == self@[index as int].0 && p.1 == self@[index as int].1,
    {
        if index < self.players.len() {
            Some((self.players[index].0.as_str(), self.players[index].1))
        } else {
            None
        }
    }

    /// What a player of the given role is shown.
    pub fn see_from_role(&self, role: Role) -> (r: SeeingBy)
        ensures
            r@ == sight(self@, role),
    {
        match role {
            Role::Assassin | Role::Morgana | Role::Mordred => SeeingBy::Spy(
                self.filter_players(Sieve::SpiesButOberon),
            ),
            Role::Merlin => {
                let resistances = self.filter_players(Sieve::AppearGood);
                let spies = self.filter_players(Sieve::AppearEvil);
                SeeingBy::Merlin(resistances, spies)
            },
            Role::Percival => SeeingBy::Percival(self.filter_players(Sieve::MerlinOrMorgana)),
            Role::Oberon | Role::Loyal => SeeingBy::Normal,
        }
    }

    fn filter_players(&self, sieve: Sieve) -> (r: Vec<(usize, String)>)
        ensures
            entries_view(r@) == sift(self@, sieve),
    {
        let mut out: Vec<(usize, String)> = Vec::new();
        let mut i: usize = 0;
        while i < self.players.len()
            invariant
                i <= self@.len(),
                self@.len() == self.players@.len(),
                entries_view(out@) == sift(self@.take(i as int), sieve),
            decreases self@.len() - i,
        {
            let ghost before = out@;
            let role = self.players[i].1;
            if sieve.lets_through(role) {
                out.push((i, self.players[i].0.clone()));
                assert(entries_view(out@) =~= entries_view(before).push((i, self@[i as int].0)));
            }
            assert(self@.take(i + 1).drop_last() =~= self@.take(i as int));
            i += 1;
        }
        assert(self@.take(i as int) =~= self@);
        out
    }
}

/// A seat is listed by a filter exactly when the filter admits its role.
pub proof fn lemma_sift_lists(players: Seq<(Seq<char>, Role)>, s: Sieve, e: SeatView)
    requires
        players.len() <= usize::MAX,
    ensures
        sift(players, s).contains(e) <==> ((e.0 as int) < players.len() && admits(
            s,
            players[e.0 as int].1,
        ) && e.1 == players[e.0 as int].0),
    decreases players.len(),
{
    if players.len() > 0 {
        let p2 = players.drop_last();
        lemma_sift_lists(p2, s, e);
        let rest = sift(p2, s);
        if admits(s, players.last().1) {
            let x = ((players.len() - 1) as usize, players.last().0);
            let all = rest.push(x);
            assert(all[rest.len() as int] == x);
            if rest.contains(e) {
                let k = choose|k: int| 0 <= k < rest.len() && rest[k] == e;
                assert(all[k] == e);
            }
            if all.contains(e) {
                let k = choose|k: int| 0 <= k < all.len() && all[k] == e;
                if k < rest.len() {
                    assert(rest[k] == e);
                }
            }
        }
    }
}

/// Merlin never sees Mordred among the evil, and sees every loyal seat and
/// Mordred's seat as good.
pub proof fn lemma_merlin_misses_mordred(players: Seq<(Seq<char>, Role)>)
    requires
        players.len() <= usize::MAX,
    ensures
        sight(players, Role::Merlin) matches Sight::Merlin(good, evil) && (forall|e: SeatView|
            #[trigger] evil.contains(e) ==> players[e.0 as int].1 != Role::Mordred) && (forall|
            i: int,
        |
            0 <= i < players.len() && (alliance_of(players[i].1) == Alliance::Resistance
                || players[i].1 == Role::Mordred) ==> #[trigger] good.contains(
                (i as usize, players[i].0),
            )),
{
    assert forall|e: SeatView| #[trigger]
        sift(players, Sieve::AppearEvil).contains(e) implies players[e.0 as int].1
        != Role::Mordred by {
        lemma_sift_lists(players, Sieve::AppearEvil, e);
    }
    assert forall|i: int|
        0 <= i < players.len() && (alliance_of(players[i].1) == Alliance::Resistance
            || players[i].1 == Role::Mordred) implies #[trigger] sift(
        players,
        Sieve::AppearGood,
    ).contains((i as usize, players[i].0)) by {
        lemma_sift_lists(players, Sieve::AppearGood, (i as usize, players[i].0));
    }
}

/// Where Merlin and Morgana are both dealt, Percival is shown exactly their
/// seats.
pub proof fn lemma_percival_pair(players: Seq<(Seq<char>, Role)>, merlin: int, morgana: int)
    requires
        players.len() <= usize::MAX,
        0 <= merlin < players.len(),
        0 <= morgana < players.len(),
        players[merlin].1 == Role::Merlin,
        players[morgana].1 == Role::Morgana,
    ensures
        sight(players, Role::Percival) matches Sight::Percival(pair) && pair.contains(
            (merlin as usize, players[merlin].0),
        ) && pair.contains((morgana as usize, players[morgana].0)) && (forall|e: SeatView|
            #[trigger] pair.contains(e) ==> (e.0 as int) < players.len() && (players[e.0 as int].1
                == Role::Merlin || players[e.0 as int].1 == Role::Morgana) && e.1 == players[e.0 as int].0),
{
    lemma_sift_lists(players, Sieve::MerlinOrMorgana, (merlin as usize, players[merlin].0));
    lemma_sift_lists(players, Sieve::MerlinOrMorgana, (morgana as usize, players[morgana].0));
    assert forall|e: SeatView| #[trigger]
        sift(players, Sieve::MerlinOrMorgana).contains(e) implies (e.0 as int) < players.len() && (
    players[e.0 as int].1 == Role::Merlin || players[e.0 as int].1 == Role::Morgana) && e.1
        == players[e.0 as int].0 by {
        lemma_sift_lists(players, Sieve::MerlinOrMorgana, e);
    }
}


/// The seats a filter lists come in strictly increasing order, each a seat
/// of the table.
proof fn lemma_sift_ordered(players: Seq<(Seq<char>, Role)>, s: Sieve)
    requires
        players.len() <= usize::MAX,
    ensures
        forall|k: int|
            0 <= k < sift(players, s).len() ==> (#[trigger] sift(players, s)[k]).0 < players.len(),
        forall|a: int, b: int|
            0 <= a < b < sift(players, s).len() ==> (#[trigger] sift(players, s)[a]).0 < (
            #[trigger] sift(players, s)[b]).0,
    decreases players.len(),
{
    if players.len() > 0 {
        let p = players.drop_last();
        lemma_sift_ordered(p, s);
        let rest = sift(p, s);
        let all = sift(players, s);
        if admits(s, players.last().1) {
            let x = ((players.len() - 1) as usize, players.last().0);
            assert(all == rest.push(x));
            assert forall|k: int| 0 <= k < all.len() implies (#[trigger] all[k]).0
                < players.len() by {
                if k < rest.len() {
                    assert(all[k] == rest[k]);
                }
            }
            assert forall|a: int, b: int| 0 <= a < b < all.len() implies (#[trigger] all[a]).0 < (
            #[trigger] all[b]).0 by {
                assert(all[a] == rest[a]);
                if b < rest.len() {
                    assert(all[b] == rest[b]);
                } else {
                    assert(all[b] == x);
                }
            }
        } else {
            assert(all == rest);
        }
    }
}

/// Where Merlin and Morgana are each dealt once, as every deal does,
/// Percival's list holds exactly their two seats.
pub proof fn lemma_percival_pair_exact(
    players: Seq<(Seq<char>, Role)>,
    merlin: int,
    morgana: int,
)
    requires
        players.len() <= usize::MAX,
        0 <= merlin < players.len(),
        0 <= morgana < players.len(),
        players[merlin].1 == Role::Merlin,
        players[morgana].1 == Role::Morgana,
        forall|k: int| 0 <= k < players.len() && players[k].1 == Role::Merlin ==> k == merlin,
        forall|k: int| 0 <= k < players.len() && players[k].1 == Role::Morgana ==> k == morgana,
    ensures
        sight(players, Role::Percival) matches Sight::Percival(pair) && pair.len() == 2 && pair.contains(
            (merlin as usize, players[merlin].0),
        ) && pair.contains((morgana as usize, players[morgana].0)),
{
    lemma_percival_pair(players, merlin, morgana);
    lemma_sift_ordered(players, Sieve::MerlinOrMorgana);
    let pair = sift(players, Sieve::MerlinOrMorgana);
    assert forall|k: int| 0 <= k < pair.len() implies (#[trigger] pair[k]).0 == merlin as usize
        || pair[k].0 == morgana as usize by {
        assert(pair.contains(pair[k]));
    }
    if pair.len() > 2 {
        assert(pair[0].0 < pair[1].0 && pair[1].0 < pair[2].0);
        assert(false);
    }
    if pair.len() < 2 {
        let m = choose|k: int| 0 <= k < pair.len() && pair[k] == (merlin as usize, players[merlin].0);
        let g = choose|k: int| 0 <= k < pair.len() && pair[k] == (morgana as usize, players[morgana].0);
        assert(m == g);
        assert(false);
    }
}

} // verus!
