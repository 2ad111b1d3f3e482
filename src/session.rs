//! One connection's side of the protocol: the liveness clock, and the
//! decision each line of text from the client leads to.
use crate::server::{Create, Join};
use vstd::prelude::*;
use vstd::string::*;

verus! {

/// How often, in milliseconds, the client is probed.
pub const HEARTBEAT_INTERVAL_MS: u64 = 5000;

/// How long, in milliseconds, a client may stay silent before it is dropped.
pub const CLIENT_TIMEOUT_MS: u64 = 10000;

pub struct WsChatSession {
    /// unique session id
    pub id: usize,
    /// When the client last answered, in milliseconds on the host's clock.
    pub hb: u64,
    /// peer name
    pub name: Option<String>,
}

/// What the connection does with a line from its client.
pub enum Action {
    /// Ask the coordinator for the open rooms and send each name back.
    ListRooms,
    /// Hand the request to the coordinator.
    Join(Join),
    /// Hand the request to the coordinator.
    Create(Create),
    /// Send this line back to the client.
    Reply(String),
    /// Nothing to send.
    Nothing,
}

pub enum ActionView {
    ListRooms,
    Join(usize, Seq<char>, Seq<char>),
    Create(usize, Seq<char>, u8),
    Reply(Seq<char>),
    Nothing,
}

impl View for Action {
    type V = ActionView;

    open spec fn view(&self) -> ActionView {
        match self {
            Action::ListRooms => ActionView::ListRooms,
            Action::Join(j) => ActionView::Join(j.id, j.session_name@, j.name@),
            Action::Create(c) => ActionView::Create(c.id, c.session_name@, c.size),
            Action::Reply(t) => ActionView::Reply(t@),
            Action::Nothing => ActionView::Nothing,
        }
    }
}

/// The text with white space taken off both ends.
pub uninterp spec fn trimmed(s: Seq<char>) -> Seq<char>;

/// The text in quotes, escaped as Rust's debug output writes it.
pub uninterp spec fn quoted(s: Seq<char>) -> Seq<char>;

/// Relies on str::trim: leading and trailing white space removed.
#[verifier::external_body]
fn trim_text(s: &str) -> (r: String)
    ensures
        r@ == trimmed(s@),
{
    s.trim().to_string()
}

/// Relies on str's Debug formatting.
#[verifier::external_body]
fn quote_text(s: &str) -> (r: String)
    ensures
        r@ == quoted(s@),
{
    format!("{:?}", s)
}

pub open spec fn is_digit(c: char) -> bool {
    '0' <= c <= '9'
}

pub open spec fn digits_value(s: Seq<char>) -> int
    decreases s.len(),
{
    if s.len() == 0 {
        0
    } else {
        digits_value(s.drop_last()) * 10 + (s.last() as int - '0' as int)
    }
}

/// The length of a leading sign, `+` or `-`.
pub open spec fn sign_len(s: Seq<char>) -> int {
    if s.len() > 0 && (s[0] == '+' || s[0] == '-') {
        1
    } else {
        0
    }
}

/// The text after its sign.
pub open spec fn digits_of(s: Seq<char>) -> Seq<char> {
    s.skip(sign_len(s))
}

/// An integer in decimal: an optional sign, then one or more digits.
pub open spec fn numeric(s: Seq<char>) -> bool {
    &&& digits_of(s).len() > 0
    &&& forall|i: int| 0 <= i < digits_of(s).len() ==> is_digit(#[trigger] digits_of(s)[i])
}

pub open spec fn negative(s: Seq<char>) -> bool {
    s.len() > 0 && s[0] == '-'
}

/// The number the text writes lies within the table sizes.
pub open spec fn size_in_range(s: Seq<char>) -> bool {
    !negative(s) && 5 <= digits_value(digits_of(s)) <= 10
}

/// The digits without leading zeros, keeping one digit.
pub open spec fn strip_zeros(d: Seq<char>) -> Seq<char>
    decreases d.len(),
{
    if d.len() > 1 && d[0] == '0' {
        strip_zeros(d.skip(1))
    } else {
        d
    }
}

/// The number the text writes, in plain decimal.
pub open spec fn shown(s: Seq<char>) -> Seq<char> {
    let d = strip_zeros(digits_of(s));
    if negative(s) && d != seq!['0'] {
        seq!['-'] + d
    } else {
        d
    }
}

/// How a size argument reads.
enum SizeRead {
    NotNumeric,
    InRange(u8),
    /// The number as shown back to the client.
    OutOfRange(String),
}

proof fn lemma_digits_value_nonneg(s: Seq<char>)
    requires
        forall|i: int| 0 <= i < s.len() ==> is_digit(#[trigger] s[i]),
    ensures
        digits_value(s) >= 0,
    decreases s.len(),
{
    if s.len() > 0 {
        let p = s.drop_last();
        assert forall|i: int| 0 <= i < p.len() implies is_digit(#[trigger] p[i]) by {
            assert(p[i] == s[i]);
        }
        lemma_digits_value_nonneg(p);
        assert(is_digit(s[s.len() - 1]));
    }
}

/// Reads a size argument as a signed decimal integer.
fn read_size(s: &str) -> (r: SizeRead)
    ensures
        match r {
            SizeRead::NotNumeric => !numeric(s@),
            SizeRead::InRange(k) => numeric(s@) && size_in_range(s@) && k as int == digits_value(
                digits_of(s@),
            ),
            SizeRead::OutOfRange(t) => numeric(s@) && !size_in_range(s@) && t@ == shown(s@),
        },
{
    let n = s.unicode_len();
    let start: usize = if n > 0 && (s.get_char(0) == '+' || s.get_char(0) == '-') {
        1
    } else {
        0
    };
    let ghost d = digits_of(s@);
    assert(d =~= s@.subrange(start as int, n as int));
    if start >= n {
        return SizeRead::NotNumeric;
    }
    let mut v: u64 = 0;
    let mut i: usize = start;
    while i < n
        invariant
            start <= i <= n,
            n == s@.len(),
            d == s@.subrange(start as int, n as int),
            d == digits_of(s@),
            forall|k: int| 0 <= k < i - start ==> is_digit(#[trigger] d[k]),
            digits_value(d.take(i - start)) >= 11 ==> v == 11,
            digits_value(d.take(i - start)) < 11 ==> v == digits_value(d.take(i - start)),
        decreases n - i,
    {
        let c = s.get_char(i);
        assert(d[i - start] == c);
        if !('0' <= c && c <= '9') {
            assert(!is_digit(digits_of(s@)[i - start]));
            return SizeRead::NotNumeric;
        }
        let ghost p = d.take(i - start);
        assert(d.take(i - start + 1).drop_last() =~= p);
        proof {
            assert forall|k: int| 0 <= k < p.len() implies is_digit(#[trigger] p[k]) by {
                assert(p[k] == d[k]);
            }
            lemma_digits_value_nonneg(p);
        }
        let dv = (c as u32 - '0' as u32) as u64;
        v = if v >= 11 {
            11
        } else if v * 10 + dv > 11 {
            11
        } else {
            v * 10 + dv
        };
        i += 1;
    }
    assert(d.take(n - start) =~= d);
    assert(numeric(s@)) by {
        assert forall|k: int| 0 <= k < digits_of(s@).len() implies is_digit(
            #[trigger] digits_of(s@)[k],
        ) by {
            assert(is_digit(d[k]));
        }
    }
    let neg = s.get_char(0) == '-';
    assert(neg == negative(s@));
    if !neg && 5 <= v && v <= 10 {
        return SizeRead::InRange(v as u8);
    }
    assert(!size_in_range(s@));
    let mut j: usize = start;
    while j + 1 < n && s.get_char(j) == '0'
        invariant
            start <= j < n,
            n == s@.len(),
            d == digits_of(s@),
            numeric(s@),
            !size_in_range(s@),
            neg == negative(s@),
            strip_zeros(d) == strip_zeros(s@.skip(j as int)),
        decreases n - j,
    {
        assert(s@.skip(j as int).skip(1) =~= s@.skip(j + 1));
        j += 1;
    }
    let digits = s.substring_char(j, n);
    assert(digits@ =~= s@.skip(j as int));
    assert(strip_zeros(d) == digits@);
    let one_zero = j + 1 == n && s.get_char(j) == '0';
    assert(one_zero == (digits@ == seq!['0'])) by {
        if digits@ == seq!['0'] {
            assert(digits@[0] == s@[j as int]);
        }
        if one_zero {
            assert(digits@ =~= seq!['0']);
        }
    }
    if neg && !one_zero {
        proof {
            reveal_strlit("-");
            assert("-"@ =~= seq!['-']);
        }
        SizeRead::OutOfRange(String::from_str("-").concat(digits))
    } else {
        SizeRead::OutOfRange(String::from_str(digits))
    }
}

/// Where the first space stands.
pub open spec fn space_at(s: Seq<char>) -> Option<int>
    decreases s.len(),
{
    if s.len() == 0 {
        None
    } else {
        match space_at(s.drop_last()) {
            Some(k) => Some(k),
            None => if s.last() == ' ' {
                Some(s.len() - 1)
            } else {
                None
            },
        }
    }
}

/// The command word: the text up to the first space.
pub open spec fn verb(s: Seq<char>) -> Seq<char> {
    match space_at(s) {
        Some(k) => s.take(k),
        None => s,
    }
}

/// The rest after the first space, if there is a space.
pub open spec fn argument(s: Seq<char>) -> Option<Seq<char>> {
    match space_at(s) {
        Some(k) => Some(s.skip(k + 1)),
        None => None,
    }
}

/// The argument is a single word: it holds no further space.
pub open spec fn one_word(a: Seq<char>) -> bool {
    space_at(a) is None
}

pub open spec fn too_many() -> ActionView {
    ActionView::Reply("!!! unknown command"@)
}

pub open spec fn unknown(m: Seq<char>) -> ActionView {
    ActionView::Reply("!!! unknown command: "@ + quoted(m))
}

pub open spec fn size_range_text(size: Seq<char>) -> Seq<char> {
    "!!! room size "@ + shown(size) + " is not supported. it should be in range 5-10"@
}

/// What a trimmed line leads to, for a session with that id and name.
pub open spec fn command(id: usize, name: Option<Seq<char>>, m: Seq<char>) -> ActionView {
    if m.len() == 0 || m[0] != '/' {
        unknown(m)
    } else if verb(m) == "/list"@ {
        ActionView::ListRooms
    } else if verb(m) == "/join"@ {
        match (name, argument(m)) {
            (None, _) => ActionView::Reply("!!! session name is required"@),
            (Some(_), None) => ActionView::Reply("!!! room name is required"@),
            (Some(n), Some(room)) => if one_word(room) {
                ActionView::Join(id, n, room)
            } else {
                too_many()
            },
        }
    } else if verb(m) == "/create"@ {
        match (name, argument(m)) {
            (None, _) => ActionView::Reply("!!! session name is required"@),
            (Some(_), None) => ActionView::Reply("!!! size is required"@),
            (Some(n), Some(size)) => if !one_word(size) {
                too_many()
            } else if !numeric(size) {
                ActionView::Reply("!!! invalid room size: "@ + size)
            } else if size_in_range(size) {
                ActionView::Create(id, n, digits_value(digits_of(size)) as u8)
            } else {
                ActionView::Reply(size_range_text(size))
            },
        }
    } else if verb(m) == "/name"@ {
        match argument(m) {
            None => ActionView::Reply("!!! name is required"@),
            Some(a) => if one_word(a) {
                ActionView::Nothing
            } else {
                too_many()
            },
        }
    } else {
        unknown(m)
    }
}

/// The name a line leaves the session with.
pub open spec fn name_after(name: Option<Seq<char>>, m: Seq<char>) -> Option<Seq<char>> {
    if m.len() > 0 && m[0] == '/' && verb(m) == "/name"@ && argument(m) is Some && one_word(
        argument(m)->Some_0,
    ) {
        argument(m)
    } else {
        name
    }
}

pub open spec fn name_view(name: Option<String>) -> Option<Seq<char>> {
    match name {
        Some(n) => Some(n@),
        None => None,
    }
}

fn same_text(a: &str, b: &str) -> (r: bool)
    ensures
        r == (a@ == b@),
{
    let n = a.unicode_len();
    if n != b.unicode_len() {
        return false;
    }
    let mut i: usize = 0;
    while i < n
        invariant
            n == a@.len() == b@.len(),
            i <= n,
            forall|k: int| 0 <= k < i ==> a@[k] == b@[k],
        decreases n - i,
    {
        if a.get_char(i) != b.get_char(i) {
            return false;
        }
        i += 1;
    }
    assert(a@ =~= b@);
    true
}

fn find_space(s: &str) -> (r: Option<usize>)
    ensures
        match r {
            Some(k) => space_at(s@) == Some(k as int) && k < s@.len(),
            None => space_at(s@) is None,
        },
{
    let n = s.unicode_len();
    let mut i: usize = 0;
    while i < n
        invariant
            n == s@.len(),
            i <= n,
            space_at(s@.take(i as int)) is None,
        decreases n - i,
    {
        assert(s@.take(i + 1).drop_last() =~= s@.take(i as int));
        if s.get_char(i) == ' ' {
            proof {
                lemma_space_at_prefix(s@, i as int + 1);
            }
            return Some(i);
        }
        i += 1;
    }
    assert(s@.take(i as int) =~= s@);
    None
}

/// A space found in a prefix is the first space of the whole text.
proof fn lemma_space_at_prefix(s: Seq<char>, n: int)
    requires
        0 <= n <= s.len(),
        space_at(s.take(n)) is Some,
    ensures
        space_at(s) == space_at(s.take(n)),
    decreases s.len() - n,
{
    if n < s.len() {
        assert(s.take(n + 1).drop_last() =~= s.take(n));
        lemma_space_at_prefix(s, n + 1);
    } else {
        assert(s.take(n) =~= s);
    }
}

impl WsChatSession {
    pub fn new(now: u64) -> (r: WsChatSession)
        ensures
            r.id == 0,
            r.hb == now,
            r.name is None,
    {
        WsChatSession { id: 0, hb: now, name: None }
    }

    /// The client answered at `now`.
    pub fn touch(&mut self, now: u64)
        ensures
            final(self).hb == now,
            final(self).id == old(self).id,
            final(self).name == old(self).name,
    {
        self.hb = now;
    }

    /// Whether the client has stayed silent for longer than the timeout.
    pub fn heartbeat_expired(&self, now: u64) -> (r: bool)
        ensures
            r == (now > self.hb && now - self.hb > CLIENT_TIMEOUT_MS),
    {
        now > self.hb && now - self.hb > CLIENT_TIMEOUT_MS
    }

    /// Decides what a line of client text leads to.
    pub fn handle_text(&mut self, text: &str) -> (r: Action)
        ensures
            r@ == command(old(self).id, name_view(old(self).name), trimmed(text@)),
            name_view(final(self).name) == name_after(name_view(old(self).name), trimmed(text@)),
            final(self).id == old(self).id,
            final(self).hb == old(self).hb,
    {
        let m = trim_text(text);
        self.handle_line(m.as_str())
    }

    /// Decides what an already trimmed line leads to.
    pub fn handle_line(&mut self, m: &str) -> (r: Action)
        ensures
            r@ == command(old(self).id, name_view(old(self).name), m@),
            name_view(final(self).name) == name_after(name_view(old(self).name), m@),
            final(self).id == old(self).id,
            final(self).hb == old(self).hb,
    {
        let n = m.unicode_len();
        if n == 0 || m.get_char(0) != '/' {
            assert(name_after(name_view(self.name), m@) == name_view(self.name));
            return Action::Reply(String::from_str("!!! unknown command: ").concat(quote_text(m).as_str()));
        }
        let space = find_space(m);
        let (word, arg) = match space {
            Some(k) => (m.substring_char(0, k), Some(m.substring_char(k + 1, n))),
            None => (m, None),
        };
        assert(word@ == verb(m@));
        assert(match arg {
            Some(a) => argument(m@) == Some(a@),
            None => argument(m@) is None,
        });
        proof {
            reveal_strlit("/list");
            reveal_strlit("/join");
            reveal_strlit("/create");
            reveal_strlit("/name");
            assert("/list"@[1] != "/name"@[1]);
            assert("/join"@[1] != "/name"@[1]);
            assert("/create"@.len() != "/name"@.len());
        }
        if same_text(word, "/list") {
            Action::ListRooms
        } else if same_text(word, "/join") {
            match (&self.name, arg) {
                (None, _) => Action::Reply(String::from_str("!!! session name is required")),
                (Some(_), None) => Action::Reply(String::from_str("!!! room name is required")),
                (Some(who), Some(room)) => if find_space(room).is_none() {
                    Action::Join(
                        Join {
                            id: self.id,
                            session_name: who.clone(),
                            name: String::from_str(room),
                        },
                    )
                } else {
                    Action::Reply(String::from_str("!!! unknown command"))
                },
            }
        } else if same_text(word, "/create") {
            match (&self.name, arg) {
                (None, _) => Action::Reply(String::from_str("!!! session name is required")),
                (Some(_), None) => Action::Reply(String::from_str("!!! size is required")),
                (Some(_), Some(size)) if find_space(size).is_some() => Action::Reply(
                    String::from_str("!!! unknown command"),
                ),
                (Some(who), Some(size)) => match read_size(size) {
                    SizeRead::NotNumeric => Action::Reply(
                        String::from_str("!!! invalid room size: ").concat(size),
                    ),
                    SizeRead::InRange(k) => Action::Create(
                        Create { id: self.id, session_name: who.clone(), size: k },
                    ),
                    SizeRead::OutOfRange(t) => Action::Reply(
                        String::from_str("!!! room size ").concat(t.as_str()).concat(
                            " is not supported. it should be in range 5-10",
                        ),
                    ),
                },
            }
        } else if same_text(word, "/name") {
            match arg {
                Some(who) if find_space(who).is_some() => Action::Reply(
                    String::from_str("!!! unknown command"),
                ),
                Some(who) => {
                    self.name = Some(String::from_str(who));
                    assert(name_view(self.name) == Some(who@));
                    Action::Nothing
                },
                None => Action::Reply(String::from_str("!!! name is required")),
            }
        } else {
            Action::Reply(String::from_str("!!! unknown command: ").concat(quote_text(m).as_str()))
        }
    }
}

} // verus!
