//! The chat broker: the single owner of the session registry and of room
//! membership. Every operation is a plain state transition that returns the
//! exact list of outbound deliveries it causes; the caller owns the
//! transport handles and performs the sends.

use vstd::prelude::*;
use vstd::seq_lib::group_filter_ensures;

use crate::text::{dec_str, push_decimal};

verus! {

broadcast use group_filter_ensures;

/// A text payload pushed to one client.
pub struct Message(pub String);

/// A new session asks to be registered; `visitor_count` is the value the
/// caller fetched from the shared visitor counter for this connect.
pub struct Connect {
    pub visitor_count: usize,
}

/// A session is gone and must leave the registry and every room.
pub struct Disconnect {
    pub id: usize,
}

/// A session broadcasts `msg` to the other occupants of `room`.
pub struct ClientMessage {
    /// Id of the client session
    pub id: usize,
    /// Peer message
    pub msg: String,
    /// Room name
    pub room: String,
}

/// A session asks for the current room names.
pub struct ListRooms;

/// A session moves into the room called `name`, creating it if absent.
pub struct Join {
    /// Client id
    pub id: usize,
    /// Room name
    pub name: String,
}

/// One outbound send the broker decided on: push `msg` to session `to`.
pub struct Delivery {
    pub to: usize,
    pub msg: Message,
}

/// The plain-value shadow of a delivery list: who receives which text.
pub open spec fn dv(ds: Seq<Delivery>) -> Seq<(usize, Seq<char>)> {
    ds.map_values(|d: Delivery| (d.to, d.msg.0@))
}

/// One text sent to each of `tos`, in order.
pub open spec fn broadcast_views(tos: Seq<usize>, text: Seq<char>) -> Seq<(usize, Seq<char>)> {
    tos.map_values(|t: usize| (t, text))
}

/// Whether a member is kept by a broadcast that skips `skip`.
pub open spec fn keep_id(m: usize, skip: Option<usize>) -> bool {
    match skip {
        None => true,
        Some(s) => m != s,
    }
}

/// The membership filter of a broadcast that skips `skip`.
pub open spec fn keep_pred(skip: Option<usize>) -> spec_fn(usize) -> bool {
    |m: usize| keep_id(m, skip)
}

/// The filter that drops the occurrences of `id`.
pub open spec fn drop_pred(id: usize) -> spec_fn(usize) -> bool {
    |m: usize| m != id
}

/// The name of the default room every session starts in.
pub open spec fn main_room() -> Seq<char> {
    "Main"@
}

pub open spec fn joined_text() -> Seq<char> {
    "Someone joined!!"@
}

pub open spec fn disconnected_text() -> Seq<char> {
    "Someone Disconnected!!"@
}

pub open spec fn connected_text() -> Seq<char> {
    "Someone Connected!!"@
}

/// The visitor-counter notice for count `n`.
pub open spec fn visitors_text(n: nat) -> Seq<char> {
    "Total visitors "@ + dec_str(n)
}

/// A named room and the ids of the sessions in it.
pub struct Room {
    pub name: String,
    pub members: Vec<usize>,
}

/// The departure notices caused by taking `id` out of every room of
/// `rooms`: for each room that held `id`, in room order, one notice to each
/// remaining member.
pub open spec fn departure_views(rooms: Seq<Room>, id: usize) -> Seq<(usize, Seq<char>)>
    decreases rooms.len(),
{
    if rooms.len() == 0 {
        Seq::empty()
    } else {
        departure_views(rooms.drop_last(), id) + (if rooms.last().members@.contains(id) {
            broadcast_views(
                rooms.last().members@.filter(drop_pred(id)),
                disconnected_text(),
            )
        } else {
            Seq::empty()
        })
    }
}

/// The broker state: the registered session ids and the rooms.
pub struct ChatServer {
    pub sessions: Vec<usize>,
    pub rooms: Vec<Room>,
}

impl ChatServer {
    /// The room names, in the broker's enumeration order.
    pub open spec fn room_names(self) -> Seq<Seq<char>> {
        self.rooms@.map_values(|r: Room| r.name@)
    }

    /// No two rooms share a name.
    pub open spec fn names_distinct(self) -> bool {
        forall|i: int, j: int|
            0 <= i < j < self.rooms@.len() ==> self.rooms@[i].name@ != self.rooms@[j].name@
    }

    pub open spec fn has_room(self, name: Seq<char>) -> bool {
        exists|i: int| 0 <= i < self.rooms@.len() && self.rooms@[i].name@ == name
    }

    /// The index of the room called `name`; meaningful under `has_room`
    /// and `names_distinct`.
    pub open spec fn room_at(self, name: Seq<char>) -> int {
        choose|i: int| 0 <= i < self.rooms@.len() && self.rooms@[i].name@ == name
    }

    /// The member ids of the room called `name`; empty when no such room.
    pub open spec fn members_of(self, name: Seq<char>) -> Seq<usize> {
        if self.has_room(name) {
            self.rooms@[self.room_at(name)].members@
        } else {
            Seq::empty()
        }
    }

    pub open spec fn registered(self, id: usize) -> bool {
        self.sessions@.contains(id)
    }

    /// Every member of the room called `name` is a registered session.
    pub open spec fn room_members_registered(self, name: Seq<char>) -> bool {
        forall|k: int|
            0 <= k < self.members_of(name).len() ==> self.sessions@.contains(
                #[trigger] self.members_of(name)[k],
            )
    }

    /// The broker invariant: ids are unique, room names are unique, each
    /// room's membership set holds no id twice, every id in any room is
    /// registered, and the default room exists.
    pub open spec fn wf(self) -> bool {
        &&& self.sessions@.no_duplicates()
        &&& self.names_distinct()
        &&& forall|i: int|
            0 <= i < self.rooms@.len() ==> (#[trigger] self.rooms@[i]).members@.no_duplicates()
        &&& forall|i: int, k: int|
            0 <= i < self.rooms@.len() && 0 <= k < self.rooms@[i].members@.len()
                ==> self.sessions@.contains(#[trigger] self.rooms@[i].members@[k])
        &&& self.has_room(main_room())
    }
}


/// Filtering the empty sequence gives the empty sequence.
pub proof fn lemma_filter_empty<A>(pred: spec_fn(A) -> bool)
    ensures
        Seq::<A>::empty().filter(pred) == Seq::<A>::empty(),
{
    reveal(Seq::filter);
}

/// A pushed element passes through `filter` exactly when the predicate
/// accepts it.
pub proof fn lemma_filter_push<A>(s: Seq<A>, x: A, pred: spec_fn(A) -> bool)
    ensures
        pred(x) ==> s.push(x).filter(pred) == s.filter(pred).push(x),
        !pred(x) ==> s.push(x).filter(pred) == s.filter(pred),
{
    reveal(Seq::filter);
    assert(s.push(x).drop_last() =~= s);
    assert(s.push(x).last() == x);
    if pred(x) {
        assert(s.push(x).filter(pred) =~= s.filter(pred).push(x));
    } else {
        assert(s.push(x).filter(pred) =~= s.filter(pred));
    }
}

/// A filter that accepts every element of `s` returns `s` itself.
pub proof fn lemma_filter_all<A>(s: Seq<A>, pred: spec_fn(A) -> bool)
    requires
        forall|k: int| 0 <= k < s.len() ==> pred(#[trigger] s[k]),
    ensures
        s.filter(pred) == s,
    decreases s.len(),
{
    reveal(Seq::filter);
    if s.len() == 0 {
        assert(s.filter(pred) =~= s);
    } else {
        lemma_filter_all(s.drop_last(), pred);
        assert(pred(s.last()));
        assert(s.filter(pred) =~= s.drop_last().push(s.last()));
        assert(s.drop_last().push(s.last()) =~= s);
    }
}

/// Everything a filter keeps was in the underlying sequence.
pub proof fn lemma_filter_subset<A>(s: Seq<A>, pred: spec_fn(A) -> bool)
    ensures
        forall|x: A| #[trigger] s.filter(pred).contains(x) ==> s.contains(x),
    decreases s.len(),
{
    reveal(Seq::filter);
    if s.len() == 0 {
        assert(s.filter(pred) =~= Seq::<A>::empty());
    } else {
        lemma_filter_subset(s.drop_last(), pred);
        assert forall|x: A| s.filter(pred).contains(x) implies s.contains(x) by {
            let df = s.drop_last().filter(pred);
            let f = s.filter(pred);
            let i = choose|i: int| 0 <= i < f.len() && f[i] == x;
            if pred(s.last()) {
                assert(f =~= df.push(s.last()));
                if i < df.len() {
                    assert(df[i] == x);
                    assert(df.contains(x));
                    assert(s.drop_last().contains(x));
                    let j = choose|j: int| 0 <= j < s.drop_last().len() && s.drop_last()[j] == x;
                    assert(s[j] == x);
                } else {
                    assert(x == s.last());
                    assert(s[s.len() - 1] == x);
                }
            } else {
                assert(f =~= df);
                assert(df[i] == x);
                assert(df.contains(x));
                assert(s.drop_last().contains(x));
                let j = choose|j: int| 0 <= j < s.drop_last().len() && s.drop_last()[j] == x;
                assert(s[j] == x);
            }
        }
    }
}

/// Filtering keeps a duplicate-free sequence duplicate-free.
pub proof fn lemma_filter_no_duplicates<A>(s: Seq<A>, pred: spec_fn(A) -> bool)
    requires
        s.no_duplicates(),
    ensures
        s.filter(pred).no_duplicates(),
    decreases s.len(),
{
    reveal(Seq::filter);
    if s.len() == 0 {
        assert(s.filter(pred) =~= Seq::<A>::empty());
    } else {
        assert(s.drop_last().no_duplicates());
        lemma_filter_no_duplicates(s.drop_last(), pred);
        if pred(s.last()) {
            assert(s.filter(pred) =~= s.drop_last().filter(pred).push(s.last()));
            lemma_filter_subset(s.drop_last(), pred);
            if s.drop_last().filter(pred).contains(s.last()) {
                assert(s.drop_last().contains(s.last()));
                let j = choose|j: int|
                    0 <= j < s.drop_last().len() && s.drop_last()[j] == s.last();
                assert(s[j] == s[s.len() - 1]);
                assert(false);
            }
        } else {
            assert(s.filter(pred) =~= s.drop_last().filter(pred));
        }
    }
}

/// Filtering out `id` keeps every other element that was present.
pub proof fn lemma_filter_out_keeps(s: Seq<usize>, id: usize, m: usize)
    requires
        s.contains(m),
        m != id,
    ensures
        s.filter(drop_pred(id)).contains(m),
{
    let j = choose|j: int| 0 <= j < s.len() && s[j] == m;
    assert((drop_pred(id))(s[j]));
    assert(s.filter(drop_pred(id)).contains(s[j]));
}

/// An element kept by filtering out `id` differs from `id` and was present.
pub proof fn lemma_filter_elem(s: Seq<usize>, id: usize, k: int)
    requires
        0 <= k < s.filter(drop_pred(id)).len(),
    ensures
        s.filter(drop_pred(id))[k] != id,
        s.contains(s.filter(drop_pred(id))[k]),
{
    let m = s.filter(drop_pred(id))[k];
    assert((drop_pred(id))(m));
    lemma_filter_subset(s, drop_pred(id));
    assert(s.filter(drop_pred(id)).contains(m));
}

/// Under distinct names, the room at index `i` is the one `room_at` finds
/// for its name.
pub proof fn lemma_room_index(s: ChatServer, i: int)
    requires
        s.names_distinct(),
        0 <= i < s.rooms@.len(),
    ensures
        s.has_room(s.rooms@[i].name@),
        s.room_at(s.rooms@[i].name@) == i,
        s.members_of(s.rooms@[i].name@) == s.rooms@[i].members@,
{
    let name = s.rooms@[i].name@;
    assert(s.has_room(name));
    let j = s.room_at(name);
    assert(0 <= j < s.rooms@.len() && s.rooms@[j].name@ == name);
    if i < j {
        assert(s.rooms@[i].name@ != s.rooms@[j].name@);
    }
    if j < i {
        assert(s.rooms@[j].name@ != s.rooms@[i].name@);
    }
}

/// A well-formed broker can fan out to any room: all members are registered.
pub proof fn lemma_wf_registered(s: ChatServer, name: Seq<char>)
    requires
        s.wf(),
    ensures
        s.room_members_registered(name),
{
    if s.has_room(name) {
        let i = s.room_at(name);
        assert(0 <= i < s.rooms@.len() && s.rooms@[i].name@ == name);
        assert forall|k: int| 0 <= k < s.members_of(name).len() implies s.sessions@.contains(
            s.members_of(name)[k],
        ) by {
            assert(s.members_of(name) == s.rooms@[i].members@);
            assert(s.sessions@.contains(s.rooms@[i].members@[k]));
        }
    }
}

/// Any id found in any room of a well-formed broker is registered: the
/// membership invariant, usable from outside.
pub proof fn lemma_room_member_registered(s: ChatServer, name: Seq<char>, id: usize)
    requires
        s.wf(),
        s.members_of(name).contains(id),
    ensures
        s.registered(id),
{
    let i = s.room_at(name);
    assert(s.has_room(name));
    assert(0 <= i < s.rooms@.len() && s.rooms@[i].name@ == name);
    let k = choose|k: int| 0 <= k < s.members_of(name).len() && s.members_of(name)[k] == id;
    assert(s.sessions@.contains(s.rooms@[i].members@[k]));
}

/// When rooms keep their names and each membership list loses exactly the
/// occurrences of `id`, `members_of` is filtered pointwise for every name.
pub proof fn lemma_members_map(pre: ChatServer, post: ChatServer, id: usize)
    requires
        pre.names_distinct(),
        post.rooms@.len() == pre.rooms@.len(),
        forall|i: int|
            0 <= i < pre.rooms@.len() ==> (#[trigger] post.rooms@[i]).name@ == pre.rooms@[i].name@,
        forall|i: int|
            0 <= i < pre.rooms@.len() ==> (#[trigger] post.rooms@[i]).members@
                == pre.rooms@[i].members@.filter(drop_pred(id)),
    ensures
        post.names_distinct(),
        post.room_names() == pre.room_names(),
        forall|n: Seq<char>|
            #[trigger] post.members_of(n) == pre.members_of(n).filter(drop_pred(id)),
{
    assert(post.room_names() =~= pre.room_names());
    assert forall|n: Seq<char>|
        #[trigger] post.members_of(n) == pre.members_of(n).filter(drop_pred(id)) by {
        if post.has_room(n) {
            let i = post.room_at(n);
            assert(0 <= i < post.rooms@.len() && post.rooms@[i].name@ == n);
            assert(pre.rooms@[i].name@ == n);
            lemma_room_index(pre, i);
            lemma_room_index(post, i);
        } else {
            if pre.has_room(n) {
                let i = pre.room_at(n);
                assert(post.rooms@[i].name@ == n);
                assert(post.has_room(n));
            }
            assert(post.members_of(n) =~= Seq::<usize>::empty());
            assert(pre.members_of(n) =~= Seq::<usize>::empty());
            lemma_filter_empty(drop_pred(id));
        }
    }
}

/// Broadcast exclusion: the fan-out for a client message never reaches the
/// sender, and reaches every other current member of the room exactly once
/// — the recipient list is duplicate-free and holds exactly the members
/// other than the sender.
pub proof fn lemma_broadcast_exclusion(members: Seq<usize>, id: usize)
    requires
        members.no_duplicates(),
    ensures
        !members.filter(keep_pred(Some(id))).contains(id),
        members.filter(keep_pred(Some(id))).no_duplicates(),
        forall|m: usize|
            #[trigger] members.filter(keep_pred(Some(id))).contains(m) <==> members.contains(m)
                && m != id,
{
    let pred = keep_pred(Some(id));
    lemma_filter_no_duplicates(members, pred);
    lemma_filter_subset(members, pred);
    assert forall|m: usize|
        #[trigger] members.filter(pred).contains(m) <==> members.contains(m) && m != id by {
        if members.filter(pred).contains(m) {
            let k = choose|k: int|
                0 <= k < members.filter(pred).len() && members.filter(pred)[k] == m;
            assert(pred(members.filter(pred)[k]));
        }
        if members.contains(m) && m != id {
            let j = choose|j: int| 0 <= j < members.len() && members[j] == m;
            assert(pred(members[j]));
            assert(members.filter(pred).contains(members[j]));
        }
    }
}

/// Relies on rand::random: a value drawn from the thread-local generator.
/// Nothing is assumed about which value comes back; the caller checks it
/// against the live registry itself.
pub assume_specification<T>[ rand::random::<T> ]() -> (r: T)
    where
        rand::distributions::Standard: rand::distributions::Distribution<T>,
;


/// Among the `n + 1` values `0..=n` at least one is missing from a registry
/// of `n` ids, so a probe of those values always finds a free id.
proof fn lemma_free_low_id(ids: Seq<usize>, n: int)
    requires
        n == ids.len(),
        n <= usize::MAX,
    ensures
        exists|j: int| 0 <= j <= n && !(#[trigger] ids.contains(j as usize)),
{
    broadcast use vstd::seq_lib::seq_to_set_is_finite;
    broadcast use vstd::set::group_set_axioms;

    if forall|j: int| 0 <= j <= n ==> #[trigger] ids.contains(j as usize) {
        let ints = ids.map_values(|u: usize| u as int);
        ints.lemma_cardinality_of_set();
        vstd::set_lib::lemma_int_range(0, n + 1);
        assert forall|x: int|
            vstd::set_lib::set_int_range(0, n + 1).contains(x) implies ints.to_set().contains(
            x,
        ) by {
            assert(0 <= x <= n);
            assert(ids.contains(x as usize));
            let t = choose|t: int| 0 <= t < ids.len() && ids[t] == x as usize;
            assert(ints[t] == x);
            assert(ints.contains(x));
        }
        assert(vstd::set_lib::set_int_range(0, n + 1).subset_of(ints.to_set()));
        vstd::set_lib::lemma_len_subset(vstd::set_lib::set_int_range(0, n + 1), ints.to_set());
    }
}

/// Tests whether `x` occurs in `v`.
fn vec_contains(v: &Vec<usize>, x: usize) -> (r: bool)
    ensures
        r == v@.contains(x),
{
    let mut k: usize = 0;
    while k < v.len()
        invariant
            k <= v@.len(),
            forall|j: int| 0 <= j < k ==> v@[j] != x,
        decreases v@.len() - k,
    {
        if v[k] == x {
            proof {
                assert(v@[k as int] == x);
            }
            return true;
        }
        k += 1;
    }
    false
}

/// Copies `v` without the occurrences of `x`.
fn filter_out(v: &Vec<usize>, x: usize) -> (r: Vec<usize>)
    ensures
        r@ == v@.filter(drop_pred(x)),
{
    let mut r: Vec<usize> = Vec::new();
    proof {
        assert(v@.subrange(0, 0) =~= Seq::<usize>::empty());
        lemma_filter_empty(drop_pred(x));
    }
    let mut k: usize = 0;
    while k < v.len()
        invariant
            k <= v@.len(),
            r@ == v@.subrange(0, k as int).filter(drop_pred(x)),
        decreases v@.len() - k,
    {
        let m = v[k];
        proof {
            assert(v@.subrange(0, k as int + 1) =~= v@.subrange(0, k as int).push(
                v@[k as int],
            ));
            lemma_filter_push(v@.subrange(0, k as int), v@[k as int], drop_pred(x));
            assert((drop_pred(x))(m) == (m != x));
        }
        if m != x {
            r.push(m);
        }
        k += 1;
    }
    proof {
        assert(v@.subrange(0, v@.len() as int) =~= v@);
    }
    r
}

impl ChatServer {
    /// A broker with no sessions and only the empty default room.
    pub fn new() -> (s: ChatServer)
        ensures
            s.wf(),
            s.sessions@ == Seq::<usize>::empty(),
            s.room_names() == seq![main_room()],
            s.members_of(main_room()) == Seq::<usize>::empty(),
    {
        let main_name = String::from_str("Main");
        let rooms = vec![Room { name: main_name, members: Vec::new() }];
        let s = ChatServer { sessions: Vec::new(), rooms };
        proof {
            assert(s.rooms@[0].name@ == main_room());
            assert(s.names_distinct());
            lemma_room_index(s, 0);
            assert(s.room_names() =~= seq![main_room()]);
        }
        s
    }

    /// The broadcast fan-out: one delivery of `message` to every member of
    /// the room called `room` the skip does not exclude. A member missing
    /// from the registry would be skipped defensively; the precondition
    /// rules that out, so the contract is exact. An unknown room yields no
    /// deliveries.
    pub fn send_message(&self, room: &String, message: &str, skip_id: Option<usize>) -> (out: Vec<
        Delivery,
    >)
        requires
            self.names_distinct(),
            self.room_members_registered(room@),
        ensures
            dv(out@) == broadcast_views(
                self.members_of(room@).filter(keep_pred(skip_id)),
                message@,
            ),
    {
        let mut out: Vec<Delivery> = Vec::new();
        let found = self.find_room(room);
        match found {
            None => {
                proof {
                    assert(!self.has_room(room@));
                    assert(self.members_of(room@) =~= Seq::<usize>::empty());
                    lemma_filter_empty(keep_pred(skip_id));
                    assert(dv(out@) =~= broadcast_views(
                        self.members_of(room@).filter(keep_pred(skip_id)),
                        message@,
                    ));
                }
                out
            },
            Some(i) => {
                proof {
                    lemma_room_index(*self, i as int);
                }
                let ghost members = self.rooms@[i as int].members@;
                let ghost pred = keep_pred(skip_id);
                proof {
                    assert(members.subrange(0, 0) =~= Seq::<usize>::empty());
                    lemma_filter_empty(pred);
                    assert(dv(out@) =~= broadcast_views(
                        members.subrange(0, 0).filter(pred),
                        message@,
                    ));
                }
                let n = self.rooms[i].members.len();
                let mut k: usize = 0;
                while k < n
                    invariant
                        k <= n,
                        n == members.len(),
                        i < self.rooms@.len(),
                        members == self.rooms@[i as int].members@,
                        self.room_members_registered(room@),
                        self.members_of(room@) == members,
                        dv(out@) == broadcast_views(
                            members.subrange(0, k as int).filter(pred),
                            message@,
                        ),
                        pred == (|m: usize| keep_id(m, skip_id)),
                    decreases n - k,
                {
                    let m = self.rooms[i].members[k];
                    let keep = match skip_id {
                        None => true,
                        Some(s) => m != s,
                    };
                    proof {
                        assert(members.subrange(0, k as int + 1) =~= members.subrange(
                            0,
                            k as int,
                        ).push(members[k as int]));
                        lemma_filter_push(members.subrange(0, k as int), members[k as int], pred);
                        assert(keep == pred(m));
                    }
                    if keep {
                        // the defensive registry lookup of the fan-out; the
                        // invariant proves it always succeeds here
                        let present = vec_contains(&self.sessions, m);
                        proof {
                            assert(self.members_of(room@)[k as int] == m);
                            assert(self.sessions@.contains(m));
                        }
                        if present {
                            let ghost prev = out@;
                            out.push(Delivery { to: m, msg: Message(String::from_str(message)) });
                            proof {
                                assert(dv(out@) =~= dv(prev).push((m, message@)));
                                assert(broadcast_views(
                                    members.subrange(0, k as int).filter(pred).push(m),
                                    message@,
                                ) =~= broadcast_views(
                                    members.subrange(0, k as int).filter(pred),
                                    message@,
                                ).push((m, message@)));
                            }
                        }
                    }
                    k += 1;
                }
                proof {
                    assert(members.subrange(0, n as int) =~= members);
                }
                out
            },
        }
    }

    /// Takes `id` out of every room, sending one departure notice to every
    /// remaining member of each room it actually left, in room order.
    fn remove_from_all_rooms(&mut self, id: usize) -> (out: Vec<Delivery>)
        requires
            old(self).names_distinct(),
            forall|i: int|
                0 <= i < old(self).rooms@.len() ==> (#[trigger] old(
                    self,
                ).rooms@[i]).members@.no_duplicates(),
            forall|i: int, k: int|
                0 <= i < old(self).rooms@.len() && 0 <= k < old(self).rooms@[i].members@.len()
                    && old(self).rooms@[i].members@[k] != id ==> old(self).sessions@.contains(
                    #[trigger] old(self).rooms@[i].members@[k],
                ),
        ensures
            final(self).sessions@ == old(self).sessions@,
            final(self).rooms@.len() == old(self).rooms@.len(),
            final(self).names_distinct(),
            forall|i: int|
                0 <= i < final(self).rooms@.len() ==> (#[trigger] final(self).rooms@[i]).name@
                    == old(self).rooms@[i].name@,
            forall|i: int|
                0 <= i < final(self).rooms@.len() ==> (#[trigger] final(self).rooms@[i]).members@
                    == old(self).rooms@[i].members@.filter(drop_pred(id)),
            dv(out@) == departure_views(old(self).rooms@, id),
    {
        let mut out: Vec<Delivery> = Vec::new();
        proof {
            assert(old(self).rooms@.subrange(0, 0) =~= Seq::<Room>::empty());
            assert(dv(out@) =~= departure_views(old(self).rooms@.subrange(0, 0), id));
        }
        let n = self.rooms.len();
        let mut i: usize = 0;
        while i < n
            invariant
                i <= n,
                n == self.rooms@.len(),
                n == old(self).rooms@.len(),
                self.sessions@ == old(self).sessions@,
                forall|j: int|
                    0 <= j < n ==> (#[trigger] self.rooms@[j]).name@ == old(
                        self,
                    ).rooms@[j].name@,
                forall|j: int|
                    0 <= j < i ==> (#[trigger] self.rooms@[j]).members@ == old(
                        self,
                    ).rooms@[j].members@.filter(drop_pred(id)),
                forall|j: int| i <= j < n ==> self.rooms@[j] == old(self).rooms@[j],
                old(self).names_distinct(),
                forall|j: int|
                    0 <= j < n ==> (#[trigger] old(self).rooms@[j]).members@.no_duplicates(),
                forall|j: int, k: int|
                    0 <= j < n && 0 <= k < old(self).rooms@[j].members@.len() && old(
                        self,
                    ).rooms@[j].members@[k] != id ==> old(self).sessions@.contains(
                        #[trigger] old(self).rooms@[j].members@[k],
                    ),
                dv(out@) == departure_views(old(self).rooms@.subrange(0, i as int), id),
            decreases n - i,
        {
            proof {
                assert forall|a: int, b: int|
                    0 <= a < b < self.rooms@.len() implies self.rooms@[a].name@
                    != self.rooms@[b].name@ by {
                    assert(old(self).rooms@[a].name@ != old(self).rooms@[b].name@);
                }
            }
            let present = vec_contains(&self.rooms[i].members, id);
            let ghost old_members = old(self).rooms@[i as int].members@;
            if present {
                let kept = filter_out(&self.rooms[i].members, id);
                proof {
                    assert(self.rooms@[i as int] == old(self).rooms@[i as int]);
                    assert(kept@ == self.rooms@[i as int].members@.filter(drop_pred(id)));
                    assert(kept@ == old_members.filter(drop_pred(id)));
                }
                let name_c = self.rooms[i].name.clone();
                let ghost before_rooms = self.rooms@;
                let mut room = self.rooms.remove(i);
                room.members = kept;
                self.rooms.insert(i, room);
                proof {
                    assert(self.rooms@ =~= before_rooms.update(i as int, room));
                    lemma_room_index(*self, i as int);
                    assert(self.members_of(name_c@) == old_members.filter(drop_pred(id)));
                    lemma_filter_subset(old_members, drop_pred(id));
                    assert forall|k: int|
                        0 <= k < self.members_of(name_c@).len() implies self.sessions@.contains(
                        self.members_of(name_c@)[k],
                    ) by {
                        let m = old_members.filter(drop_pred(id))[k];
                        assert((drop_pred(id))(m));
                        assert(old_members.filter(drop_pred(id)).contains(m));
                        assert(old_members.contains(m));
                        let j = choose|j: int|
                            0 <= j < old_members.len() && old_members[j] == m;
                        assert(m != id);
                        assert(old(self).sessions@.contains(old(self).rooms@[i as int].members@[j]));
                    }
                }
                let mut msgs = self.send_message(&name_c, "Someone Disconnected!!", None);
                let ghost msg_views = dv(msgs@);
                let ghost prev_out = out@;
                proof {
                    assert(forall|k: int|
                        0 <= k < kept@.len() ==> (keep_pred(None))(#[trigger] kept@[k]));
                    lemma_filter_all(kept@, keep_pred(None));
                    assert(msg_views == broadcast_views(kept@, disconnected_text()));
                }
                out.append(&mut msgs);
                proof {
                    assert(dv(out@) =~= dv(prev_out) + msg_views);
                }
            } else {
                proof {
                    assert(self.rooms@[i as int] == old(self).rooms@[i as int]);
                    assert(!old_members.contains(id));
                    assert forall|k: int| 0 <= k < old_members.len() implies (drop_pred(id))(
                        #[trigger] old_members[k],
                    ) by {
                        assert((drop_pred(id))(old_members[k]) == (old_members[k] != id));
                        if old_members[k] == id {
                            assert(old_members.contains(id));
                        }
                    }
                    lemma_filter_all(old_members, drop_pred(id));
                }
            }
            proof {
                let pre = old(self).rooms@.subrange(0, i as int);
                let cur = old(self).rooms@.subrange(0, i as int + 1);
                assert(cur.drop_last() =~= pre);
                assert(cur.last() == old(self).rooms@[i as int]);
                assert(dv(out@) == departure_views(cur, id));
            }
            i += 1;
        }
        proof {
            assert(old(self).rooms@.subrange(0, n as int) =~= old(self).rooms@);
        }
        out
    }

    /// Registers a new session: notifies the default room, picks an id that
    /// no live session carries, inserts the session into the registry and
    /// into the default room, and notifies the default room of the visitor
    /// count the caller fetched. Returns the fresh id and the deliveries.
    pub fn handle_connect(&mut self, msg: Connect) -> (r: (usize, Vec<Delivery>))
        requires
            old(self).wf(),
        ensures
            final(self).wf(),
            !old(self).registered(r.0),
            final(self).sessions@ == old(self).sessions@.push(r.0),
            final(self).room_names() == old(self).room_names(),
            final(self).members_of(main_room()) == old(self).members_of(main_room()).push(r.0),
            forall|n: Seq<char>|
                n != main_room() ==> #[trigger] final(self).members_of(n) == old(
                    self,
                ).members_of(n),
            dv(r.1@) == broadcast_views(old(self).members_of(main_room()), joined_text())
                + broadcast_views(
                old(self).members_of(main_room()).push(r.0),
                visitors_text(msg.visitor_count as nat),
            ),
    {
        let main_name = String::from_str("Main");
        proof {
            lemma_wf_registered(*self, main_name@);
        }
        let mut out = self.send_message(&main_name, "Someone joined!!", None);
        proof {
            let members = self.members_of(main_room());
            assert(forall|k: int|
                0 <= k < members.len() ==> (keep_pred(None))(#[trigger] members[k]));
            lemma_filter_all(members, keep_pred(None));
            assert(dv(out@) == broadcast_views(members, joined_text()));
        }
        let mut id: usize = rand::random();
        if vec_contains(&self.sessions, id) {
            // rare collision: probe the small values instead; a registry of
            // n ids cannot hold every one of the n + 1 values up to n
            let n = self.sessions.len();
            let mut c: usize = 0;
            while vec_contains(&self.sessions, c)
                invariant
                    c <= n,
                    n == self.sessions@.len(),
                    self.sessions@ == old(self).sessions@,
                    self.rooms@ == old(self).rooms@,
                    forall|j: int| 0 <= j < c ==> #[trigger] self.sessions@.contains(j as usize),
                decreases n - c,
            {
                proof {
                    if c == n {
                        lemma_free_low_id(self.sessions@, n as int);
                        assert(false);
                    }
                }
                c += 1;
            }
            id = c;
        }
        let ghost fresh = id;
        proof {
            assert(!old(self).sessions@.contains(fresh));
        }
        self.sessions.push(id);
        let found = self.find_room(&main_name);
        let i = match found {
            Some(i) => i,
            None => {
                proof {
                    assert(old(self).has_room(main_room()));
                    assert(false);
                }
                0
            },
        };
        proof {
            lemma_room_index(*old(self), i as int);
            assert(old(self).members_of(main_room()) == old(self).rooms@[i as int].members@);
        }
        let ghost before_rooms = self.rooms@;
        let mut room = self.rooms.remove(i);
        room.members.push(id);
        self.rooms.insert(i, room);
        proof {
            assert(self.rooms@ =~= before_rooms.update(i as int, room));
            assert(self.sessions@ == old(self).sessions@.push(fresh));
            // names are unchanged, so lookups land on the same indices
            assert forall|a: int, b: int|
                0 <= a < b < self.rooms@.len() implies self.rooms@[a].name@
                != self.rooms@[b].name@ by {
                assert(old(self).rooms@[a].name@ != old(self).rooms@[b].name@);
            }
            assert(self.room_names() =~= old(self).room_names());
            lemma_room_index(*self, i as int);
            assert(self.members_of(main_room()) == old(self).members_of(main_room()).push(fresh));
            assert forall|n: Seq<char>|
                n != main_room() implies #[trigger] self.members_of(n) == old(self).members_of(
                n,
            ) by {
                if self.has_room(n) {
                    let j = self.room_at(n);
                    assert(old(self).rooms@[j].name@ == n);
                    lemma_room_index(*old(self), j);
                    lemma_room_index(*self, j);
                    assert(j != i);
                } else {
                    if old(self).has_room(n) {
                        let j = old(self).room_at(n);
                        assert(self.rooms@[j].name@ == n);
                        assert(self.has_room(n));
                    }
                }
            }
            // the invariant is restored: old ids stay registered, the new
            // session is registered, and the new id is not a duplicate
            assert forall|k: int|
                0 <= k < old(self).sessions@.len() implies old(self).sessions@[k] != fresh by {
                if old(self).sessions@[k] == fresh {
                    assert(old(self).sessions@.contains(fresh));
                }
            }
            assert(self.sessions@.no_duplicates());
            assert forall|j: int, k: int|
                0 <= j < self.rooms@.len() && 0 <= k < self.rooms@[j].members@.len()
                    implies self.sessions@.contains(#[trigger] self.rooms@[j].members@[k]) by {
                let m = self.rooms@[j].members@[k];
                if j == i && k == self.rooms@[j].members@.len() - 1 {
                    assert(m == fresh);
                    assert(self.sessions@[self.sessions@.len() - 1] == fresh);
                } else {
                    assert(old(self).sessions@.contains(old(self).rooms@[j].members@[k]));
                    let t = choose|t: int|
                        0 <= t < old(self).sessions@.len() && old(self).sessions@[t] == m;
                    assert(self.sessions@[t] == m);
                }
            }
            assert forall|j: int|
                0 <= j < self.rooms@.len() implies (#[trigger] self.rooms@[j]).members@
                .no_duplicates() by {
                if j == i {
                    let oldm = old(self).rooms@[i as int].members@;
                    assert forall|k: int| 0 <= k < oldm.len() implies oldm[k] != fresh by {
                        if oldm[k] == fresh {
                            assert(old(self).sessions@.contains(oldm[k]));
                            assert(old(self).sessions@.contains(fresh));
                        }
                    }
                    assert(self.rooms@[j].members@.no_duplicates());
                }
            }
            assert(self.rooms@[i as int].name@ == main_room());
            assert(self.has_room(main_room()));
            assert(self.wf());
            lemma_wf_registered(*self, main_room());
        }
        let mut count_text = String::from_str("Total visitors ");
        push_decimal(&mut count_text, msg.visitor_count);
        let mut msgs = self.send_message(&main_name, count_text.as_str(), None);
        let ghost msg_views = dv(msgs@);
        let ghost prev_out = out@;
        proof {
            let members = self.members_of(main_room());
            assert(forall|k: int|
                0 <= k < members.len() ==> (keep_pred(None))(#[trigger] members[k]));
            lemma_filter_all(members, keep_pred(None));
            assert(msg_views == broadcast_views(members, visitors_text(msg.visitor_count as nat)));
        }
        out.append(&mut msgs);
        proof {
            assert(dv(out@) =~= dv(prev_out) + msg_views);
        }
        (id, out)
    }

    /// Deregisters `id`: removes it from the registry and from every room it
    /// occupied, then sends one departure notice to each room it left.
    /// Removing an id that is not registered changes nothing, so a repeated
    /// disconnect is a no-op.
    pub fn handle_disconnect(&mut self, msg: Disconnect) -> (out: Vec<Delivery>)
        requires
            old(self).wf(),
        ensures
            final(self).wf(),
            !final(self).registered(msg.id),
            forall|n: Seq<char>| !(#[trigger] final(self).members_of(n)).contains(msg.id),
            !old(self).registered(msg.id) ==> *final(self) == *old(self) && out@ == Seq::<
                Delivery,
            >::empty(),
            old(self).registered(msg.id) ==> {
                &&& final(self).sessions@ == old(self).sessions@.filter(drop_pred(msg.id))
                &&& final(self).room_names() == old(self).room_names()
                &&& forall|n: Seq<char>|
                    #[trigger] final(self).members_of(n) == old(self).members_of(n).filter(
                        drop_pred(msg.id),
                    )
                &&& dv(out@) == departure_views(old(self).rooms@, msg.id)
            },
    {
        let present = vec_contains(&self.sessions, msg.id);
        if !present {
            proof {
                assert forall|n: Seq<char>|
                    !(#[trigger] self.members_of(n)).contains(msg.id) by {
                    if self.members_of(n).contains(msg.id) {
                        lemma_room_member_registered(*self, n, msg.id);
                    }
                }
            }
            return Vec::new();
        }
        self.sessions = filter_out(&self.sessions, msg.id);
        proof {
            lemma_filter_no_duplicates(old(self).sessions@, drop_pred(msg.id));
            assert forall|j: int, k: int|
                0 <= j < self.rooms@.len() && 0 <= k < self.rooms@[j].members@.len()
                    && self.rooms@[j].members@[k] != msg.id implies self.sessions@.contains(
                #[trigger] self.rooms@[j].members@[k],
            ) by {
                let m = self.rooms@[j].members@[k];
                assert(old(self).sessions@.contains(old(self).rooms@[j].members@[k]));
                lemma_filter_out_keeps(old(self).sessions@, msg.id, m);
            }
        }
        let out = self.remove_from_all_rooms(msg.id);
        proof {
            lemma_members_map(*old(self), *self, msg.id);
            if self.sessions@.contains(msg.id) {
                let k = choose|k: int|
                    0 <= k < self.sessions@.len() && self.sessions@[k] == msg.id;
                lemma_filter_elem(old(self).sessions@, msg.id, k);
            }
            assert forall|n: Seq<char>|
                !(#[trigger] self.members_of(n)).contains(msg.id) by {
                if self.members_of(n).contains(msg.id) {
                    let k = choose|k: int|
                        0 <= k < self.members_of(n).len() && self.members_of(n)[k] == msg.id;
                    lemma_filter_elem(old(self).members_of(n), msg.id, k);
                }
            }
            // the invariant is restored on the filtered state
            assert forall|j: int|
                0 <= j < self.rooms@.len() implies (#[trigger] self.rooms@[j]).members@
                .no_duplicates() by {
                lemma_filter_no_duplicates(old(self).rooms@[j].members@, drop_pred(msg.id));
            }
            assert forall|j: int, k: int|
                0 <= j < self.rooms@.len() && 0 <= k < self.rooms@[j].members@.len()
                    implies self.sessions@.contains(#[trigger] self.rooms@[j].members@[k]) by {
                let m = self.rooms@[j].members@[k];
                lemma_filter_elem(old(self).rooms@[j].members@, msg.id, k);
                assert(old(self).rooms@[j].members@.contains(m));
                let t = choose|t: int|
                    0 <= t < old(self).rooms@[j].members@.len() && old(
                        self,
                    ).rooms@[j].members@[t] == m;
                assert(old(self).sessions@.contains(old(self).rooms@[j].members@[t]));
                lemma_filter_out_keeps(old(self).sessions@, msg.id, m);
            }
            let w = old(self).room_at(main_room());
            assert(old(self).rooms@[w].name@ == main_room());
            assert(self.rooms@[w].name@ == main_room());
            assert(self.has_room(main_room()));
        }
        out
    }

    /// Moves `id` into the room called `name`: takes it out of every room it
    /// occupied, notifying each, creates the target room if it is absent,
    /// inserts `id`, and notifies the whole target room. A join for an id
    /// that is not registered changes nothing.
    pub fn handle_join(&mut self, msg: Join) -> (out: Vec<Delivery>)
        requires
            old(self).wf(),
        ensures
            final(self).wf(),
            final(self).sessions@ == old(self).sessions@,
            !old(self).registered(msg.id) ==> *final(self) == *old(self) && out@ == Seq::<
                Delivery,
            >::empty(),
            old(self).registered(msg.id) ==> {
                &&& old(self).has_room(msg.name@) ==> final(self).room_names() == old(
                    self,
                ).room_names()
                &&& !old(self).has_room(msg.name@) ==> final(self).room_names() == old(
                    self,
                ).room_names().push(msg.name@)
                &&& final(self).members_of(msg.name@) == old(self).members_of(msg.name@).filter(
                    drop_pred(msg.id),
                ).push(msg.id)
                &&& final(self).members_of(msg.name@).contains(msg.id)
                &&& forall|n: Seq<char>|
                    n != msg.name@ ==> #[trigger] final(self).members_of(n) == old(
                        self,
                    ).members_of(n).filter(drop_pred(msg.id))
                &&& forall|n: Seq<char>|
                    n != msg.name@ ==> !(#[trigger] final(self).members_of(n)).contains(msg.id)
                &&& dv(out@) == departure_views(old(self).rooms@, msg.id) + broadcast_views(
                    old(self).members_of(msg.name@).filter(drop_pred(msg.id)).push(msg.id),
                    connected_text(),
                )
            },
    {
        let present = vec_contains(&self.sessions, msg.id);
        if !present {
            return Vec::new();
        }
        let mut out = self.remove_from_all_rooms(msg.id);
        proof {
            lemma_members_map(*old(self), *self, msg.id);
            assert forall|j: int|
                0 <= j < self.rooms@.len() implies (#[trigger] self.rooms@[j]).members@
                .no_duplicates() by {
                lemma_filter_no_duplicates(old(self).rooms@[j].members@, drop_pred(msg.id));
            }
        }
        let ghost mid = *self;
        let found = self.find_room(&msg.name);
        let ghost target: int;
        match found {
            Some(i) => {
                proof {
                    target = i as int;
                    lemma_room_index(mid, i as int);
                    assert(old(self).rooms@[i as int].name@ == msg.name@);
                    assert(old(self).has_room(msg.name@));
                }
                let ghost before_rooms = self.rooms@;
                let mut room = self.rooms.remove(i);
                room.members.push(msg.id);
                self.rooms.insert(i, room);
                proof {
                    assert(self.rooms@ =~= before_rooms.update(i as int, room));
                    assert(self.room_names() =~= mid.room_names());
                }
            },
            None => {
                proof {
                    target = mid.rooms@.len() as int;
                    if old(self).has_room(msg.name@) {
                        let j = old(self).room_at(msg.name@);
                        assert(mid.rooms@[j].name@ == msg.name@);
                        assert(mid.has_room(msg.name@));
                    }
                    assert(!old(self).has_room(msg.name@));
                }
                let mut members: Vec<usize> = Vec::new();
                members.push(msg.id);
                self.rooms.push(Room { name: msg.name.clone(), members });
                proof {
                    assert(self.room_names() =~= mid.room_names().push(msg.name@));
                }
            },
        }
        proof {
            assert(self.rooms@[target].name@ == msg.name@);
            assert(self.rooms@[target].members@ == mid.members_of(msg.name@).push(msg.id));
            assert forall|a: int, b: int|
                0 <= a < b < self.rooms@.len() implies self.rooms@[a].name@
                != self.rooms@[b].name@ by {
                if b < mid.rooms@.len() {
                    assert(mid.rooms@[a].name@ != mid.rooms@[b].name@);
                } else {
                    assert(b == target);
                    assert(!mid.has_room(msg.name@));
                    assert(mid.rooms@[a].name@ == self.rooms@[a].name@);
                    if self.rooms@[a].name@ == msg.name@ {
                        assert(mid.has_room(msg.name@));
                    }
                }
            }
            lemma_room_index(*self, target);
            assert(self.members_of(msg.name@) == mid.members_of(msg.name@).push(msg.id));
            assert forall|n: Seq<char>|
                n != msg.name@ implies #[trigger] self.members_of(n) == mid.members_of(n) by {
                if self.has_room(n) {
                    let j = self.room_at(n);
                    assert(j != target);
                    assert(mid.rooms@[j].name@ == n);
                    lemma_room_index(mid, j);
                    lemma_room_index(*self, j);
                } else {
                    if mid.has_room(n) {
                        let j = mid.room_at(n);
                        assert(self.rooms@[j].name@ == n);
                        assert(self.has_room(n));
                    }
                }
            }
            // the target room's membership stays duplicate-free: the filter
            // already removed msg.id from it
            assert forall|k: int|
                0 <= k < mid.members_of(msg.name@).len() implies mid.members_of(msg.name@)[k]
                != msg.id by {
                lemma_filter_elem(old(self).members_of(msg.name@), msg.id, k);
            }
            if mid.members_of(msg.name@).contains(msg.id) {
                let k = choose|k: int|
                    0 <= k < mid.members_of(msg.name@).len() && mid.members_of(msg.name@)[k]
                        == msg.id;
                assert(false);
            }
            assert forall|j: int|
                0 <= j < self.rooms@.len() implies (#[trigger] self.rooms@[j]).members@
                .no_duplicates() by {
                if j == target {
                    assert(self.rooms@[j].members@.no_duplicates());
                } else {
                    assert(self.rooms@[j] == mid.rooms@[j]);
                }
            }
            assert forall|j: int, k: int|
                0 <= j < self.rooms@.len() && 0 <= k < self.rooms@[j].members@.len()
                    implies self.sessions@.contains(#[trigger] self.rooms@[j].members@[k]) by {
                let m = self.rooms@[j].members@[k];
                if j == target && k == self.rooms@[j].members@.len() - 1 {
                    assert(m == msg.id);
                    assert(old(self).sessions@.contains(msg.id));
                } else {
                    let src = if j == target {
                        mid.members_of(msg.name@)
                    } else {
                        mid.rooms@[j].members@
                    };
                    assert(src[k] == m);
                    if j == target {
                        lemma_filter_elem(old(self).members_of(msg.name@), msg.id, k);
                        let n0 = msg.name@;
                        assert(old(self).members_of(n0).contains(m));
                        lemma_room_member_registered(*old(self), n0, m);
                    } else {
                        lemma_filter_elem(old(self).rooms@[j].members@, msg.id, k);
                        let t = choose|t: int|
                            0 <= t < old(self).rooms@[j].members@.len() && old(
                                self,
                            ).rooms@[j].members@[t] == m;
                        assert(old(self).sessions@.contains(old(self).rooms@[j].members@[t]));
                    }
                }
            }
            let w = old(self).room_at(main_room());
            assert(old(self).rooms@[w].name@ == main_room());
            assert(mid.rooms@[w].name@ == main_room());
            assert(self.rooms@[w].name@ == main_room());
            assert(self.has_room(main_room()));
            assert(self.wf());
            // every member of the grown target room is registered
            lemma_wf_registered(*self, msg.name@);
        }
        let mut msgs = self.send_message(&msg.name, "Someone Connected!!", None);
        let ghost msg_views = dv(msgs@);
        let ghost prev_out = out@;
        proof {
            let members = self.members_of(msg.name@);
            assert(forall|k: int|
                0 <= k < members.len() ==> (keep_pred(None))(#[trigger] members[k]));
            lemma_filter_all(members, keep_pred(None));
            assert(msg_views == broadcast_views(members, connected_text()));
        }
        out.append(&mut msgs);
        proof {
            assert(dv(out@) =~= dv(prev_out) + msg_views);
            assert(self.members_of(msg.name@)[self.members_of(msg.name@).len() - 1] == msg.id);
            assert(self.members_of(msg.name@).contains(msg.id));
            assert forall|n: Seq<char>|
                n != msg.name@ implies !(#[trigger] self.members_of(n)).contains(msg.id) by {
                if self.members_of(n).contains(msg.id) {
                    let k = choose|k: int|
                        0 <= k < self.members_of(n).len() && self.members_of(n)[k] == msg.id;
                    lemma_filter_elem(old(self).members_of(n), msg.id, k);
                }
            }
        }
        out
    }

    /// A snapshot of the current room names, in the broker's own order.
    pub fn handle_list_rooms(&self, _req: ListRooms) -> (out: Vec<String>)
        ensures
            out@.map_values(|s: String| s@) == self.room_names(),
    {
        let mut out: Vec<String> = Vec::new();
        let mut k: usize = 0;
        while k < self.rooms.len()
            invariant
                k <= self.rooms@.len(),
                out@.len() == k,
                forall|j: int| 0 <= j < k ==> out@[j]@ == self.rooms@[j].name@,
            decreases self.rooms@.len() - k,
        {
            out.push(self.rooms[k].name.clone());
            k += 1;
        }
        proof {
            assert(out@.map_values(|s: String| s@) =~= self.room_names());
        }
        out
    }

    /// Relays a client's text: every current member of the named room other
    /// than the sender gets it, each exactly once; a room that does not
    /// exist means no deliveries and no error surfaced to the sender.
    pub fn handle_client_message(&self, msg: ClientMessage) -> (out: Vec<Delivery>)
        requires
            self.wf(),
        ensures
            dv(out@) == broadcast_views(
                self.members_of(msg.room@).filter(keep_pred(Some(msg.id))),
                msg.msg@,
            ),
            !self.has_room(msg.room@) ==> out@.len() == 0,
    {
        proof {
            lemma_wf_registered(*self, msg.room@);
        }
        let out = self.send_message(&msg.room, msg.msg.as_str(), Some(msg.id));
        proof {
            if !self.has_room(msg.room@) {
                lemma_filter_empty(keep_pred(Some(msg.id)));
                assert(self.members_of(msg.room@) =~= Seq::<usize>::empty());
                assert(broadcast_views(
                    self.members_of(msg.room@).filter(keep_pred(Some(msg.id))),
                    msg.msg@,
                ).len() == 0);
                assert(dv(out@).len() == 0);
                assert(out@.len() == 0);
            }
        }
        out
    }

    /// Linear lookup of a room by name.
    fn find_room(&self, name: &String) -> (r: Option<usize>)
        ensures
            match r {
                Some(i) => i < self.rooms@.len() && self.rooms@[i as int].name@ == name@,
                None => !self.has_room(name@),
            },
    {
        let mut k: usize = 0;
        while k < self.rooms.len()
            invariant
                k <= self.rooms@.len(),
                forall|j: int| 0 <= j < k ==> self.rooms@[j].name@ != name@,
            decreases self.rooms@.len() - k,
        {
            if self.rooms[k].name == *name {
                return Some(k);
            }
            k += 1;
        }
        None
    }
}

} // verus!

