//! The per-connection session state machine: it tracks the current room,
//! the optional display name and heartbeat liveness, parses the slash
//! commands of the client protocol, and turns every inbound frame into the
//! exact list of actions the transport must perform.

use vstd::prelude::*;
use vstd::string::StrSliceExecFns;
use vstd::string::StringExecFns;

use crate::server::{ClientMessage, Join};
use crate::text::{arg_token, head_token, split_command, trim_spec, trim_str};

verus! {

/// How often, in heartbeat time units, the liveness check runs.
pub const HEARTBEAT_INTERVAL: u64 = 5;

/// How long, in heartbeat time units, a silent client is tolerated before
/// it is disconnected.
pub const CLIENT_TIMEOUT: u64 = 10;

/// One inbound transport frame, as the session sees it.
pub enum Frame {
    Ping(Vec<u8>),
    Pong(Vec<u8>),
    Text(String),
    Binary(Vec<u8>),
    Close,
    Continuation,
    Nop,
}

/// The plain-value shadow of a frame.
pub enum FrameV {
    Ping(Seq<u8>),
    Pong(Seq<u8>),
    Text(Seq<char>),
    Binary(Seq<u8>),
    Close,
    Continuation,
    Nop,
}

impl View for Frame {
    type V = FrameV;

    open spec fn view(&self) -> FrameV {
        match self {
            Frame::Ping(p) => FrameV::Ping(p@),
            Frame::Pong(p) => FrameV::Pong(p@),
            Frame::Text(t) => FrameV::Text(t@),
            Frame::Binary(b) => FrameV::Binary(b@),
            Frame::Close => FrameV::Close,
            Frame::Continuation => FrameV::Continuation,
            Frame::Nop => FrameV::Nop,
        }
    }
}

/// One outward step the session decided on; the caller performs them in
/// order.
pub enum Action {
    /// answer a ping, echoing its payload
    Pong(Vec<u8>),
    /// push a text frame to this session's own client
    Text(String),
    /// ask the broker for the room list, deferring further input
    ListRooms,
    /// tell the broker to move this session into a room
    Join(Join),
    /// hand the broker a chat line to relay
    Relay(ClientMessage),
    /// echo the close frame and stop
    Close,
    /// stop the session without an echo
    Stop,
}

/// The plain-value shadow of an action.
pub enum ActionV {
    Pong(Seq<u8>),
    Text(Seq<char>),
    ListRooms,
    Join(usize, Seq<char>),
    Relay(usize, Seq<char>, Seq<char>),
    Close,
    Stop,
}

impl View for Action {
    type V = ActionV;

    open spec fn view(&self) -> ActionV {
        match self {
            Action::Pong(p) => ActionV::Pong(p@),
            Action::Text(t) => ActionV::Text(t@),
            Action::ListRooms => ActionV::ListRooms,
            Action::Join(j) => ActionV::Join(j.id, j.name@),
            Action::Relay(c) => ActionV::Relay(c.id, c.msg@, c.room@),
            Action::Close => ActionV::Close,
            Action::Stop => ActionV::Stop,
        }
    }
}

/// The plain-value shadow of an action list.
pub open spec fn av(acts: Seq<Action>) -> Seq<ActionV> {
    acts.map_values(|a: Action| a@)
}

/// One client's connection state: the broker-assigned id (0 until the
/// registration response arrives), the current room, the optional display
/// name, and the time of the last sign of life.
pub struct Session {
    pub id: usize,
    pub room: String,
    pub name: Option<String>,
    pub hb: u64,
}

/// The plain-value shadow of a session.
pub struct SessionV {
    pub id: usize,
    pub room: Seq<char>,
    pub name: Option<Seq<char>>,
    pub hb: u64,
}

impl View for Session {
    type V = SessionV;

    open spec fn view(&self) -> SessionV {
        SessionV {
            id: self.id,
            room: self.room@,
            name: match self.name {
                Option::Some(n) => Option::Some(n@),
                Option::None => Option::None,
            },
            hb: self.hb,
        }
    }
}

pub open spec fn joined_ok_text() -> Seq<char> {
    "joined!!"@
}

pub open spec fn join_usage_text() -> Seq<char> {
    "!!! room name is required!!"@
}

pub open spec fn name_usage_text() -> Seq<char> {
    "!!! name is required!!"@
}

pub open spec fn unknown_prefix() -> Seq<char> {
    "!!! unknown command: "@
}

/// What one text frame does: the line is trimmed; a line starting with a
/// slash is a command split at its first space; anything else is chat,
/// prefixed with the display name when one is set.
pub open spec fn text_step(pre: SessionV, raw: Seq<char>) -> (SessionV, Seq<ActionV>) {
    let m = trim_spec(raw);
    if m.len() > 0 && m[0] == '/' {
        let cmd = head_token(m);
        if cmd == "/list"@ {
            (pre, seq![ActionV::ListRooms])
        } else if cmd == "/join"@ {
            match arg_token(m) {
                Option::Some(a) => (
                    SessionV { room: a, ..pre },
                    seq![ActionV::Join(pre.id, a), ActionV::Text(joined_ok_text())],
                ),
                Option::None => (pre, seq![ActionV::Text(join_usage_text())]),
            }
        } else if cmd == "/name"@ {
            match arg_token(m) {
                Option::Some(a) => (SessionV { name: Option::Some(a), ..pre }, Seq::empty()),
                Option::None => (pre, seq![ActionV::Text(name_usage_text())]),
            }
        } else {
            (pre, seq![ActionV::Text(unknown_prefix() + m)])
        }
    } else {
        let line = match pre.name {
            Option::Some(n) => n + ": "@ + m,
            Option::None => m,
        };
        (pre, seq![ActionV::Relay(pre.id, line, pre.room)])
    }
}

/// What one inbound frame does in the active state: ping and pong refresh
/// liveness (ping is answered), text runs the protocol, binary is ignored,
/// close is echoed and ends the session, and an unexpected continuation
/// ends it without an echo.
pub open spec fn frame_step(pre: SessionV, f: FrameV, now: u64) -> (SessionV, Seq<ActionV>) {
    match f {
        FrameV::Ping(p) => (SessionV { hb: now, ..pre }, seq![ActionV::Pong(p)]),
        FrameV::Pong(_) => (SessionV { hb: now, ..pre }, Seq::empty()),
        FrameV::Text(t) => text_step(pre, t),
        FrameV::Binary(_) => (pre, Seq::empty()),
        FrameV::Close => (pre, seq![ActionV::Close]),
        FrameV::Continuation => (pre, seq![ActionV::Stop]),
        FrameV::Nop => (pre, Seq::empty()),
    }
}

impl Session {
    /// A fresh connection: no id yet, the default room, no display name,
    /// alive as of `now`.
    pub fn new(now: u64) -> (s: Session)
        ensures
            s@ == (SessionV { id: 0, room: "Main"@, name: Option::None, hb: now }),
    {
        Session { id: 0, room: String::from_str("Main"), name: Option::None, hb: now }
    }

    /// Handles one inbound frame while the session is active.
    pub fn handle_frame(&mut self, frame: Frame, now: u64) -> (acts: Vec<Action>)
        ensures
            final(self)@ == frame_step(old(self)@, frame@, now).0,
            av(acts@) == frame_step(old(self)@, frame@, now).1,
    {
        match frame {
            Frame::Ping(p) => {
                let ghost pv = p@;
                self.hb = now;
                let mut acts: Vec<Action> = Vec::new();
                acts.push(Action::Pong(p));
                proof {
                    assert(av(acts@) =~= seq![ActionV::Pong(pv)]);
                }
                acts
            },
            Frame::Pong(_) => {
                self.hb = now;
                let acts: Vec<Action> = Vec::new();
                proof {
                    assert(av(acts@) =~= Seq::<ActionV>::empty());
                }
                acts
            },
            Frame::Text(t) => self.handle_text(t),
            Frame::Binary(_) => {
                let acts: Vec<Action> = Vec::new();
                proof {
                    assert(av(acts@) =~= Seq::<ActionV>::empty());
                }
                acts
            },
            Frame::Close => {
                let mut acts: Vec<Action> = Vec::new();
                acts.push(Action::Close);
                proof {
                    assert(av(acts@) =~= seq![ActionV::Close]);
                }
                acts
            },
            Frame::Continuation => {
                let mut acts: Vec<Action> = Vec::new();
                acts.push(Action::Stop);
                proof {
                    assert(av(acts@) =~= seq![ActionV::Stop]);
                }
                acts
            },
            Frame::Nop => {
                let acts: Vec<Action> = Vec::new();
                proof {
                    assert(av(acts@) =~= Seq::<ActionV>::empty());
                }
                acts
            },
        }
    }

    /// Runs the text protocol on one inbound line.
    fn handle_text(&mut self, raw: String) -> (acts: Vec<Action>)
        ensures
            final(self)@ == text_step(old(self)@, raw@).0,
            av(acts@) == text_step(old(self)@, raw@).1,
    {
        let m = trim_str(raw.as_str());
        let mut acts: Vec<Action> = Vec::new();
        let is_cmd = m.as_str().unicode_len() != 0 && m.as_str().get_char(0) == '/';
        if is_cmd {
            let (cmd, arg) = split_command(m.as_str());
            if cmd == String::from_str("/list") {
                acts.push(Action::ListRooms);
                proof {
                    assert(av(acts@) =~= seq![ActionV::ListRooms]);
                }
            } else if cmd == String::from_str("/join") {
                match arg {
                    Option::Some(a) => {
                        let ghost aview = a@;
                        self.room = a.clone();
                        acts.push(Action::Join(Join { id: self.id, name: a }));
                        acts.push(Action::Text(String::from_str("joined!!")));
                        proof {
                            assert(av(acts@) =~= seq![
                                ActionV::Join(old(self)@.id, aview),
                                ActionV::Text(joined_ok_text()),
                            ]);
                        }
                    },
                    Option::None => {
                        acts.push(Action::Text(String::from_str("!!! room name is required!!")));
                        proof {
                            assert(av(acts@) =~= seq![ActionV::Text(join_usage_text())]);
                        }
                    },
                }
            } else if cmd == String::from_str("/name") {
                match arg {
                    Option::Some(a) => {
                        self.name = Option::Some(a);
                        proof {
                            assert(av(acts@) =~= Seq::<ActionV>::empty());
                        }
                    },
                    Option::None => {
                        acts.push(Action::Text(String::from_str("!!! name is required!!")));
                        proof {
                            assert(av(acts@) =~= seq![ActionV::Text(name_usage_text())]);
                        }
                    },
                }
            } else {
                let mut t = String::from_str("!!! unknown command: ");
                t.append(m.as_str());
                acts.push(Action::Text(t));
                proof {
                    assert(av(acts@) =~= seq![ActionV::Text(unknown_prefix() + m@)]);
                }
            }
        } else {
            let line = match &self.name {
                Option::Some(n) => {
                    let mut s = n.clone();
                    s.append(": ");
                    s.append(m.as_str());
                    s
                },
                Option::None => m,
            };
            let ghost lv = line@;
            acts.push(
                Action::Relay(ClientMessage { id: self.id, msg: line, room: self.room.clone() }),
            );
            proof {
                assert(av(acts@) =~= seq![ActionV::Relay(old(self)@.id, lv, old(self)@.room)]);
            }
        }
        acts
    }

    /// The reply to a completed room-list request: one text frame per room
    /// name, in the order the broker returned them.
    pub fn rooms_reply(rooms: Vec<String>) -> (acts: Vec<Action>)
        ensures
            av(acts@) == rooms@.map_values(|r: String| ActionV::Text(r@)),
    {
        let mut acts: Vec<Action> = Vec::new();
        let mut k: usize = 0;
        while k < rooms.len()
            invariant
                k <= rooms@.len(),
                acts@.len() == k,
                forall|j: int| 0 <= j < k ==> (#[trigger] acts@[j])@ == ActionV::Text(rooms@[j]@),
            decreases rooms@.len() - k,
        {
            acts.push(Action::Text(rooms[k].clone()));
            k += 1;
        }
        proof {
            assert(av(acts@) =~= rooms@.map_values(|r: String| ActionV::Text(r@)));
        }
        acts
    }

    /// The registration response: a granted id activates the session; a
    /// failed registration means the session must give up and close.
    pub fn connect_response(&mut self, res: Option<usize>) -> (ok: bool)
        ensures
            match res {
                Option::Some(id) => ok && final(self)@ == (SessionV { id: id, ..old(self)@ }),
                Option::None => !ok && final(self)@ == old(self)@,
            },
    {
        match res {
            Option::Some(id) => {
                self.id = id;
                true
            },
            Option::None => false,
        }
    }

    /// The heartbeat check at time `now`: true exactly when the client has
    /// been silent for longer than the timeout, in which case the caller
    /// must disconnect it; otherwise the caller sends a ping.
    pub fn heartbeat_expired(&self, now: u64) -> (expired: bool)
        ensures
            expired <==> now as int > self.hb as int + CLIENT_TIMEOUT as int,
    {
        if now > self.hb {
            now - self.hb > CLIENT_TIMEOUT
        } else {
            false
        }
    }
}

} // verus!
