use crate::command::{parse_spec, Command, CommandError, CommandView};
use crate::resp::{decode_spec, encode_value, parse_message, DecodeError, Resp, Value};
use vstd::prelude::*;
use vstd::utf8::{encode_utf8, encode_utf8_decode_utf8};

verus! {

/// An in-memory map from string keys to protocol values.
pub struct Database {
    name: String,
    entries: Entries,
}

/// What the connection driver does after one request.
#[derive(Debug)]
pub enum Step {
    /// Write these bytes back and wait for the next request.
    Reply(Vec<u8>),
    /// The request is well-formed data but no valid command: write these bytes (an error
    /// value) back and wait for the next request.
    Refused(CommandError, Vec<u8>),
    /// The buffer ends before a value starts: read more bytes and try again.
    NeedMore,
    /// The bytes break the wire grammar: close the connection.
    Close(DecodeError),
}

pub open spec fn pong_text() -> Seq<u8> {
    seq![80u8, 79, 78, 71]
}

pub open spec fn ok_text() -> Seq<u8> {
    seq![79u8, 75]
}

/// The reply to a command against a store whose contents are `store`.
pub open spec fn reply_spec(store: Map<Seq<char>, Value>, c: CommandView) -> Value {
    match c {
        CommandView::Ping => Value::Simple(pong_text()),
        CommandView::Echo(v) => v,
        CommandView::Get(k) => if store.contains_key(k) {
            store[k]
        } else {
            Value::Bulk(None)
        },
        CommandView::SetKey(_, _) => Value::Simple(ok_text()),
    }
}

/// The contents of a store after a command.
pub open spec fn next_store(store: Map<Seq<char>, Value>, c: CommandView) -> Map<Seq<char>, Value> {
    match c {
        CommandView::SetKey(k, v) => store.insert(k, v),
        _ => store,
    }
}

/// The text of the error value that answers a refused command.
pub open spec fn error_text(e: CommandError) -> Seq<u8> {
    match e {
        CommandError::UnknownCommand => seq![69u8, 82, 82, 32, 117, 110, 107, 110, 111, 119, 110, 32, 99, 111, 109, 109, 97, 110, 100],
        CommandError::MissingArgument => seq![69u8, 82, 82, 32, 109, 105, 115, 115, 105, 110, 103, 32, 97, 114, 103, 117, 109, 101, 110, 116],
        CommandError::ExtraArgument => seq![69u8, 82, 82, 32, 116, 111, 111, 32, 109, 97, 110, 121, 32, 97, 114, 103, 117, 109, 101, 110, 116, 115],
        CommandError::WrongArgumentType => seq![69u8, 82, 82, 32, 119, 114, 111, 110, 103, 32, 97, 114, 103, 117, 109, 101, 110, 116, 32, 116, 121, 112, 101],
        CommandError::InvalidUtf8 => seq![69u8, 82, 82, 32, 107, 101, 121, 32, 105, 115, 32, 110, 111, 116, 32, 85, 84, 70, 45, 56],
    }
}

/// What one request buffer leads to, and the store contents after it.
pub open spec fn step_spec(store: Map<Seq<char>, Value>, buffer: Seq<u8>) -> (StepView, Map<Seq<char>, Value>) {
    match decode_spec(buffer) {
        Err(e) => if e == DecodeError::NeedMoreData {
            (StepView::NeedMore, store)
        } else {
            (StepView::Close(e), store)
        },
        Ok((_, v)) => match parse_spec(v) {
            Err(ce) => (StepView::Refused(ce, encode_value(Value::Error(error_text(ce)))), store),
            Ok(c) => (StepView::Reply(encode_value(reply_spec(store, c))), next_store(store, c)),
        },
    }
}

/// Mathematical model of a step.
pub enum StepView {
    Reply(Seq<u8>),
    Refused(CommandError, Seq<u8>),
    NeedMore,
    Close(DecodeError),
}

impl Step {
    pub open spec fn view(&self) -> StepView {
        match self {
            Step::Reply(b) => StepView::Reply(b@),
            Step::Refused(e, b) => StepView::Refused(*e, b@),
            Step::NeedMore => StepView::NeedMore,
            Step::Close(e) => StepView::Close(*e),
        }
    }
}

/// Whether two strings hold the same characters, judged by their bytes.
fn same_key(a: &str, b: &str) -> (r: bool)
    ensures
        r == (a@ == b@),
{
    let x = a.as_bytes();
    let y = b.as_bytes();
    proof {
        encode_utf8_decode_utf8(a@);
        encode_utf8_decode_utf8(b@);
    }
    if x.len() != y.len() {
        return false;
    }
    let mut i: usize = 0;
    while i < x.len()
        invariant
            x@.len() == y@.len(),
            x@ == encode_utf8(a@),
            y@ == encode_utf8(b@),
            i <= x@.len(),
            forall|j: int| 0 <= j < i ==> x@[j] == y@[j],
        decreases x@.len() - i,
    {
        if x[i] != y[i] {
            assert(x@ != y@);
            return false;
        }
        i = i + 1;
    }
    assert(x@ =~= y@);
    proof {
        encode_utf8_decode_utf8(a@);
        encode_utf8_decode_utf8(b@);
    }
    true
}

/// The stored entries: keys in one vector, their values at the same places in the other.
struct Entries {
    keys: Vec<String>,
    values: Vec<Resp>,
    contents: Ghost<Map<Seq<char>, Value>>,
}

impl Entries {
    /// Keys are unique, and `contents` maps each key to the model of its value.
    spec fn wf(&self) -> bool {
        &&& self.keys@.len() == self.values@.len()
        &&& forall|i: int, j: int|
            0 <= i < self.keys@.len() && 0 <= j < self.keys@.len() && #[trigger] self.keys@[i]@
                == #[trigger] self.keys@[j]@ ==> i == j
        &&& forall|k: Seq<char>|
            #[trigger] self.contents@.contains_key(k) <==> exists|i: int|
                0 <= i < self.keys@.len() && #[trigger] self.keys@[i]@ == k
        &&& forall|i: int|
            0 <= i < self.keys@.len() ==> self.contents@[#[trigger] self.keys@[i]@]
                == self.values@[i]@
    }

    fn empty() -> (r: Entries)
        ensures
            r.wf(),
            r.contents@ == Map::<Seq<char>, Value>::empty(),
    {
        Entries { keys: Vec::new(), values: Vec::new(), contents: Ghost(Map::empty()) }
    }

    /// Where `key` stands among the stored keys.
    fn position(&self, key: &str) -> (r: Option<usize>)
        ensures
            match r {
                Some(i) => i < self.keys@.len() && self.keys@[i as int]@ == key@,
                None => forall|i: int| 0 <= i < self.keys@.len() ==> self.keys@[i]@ != key@,
            },
    {
        let mut i: usize = 0;
        while i < self.keys.len()
            invariant
                i <= self.keys@.len(),
                forall|j: int| 0 <= j < i ==> self.keys@[j]@ != key@,
            decreases self.keys@.len() - i,
        {
            if same_key(self.keys[i].as_str(), key) {
                return Some(i);
            }
            i = i + 1;
        }
        None
    }

    fn insert(&mut self, key: String, value: Resp)
        requires
            old(self).wf(),
        ensures
            final(self).wf(),
            final(self).contents@ == old(self).contents@.insert(key@, value@),
    {
        let ghost k = key@;
        let ghost v = value@;
        match self.position(key.as_str()) {
            Some(i) => {
                self.values.set(i, value);
                self.contents = Ghost(self.contents@.insert(k, v));
                assert forall|q: Seq<char>| #[trigger] self.contents@.contains_key(q) <==> exists|j: int|
                    0 <= j < self.keys@.len() && #[trigger] self.keys@[j]@ == q by {
                    if q == k {
                        assert(self.keys@[i as int]@ == q);
                    }
                }
            },
            None => {
                self.keys.push(key);
                self.values.push(value);
                self.contents = Ghost(self.contents@.insert(k, v));
                let ghost n = self.keys@.len() - 1;
                assert forall|q: Seq<char>| #[trigger] self.contents@.contains_key(q) <==> exists|j: int|
                    0 <= j < self.keys@.len() && #[trigger] self.keys@[j]@ == q by {
                    if q == k {
                        assert(self.keys@[n]@ == q);
                    } else if self.contents@.contains_key(q) {
                        let j = choose|j: int| 0 <= j < old(self).keys@.len() && #[trigger] old(self).keys@[j]@ == q;
                        assert(self.keys@[j]@ == q);
                    }
                }
            },
        }
    }
}

impl Database {
    #[verifier::type_invariant]
    spec fn inv(&self) -> bool {
        self.entries.wf()
    }

    /// The stored entries: each key with its value.
    pub closed spec fn view(&self) -> Map<Seq<char>, Value> {
        self.entries.contents@
    }

    /// The name that the store was made with.
    pub closed spec fn name_spec(&self) -> Seq<char> {
        self.name@
    }

    /// An empty store with the given name.
    pub fn new(name: &str) -> (r: Database)
        ensures
            r@ == Map::<Seq<char>, Value>::empty(),
            r.name_spec() == name@,
    {
        Database { name: name.to_owned(), entries: Entries::empty() }
    }

    /// The name that the store was made with.
    pub fn name(&self) -> (r: &str)
        ensures
            r@ == self.name_spec(),
    {
        self.name.as_str()
    }

    /// Stores `value` under `key`, replacing what was there.
    pub fn set(&mut self, key: String, value: Resp)
        ensures
            final(self)@ == old(self)@.insert(key@, value@),
    {
        proof {
            use_type_invariant(&*self);
        }
        let mut entries = Entries::empty();
        std::mem::swap(&mut entries, &mut self.entries);
        entries.insert(key, value);
        std::mem::swap(&mut entries, &mut self.entries);
    }

    /// A copy of the value stored under `key`, if any.
    pub fn get(&self, key: &str) -> (r: Option<Resp>)
        ensures
            match r {
                Some(v) => self@.contains_key(key@) && v@ == self@[key@],
                None => !self@.contains_key(key@),
            },
    {
        proof {
            use_type_invariant(self);
        }
        match self.entries.position(key) {
            Some(i) => Some(self.entries.values[i].clone()),
            None => None,
        }
    }

    /// Carries out a command and gives the reply to it.
    pub fn execute(&mut self, command: Command) -> (r: Resp)
        ensures
            r@ == reply_spec(old(self)@, command@),
            final(self)@ == next_store(old(self)@, command@),
    {
        match command {
            Command::Ping => {
                let pong: Vec<u8> = vec![80u8, 79, 78, 71];
                assert(pong@ == pong_text());
                Resp::SimpleString(pong)
            },
            Command::Echo(v) => v,
            Command::Get(k) => match self.get(k.as_str()) {
                Some(v) => v,
                None => Resp::BulkString(None),
            },
            Command::SetKey(k, v) => {
                self.set(k, v);
                let ok: Vec<u8> = vec![79u8, 75];
                assert(ok@ == ok_text());
                Resp::SimpleString(ok)
            },
        }
    }

    /// Handles one request buffer: decodes it, carries out the command it holds, and says
    /// what the connection driver is to do next.
    pub fn handle_request(&mut self, buffer: &[u8]) -> (r: Step)
        ensures
            (r@, final(self)@) == step_spec(old(self)@, buffer@),
    {
        match parse_message(buffer) {
            Err(e) => {
                if e == DecodeError::NeedMoreData {
                    Step::NeedMore
                } else {
                    Step::Close(e)
                }
            },
            Ok((_, msg)) => match Command::parse(&msg) {
                Err(ce) => {
                    let text = error_bytes(ce);
                    Step::Refused(ce, Resp::Error(text).encode())
                },
                Ok(c) => {
                    let reply = c.respond(self);
                    Step::Reply(reply)
                },
            },
        }
    }
}

/// The text of the error value that answers a refused command.
fn error_bytes(e: CommandError) -> (r: Vec<u8>)
    ensures
        r@ == error_text(e),
{
    let r: Vec<u8> = match e {
        CommandError::UnknownCommand => vec![69u8, 82, 82, 32, 117, 110, 107, 110, 111, 119, 110, 32, 99, 111, 109, 109, 97, 110, 100],
        CommandError::MissingArgument => vec![69u8, 82, 82, 32, 109, 105, 115, 115, 105, 110, 103, 32, 97, 114, 103, 117, 109, 101, 110, 116],
        CommandError::ExtraArgument => vec![69u8, 82, 82, 32, 116, 111, 111, 32, 109, 97, 110, 121, 32, 97, 114, 103, 117, 109, 101, 110, 116, 115],
        CommandError::WrongArgumentType => vec![69u8, 82, 82, 32, 119, 114, 111, 110, 103, 32, 97, 114, 103, 117, 109, 101, 110, 116, 32, 116, 121, 112, 101],
        CommandError::InvalidUtf8 => vec![69u8, 82, 82, 32, 107, 101, 121, 32, 105, 115, 32, 110, 111, 116, 32, 85, 84, 70, 45, 56],
    };
    assert(r@ =~= error_text(e));
    r
}

impl Command {
    /// Carries out this command against `db` and gives the encoded reply.
    pub fn respond(self, db: &mut Database) -> (r: Vec<u8>)
        ensures
            r@ == encode_value(reply_spec(old(db)@, self@)),
            final(db)@ == next_store(old(db)@, self@),
    {
        let reply = db.execute(self);
        reply.encode()
    }
}

} // verus!
