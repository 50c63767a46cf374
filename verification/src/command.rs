//! The commands and their dispatch.

use vstd::prelude::*;
use vstd::slice::slice_subrange;
use vstd::string::*;
use crate::decimal::{decimal_string, decimal_text};
use crate::resp::{lemma_views, views, RespType, Value};
use crate::storage::Storage;
use crate::text::same_text;

verus! {

/// Why a request was not carried out.
#[derive(Debug)]
pub enum CommandErr {
    /// The request has the wrong shape, the wrong number of arguments, or
    /// an argument of the wrong kind. Holds the reason.
    InvalidArgs(String),
    /// No command has the name that the request gives. Holds that name.
    UnknownCommand(String),
}

/// A `CommandErr` with its text as characters.
pub enum CommandFault {
    InvalidArgs(Seq<char>),
    UnknownCommand(Seq<char>),
}

impl View for CommandErr {
    type V = CommandFault;

    open spec fn view(&self) -> CommandFault {
        match self {
            CommandErr::InvalidArgs(msg) => CommandFault::InvalidArgs(msg@),
            CommandErr::UnknownCommand(name) => CommandFault::UnknownCommand(name@),
        }
    }
}

/// The line that describes a fault.
pub open spec fn fault_message(f: CommandFault) -> Seq<char> {
    match f {
        CommandFault::InvalidArgs(msg) => "Invalid arguments: "@ + msg,
        CommandFault::UnknownCommand(name) => "Unknown command: "@ + name,
    }
}

impl CommandErr {
    /// The line that describes this error.
    pub fn message(&self) -> (r: String)
        ensures
            r@ == fault_message(self@),
    {
        match self {
            CommandErr::InvalidArgs(msg) => {
                let mut line = "Invalid arguments: ".to_owned();
                line.append(msg.as_str());
                line
            },
            CommandErr::UnknownCommand(name) => {
                let mut line = "Unknown command: ".to_owned();
                line.append(name.as_str());
                line
            },
        }
    }
}

/// A reply or an error, with each taken by its view.
pub open spec fn reply_view(r: Result<RespType, CommandErr>) -> Result<Value, CommandFault> {
    match r {
        Ok(v) => Ok(v@),
        Err(e) => Err(e@),
    }
}

/// What a command comes to: its reply or error, and the store behind it.
pub type Outcome = (Result<Value, CommandFault>, Map<Seq<char>, Seq<char>>);

/// The reply `OK`.
pub open spec fn ok_reply() -> Value {
    Value::String("OK"@)
}

/// What `SET` does with its arguments: it sets the value of the key, where
/// both are bulk strings.
pub open spec fn set_outcome(args: Seq<Value>, store: Map<Seq<char>, Seq<char>>) -> Outcome
    recommends
        args.len() >= 2,
{
    match (args[0], args[1]) {
        (Value::BString(k), Value::BString(v)) => (Ok(ok_reply()), store.insert(k, v)),
        (Value::BString(_), _) => (
            Err(CommandFault::InvalidArgs("wrong value format"@)),
            store,
        ),
        _ => (Err(CommandFault::InvalidArgs("wrong key format"@)), store),
    }
}

/// What `GET` does with its arguments: it replies the value of the key, or
/// null where the key has none.
pub open spec fn get_outcome(args: Seq<Value>, store: Map<Seq<char>, Seq<char>>) -> Outcome
    recommends
        args.len() >= 1,
{
    match args[0] {
        Value::BString(k) => if store.contains_key(k) {
            (Ok(Value::BString(store[k])), store)
        } else {
            (Ok(Value::Null), store)
        },
        _ => (Err(CommandFault::InvalidArgs("wrong key format"@)), store),
    }
}

/// The keys that the arguments of `DEL` name: each argument that is a bulk
/// string.
pub open spec fn del_keys(args: Seq<Value>) -> Set<Seq<char>> {
    Set::new(
        |k: Seq<char>|
            exists|i: int| 0 <= i < args.len() && #[trigger] args[i] == Value::BString(k),
    )
}

/// A count as the integer of a reply: the count itself, and the largest
/// integer where the count is above it.
pub open spec fn count_reply(n: nat) -> i64 {
    if n > i64::MAX {
        i64::MAX
    } else {
        n as i64
    }
}

/// What `DEL` does with its arguments: it takes the named keys out and
/// replies how many of them had a value.
pub open spec fn del_outcome(args: Seq<Value>, store: Map<Seq<char>, Seq<char>>) -> Outcome {
    (
        Ok(Value::Int(count_reply(store.dom().intersect(del_keys(args)).len()))),
        store.remove_keys(del_keys(args)),
    )
}

/// What `COMMAND` does: it replies `OK`.
pub open spec fn command_outcome(store: Map<Seq<char>, Seq<char>>) -> Outcome {
    (Ok(ok_reply()), store)
}

/// The command `SET key value`.
#[derive(Debug, PartialEq, Eq, Clone, Copy, Structural)]
pub struct SetCmd {}

/// The command `GET key`.
#[derive(Debug, PartialEq, Eq, Clone, Copy, Structural)]
pub struct Get {}

/// The command `DEL key [key ...]`.
#[derive(Debug, PartialEq, Eq, Clone, Copy, Structural)]
pub struct Del {}

/// The command `COMMAND`, which clients send to ask what the server knows.
#[derive(Debug, PartialEq, Eq, Clone, Copy, Structural)]
pub struct CommandCmd {}

impl CommandCmd {
    /// The command.
    pub fn new() -> (r: Self) {
        CommandCmd {  }
    }

    /// Replies `OK`; the store is not changed.
    pub fn execute(&self, parts: &[RespType], storage: &mut Storage) -> (r: Result<
        RespType,
        CommandErr,
    >)
        ensures
            (reply_view(r), final(storage)@) == command_outcome(old(storage)@),
    {
        Ok(RespType::String("OK".to_owned()))
    }

    /// Any number of arguments will do.
    pub fn validate_args(&self, parts: &[RespType]) -> (r: (bool, u8))
        ensures
            r == (true, 0u8),
    {
        (true, 0)
    }
}

impl SetCmd {
    /// The command.
    pub fn new() -> (r: Self) {
        SetCmd {  }
    }

    /// Sets the value of the key `parts[0]` to `parts[1]` and replies `OK`.
    /// Where one of them is no bulk string, the store is left as it is.
    pub fn execute(&self, parts: &[RespType], storage: &mut Storage) -> (r: Result<
        RespType,
        CommandErr,
    >)
        requires
            parts@.len() >= 2,
        ensures
            (reply_view(r), final(storage)@) == set_outcome(views(parts@), old(storage)@),
    {
        proof {
            lemma_views(parts@);
        }
        match &parts[0] {
            RespType::BString(k) => match &parts[1] {
                RespType::BString(v) => {
                    storage.set(k.as_str(), v.as_str());
                    Ok(RespType::String("OK".to_owned()))
                },
                _ => Err(CommandErr::InvalidArgs("wrong value format".to_owned())),
            },
            _ => Err(CommandErr::InvalidArgs("wrong key format".to_owned())),
        }
    }

    /// Two arguments are expected.
    pub fn validate_args(&self, parts: &[RespType]) -> (r: (bool, u8))
        ensures
            r == (parts@.len() == 2, 2u8),
    {
        (parts.len() == 2, 2)
    }
}

impl Get {
    /// The command.
    pub fn new() -> (r: Self) {
        Get {  }
    }

    /// Replies the value of the key `parts[0]`, or null where it has none.
    /// The store is not changed.
    pub fn execute(&self, parts: &[RespType], storage: &mut Storage) -> (r: Result<
        RespType,
        CommandErr,
    >)
        requires
            parts@.len() >= 1,
        ensures
            (reply_view(r), final(storage)@) == get_outcome(views(parts@), old(storage)@),
    {
        proof {
            lemma_views(parts@);
        }
        match &parts[0] {
            RespType::BString(k) => match storage.get(k.as_str()) {
                Some(v) => Ok(RespType::BString(v.clone())),
                None => Ok(RespType::Null),
            },
            _ => Err(CommandErr::InvalidArgs("wrong key format".to_owned())),
        }
    }

    /// One argument is expected.
    pub fn validate_args(&self, parts: &[RespType]) -> (r: (bool, u8))
        ensures
            r == (parts@.len() == 1, 1u8),
    {
        (parts.len() == 1, 1)
    }
}

impl Del {
    /// The command.
    pub fn new() -> (r: Self) {
        Del {  }
    }

    /// Takes every key that `parts` names out of the store and replies how
    /// many of them had a value. An argument that is no bulk string is
    /// passed over.
    pub fn execute(&self, parts: &[RespType], storage: &mut Storage) -> (r: Result<
        RespType,
        CommandErr,
    >)
        ensures
            (reply_view(r), final(storage)@) == del_outcome(views(parts@), old(storage)@),
    {
        let ghost args = views(parts@);
        let ghost start = storage@;
        proof {
            lemma_views(parts@);
            storage.lemma_finite();
        }
        let mut c: u64 = 0;
        let mut i: usize = 0;
        assert(del_keys(args.take(0)) =~= Set::<Seq<char>>::empty());
        assert(start.remove_keys(del_keys(args.take(0))) =~= start);
        assert(start.dom().intersect(del_keys(args.take(0))) =~= Set::<Seq<char>>::empty());
        while i < parts.len()
            invariant
                0 <= i <= parts@.len(),
                args == views(parts@),
                args.len() == parts@.len(),
                forall|j: int| 0 <= j < args.len() ==> #[trigger] args[j] == parts@[j]@,
                start.dom().finite(),
                storage@ == start.remove_keys(del_keys(args.take(i as int))),
                c == start.dom().intersect(del_keys(args.take(i as int))).len(),
                c <= i,
            decreases parts@.len() - i,
        {
            let ghost seen = del_keys(args.take(i as int));
            let ghost next = del_keys(args.take(i + 1));
            match &parts[i] {
                RespType::BString(k) => {
                    assert(args[i as int] == Value::BString(k@));
                    assert(next =~= seen.insert(k@)) by {
                        assert forall|x: Seq<char>| next.contains(x) implies seen.insert(
                            k@,
                        ).contains(x) by {
                            let j = choose|j: int|
                                0 <= j < args.take(i + 1).len() && #[trigger] args.take(i + 1)[j]
                                    == Value::BString(x);
                            if j < i {
                                assert(args.take(i as int)[j] == Value::BString(x));
                            }
                        }
                        assert forall|x: Seq<char>| seen.insert(k@).contains(x) implies next.contains(
                            x,
                        ) by {
                            if x == k@ {
                                assert(args.take(i + 1)[i as int] == Value::BString(x));
                            } else {
                                let j = choose|j: int|
                                    0 <= j < args.take(i as int).len() && #[trigger] args.take(
                                        i as int,
                                    )[j] == Value::BString(x);
                                assert(args.take(i + 1)[j] == Value::BString(x));
                            }
                        }
                    }
                    let deleted = storage.del(k.as_str());
                    assert(storage@ =~= start.remove_keys(next));
                    if deleted {
                        assert(start.dom().intersect(next) =~= start.dom().intersect(seen).insert(
                            k@,
                        ));
                        c += 1;
                    } else {
                        assert(start.dom().intersect(next) =~= start.dom().intersect(seen));
                    }
                },
                _ => {
                    assert(next =~= seen) by {
                        assert forall|x: Seq<char>| next.contains(x) implies seen.contains(x) by {
                            let j = choose|j: int|
                                0 <= j < args.take(i + 1).len() && #[trigger] args.take(i + 1)[j]
                                    == Value::BString(x);
                            assert(j < i);
                            assert(args.take(i as int)[j] == Value::BString(x));
                        }
                        assert forall|x: Seq<char>| seen.contains(x) implies next.contains(x) by {
                            let j = choose|j: int|
                                0 <= j < args.take(i as int).len() && #[trigger] args.take(
                                    i as int,
                                )[j] == Value::BString(x);
                            assert(args.take(i + 1)[j] == Value::BString(x));
                        }
                    }
                },
            }
            i += 1;
        }
        assert(args.take(i as int) =~= args);
        let count: i64 = if c > 0x7fff_ffff_ffff_ffffu64 {
            i64::MAX
        } else {
            c as i64
        };
        Ok(RespType::Int(count))
    }

    /// One argument or more is expected.
    pub fn validate_args(&self, parts: &[RespType]) -> (r: (bool, u8))
        ensures
            r == (parts@.len() >= 1, 1u8),
    {
        (parts.len() >= 1, 1)
    }
}

/// A command of the registry.
#[derive(Debug, PartialEq, Eq, Clone, Copy, Structural)]
pub enum Command {
    SetCmd(SetCmd),
    Get(Get),
    Del(Del),
    CommandCmd(CommandCmd),
}

impl Command {
    /// Whether the command takes `n` arguments.
    pub open spec fn takes(&self, n: nat) -> bool {
        match self {
            Command::SetCmd(_) => n == 2,
            Command::Get(_) => n == 1,
            Command::Del(_) => n >= 1,
            Command::CommandCmd(_) => true,
        }
    }

    /// The number of arguments that the command names where it refuses a
    /// request for their number.
    pub open spec fn expects(&self) -> u8 {
        match self {
            Command::SetCmd(_) => 2,
            Command::Get(_) => 1,
            Command::Del(_) => 1,
            Command::CommandCmd(_) => 0,
        }
    }

    /// What the command does with its arguments.
    pub open spec fn outcome(&self, args: Seq<Value>, store: Map<Seq<char>, Seq<char>>) -> Outcome {
        match self {
            Command::SetCmd(_) => set_outcome(args, store),
            Command::Get(_) => get_outcome(args, store),
            Command::Del(_) => del_outcome(args, store),
            Command::CommandCmd(_) => command_outcome(store),
        }
    }

    /// Whether the command takes as many arguments as `parts` holds, and the
    /// number that it names where it does not.
    pub fn validate_args(&self, parts: &[RespType]) -> (r: (bool, u8))
        ensures
            r == (self.takes(parts@.len()), self.expects()),
    {
        match self {
            Command::SetCmd(c) => c.validate_args(parts),
            Command::Get(c) => c.validate_args(parts),
            Command::Del(c) => c.validate_args(parts),
            Command::CommandCmd(c) => c.validate_args(parts),
        }
    }

    /// Carries the command out on `storage`.
    pub fn execute(&self, parts: &[RespType], storage: &mut Storage) -> (r: Result<
        RespType,
        CommandErr,
    >)
        requires
            self.takes(parts@.len()),
        ensures
            (reply_view(r), final(storage)@) == self.outcome(views(parts@), old(storage)@),
    {
        match self {
            Command::SetCmd(c) => c.execute(parts, storage),
            Command::Get(c) => c.execute(parts, storage),
            Command::Del(c) => c.execute(parts, storage),
            Command::CommandCmd(c) => c.execute(parts, storage),
        }
    }
}

/// The command of the registry that has the name `name`, letter for letter.
pub open spec fn spec_match_cmd(name: Seq<char>) -> Option<Command> {
    if name == "SET"@ {
        Some(Command::SetCmd(SetCmd {  }))
    } else if name == "GET"@ {
        Some(Command::Get(Get {  }))
    } else if name == "DEL"@ {
        Some(Command::Del(Del {  }))
    } else if name == "COMMAND"@ {
        Some(Command::CommandCmd(CommandCmd {  }))
    } else {
        None
    }
}

/// The reason given where a command is sent the wrong number of arguments.
pub open spec fn arity_message(expected: u8, got: nat) -> Seq<char> {
    "Expected "@ + decimal_text(expected as nat) + ". Got "@ + decimal_text(got)
}

/// What a request comes to on a store.
///
/// A request is an array whose first item is a bulk string, the name of
/// the command; the items behind it are the arguments. `PING` is answered
/// before the registry is asked, whatever its arguments. A name that the
/// registry lacks, a number of arguments that the command does not take
/// and every other shape are errors, and leave the store as it is.
pub open spec fn spec_handle(req: Value, store: Map<Seq<char>, Seq<char>>) -> Outcome {
    match req {
        Value::Array(parts) => if parts.len() == 0 {
            (Err(CommandFault::InvalidArgs("No command provided"@)), store)
        } else {
            match parts[0] {
                Value::BString(name) => if name == "PING"@ {
                    (Ok(Value::String("PONG"@)), store)
                } else {
                    match spec_match_cmd(name) {
                        None => (Err(CommandFault::UnknownCommand(name)), store),
                        Some(cmd) => if cmd.takes((parts.len() - 1) as nat) {
                            cmd.outcome(parts.skip(1), store)
                        } else {
                            (
                                Err(
                                    CommandFault::InvalidArgs(
                                        arity_message(cmd.expects(), (parts.len() - 1) as nat),
                                    ),
                                ),
                                store,
                            )
                        },
                    }
                },
                _ => (Err(CommandFault::InvalidArgs("Invalid command"@)), store),
            }
        },
        _ => (Err(CommandFault::InvalidArgs("No command provided"@)), store),
    }
}

/// The dispatcher: it owns the store and carries requests out on it.
pub struct CommandHandler {
    storage: Storage,
}

impl View for CommandHandler {
    type V = Map<Seq<char>, Seq<char>>;

    closed spec fn view(&self) -> Map<Seq<char>, Seq<char>> {
        self.storage@
    }
}

impl CommandHandler {
    /// A dispatcher for `storage`.
    pub fn new(storage: Storage) -> (r: Self)
        ensures
            r@ == storage@,
    {
        CommandHandler { storage }
    }

    /// The store.
    pub fn storage(&self) -> (r: &Storage)
        ensures
            r@ == self@,
    {
        &self.storage
    }

    /// Gives the store back.
    pub fn into_storage(self) -> (r: Storage)
        ensures
            r@ == self@,
    {
        self.storage
    }

    /// The store holds finitely many keys.
    pub proof fn lemma_finite(&self)
        ensures
            self@.dom().finite(),
    {
        self.storage.lemma_finite();
    }

    /// The command of the registry that has the name `cmd_name`, letter for
    /// letter.
    pub fn match_cmd(cmd_name: &str) -> (r: Option<Command>)
        ensures
            r == spec_match_cmd(cmd_name@),
    {
        if same_text(cmd_name, "SET") {
            Some(Command::SetCmd(SetCmd::new()))
        } else if same_text(cmd_name, "GET") {
            Some(Command::Get(Get::new()))
        } else if same_text(cmd_name, "DEL") {
            Some(Command::Del(Del::new()))
        } else if same_text(cmd_name, "COMMAND") {
            Some(Command::CommandCmd(CommandCmd::new()))
        } else {
            None
        }
    }

    /// Carries the request `d` out on the store and returns the reply.
    pub fn handle_cmd(&mut self, d: RespType) -> (r: Result<RespType, CommandErr>)
        ensures
            (reply_view(r), final(self)@) == spec_handle(d@, old(self)@),
    {
        let parts: Vec<RespType> = match d {
            RespType::Array(parts) => parts,
            _ => {
                return Err(CommandErr::InvalidArgs("No command provided".to_owned()));
            },
        };
        proof {
            lemma_views(parts@);
        }
        if parts.len() == 0 {
            return Err(CommandErr::InvalidArgs("No command provided".to_owned()));
        }
        let cmd_name: &String = match &parts[0] {
            RespType::BString(name) => name,
            _ => {
                return Err(CommandErr::InvalidArgs("Invalid command".to_owned()));
            },
        };
        if same_text(cmd_name.as_str(), "PING") {
            return Ok(RespType::String("PONG".to_owned()));
        }
        let cmd = match Self::match_cmd(cmd_name.as_str()) {
            Some(cmd) => cmd,
            None => {
                return Err(CommandErr::UnknownCommand(cmd_name.clone()));
            },
        };
        let args: &[RespType] = slice_subrange(parts.as_slice(), 1, parts.len());
        proof {
            lemma_views(args@);
            assert(views(args@) =~= views(parts@).skip(1));
        }
        let (valid_args_num, expected) = cmd.validate_args(args);
        if valid_args_num {
            cmd.execute(args, &mut self.storage)
        } else {
            let mut msg = "Expected ".to_owned();
            msg.append(decimal_string(expected as u64).as_str());
            msg.append(". Got ");
            msg.append(decimal_string(args.len() as u64).as_str());
            Err(CommandErr::InvalidArgs(msg))
        }
    }
}

} // verus!
