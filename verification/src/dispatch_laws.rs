//! What holds of every request: arity, unknown names, and requests that
//! leave one another's keys alone.

use vstd::prelude::*;
use crate::command::{arity_message, del_keys, spec_handle, spec_match_cmd, CommandFault};
use crate::resp::Value;

verus! {

/// The request that names the command `name` and gives it `args`.
pub open spec fn request(name: Seq<char>, args: Seq<Value>) -> Value {
    Value::Array(seq![Value::BString(name)] + args)
}

/// `PING` and the names of the registry differ from one another.
proof fn lemma_names_differ()
    ensures
        "SET"@ != "PING"@,
        "GET"@ != "PING"@,
        "DEL"@ != "PING"@,
        "GET"@ != "SET"@,
        "DEL"@ != "SET"@,
        "DEL"@ != "GET"@,
{
    reveal_strlit("PING");
    reveal_strlit("SET");
    reveal_strlit("GET");
    reveal_strlit("DEL");
    assert("SET"@[0] == 'S');
    assert("GET"@[0] == 'G');
    assert("DEL"@[0] == 'D');
}

/// A request is an array of its name and its arguments.
proof fn lemma_request_parts(name: Seq<char>, args: Seq<Value>)
    ensures
        request(name, args)->Array_0.len() == args.len() + 1,
        request(name, args)->Array_0[0] == Value::BString(name),
        request(name, args)->Array_0.skip(1) == args,
{
    assert((seq![Value::BString(name)] + args).skip(1) =~= args);
}

/// `PING` is answered `PONG`, whatever its arguments, and leaves the store
/// as it is.
pub proof fn lemma_ping(args: Seq<Value>, store: Map<Seq<char>, Seq<char>>)
    ensures
        spec_handle(request("PING"@, args), store) == (
            Ok::<Value, CommandFault>(Value::String("PONG"@)),
            store,
        ),
{
    lemma_request_parts("PING"@, args);
}

/// `SET` with other than two arguments is refused for their number, and
/// leaves the store as it is.
pub proof fn lemma_set_arity(args: Seq<Value>, store: Map<Seq<char>, Seq<char>>)
    requires
        args.len() != 2,
    ensures
        spec_handle(request("SET"@, args), store) == (
            Err::<Value, CommandFault>(CommandFault::InvalidArgs(arity_message(2, args.len()))),
            store,
        ),
{
    lemma_names_differ();
    lemma_request_parts("SET"@, args);
}

/// `GET` with other than one argument is refused for their number, and
/// leaves the store as it is.
pub proof fn lemma_get_arity(args: Seq<Value>, store: Map<Seq<char>, Seq<char>>)
    requires
        args.len() != 1,
    ensures
        spec_handle(request("GET"@, args), store) == (
            Err::<Value, CommandFault>(CommandFault::InvalidArgs(arity_message(1, args.len()))),
            store,
        ),
{
    lemma_names_differ();
    lemma_request_parts("GET"@, args);
}

/// `DEL` without arguments is refused for their number and leaves the
/// store as it is; with one argument or more it succeeds.
pub proof fn lemma_del_arity(args: Seq<Value>, store: Map<Seq<char>, Seq<char>>)
    ensures
        args.len() == 0 ==> spec_handle(request("DEL"@, args), store) == (
            Err::<Value, CommandFault>(CommandFault::InvalidArgs(arity_message(1, 0))),
            store,
        ),
        args.len() >= 1 ==> spec_handle(request("DEL"@, args), store).0 is Ok,
{
    lemma_names_differ();
    lemma_request_parts("DEL"@, args);
}

/// A request that names a command which is neither `PING` nor in the
/// registry is refused with that name, and leaves the store as it is.
pub proof fn lemma_unknown_command(
    name: Seq<char>,
    args: Seq<Value>,
    store: Map<Seq<char>, Seq<char>>,
)
    requires
        name != "PING"@,
        spec_match_cmd(name) is None,
    ensures
        spec_handle(request(name, args), store) == (
            Err::<Value, CommandFault>(CommandFault::UnknownCommand(name)),
            store,
        ),
{
    lemma_request_parts(name, args);
}

/// No request that fails changes the store.
pub proof fn lemma_failure_keeps_store(req: Value, store: Map<Seq<char>, Seq<char>>)
    requires
        spec_handle(req, store).0 is Err,
    ensures
        spec_handle(req, store).1 == store,
{
}

/// Whether a request names `k` among its arguments.
pub open spec fn names_key(req: Value, k: Seq<char>) -> bool {
    match req {
        Value::Array(parts) => exists|i: int|
            1 <= i < parts.len() && #[trigger] parts[i] == Value::BString(k),
        _ => false,
    }
}

/// Whether two stores hold the same for `k`.
pub open spec fn same_at(
    a: Map<Seq<char>, Seq<char>>,
    b: Map<Seq<char>, Seq<char>>,
    k: Seq<char>,
) -> bool {
    a.contains_key(k) == b.contains_key(k) && (a.contains_key(k) ==> a[k] == b[k])
}

/// The store behind a run of requests, carried out one after the other.
pub open spec fn run(reqs: Seq<Value>, store: Map<Seq<char>, Seq<char>>) -> Map<
    Seq<char>,
    Seq<char>,
>
    decreases reqs.len(),
{
    if reqs.len() == 0 {
        store
    } else {
        spec_handle(reqs.last(), run(reqs.drop_last(), store)).1
    }
}

/// A request that does not name `k` leaves what the store holds for `k` as
/// it is.
pub proof fn lemma_untouched(req: Value, store: Map<Seq<char>, Seq<char>>, k: Seq<char>)
    requires
        !names_key(req, k),
    ensures
        same_at(spec_handle(req, store).1, store, k),
{
    match req {
        Value::Array(parts) => {
            if parts.len() > 0 {
                let args = parts.skip(1);
                if parts.len() >= 2 {
                    assert(parts[1] != Value::BString(k));
                    assert(args[0] == parts[1]);
                }
                if del_keys(args).contains(k) {
                    let i = choose|i: int|
                        0 <= i < args.len() && #[trigger] args[i] == Value::BString(k);
                    assert(parts[i + 1] == Value::BString(k));
                }
            }
        },
        _ => {},
    }
}

/// A run of requests none of which names `k` leaves what the store holds
/// for `k` as it is, in whatever order they come.
pub proof fn lemma_run_untouched(reqs: Seq<Value>, store: Map<Seq<char>, Seq<char>>, k: Seq<char>)
    requires
        forall|i: int| 0 <= i < reqs.len() ==> !names_key(#[trigger] reqs[i], k),
    ensures
        same_at(run(reqs, store), store, k),
    decreases reqs.len(),
{
    if reqs.len() > 0 {
        let front = reqs.drop_last();
        assert forall|i: int| 0 <= i < front.len() implies !names_key(#[trigger] front[i], k) by {
            assert(front[i] == reqs[i]);
        }
        lemma_run_untouched(front, store, k);
        lemma_untouched(reqs.last(), run(front, store), k);
    }
}

/// A client reads back what it wrote: after `SET k v`, and then any run of
/// requests of others that do not name `k`, `GET k` replies `v`.
pub proof fn lemma_own_write_read_back(
    k: Seq<char>,
    v: Seq<char>,
    others: Seq<Value>,
    store: Map<Seq<char>, Seq<char>>,
)
    requires
        forall|i: int| 0 <= i < others.len() ==> !names_key(#[trigger] others[i], k),
    ensures
        spec_handle(
            request("GET"@, seq![Value::BString(k)]),
            run(
                others,
                spec_handle(request("SET"@, seq![Value::BString(k), Value::BString(v)]), store).1,
            ),
        ).0 == Ok::<Value, CommandFault>(Value::BString(v)),
{
    lemma_names_differ();
    let set_args = seq![Value::BString(k), Value::BString(v)];
    let get_args = seq![Value::BString(k)];
    lemma_request_parts("SET"@, set_args);
    lemma_request_parts("GET"@, get_args);
    let written = spec_handle(request("SET"@, set_args), store).1;
    assert(written == store.insert(k, v));
    lemma_run_untouched(others, written, k);
}

/// A client that deleted its key finds it absent: after `DEL k`, and then
/// any run of requests of others that do not name `k`, `GET k` replies
/// null.
pub proof fn lemma_own_delete_read_back(
    k: Seq<char>,
    others: Seq<Value>,
    store: Map<Seq<char>, Seq<char>>,
)
    requires
        forall|i: int| 0 <= i < others.len() ==> !names_key(#[trigger] others[i], k),
    ensures
        spec_handle(
            request("GET"@, seq![Value::BString(k)]),
            run(others, spec_handle(request("DEL"@, seq![Value::BString(k)]), store).1),
        ).0 == Ok::<Value, CommandFault>(Value::Null),
{
    lemma_names_differ();
    let args = seq![Value::BString(k)];
    lemma_request_parts("DEL"@, args);
    lemma_request_parts("GET"@, args);
    let deleted = spec_handle(request("DEL"@, args), store).1;
    assert(del_keys(args).contains(k)) by {
        assert(args[0] == Value::BString(k));
    }
    assert(!deleted.contains_key(k));
    lemma_run_untouched(others, deleted, k);
}

} // verus!
