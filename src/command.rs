//! Command resolution (which verb a request names) and execution (what a
//! resolved command does to the store and answers).
use vstd::prelude::*;
use crate::store::{lookup, ok_marker, Store};
use crate::value::{bytes_equal, lemma_model_seq_index, lemma_model_seq_len, RespValue, Val};

verus! {

/// The verbs the server knows.
#[derive(Debug, Clone, Copy, PartialEq, Eq, Structural)]
pub enum Commands {
    PING,
    ECHO,
    SET,
    GET,
}

/// Why a request could not be served.
#[derive(Debug, Clone, Copy, PartialEq, Eq, Structural)]
pub enum CommandError {
    /// Decoding the request failed.
    ParseFailed,
    /// The request has the wrong shape or the wrong number of arguments.
    InvalidRequest,
    /// The verb is not one the server knows.
    UnknownCommand,
}

/// ASCII upper case of one byte; other bytes are unchanged.
pub open spec fn ascii_upper(b: u8) -> u8 {
    if 97u8 <= b <= 122u8 {
        (b - 32) as u8
    } else {
        b
    }
}

pub open spec fn upper(s: Seq<u8>) -> Seq<u8> {
    s.map_values(|b: u8| ascii_upper(b))
}

/// The command a verb names, compared without regard to ASCII case.
pub open spec fn command_named(s: Seq<u8>) -> Option<Commands> {
    let u = upper(s);
    if u == seq![80u8, 73u8, 78u8, 71u8] {
        Some(Commands::PING)
    } else if u == seq![69u8, 67u8, 72u8, 79u8] {
        Some(Commands::ECHO)
    } else if u == seq![83u8, 69u8, 84u8] {
        Some(Commands::SET)
    } else if u == seq![71u8, 69u8, 84u8] {
        Some(Commands::GET)
    } else {
        None
    }
}

/// The command that the verb value `v` names.
pub open spec fn identify(v: Val) -> Result<Commands, CommandError> {
    match v {
        Val::Bulk(Some(name)) => match command_named(name) {
            Some(c) => Ok(c),
            None => Err(CommandError::UnknownCommand),
        },
        _ => Err(CommandError::InvalidRequest),
    }
}

/// The command a request asks for: a request is a non-null, nonempty array
/// whose first item is a non-null bulk string naming the verb.
pub open spec fn resolve(request: Val) -> Result<Commands, CommandError> {
    match request {
        Val::Array(Some(items)) => if items.len() == 0 {
            Err(CommandError::InvalidRequest)
        } else {
            identify(items[0])
        },
        _ => Err(CommandError::InvalidRequest),
    }
}

/// How many arguments after the verb a command takes.
pub open spec fn arity(c: Commands) -> int {
    match c {
        Commands::PING => 0,
        Commands::ECHO => 1,
        Commands::SET => 2,
        Commands::GET => 1,
    }
}

pub open spec fn pong() -> Val {
    Val::Simple(seq![80u8, 79u8, 78u8, 71u8])
}

/// What running command `c` on `request` against the store contents `m` answers,
/// and the store contents afterwards. PING ignores its arguments; the others
/// want exactly their arguments, after the verb.
pub open spec fn execute(c: Commands, request: Val, m: Map<Val, Val>) -> (
    Result<Val, CommandError>,
    Map<Val, Val>,
) {
    match c {
        Commands::PING => (Ok(pong()), m),
        _ => match request {
            Val::Array(Some(items)) => if items.len() != arity(c) + 1 {
                (Err(CommandError::InvalidRequest), m)
            } else {
                match c {
                    Commands::ECHO => (Ok(items[1]), m),
                    Commands::SET => (Ok(ok_marker()), m.insert(items[1], items[2])),
                    _ => (Ok(lookup(m, items[1])), m),
                }
            },
            _ => (Err(CommandError::InvalidRequest), m),
        },
    }
}

impl Commands {
    /// The command that `bytes` names, without regard to ASCII case.
    pub fn from_bytes(bytes: &[u8]) -> (r: Option<Self>)
        ensures
            r == command_named(bytes@),
    {
        let mut up: Vec<u8> = Vec::new();
        let mut i: usize = 0;
        while i < bytes.len()
            invariant
                i <= bytes@.len(),
                up@ == upper(bytes@.subrange(0, i as int)),
            decreases bytes@.len() - i,
        {
            let b = bytes[i];
            let u = if 97u8 <= b && b <= 122u8 {
                b - 32
            } else {
                b
            };
            up.push(u);
            i = i + 1;
            proof {
                assert(up@ =~= upper(bytes@.subrange(0, i as int)));
            }
        }
        proof {
            assert(bytes@.subrange(0, i as int) =~= bytes@);
        }
        let ping: Vec<u8> = vec![80u8, 73u8, 78u8, 71u8];
        let echo: Vec<u8> = vec![69u8, 67u8, 72u8, 79u8];
        let set: Vec<u8> = vec![83u8, 69u8, 84u8];
        let get: Vec<u8> = vec![71u8, 69u8, 84u8];
        proof {
            assert(ping@ =~= seq![80u8, 73u8, 78u8, 71u8]);
            assert(echo@ =~= seq![69u8, 67u8, 72u8, 79u8]);
            assert(set@ =~= seq![83u8, 69u8, 84u8]);
            assert(get@ =~= seq![71u8, 69u8, 84u8]);
        }
        if bytes_equal(up.as_slice(), ping.as_slice()) {
            Some(Commands::PING)
        } else if bytes_equal(up.as_slice(), echo.as_slice()) {
            Some(Commands::ECHO)
        } else if bytes_equal(up.as_slice(), set.as_slice()) {
            Some(Commands::SET)
        } else if bytes_equal(up.as_slice(), get.as_slice()) {
            Some(Commands::GET)
        } else {
            None
        }
    }
}

/// The command that the verb value `input` names.
fn identify_command(input: &RespValue) -> (r: Result<Commands, CommandError>)
    ensures
        r == identify(input@),
{
    match input {
        RespValue::BulkString(Some(bytes)) => match Commands::from_bytes(bytes.as_slice()) {
            Some(v) => Ok(v),
            None => Err(CommandError::UnknownCommand),
        },
        _ => Err(CommandError::InvalidRequest),
    }
}

/// The command that a decoded request asks for.
pub fn get_command(parsed_input: &RespValue) -> (r: Result<Commands, CommandError>)
    ensures
        r == resolve(parsed_input@),
{
    match parsed_input {
        RespValue::Arrays(Some(v)) => {
            proof {
                lemma_model_seq_len(v@);
            }
            if v.len() == 0 {
                Err(CommandError::InvalidRequest)
            } else {
                proof {
                    lemma_model_seq_index(v@, 0);
                }
                identify_command(&v[0])
            }
        },
        _ => Err(CommandError::InvalidRequest),
    }
}

fn handle_echo(parsed_data: &RespValue) -> (r: Result<RespValue, CommandError>)
    ensures
        r matches Ok(v) && v@ == parsed_data@,
{
    Ok(parsed_data.duplicate())
}

/// SET with `args`, the request's items after the verb.
fn handle_set(args: &[RespValue], store: &mut Store) -> (r: Result<RespValue, CommandError>)
    requires
        old(store).wf(),
    ensures
        final(store).wf(),
        args@.len() != 2 ==> r == Result::<RespValue, CommandError>::Err(CommandError::InvalidRequest)
            && final(store)@ == old(store)@,
        args@.len() == 2 ==> (r matches Ok(v) && v@ == ok_marker() && final(store)@ == old(
            store,
        )@.insert(args@[0]@, args@[1]@)),
{
    if args.len() != 2 {
        return Err(CommandError::InvalidRequest);
    }
    let key = &args[0];
    let value = &args[1];
    match store.set(key, value) {
        Ok(n) => Ok(n),
        Err(_) => Err(CommandError::InvalidRequest),
    }
}

/// GET with `args`, the request's items after the verb.
fn handle_get(args: &[RespValue], store: &Store) -> (r: Result<RespValue, CommandError>)
    requires
        store.wf(),
    ensures
        args@.len() != 1 ==> r == Result::<RespValue, CommandError>::Err(CommandError::InvalidRequest),
        args@.len() == 1 ==> (r matches Ok(v) && v@ == lookup(store@, args@[0]@)),
{
    if args.len() != 1 {
        return Err(CommandError::InvalidRequest);
    }
    let key = &args[0];
    match store.get(key) {
        Ok(n) => Ok(n),
        Err(_) => Err(CommandError::InvalidRequest),
    }
}

/// Runs `command` on the decoded request `parsed_data` against `store`.
pub fn execute_command(command: Commands, parsed_data: &RespValue, store: &mut Store) -> (r: Result<
    RespValue,
    CommandError,
>)
    requires
        old(store).wf(),
    ensures
        final(store).wf(),
        final(store)@ == execute(command, parsed_data@, old(store)@).1,
        match execute(command, parsed_data@, old(store)@).0 {
            Ok(v) => r matches Ok(w) && w@ == v,
            Err(e) => r == Result::<RespValue, CommandError>::Err(e),
        },
{
    match command {
        Commands::PING => {
            let r = Ok(RespValue::SimpleString(vec![80u8, 79u8, 78u8, 71u8]));
            proof {
                assert(r->Ok_0@ == pong()) by {
                    assert(r->Ok_0->SimpleString_0@ =~= seq![80u8, 79u8, 78u8, 71u8]);
                }
            }
            r
        },
        Commands::ECHO => match parsed_data {
            RespValue::Arrays(Some(v)) => {
                proof {
                    lemma_model_seq_len(v@);
                }
                if v.len() != 2 {
                    return Err(CommandError::InvalidRequest);
                }
                proof {
                    lemma_model_seq_index(v@, 1);
                }
                handle_echo(&v[1])
            },
            _ => Err(CommandError::InvalidRequest),
        },
        Commands::SET => match parsed_data {
            RespValue::Arrays(Some(v)) => {
                proof {
                    lemma_model_seq_len(v@);
                }
                if v.len() == 0 {
                    return Err(CommandError::InvalidRequest);
                }
                let args = &v.as_slice()[1..v.len()];
                proof {
                    if v@.len() == 3 {
                        lemma_model_seq_index(v@, 1);
                        lemma_model_seq_index(v@, 2);
                    }
                }
                handle_set(args, store)
            },
            _ => Err(CommandError::InvalidRequest),
        },
        Commands::GET => match parsed_data {
            RespValue::Arrays(Some(v)) => {
                proof {
                    lemma_model_seq_len(v@);
                }
                if v.len() == 0 {
                    return Err(CommandError::InvalidRequest);
                }
                let args = &v.as_slice()[1..v.len()];
                proof {
                    if v@.len() == 2 {
                        lemma_model_seq_index(v@, 1);
                    }
                }
                handle_get(args, store)
            },
            _ => Err(CommandError::InvalidRequest),
        },
    }
}

/// ECHO, SET and GET answer `InvalidRequest`, and leave the store as it was,
/// unless the request carries exactly their arguments: fewer are refused, and so
/// are extra trailing ones.
pub proof fn lemma_arity_enforced(c: Commands, items: Seq<Val>, m: Map<Val, Val>)
    requires
        c != Commands::PING,
        items.len() != arity(c) + 1,
    ensures
        execute(c, Val::Array(Some(items)), m) == (
            Err::<Val, CommandError>(CommandError::InvalidRequest),
            m,
        ),
{
}

/// Last write wins: after SET of a key to `v1` and then to `v2`, GET of that key
/// answers `v2`.
pub proof fn lemma_last_write_wins(
    m: Map<Val, Val>,
    set_verb: Val,
    get_verb: Val,
    key: Val,
    v1: Val,
    v2: Val,
)
    ensures
        ({
            let m1 = execute(Commands::SET, Val::Array(Some(seq![set_verb, key, v1])), m).1;
            let m2 = execute(Commands::SET, Val::Array(Some(seq![set_verb, key, v2])), m1).1;
            execute(Commands::GET, Val::Array(Some(seq![get_verb, key])), m2).0 == Ok::<
                Val,
                CommandError,
            >(v2)
        }),
{
}

/// GET of a key that was never written answers the null bulk string, not an
/// error, and leaves the store as it was.
pub proof fn lemma_unwritten_key_reads_null(m: Map<Val, Val>, get_verb: Val, key: Val)
    requires
        !m.contains_key(key),
    ensures
        execute(Commands::GET, Val::Array(Some(seq![get_verb, key])), m) == (
            Ok::<Val, CommandError>(Val::Bulk(None)),
            m,
        ),
{
}

} // verus!
