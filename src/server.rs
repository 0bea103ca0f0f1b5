//! One request-response cycle of a connection: decode a request, resolve and run
//! its command against the store, and encode the answer or the error reply.
use vstd::prelude::*;
use crate::command::{execute, execute_command, get_command, resolve, CommandError};
use crate::parser::parse_dispatcher;
use crate::serializer::serializer;
use crate::store::Store;
use crate::value::{ParseError, RespValue, Val};
use crate::wire::{decode, encode};

verus! {

/// Why a request-response cycle or the server's start failed.
#[derive(Debug, Clone, Copy, PartialEq, Eq, Structural)]
pub enum ServerError {
    Command(CommandError),
    Parse(ParseError),
    PoolCreationError,
}

impl From<CommandError> for ServerError {
    fn from(e: CommandError) -> (r: ServerError) {
        ServerError::Command(e)
    }
}

impl vstd::std_specs::convert::FromSpecImpl<CommandError> for ServerError {
    open spec fn obeys_from_spec() -> bool {
        true
    }

    open spec fn from_spec(e: CommandError) -> ServerError {
        ServerError::Command(e)
    }
}

impl From<ParseError> for ServerError {
    fn from(e: ParseError) -> (r: ServerError) {
        ServerError::Parse(e)
    }
}

impl vstd::std_specs::convert::FromSpecImpl<ParseError> for ServerError {
    open spec fn obeys_from_spec() -> bool {
        true
    }

    open spec fn from_spec(e: ParseError) -> ServerError {
        ServerError::Parse(e)
    }
}

/// What serving the request bytes `data` answers against the store contents `m`,
/// and the store contents afterwards. Only the first value in `data` is served.
pub open spec fn serve(data: Seq<u8>, m: Map<Val, Val>) -> (Result<Seq<u8>, ServerError>, Map<Val, Val>) {
    match decode(data) {
        Err(e) => (Err(ServerError::Parse(e)), m),
        Ok((request, _)) => match resolve(request) {
            Err(e) => (Err(ServerError::Command(e)), m),
            Ok(c) => {
                let (r, m2) = execute(c, request, m);
                match r {
                    Err(e) => (Err(ServerError::Command(e)), m2),
                    Ok(answer) => (Ok(encode(answer)), m2),
                }
            },
        },
    }
}

pub open spec fn text_unknown_command() -> Seq<u8> {
    seq![69u8, 82u8, 82u8, 32u8, 117u8, 110u8, 107u8, 110u8, 111u8, 119u8, 110u8, 32u8, 99u8, 111u8, 109u8, 109u8, 97u8, 110u8, 100u8]
}

pub open spec fn text_protocol_error() -> Seq<u8> {
    seq![69u8, 82u8, 82u8, 32u8, 112u8, 114u8, 111u8, 116u8, 111u8, 99u8, 111u8, 108u8, 32u8, 101u8, 114u8, 114u8, 111u8, 114u8]
}

pub open spec fn text_pool_error() -> Seq<u8> {
    seq![84u8, 104u8, 114u8, 101u8, 97u8, 100u8, 32u8, 112u8, 111u8, 111u8, 108u8, 32u8, 99u8, 111u8, 117u8, 108u8, 100u8, 32u8, 110u8, 111u8, 116u8, 32u8, 98u8, 101u8, 32u8, 99u8, 114u8, 101u8, 97u8, 116u8, 101u8, 100u8]
}

/// The error value sent to a client for `e`: decoding failures read "ERR protocol
/// error"; a bad request shape or an unknown verb reads "ERR unknown command".
pub open spec fn error_reply(e: ServerError) -> Val {
    match e {
        ServerError::Parse(_) => Val::Error(text_protocol_error()),
        ServerError::Command(CommandError::ParseFailed) => Val::Error(text_protocol_error()),
        ServerError::Command(_) => Val::Error(text_unknown_command()),
        ServerError::PoolCreationError => Val::Error(text_pool_error()),
    }
}

/// The bytes sent back for the request bytes `data` against the store contents
/// `m`: the encoded answer, or the encoded error reply.
pub open spec fn reply(data: Seq<u8>, m: Map<Val, Val>) -> Seq<u8> {
    match serve(data, m).0 {
        Ok(bytes) => bytes,
        Err(e) => encode(error_reply(e)),
    }
}

/// Serves the first request in `data` against `store`: the encoded answer, or
/// the error that stopped it.
pub fn process(data: &[u8], store: &mut Store) -> (r: Result<Vec<u8>, ServerError>)
    requires
        old(store).wf(),
    ensures
        final(store).wf(),
        final(store)@ == serve(data@, old(store)@).1,
        match serve(data@, old(store)@).0 {
            Ok(bytes) => r matches Ok(out) && out@ == bytes,
            Err(e) => r == Result::<Vec<u8>, ServerError>::Err(e),
        },
{
    let parsed_data = match parse_dispatcher(data) {
        Ok(p) => p.result,
        Err(e) => return Err(ServerError::Parse(e)),
    };
    let command = match get_command(&parsed_data) {
        Ok(c) => c,
        Err(e) => return Err(ServerError::Command(e)),
    };
    let result = match execute_command(command, &parsed_data, store) {
        Ok(v) => v,
        Err(e) => return Err(ServerError::Command(e)),
    };
    match serializer(&result) {
        Ok(out) => Ok(out),
        Err(e) => Err(ServerError::Parse(e)),
    }
}

/// The error value sent to a client for `error`.
pub fn error_to_resp(error: ServerError) -> (r: RespValue)
    ensures
        r@ == error_reply(error),
{
    let unknown: Vec<u8> = vec![69u8, 82u8, 82u8, 32u8, 117u8, 110u8, 107u8, 110u8, 111u8, 119u8, 110u8, 32u8, 99u8, 111u8, 109u8, 109u8, 97u8, 110u8, 100u8];
    let protocol: Vec<u8> = vec![69u8, 82u8, 82u8, 32u8, 112u8, 114u8, 111u8, 116u8, 111u8, 99u8, 111u8, 108u8, 32u8, 101u8, 114u8, 114u8, 111u8, 114u8];
    let pool: Vec<u8> = vec![84u8, 104u8, 114u8, 101u8, 97u8, 100u8, 32u8, 112u8, 111u8, 111u8, 108u8, 32u8, 99u8, 111u8, 117u8, 108u8, 100u8, 32u8, 110u8, 111u8, 116u8, 32u8, 98u8, 101u8, 32u8, 99u8, 114u8, 101u8, 97u8, 116u8, 101u8, 100u8];
    proof {
        assert(unknown@ =~= text_unknown_command());
        assert(protocol@ =~= text_protocol_error());
        assert(pool@ =~= text_pool_error());
    }
    match error {
        ServerError::Command(CommandError::UnknownCommand) => RespValue::Error(unknown),
        ServerError::Parse(_) => RespValue::Error(protocol),
        ServerError::Command(CommandError::ParseFailed) => RespValue::Error(protocol),
        ServerError::Command(CommandError::InvalidRequest) => RespValue::Error(unknown),
        ServerError::PoolCreationError => RespValue::Error(pool),
    }
}

/// The bytes to send back for the request bytes `data`: the encoded answer, or
/// the encoded error reply. The store changes as serving the request says.
pub fn handle_request(data: &[u8], store: &mut Store) -> (r: Vec<u8>)
    requires
        old(store).wf(),
    ensures
        final(store).wf(),
        final(store)@ == serve(data@, old(store)@).1,
        r@ == reply(data@, old(store)@),
{
    match process(data, store) {
        Ok(out) => out,
        Err(error) => {
            let res = error_to_resp(error);
            match serializer(&res) {
                Ok(out) => out,
                Err(_) => Vec::new(),
            }
        },
    }
}

} // verus!
