use vstd::prelude::*;

use crate::store::Store;
use crate::value::{views, RespValue, Value};

verus! {

/// Why a request cannot be carried out; the connection that sent it ends.
#[derive(PartialEq, Eq, Structural, Clone, Copy, Debug)]
pub enum CommandError {
    /// Where a command name was expected stands a value that is no text.
    NotACommand,
    /// The command name is none of PING, ECHO, SET, GET.
    UnknownCommand,
    /// The request ends before an argument that the command needs.
    MissingArgument,
    /// An argument is no simple string or present bulk string.
    BadArgument,
}

/// A command, ready to run against a store.
#[derive(Debug)]
pub enum Command {
    Ping,
    /// Replies with its argument as it came.
    Echo(RespValue),
    SetKey(Vec<u8>, Vec<u8>),
    GetKey(Vec<u8>),
    /// Replies with an error value carrying this text; stands for a request that
    /// decoded to an error value.
    Refuse(Vec<u8>),
}

/// Model of a command.
pub enum CommandModel {
    Ping,
    Echo(Value),
    SetKey(Seq<u8>, Seq<u8>),
    GetKey(Seq<u8>),
    Refuse(Seq<u8>),
}

impl Command {
    pub open spec fn view(self) -> CommandModel {
        match self {
            Command::Ping => CommandModel::Ping,
            Command::Echo(v) => CommandModel::Echo(v@),
            Command::SetKey(k, v) => CommandModel::SetKey(k@, v@),
            Command::GetKey(k) => CommandModel::GetKey(k@),
            Command::Refuse(m) => CommandModel::Refuse(m@),
        }
    }
}

pub open spec fn command_views(c: Seq<Command>) -> Seq<CommandModel> {
    Seq::new(c.len(), |i: int| c[i]@)
}

/// `PING`
pub open spec fn ping_word() -> Seq<u8> {
    seq![80u8, 73, 78, 71]
}

fn make_ping_word() -> (r: Vec<u8>)
    ensures
        r@ == ping_word(),
{
    let r: Vec<u8> = vec![80u8, 73, 78, 71];
    assert(r@ =~= ping_word());
    r
}

/// `ECHO`
pub open spec fn echo_word() -> Seq<u8> {
    seq![69u8, 67, 72, 79]
}

fn make_echo_word() -> (r: Vec<u8>)
    ensures
        r@ == echo_word(),
{
    let r: Vec<u8> = vec![69u8, 67, 72, 79];
    assert(r@ =~= echo_word());
    r
}

/// `SET`
pub open spec fn set_word() -> Seq<u8> {
    seq![83u8, 69, 84]
}

fn make_set_word() -> (r: Vec<u8>)
    ensures
        r@ == set_word(),
{
    let r: Vec<u8> = vec![83u8, 69, 84];
    assert(r@ =~= set_word());
    r
}

/// `GET`
pub open spec fn get_word() -> Seq<u8> {
    seq![71u8, 69, 84]
}

fn make_get_word() -> (r: Vec<u8>)
    ensures
        r@ == get_word(),
{
    let r: Vec<u8> = vec![71u8, 69, 84];
    assert(r@ =~= get_word());
    r
}

/// `PONG`
pub open spec fn pong_text() -> Seq<u8> {
    seq![80u8, 79, 78, 71]
}

fn make_pong_text() -> (r: Vec<u8>)
    ensures
        r@ == pong_text(),
{
    let r: Vec<u8> = vec![80u8, 79, 78, 71];
    assert(r@ =~= pong_text());
    r
}

/// `OK`
pub open spec fn ok_text() -> Seq<u8> {
    seq![79u8, 75]
}

fn make_ok_text() -> (r: Vec<u8>)
    ensures
        r@ == ok_text(),
{
    let r: Vec<u8> = vec![79u8, 75];
    assert(r@ =~= ok_text());
    r
}

/// The text that a value carries as an argument: a simple string or a present bulk string.
pub open spec fn text_of(v: Value) -> Option<Seq<u8>> {
    match v {
        Value::Simple(s) => Some(s),
        Value::Bulk(Some(s)) => Some(s),
        _ => None,
    }
}

pub open spec fn upper_byte(b: u8) -> u8 {
    if 97 <= b <= 122 { (b - 32) as u8 } else { b }
}

/// `s` with ASCII lower-case letters made upper-case.
pub open spec fn upper(s: Seq<u8>) -> Seq<u8> {
    Seq::new(s.len(), |i: int| upper_byte(s[i]))
}

/// The commands that a list of values asks for, name first, each taking its arguments
/// from the front of what is left; and the error that stops the list, if one does.
pub open spec fn plan(items: Seq<Value>) -> (Seq<CommandModel>, Option<CommandError>)
    decreases items.len(),
{
    if items.len() == 0 {
        (Seq::empty(), None)
    } else {
        match text_of(items[0]) {
            None => (Seq::empty(), Some(CommandError::NotACommand)),
            Some(name) => {
                let u = upper(name);
                if u == ping_word() {
                    let r = plan(items.subrange(1, items.len() as int));
                    (seq![CommandModel::Ping] + r.0, r.1)
                } else if u == echo_word() || u == get_word() || u == set_word() {
                    if items.len() < 2 {
                        (Seq::empty(), Some(CommandError::MissingArgument))
                    } else if text_of(items[1]) is None {
                        (Seq::empty(), Some(CommandError::BadArgument))
                    } else if u == echo_word() {
                        let r = plan(items.subrange(2, items.len() as int));
                        (seq![CommandModel::Echo(items[1])] + r.0, r.1)
                    } else if u == get_word() {
                        let r = plan(items.subrange(2, items.len() as int));
                        (seq![CommandModel::GetKey(text_of(items[1])->0)] + r.0, r.1)
                    } else if items.len() < 3 {
                        (Seq::empty(), Some(CommandError::MissingArgument))
                    } else if text_of(items[2]) is None {
                        (Seq::empty(), Some(CommandError::BadArgument))
                    } else {
                        let r = plan(items.subrange(3, items.len() as int));
                        (
                            seq![CommandModel::SetKey(text_of(items[1])->0, text_of(items[2])->0)]
                                + r.0,
                            r.1,
                        )
                    }
                } else {
                    (Seq::empty(), Some(CommandError::UnknownCommand))
                }
            },
        }
    }
}

/// The commands that a decoded request asks for. An array lists them; a lone string is
/// a list of one; an error value is answered with itself.
pub open spec fn invocation(v: Value) -> (Seq<CommandModel>, Option<CommandError>) {
    match v {
        Value::Array(Some(items)) => plan(items),
        Value::Simple(_) => plan(seq![v]),
        Value::Bulk(Some(_)) => plan(seq![v]),
        Value::Error(m) => (seq![CommandModel::Refuse(m)], None),
        _ => (Seq::empty(), Some(CommandError::NotACommand)),
    }
}

/// What a command does to the store's contents, and its reply.
pub open spec fn apply_command(m: Map<Seq<u8>, Seq<u8>>, c: CommandModel) -> (
    Map<Seq<u8>, Seq<u8>>,
    Value,
) {
    match c {
        CommandModel::Ping => (m, Value::Simple(pong_text())),
        CommandModel::Echo(v) => (m, v),
        CommandModel::SetKey(k, v) => (m.insert(k, v), Value::Bulk(Some(ok_text()))),
        CommandModel::GetKey(k) => (
            m,
            if m.contains_key(k) {
                Value::Bulk(Some(m[k]))
            } else {
                Value::Bulk(None)
            },
        ),
        CommandModel::Refuse(t) => (m, Value::Error(t)),
    }
}

/// Runs commands in order: the final contents and the replies.
pub open spec fn run_commands(m: Map<Seq<u8>, Seq<u8>>, cs: Seq<CommandModel>) -> (
    Map<Seq<u8>, Seq<u8>>,
    Seq<Value>,
)
    decreases cs.len(),
{
    if cs.len() == 0 {
        (m, Seq::empty())
    } else {
        let (m1, reply) = apply_command(m, cs[0]);
        let r = run_commands(m1, cs.subrange(1, cs.len() as int));
        (r.0, seq![reply] + r.1)
    }
}

fn text_value(v: &RespValue) -> (r: bool)
    ensures
        r == (text_of(v@) is Some),
{
    match v {
        RespValue::SimpleString(_) => true,
        RespValue::BulkString(Some(_)) => true,
        _ => false,
    }
}

fn into_text(v: RespValue) -> (r: Vec<u8>)
    requires
        text_of(v@) is Some,
    ensures
        r@ == text_of(v@)->0,
{
    match v {
        RespValue::SimpleString(s) => s,
        RespValue::BulkString(Some(s)) => s,
        _ => Vec::new(),
    }
}

/// Whether `name`, in upper case, is `word`.
fn name_is(name: &[u8], word: &Vec<u8>) -> (r: bool)
    ensures
        r == (upper(name@) == word@),
{
    if name.len() != word.len() {
        assert(upper(name@).len() != word@.len());
        return false;
    }
    let mut k: usize = 0;
    while k < name.len()
        invariant
            k <= name.len() == word.len(),
            forall|j: int| 0 <= j < k ==> upper_byte(name@[j]) == word@[j],
        decreases name.len() - k,
    {
        let b = name[k];
        let u: u8 = if 97 <= b && b <= 122 { b - 32 } else { b };
        if u != word[k] {
            assert(upper(name@)[k as int] != word@[k as int]);
            return false;
        }
        k = k + 1;
    }
    assert(upper(name@) =~= word@);
    true
}

fn text_ref(v: &RespValue) -> (r: &[u8])
    requires
        text_of(v@) is Some,
    ensures
        r@ == text_of(v@)->0,
{
    match v {
        RespValue::SimpleString(s) => s.as_slice(),
        RespValue::BulkString(Some(s)) => s.as_slice(),
        _ => &[],
    }
}

/// Takes commands from the front of `items`, as `plan` says.
pub fn plan_commands(items: Vec<RespValue>) -> (r: (Vec<Command>, Option<CommandError>))
    ensures
        (command_views(r.0@), r.1) == plan(views(items@)),
{
    let ghost whole = views(items@);
    let mut rest = items;
    let mut cmds: Vec<Command> = Vec::new();
    let ping = make_ping_word();
    let echo = make_echo_word();
    let get = make_get_word();
    let set = make_set_word();
    assert(command_views(cmds@) + plan(views(rest@)).0 =~= plan(views(rest@)).0);
    while rest.len() > 0
        invariant
            whole == views(items@),
            plan(whole) == (command_views(cmds@) + plan(views(rest@)).0, plan(views(rest@)).1),
            ping@ == ping_word(),
            echo@ == echo_word(),
            get@ == get_word(),
            set@ == set_word(),
        decreases rest.len(),
    {
        let ghost rv = views(rest@);
        let ghost pre = command_views(cmds@);
        assert(rv[0] == rest@[0]@);
        if !text_value(&rest[0]) {
            assert(pre + Seq::<CommandModel>::empty() =~= pre);
            return (cmds, Some(CommandError::NotACommand));
        }
        let name_val = rest.remove(0);
        assert(views(rest@) =~= rv.subrange(1, rv.len() as int));
        let name = text_ref(&name_val);
        let is_ping = name_is(name, &ping);
        let is_echo = name_is(name, &echo);
        let is_get = name_is(name, &get);
        let is_set = name_is(name, &set);
        if is_ping {
            let ghost tail = plan(views(rest@));
            cmds.push(Command::Ping);
            assert(command_views(cmds@) =~= pre.push(CommandModel::Ping));
            assert(pre + (seq![CommandModel::Ping] + tail.0) =~= pre.push(CommandModel::Ping) + tail.0);
        } else if is_echo || is_get || is_set {
            if rest.len() == 0 {
                assert(pre + Seq::<CommandModel>::empty() =~= pre);
                return (cmds, Some(CommandError::MissingArgument));
            }
            assert(rv[1] == rest@[0]@);
            if !text_value(&rest[0]) {
                assert(pre + Seq::<CommandModel>::empty() =~= pre);
                return (cmds, Some(CommandError::BadArgument));
            }
            let first = rest.remove(0);
            assert(views(rest@) =~= rv.subrange(2, rv.len() as int));
            if is_echo {
                let ghost c = CommandModel::Echo(first@);
                let ghost tail = plan(views(rest@));
                cmds.push(Command::Echo(first));
                assert(command_views(cmds@) =~= pre.push(c));
                assert(pre + (seq![c] + tail.0) =~= pre.push(c) + tail.0);
            } else if is_get {
                let key = into_text(first);
                let ghost c = CommandModel::GetKey(key@);
                let ghost tail = plan(views(rest@));
                cmds.push(Command::GetKey(key));
                assert(command_views(cmds@) =~= pre.push(c));
                assert(pre + (seq![c] + tail.0) =~= pre.push(c) + tail.0);
            } else {
                if rest.len() == 0 {
                    assert(pre + Seq::<CommandModel>::empty() =~= pre);
                    return (cmds, Some(CommandError::MissingArgument));
                }
                assert(rv[2] == rest@[0]@);
                if !text_value(&rest[0]) {
                    assert(pre + Seq::<CommandModel>::empty() =~= pre);
                    return (cmds, Some(CommandError::BadArgument));
                }
                let second = rest.remove(0);
                assert(views(rest@) =~= rv.subrange(3, rv.len() as int));
                let key = into_text(first);
                let val = into_text(second);
                let ghost c = CommandModel::SetKey(key@, val@);
                let ghost tail = plan(views(rest@));
                cmds.push(Command::SetKey(key, val));
                assert(command_views(cmds@) =~= pre.push(c));
                assert(pre + (seq![c] + tail.0) =~= pre.push(c) + tail.0);
            }
        } else {
            assert(pre + Seq::<CommandModel>::empty() =~= pre);
            return (cmds, Some(CommandError::UnknownCommand));
        }
    }
    assert(command_views(cmds@) + Seq::<CommandModel>::empty() =~= command_views(cmds@));
    (cmds, None)
}

/// The commands that a decoded request asks for, as `invocation` says.
pub fn commands_of(v: RespValue) -> (r: (Vec<Command>, Option<CommandError>))
    ensures
        (command_views(r.0@), r.1) == invocation(v@),
{
    match v {
        RespValue::Array(Some(items)) => {
            let ghost iv = views(items@);
            let ghost whole = v@;
            assert(whole == Value::Array(Some(iv))) by {
                assert(whole->Array_0.unwrap() =~= iv);
            }
            plan_commands(items)
        },
        RespValue::Error(m) => {
            let ghost c = CommandModel::Refuse(m@);
            let mut cmds: Vec<Command> = Vec::new();
            cmds.push(Command::Refuse(m));
            assert(command_views(cmds@) =~= seq![c]);
            (cmds, None)
        },
        RespValue::SimpleString(_) | RespValue::BulkString(Some(_)) => {
            let ghost whole = v@;
            let mut items: Vec<RespValue> = Vec::new();
            items.push(v);
            assert(views(items@) =~= seq![whole]);
            plan_commands(items)
        },
        _ => (Vec::new(), Some(CommandError::NotACommand)),
    }
}

/// Runs one command against the store and gives its reply.
pub fn apply(store: &mut Store, cmd: Command) -> (r: RespValue)
    requires
        old(store).wf(),
    ensures
        final(store).wf(),
        (final(store)@, r@) == apply_command(old(store)@, cmd@),
{
    match cmd {
        Command::Ping => RespValue::SimpleString(make_pong_text()),
        Command::Echo(v) => v,
        Command::SetKey(k, v) => {
            store.set(k, v);
            RespValue::BulkString(Some(make_ok_text()))
        },
        Command::GetKey(k) => RespValue::BulkString(store.get(k.as_slice())),
        Command::Refuse(m) => RespValue::Error(m),
    }
}

/// Carries out a decoded request: the replies of the commands that ran, in order, and
/// the error that stopped the request, if one did.
pub fn execute(store: &mut Store, request: RespValue) -> (r: (Vec<RespValue>, Option<CommandError>))
    requires
        old(store).wf(),
    ensures
        final(store).wf(),
        (final(store)@, views(r.0@)) == run_commands(old(store)@, invocation(request@).0),
        r.1 == invocation(request@).1,
{
    let (cmds, err) = commands_of(request);
    let ghost all = command_views(cmds@);
    let mut replies: Vec<RespValue> = Vec::new();
    let mut pending = cmds;
    assert(views(replies@) + run_commands(store@, all).1 =~= run_commands(store@, all).1);
    let ghost m0 = store@;
    while pending.len() > 0
        invariant
            store.wf(),
            all == invocation(request@).0,
            run_commands(m0, all) == (
                run_commands(store@, command_views(pending@)).0,
                views(replies@) + run_commands(store@, command_views(pending@)).1,
            ),
        decreases pending.len(),
    {
        let ghost pv = command_views(pending@);
        let ghost pre = views(replies@);
        let ghost before = store@;
        assert(pv[0] == pending@[0]@);
        let c = pending.remove(0);
        assert(command_views(pending@) =~= pv.subrange(1, pv.len() as int));
        let reply = apply(store, c);
        let ghost tail = run_commands(store@, command_views(pending@));
        replies.push(reply);
        assert(views(replies@) =~= pre.push(reply@));
        assert(pre + (seq![reply@] + tail.1) =~= pre.push(reply@) + tail.1);
    }
    assert(views(replies@) + Seq::<Value>::empty() =~= views(replies@));
    (replies, err)
}

} // verus!
