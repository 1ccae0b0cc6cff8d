//! The per-connection pipeline: encoding store replies and parse errors
//! as wire responses, deciding what one poll cycle does, and driving a
//! connection's commands through the store strictly in arrival order.

use vstd::prelude::*;
use crate::command::{Command, CommandPoll, CommandSpec, ErrorKind};
use crate::db::{apply_spec, copy_bytes, Db, DbResult, DbResultSpec};

verus! {

/// The wire response owed for one store reply: the value then a newline
/// for a hit, a bare newline for a miss, `1` for a completed write, `0`
/// for a refused one.
pub open spec fn response_spec(r: DbResultSpec) -> Seq<u8> {
    match r {
        DbResultSpec::Written => seq![49u8, 10u8],
        DbResultSpec::NotWritten => seq![48u8, 10u8],
        DbResultSpec::Found(v) => v + seq![10u8],
        DbResultSpec::NotFound => seq![10u8],
    }
}

/// Encode one store reply for the socket.
pub fn response_bytes(r: &DbResult) -> (out: Vec<u8>)
    ensures
        out@ == response_spec(r@),
{
    match r {
        DbResult::Written => {
            let mut out: Vec<u8> = Vec::new();
            out.push(49);
            out.push(10);
            proof {
                assert(out@ =~= seq![49u8, 10u8]);
            }
            out
        },
        DbResult::NotWritten => {
            let mut out: Vec<u8> = Vec::new();
            out.push(48);
            out.push(10);
            proof {
                assert(out@ =~= seq![48u8, 10u8]);
            }
            out
        },
        DbResult::Found(v) => {
            let mut out = copy_bytes(v);
            out.push(10);
            proof {
                assert(out@ =~= v@ + seq![10u8]);
            }
            out
        },
        DbResult::NotFound => {
            let mut out: Vec<u8> = Vec::new();
            out.push(10);
            proof {
                assert(out@ =~= seq![10u8]);
            }
            out
        },
    }
}

/// The name of a parse error kind, as it appears on the wire.
pub open spec fn error_name(e: ErrorKind) -> Seq<u8> {
    match e {
        ErrorKind::CommandNotFound => seq![
            67u8,
            111u8,
            109u8,
            109u8,
            97u8,
            110u8,
            100u8,
            78u8,
            111u8,
            116u8,
            70u8,
            111u8,
            117u8,
            110u8,
            100u8,
        ],
        ErrorKind::InvalidKey => seq![
            73u8,
            110u8,
            118u8,
            97u8,
            108u8,
            105u8,
            100u8,
            75u8,
            101u8,
            121u8,
        ],
        ErrorKind::KeyNotFound => seq![
            75u8,
            101u8,
            121u8,
            78u8,
            111u8,
            116u8,
            70u8,
            111u8,
            117u8,
            110u8,
            100u8,
        ],
        ErrorKind::ValueNotFound => seq![
            86u8,
            97u8,
            108u8,
            117u8,
            101u8,
            78u8,
            111u8,
            116u8,
            70u8,
            111u8,
            117u8,
            110u8,
            100u8,
        ],
    }
}

/// The wire response for a parse error: `ERR `, the kind's name, newline.
pub open spec fn error_spec(e: ErrorKind) -> Seq<u8> {
    seq![69u8, 82u8, 82u8, 32u8] + error_name(e) + seq![10u8]
}

/// Encode a parse error for the socket; sent inline, with no store
/// round-trip.
pub fn error_response(e: &ErrorKind) -> (out: Vec<u8>)
    ensures
        out@ == error_spec(*e),
{
    let mut out: Vec<u8> = Vec::new();
    out.push(69);
    out.push(82);
    out.push(82);
    out.push(32);
    match e {
        ErrorKind::CommandNotFound => {
            out.push(67);
            out.push(111);
            out.push(109);
            out.push(109);
            out.push(97);
            out.push(110);
            out.push(100);
            out.push(78);
            out.push(111);
            out.push(116);
            out.push(70);
            out.push(111);
            out.push(117);
            out.push(110);
            out.push(100);
        },
        ErrorKind::InvalidKey => {
            out.push(73);
            out.push(110);
            out.push(118);
            out.push(97);
            out.push(108);
            out.push(105);
            out.push(100);
            out.push(75);
            out.push(101);
            out.push(121);
        },
        ErrorKind::KeyNotFound => {
            out.push(75);
            out.push(101);
            out.push(121);
            out.push(78);
            out.push(111);
            out.push(116);
            out.push(70);
            out.push(111);
            out.push(117);
            out.push(110);
            out.push(100);
        },
        ErrorKind::ValueNotFound => {
            out.push(86);
            out.push(97);
            out.push(108);
            out.push(117);
            out.push(101);
            out.push(78);
            out.push(111);
            out.push(116);
            out.push(70);
            out.push(111);
            out.push(117);
            out.push(110);
            out.push(100);
        },
    }
    out.push(10);
    proof {
        assert(out@ =~= error_spec(*e));
    }
    out
}

/// What a connection does with one poll outcome of its command stream.
#[derive(Debug)]
pub enum ConnStep {
    /// A command parsed: submit it to the store and await the reply.
    Dispatch(Command),
    /// A parse error: answer inline, without a store round-trip.
    Reply(Vec<u8>),
    /// End of input: enter the closing state.
    Close,
    /// Nothing available: suspend until new bytes or a reply arrive.
    Idle,
}

/// The connection actor's decision for one poll cycle: dispatch a parsed
/// command, answer a parse error inline, close on end-of-input, otherwise
/// suspend.
pub fn connection_step(p: CommandPoll) -> (s: ConnStep)
    ensures
        match p {
            CommandPoll::Item(pr) => match pr {
                Ok(cmd) => s matches ConnStep::Dispatch(c) && c@ == cmd@,
                Err(e) => s matches ConnStep::Reply(out) && out@ == error_spec(e),
            },
            CommandPoll::Closed => s is Close,
            CommandPoll::Pending => s is Idle,
        },
{
    match p {
        CommandPoll::Item(Ok(cmd)) => ConnStep::Dispatch(cmd),
        CommandPoll::Item(Err(e)) => ConnStep::Reply(error_response(&e)),
        CommandPoll::Closed => ConnStep::Close,
        CommandPoll::Pending => ConnStep::Idle,
    }
}

/// Views of a batch of commands.
pub open spec fn views_of(cs: Seq<Command>) -> Seq<CommandSpec> {
    cs.map_values(|c: Command| c@)
}

/// Views of a batch of replies.
pub open spec fn result_views(rs: Seq<DbResult>) -> Seq<DbResultSpec> {
    rs.map_values(|r: DbResult| r@)
}

/// The mapping and the replies, in order, after a batch of commands is
/// applied one at a time.
pub open spec fn run_spec(m: Map<Seq<u8>, Seq<u8>>, cs: Seq<CommandSpec>) -> (
    Map<Seq<u8>, Seq<u8>>,
    Seq<DbResultSpec>,
)
    decreases cs.len(),
{
    if cs.len() == 0 {
        (m, Seq::empty())
    } else {
        let first = apply_spec(m, cs[0]);
        let rest = run_spec(first.0, cs.drop_first());
        (rest.0, seq![first.1] + rest.1)
    }
}

/// Extending a batch by one command applies it to the mapping the batch
/// left, and appends its reply after all earlier ones.
pub proof fn lemma_run_snoc(m: Map<Seq<u8>, Seq<u8>>, cs: Seq<CommandSpec>, c: CommandSpec)
    ensures
        run_spec(m, cs.push(c)).0 == apply_spec(run_spec(m, cs).0, c).0,
        run_spec(m, cs.push(c)).1 == run_spec(m, cs).1.push(apply_spec(run_spec(m, cs).0, c).1),
    decreases cs.len(),
{
    reveal_with_fuel(run_spec, 3);
    if cs.len() == 0 {
        assert(cs.push(c)[0] == c);
        assert(cs.push(c).drop_first() =~= Seq::<CommandSpec>::empty());
        assert(run_spec(m, cs.push(c)).1 =~= Seq::<DbResultSpec>::empty().push(
            apply_spec(m, c).1,
        ));
    } else {
        assert(cs.push(c)[0] == cs[0]);
        assert(cs.push(c).drop_first() =~= cs.drop_first().push(c));
        lemma_run_snoc(apply_spec(m, cs[0]).0, cs.drop_first(), c);
        assert(run_spec(m, cs.push(c)).1 =~= run_spec(m, cs).1.push(
            apply_spec(run_spec(m, cs).0, c).1,
        ));
    }
}

/// An owned copy of a command, byte for byte.
pub fn clone_command(c: &Command) -> (r: Command)
    ensures
        r@ == c@,
{
    match c {
        Command::Get(k) => Command::Get(copy_bytes(k)),
        Command::Put(k, v) => Command::Put(copy_bytes(k), copy_bytes(v)),
    }
}

/// Ordering: commands submitted on one connection produce exactly one
/// reply each, in the same order — reply `i` answers command `i` against
/// the mapping as the first `i` commands left it. The pipeline is strictly
/// sequential per connection: a command is applied, and its reply
/// recorded, before the next command is taken.
pub fn process_commands(db: &mut Db, cmds: &Vec<Command>) -> (rs: Vec<DbResult>)
    requires
        old(db).wf(),
    ensures
        final(db).wf(),
        rs@.len() == cmds@.len(),
        final(db)@ == run_spec(old(db)@, views_of(cmds@)).0,
        result_views(rs@) == run_spec(old(db)@, views_of(cmds@)).1,
{
    let mut rs: Vec<DbResult> = Vec::new();
    let mut i: usize = 0;
    proof {
        assert(views_of(cmds@.take(0)) =~= Seq::<CommandSpec>::empty());
        assert(result_views(rs@) =~= Seq::<DbResultSpec>::empty());
    }
    while i < cmds.len()
        invariant
            db.wf(),
            i <= cmds@.len(),
            rs@.len() == i,
            db@ == run_spec(old(db)@, views_of(cmds@.take(i as int))).0,
            result_views(rs@) == run_spec(old(db)@, views_of(cmds@.take(i as int))).1,
        decreases cmds@.len() - i,
    {
        let ghost pre = views_of(cmds@.take(i as int));
        let ghost rs0 = rs@;
        let c = clone_command(&cmds[i]);
        let r = db.apply(c);
        rs.push(r);
        proof {
            assert(views_of(cmds@.take(i + 1)) =~= pre.push(cmds@[i as int]@));
            lemma_run_snoc(old(db)@, pre, cmds@[i as int]@);
            assert(result_views(rs@) =~= result_views(rs0).push(r@));
        }
        i = i + 1;
    }
    proof {
        assert(cmds@.take(cmds@.len() as int) =~= cmds@);
    }
    rs
}

} // verus!
