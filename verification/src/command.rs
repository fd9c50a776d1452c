//! The simulator's command line: what each command does to the machine, what it
//! shows, and what it leaves to the caller (quitting, running without a limit,
//! reading data to write, and files).
use vstd::prelude::*;

use crate::machine::{
    is_word, law_write_stream_words, string_texts, Fault, HALF_WORD, Machine, MachineView, RegionType, StepOutcome, UnknownOpcode,
};
use crate::sips::{char_sip, is_sip_text};
use crate::state_file::{read_code, read_token, Reading};
use crate::text::{
    chars_eq_str, chars_of, decimal, decimal_chars, eq_ascii_case, eq_ignore_ascii_case, literal,
    lower_text, lowercase_chars, parse_integer, parse_usize, prefixed, split_words, string_of,
    texts, trim, trimmed, words,
};

verus! {

/// What a command leaves to its caller.
pub enum RequestSpec {
    Done,
    Quit,
    RunUntilPaused,
    ReadWriteData { region: RegionType, addr: int },
    Load(Seq<char>),
    Save(Seq<char>),
}

/// How a command ended.
pub enum FaultSpec {
    NoFault,
    Error(Seq<char>),
    Overflow,
    MissingArgument,
}

/// A command's answer: an unknown opcode met on the way (reported first), the lines
/// it shows, what it leaves to the caller, and how it ended.
pub struct ReplySpec {
    pub unknown: Option<(int, int)>,
    pub lines: Seq<Seq<char>>,
    pub request: RequestSpec,
    pub fault: FaultSpec,
}

pub open spec fn quiet() -> ReplySpec {
    ReplySpec { unknown: None, lines: Seq::empty(), request: RequestSpec::Done, fault: FaultSpec::NoFault }
}

pub open spec fn showing(lines: Seq<Seq<char>>) -> ReplySpec {
    ReplySpec { lines, ..quiet() }
}

pub open spec fn failing(e: Seq<char>) -> ReplySpec {
    ReplySpec { fault: FaultSpec::Error(e), ..quiet() }
}

pub open spec fn asking(r: RequestSpec) -> ReplySpec {
    ReplySpec { request: r, ..quiet() }
}

/// The answer when a word could not be read.
pub open spec fn unread(o: Reading) -> ReplySpec {
    match o {
        Reading::Failed(e) => failing(e),
        _ => ReplySpec { fault: FaultSpec::Overflow, ..quiet() },
    }
}

/// The region a word names, in any case.
pub open spec fn region_of(w: Seq<char>) -> Option<RegionType> {
    let l = lower_text(w);
    if l == "ram"@ {
        Some(RegionType::Ram)
    } else if l == "sto"@ {
        Some(RegionType::Sto)
    } else {
        None
    }
}

/// The answer after stepping or running: the state, after any unknown opcode.
pub open spec fn after_run(m: MachineView, o: StepOutcome) -> ReplySpec {
    match o {
        StepOutcome::Done => showing(m.report(false)),
        StepOutcome::Unknown { at, opcode } => ReplySpec {
            unknown: Some((at, opcode)),
            ..showing(m.report(false))
        },
        StepOutcome::Failed(e) => failing(e),
        StepOutcome::Overflow => ReplySpec { fault: FaultSpec::Overflow, ..quiet() },
    }
}

/// The answer to dumping a region from `s` to `e`.
pub open spec fn dump_reply(m: MachineView, region: RegionType, s: int, e: int) -> ReplySpec {
    let (ls, r) = m.dump(region, s, e);
    ReplySpec {
        lines: ls,
        fault: match r {
            Ok(()) => FaultSpec::NoFault,
            Err(x) => FaultSpec::Error(x),
        },
        ..quiet()
    }
}

pub open spec fn dump_usage() -> Seq<char> {
    "Usage: dump <ram|sto> [start end]"@
}

/// `dump <ram|sto> [start end]`: the whole region, one address, or a range given in
/// either order.
pub open spec fn dump_command(m: MachineView, rest: Seq<Seq<char>>) -> ReplySpec {
    if rest.len() == 0 {
        failing(dump_usage())
    } else {
        match region_of(rest[0]) {
            None => failing("Error: expected RAM or STO"@),
            Some(region) => if rest.len() == 1 {
                dump_reply(m, region, -364, 364)
            } else if rest.len() == 2 {
                match read_code(rest[1]) {
                    Reading::Value(s) => dump_reply(m, region, s, s),
                    o => unread(o),
                }
            } else if rest.len() == 3 {
                match read_code(rest[1]) {
                    Reading::Value(s) => match read_code(rest[2]) {
                        Reading::Value(e) => if s <= e {
                            dump_reply(m, region, s, e)
                        } else {
                            dump_reply(m, region, e, s)
                        },
                        o => unread(o),
                    },
                    o => unread(o),
                }
            } else {
                failing(dump_usage())
            },
        }
    }
}

/// `pc`, `a`, `b` or `sar` with one value: sets that register (`pc` also unpauses).
pub open spec fn set_command(m: MachineView, cmd: Seq<char>, rest: Seq<Seq<char>>) -> (
    MachineView,
    ReplySpec,
) {
    if rest.len() != 1 {
        (m, failing("Usage: "@ + cmd + " <value>"@))
    } else {
        match read_code(rest[0]) {
            Reading::Value(v) => (
                if cmd == "pc"@ {
                    MachineView { pc: v, paused: false, ..m }
                } else if cmd == "a"@ {
                    MachineView { a: v, ..m }
                } else if cmd == "b"@ {
                    MachineView { b: v, ..m }
                } else {
                    MachineView { sar: v, ..m }
                },
                quiet(),
            ),
            o => (m, unread(o)),
        }
    }
}

/// What a command line does: its first word, in any case, names the command, and
/// the words after it are its arguments.
pub open spec fn command(m: MachineView, input: Seq<char>) -> (MachineView, ReplySpec) {
    let args = words(input);
    if args.len() == 0 {
        (m, quiet())
    } else {
        let cmd = lower_text(args[0]);
        let rest = args.drop_first();
        if cmd == "q"@ {
            (m, asking(RequestSpec::Quit))
        } else if cmd == "state"@ {
            if rest.len() == 0 {
                (m, showing(m.report(false)))
            } else if eq_ignore_ascii_case(rest[0], "all"@) {
                (m, showing(m.report(true)))
            } else {
                (m, failing("Usage: state [all]"@))
            }
        } else if cmd == "test"@ {
            if rest.len() == 0 {
                (m, ReplySpec { fault: FaultSpec::MissingArgument, ..quiet() })
            } else {
                match read_code(rest[0]) {
                    Reading::Value(v) => (m, showing(seq![decimal(v)])),
                    o => (m, unread(o)),
                }
            }
        } else if cmd == "step"@ || cmd == "'"@ {
            let (m2, o) = MachineView { paused: false, ..m }.step();
            (m2, after_run(m2, o))
        } else if cmd == "run"@ {
            let m1 = MachineView { paused: false, ..m };
            if rest.len() == 0 {
                (m1, asking(RequestSpec::RunUntilPaused))
            } else if rest.len() == 1 {
                match parse_integer(rest[0], false, 0, usize::MAX as int) {
                    None => (m1, failing("Invalid number: "@ + rest[0])),
                    Some(n) => {
                        let (m2, o) = m1.run(n as nat);
                        (m2, after_run(m2, o))
                    },
                }
            } else {
                (m1, failing("Usage: run [steps]"@))
            }
        } else if cmd == "dump"@ {
            (m, dump_command(m, rest))
        } else if cmd == "pc"@ || cmd == "a"@ || cmd == "b"@ || cmd == "sar"@ {
            set_command(m, cmd, rest)
        } else if cmd == "write"@ {
            if rest.len() < 2 {
                (m, failing("Usage: write <ram|sto> <addr>"@))
            } else {
                match region_of(rest[0]) {
                    None => (m, failing("Error: expected RAM or STO"@)),
                    Some(region) => match read_code(rest[1]) {
                        Reading::Value(addr) => (
                            m,
                            asking(RequestSpec::ReadWriteData { region, addr }),
                        ),
                        o => (m, unread(o)),
                    },
                }
            }
        } else if cmd == "load"@ {
            if rest.len() == 1 {
                (m, asking(RequestSpec::Load(rest[0])))
            } else {
                (m, failing("Usage: load <file>"@))
            }
        } else if cmd == "save"@ {
            if rest.len() == 1 {
                (m, asking(RequestSpec::Save(rest[0])))
            } else {
                (m, failing("Usage: save <file>"@))
            }
        } else {
            (m, showing(seq!["Unknown command: "@ + cmd, "TODO: write available commands here"@]))
        }
    }
}

/// What a command leaves to its caller.
pub enum Request {
    /// Nothing.
    Done,
    /// End the session.
    Quit,
    /// Run the (unpaused) machine without a step limit, then show its state.
    RunUntilPaused,
    /// Read a line of data and hand it to `finish_write` for this region and address.
    ReadWriteData { region: RegionType, addr: i16 },
    /// Read this state file and hand its text to `Machine::load_state`.
    Load(String),
    /// Write `Machine::save_state` to this file.
    Save(String),
}

/// A command's answer.
pub struct Reply {
    /// An unknown opcode met while stepping or running, to report first.
    pub unknown: Option<UnknownOpcode>,
    /// Lines to show.
    pub lines: Vec<String>,
    /// What is left to the caller.
    pub request: Request,
    /// How the command ended.
    pub result: Result<(), Fault>,
}

pub open spec fn request_matches(r: Request, s: RequestSpec) -> bool {
    match (r, s) {
        (Request::Done, RequestSpec::Done) => true,
        (Request::Quit, RequestSpec::Quit) => true,
        (Request::RunUntilPaused, RequestSpec::RunUntilPaused) => true,
        (
            Request::ReadWriteData { region, addr },
            RequestSpec::ReadWriteData { region: region2, addr: addr2 },
        ) => region == region2 && addr == addr2,
        (Request::Load(p), RequestSpec::Load(q)) => p@ == q,
        (Request::Save(p), RequestSpec::Save(q)) => p@ == q,
        _ => false,
    }
}

pub open spec fn fault_matches(r: Result<(), Fault>, s: FaultSpec) -> bool {
    match s {
        FaultSpec::NoFault => r is Ok,
        FaultSpec::Error(e) => r matches Err(Fault::Error(m)) && m@ == e,
        FaultSpec::Overflow => r matches Err(Fault::Overflow),
        FaultSpec::MissingArgument => r matches Err(Fault::MissingArgument),
    }
}

pub open spec fn reply_matches(r: Reply, s: ReplySpec) -> bool {
    &&& match s.unknown {
        None => r.unknown is None,
        Some((at, opcode)) => r.unknown matches Some(u) && u.at == at && u.opcode == opcode,
    }
    &&& string_texts(r.lines@) == s.lines
    &&& request_matches(r.request, s.request)
    &&& fault_matches(r.result, s.fault)
}

fn quiet_reply() -> (r: Reply)
    ensures
        reply_matches(r, quiet()),
{
    let lines: Vec<String> = Vec::new();
    assert(string_texts(lines@) =~= Seq::<Seq<char>>::empty());
    Reply { unknown: None, lines, request: Request::Done, result: Ok(()) }
}

fn showing_reply(lines: Vec<String>) -> (r: Reply)
    ensures
        reply_matches(r, showing(string_texts(lines@))),
{
    Reply { unknown: None, lines, request: Request::Done, result: Ok(()) }
}

fn fault_reply(f: Fault) -> (r: Reply)
    ensures
        r.unknown is None,
        string_texts(r.lines@) == Seq::<Seq<char>>::empty(),
        r.request is Done,
        r.result == Err::<(), Fault>(f),
{
    let lines: Vec<String> = Vec::new();
    assert(string_texts(lines@) =~= Seq::<Seq<char>>::empty());
    Reply { unknown: None, lines, request: Request::Done, result: Err(f) }
}

fn error_reply(msg: String) -> (r: Reply)
    ensures
        reply_matches(r, failing(msg@)),
{
    fault_reply(Fault::Error(msg))
}

fn asking_reply(req: Request) -> (r: Reply)
    ensures
        r.unknown is None,
        string_texts(r.lines@) == Seq::<Seq<char>>::empty(),
        r.request == req,
        r.result is Ok,
{
    let lines: Vec<String> = Vec::new();
    assert(string_texts(lines@) =~= Seq::<Seq<char>>::empty());
    Reply { unknown: None, lines, request: req, result: Ok(()) }
}

/// The reply when a word could not be read.
fn unread_reply(f: Fault, token: &Vec<char>) -> (r: Reply)
    requires
        match read_code(token@) {
            Reading::Overflow => f is Overflow,
            Reading::Failed(e) => f matches Fault::Error(m) && m@ == e,
            Reading::Value(_) => false,
        },
    ensures
        reply_matches(r, unread(read_code(token@))),
{
    fault_reply(f)
}

/// The region a word names, in any case.
fn region_word(w: &Vec<char>) -> (r: Option<RegionType>)
    ensures
        r == region_of(w@),
{
    let l = lowercase_chars(w);
    if chars_eq_str(&l, "ram") {
        Some(RegionType::Ram)
    } else if chars_eq_str(&l, "sto") {
        Some(RegionType::Sto)
    } else {
        None
    }
}

/// The reply after stepping or running.
fn after_run_reply(machine: &Machine, r: Result<Option<UnknownOpcode>, Fault>) -> (reply: Reply)
    requires
        machine@.wf(),
    ensures
        forall|o: StepOutcome| crate::machine::step_result_matches(r, o) ==> reply_matches(
            reply,
            after_run(machine@, o),
        ),
{
    match r {
        Ok(u) => {
            let lines = machine.state_report(false);
            Reply { unknown: u, lines, request: Request::Done, result: Ok(()) }
        },
        Err(f) => fault_reply(f),
    }
}

fn dump_reply_exec(machine: &Machine, region: RegionType, s: i16, e: i16) -> (reply: Reply)
    requires
        -364 <= s <= 364,
        -364 <= e <= 364,
    ensures
        reply_matches(reply, dump_reply(machine@, region, s as int, e as int)),
{
    let (lines, r) = machine.dump_region(region, s, e);
    match r {
        Ok(()) => showing_reply(lines),
        Err(m) => Reply { unknown: None, lines, request: Request::Done, result: Err(Fault::Error(m)) },
    }
}

fn dump_cmd(machine: &Machine, args: &Vec<Vec<char>>) -> (reply: Reply)
    requires
        args.len() >= 1,
    ensures
        reply_matches(reply, dump_command(machine@, texts(args@).drop_first())),
{
    let ghost rest = texts(args@).drop_first();
    if args.len() == 1 {
        return error_reply(literal("Usage: dump <ram|sto> [start end]"));
    }
    assert(rest[0] == args@[1]@);
    let region = match region_word(&args[1]) {
        Some(r) => r,
        None => return error_reply(literal("Error: expected RAM or STO")),
    };
    if args.len() == 2 {
        dump_reply_exec(machine, region, -HALF_WORD, HALF_WORD)
    } else if args.len() == 3 {
        assert(rest[1] == args@[2]@);
        match read_token(&args[2]) {
            Ok(s) => dump_reply_exec(machine, region, s, s),
            Err(f) => unread_reply(f, &args[2]),
        }
    } else if args.len() == 4 {
        assert(rest[1] == args@[2]@);
        assert(rest[2] == args@[3]@);
        match read_token(&args[2]) {
            Ok(s) => match read_token(&args[3]) {
                Ok(e) => if s <= e {
                    dump_reply_exec(machine, region, s, e)
                } else {
                    dump_reply_exec(machine, region, e, s)
                },
                Err(f) => unread_reply(f, &args[3]),
            },
            Err(f) => unread_reply(f, &args[2]),
        }
    } else {
        error_reply(literal("Usage: dump <ram|sto> [start end]"))
    }
}

fn set_cmd(machine: &mut Machine, cmd: &Vec<char>, args: &Vec<Vec<char>>) -> (reply: Reply)
    requires
        args.len() >= 1,
        old(machine)@.wf(),
        cmd@ == "pc"@ || cmd@ == "a"@ || cmd@ == "b"@ || cmd@ == "sar"@,
    ensures
        final(machine)@ == set_command(old(machine)@, cmd@, texts(args@).drop_first()).0,
        reply_matches(reply, set_command(old(machine)@, cmd@, texts(args@).drop_first()).1),
        final(machine)@.wf(),
{
    let ghost rest = texts(args@).drop_first();
    if args.len() != 2 {
        let mut m: Vec<char> = Vec::new();
        crate::text::push_str(&mut m, "Usage: ");
        crate::text::push_chars(&mut m, cmd);
        crate::text::push_str(&mut m, " <value>");
        return error_reply(string_of(&m));
    }
    assert(rest[0] == args@[1]@);
    match read_token(&args[1]) {
        Ok(v) => {
            if chars_eq_str(cmd, "pc") {
                machine.pc = v;
                machine.paused = false;
            } else if chars_eq_str(cmd, "a") {
                machine.a = v;
            } else if chars_eq_str(cmd, "b") {
                machine.b = v;
            } else {
                machine.sar = v;
            }
            quiet_reply()
        },
        Err(f) => unread_reply(f, &args[1]),
    }
}

/// Carries out one command line on the machine. The I/O that some commands need
/// (quitting, running without a step limit, reading data to write, reading and
/// writing state files) is left to the caller in `reply.request`.
pub fn handle_command(machine: &mut Machine, input: &str) -> (reply: Reply)
    requires
        old(machine)@.wf(),
    ensures
        final(machine)@ == command(old(machine)@, input@).0,
        reply_matches(reply, command(old(machine)@, input@).1),
        final(machine)@.wf(),
{
    let cs = chars_of(input);
    let args = split_words(&cs);
    if args.len() == 0 {
        return quiet_reply();
    }
    let ghost rest = texts(args@).drop_first();
    assert(texts(args@)[0] == args@[0]@);
    assert(args.len() > 1 ==> rest[0] == args@[1]@);
    let cmd = lowercase_chars(&args[0]);
    if chars_eq_str(&cmd, "q") {
        asking_reply(Request::Quit)
    } else if chars_eq_str(&cmd, "state") {
        if args.len() == 1 {
            showing_reply(machine.state_report(false))
        } else if eq_ascii_case(&args[1], "all") {
            showing_reply(machine.state_report(true))
        } else {
            error_reply(literal("Usage: state [all]"))
        }
    } else if chars_eq_str(&cmd, "test") {
        if args.len() == 1 {
            return fault_reply(Fault::MissingArgument);
        }
        match read_token(&args[1]) {
            Ok(v) => {
                let mut lines: Vec<String> = Vec::new();
                let digits = decimal_chars(v as i64);
                lines.push(string_of(&digits));
                assert(string_texts(lines@) =~= seq![decimal(v as int)]);
                showing_reply(lines)
            },
            Err(f) => unread_reply(f, &args[1]),
        }
    } else if chars_eq_str(&cmd, "step") || chars_eq_str(&cmd, "'") {
        machine.paused = false;
        let r = machine.step();
        after_run_reply(machine, r)
    } else if chars_eq_str(&cmd, "run") {
        machine.paused = false;
        if args.len() == 1 {
            asking_reply(Request::RunUntilPaused)
        } else if args.len() == 2 {
            match parse_usize(&args[1]) {
                None => error_reply(prefixed("Invalid number: ", &args[1])),
                Some(n) => {
                    let r = machine.run(n);
                    after_run_reply(machine, r)
                },
            }
        } else {
            error_reply(literal("Usage: run [steps]"))
        }
    } else if chars_eq_str(&cmd, "dump") {
        dump_cmd(machine, &args)
    } else if chars_eq_str(&cmd, "pc") || chars_eq_str(&cmd, "a") || chars_eq_str(&cmd, "b")
        || chars_eq_str(&cmd, "sar") {
        set_cmd(machine, &cmd, &args)
    } else if chars_eq_str(&cmd, "write") {
        if args.len() < 3 {
            return error_reply(literal("Usage: write <ram|sto> <addr>"));
        }
        assert(rest[1] == args@[2]@);
        match region_word(&args[1]) {
            None => error_reply(literal("Error: expected RAM or STO")),
            Some(region) => match read_token(&args[2]) {
                Ok(addr) => asking_reply(Request::ReadWriteData { region, addr }),
                Err(f) => unread_reply(f, &args[2]),
            },
        }
    } else if chars_eq_str(&cmd, "load") {
        if args.len() == 2 {
            asking_reply(Request::Load(string_of(&args[1])))
        } else {
            error_reply(literal("Usage: load <file>"))
        }
    } else if chars_eq_str(&cmd, "save") {
        if args.len() == 2 {
            asking_reply(Request::Save(string_of(&args[1])))
        } else {
            error_reply(literal("Usage: save <file>"))
        }
    } else {
        let mut lines: Vec<String> = Vec::new();
        lines.push(prefixed("Unknown command: ", &cmd));
        lines.push(literal("TODO: write available commands here"));
        assert(string_texts(lines@) =~= seq!["Unknown command: "@ + cmd@, "TODO: write available commands here"@]);
        showing_reply(lines)
    }
}

/// The last part of `write`: the data line read for it, trimmed; a blank line cancels
/// the write, anything else is written as sip letters from `addr` on.
pub open spec fn write_reply(m: MachineView, region: RegionType, addr: int, data: Seq<char>) -> (
    MachineView,
    ReplySpec,
) {
    let t = trim(data);
    if t.len() == 0 {
        (m, showing(seq!["Cancelled."@]))
    } else {
        let (m2, r) = m.write_stream(region, addr, t);
        (
            m2,
            match r {
                Ok(()) => quiet(),
                Err(e) => failing(e),
            },
        )
    }
}

/// Finishes a `write` command with the data line read for it.
pub fn finish_write(machine: &mut Machine, region: RegionType, addr: i16, data: &str) -> (reply: Reply)
    requires
        old(machine)@.wf(),
        addr + 364 <= i16::MAX,
    ensures
        final(machine)@ == write_reply(old(machine)@, region, addr as int, data@).0,
        reply_matches(reply, write_reply(old(machine)@, region, addr as int, data@).1),
        final(machine)@.wf(),
{
    let cs = chars_of(data);
    let t = trimmed(&cs);
    if t.len() == 0 {
        let mut lines: Vec<String> = Vec::new();
        lines.push(literal("Cancelled."));
        assert(string_texts(lines@) =~= seq!["Cancelled."@]);
        return showing_reply(lines);
    }
    let ts = string_of(&t);
    match machine.write_stream(region, addr, ts.as_str()) {
        Ok(()) => quiet_reply(),
        Err(e) => error_reply(e),
    }
}

proof fn lemma_command_words()
    ensures
        "write"@ != "q"@,
        "write"@ != "state"@,
        "write"@ != "test"@,
        "write"@ != "step"@,
        "write"@ != "'"@,
        "write"@ != "run"@,
        "write"@ != "dump"@,
        "write"@ != "pc"@,
        "write"@ != "a"@,
        "write"@ != "b"@,
        "write"@ != "sar"@,
        "ram"@ != "sto"@,
{
    reveal_strlit("write");
    reveal_strlit("q");
    reveal_strlit("state");
    reveal_strlit("test");
    reveal_strlit("step");
    reveal_strlit("'");
    reveal_strlit("run");
    reveal_strlit("dump");
    reveal_strlit("pc");
    reveal_strlit("a");
    reveal_strlit("b");
    reveal_strlit("sar");
    reveal_strlit("ram");
    reveal_strlit("sto");
    assert("write"@.len() != "q"@.len());
    assert("write"@[0] != "state"@[0]);
    assert("write"@[0] != "step"@[0]);
    assert("write"@[0] != "test"@[0]);
    assert("write"@[0] != "'"@[0]);
    assert("write"@.len() != "run"@.len());
    assert("write"@.len() != "dump"@.len());
    assert("write"@.len() != "pc"@.len());
    assert("write"@.len() != "a"@.len());
    assert("write"@.len() != "b"@.len());
    assert("write"@.len() != "sar"@.len());
    assert("ram"@[0] != "sto"@[0]);
}

/// `write <region> <addr>` asks for data for the region its first argument names
/// (`ram` or `sto`, in any case) at the address its second argument reads as, and
/// changes nothing yet; any other region word is refused.
pub proof fn law_write_asks_for_named_region(m: MachineView, input: Seq<char>, addr: int)
    requires
        words(input).len() >= 3,
        lower_text(words(input)[0]) == "write"@,
        read_code(words(input)[2]) == Reading::Value(addr),
    ensures
        command(m, input).0 == m,
        lower_text(words(input)[1]) == "ram"@ ==> command(m, input).1 == asking(
            RequestSpec::ReadWriteData { region: RegionType::Ram, addr },
        ),
        lower_text(words(input)[1]) == "sto"@ ==> command(m, input).1 == asking(
            RequestSpec::ReadWriteData { region: RegionType::Sto, addr },
        ),
        lower_text(words(input)[1]) != "ram"@ && lower_text(words(input)[1]) != "sto"@ ==> command(
            m,
            input,
        ).1 == failing("Error: expected RAM or STO"@),
{
    lemma_command_words();
    let args = words(input);
    assert(args.drop_first()[0] == args[1]);
    assert(args.drop_first()[1] == args[2]);
}

proof fn lemma_other_command_words()
    ensures
        "pc"@ != "q"@,
        "pc"@ != "state"@,
        "pc"@ != "test"@,
        "pc"@ != "step"@,
        "pc"@ != "'"@,
        "pc"@ != "run"@,
        "pc"@ != "dump"@,
        "a"@ != "q"@,
        "a"@ != "state"@,
        "a"@ != "test"@,
        "a"@ != "step"@,
        "a"@ != "'"@,
        "a"@ != "run"@,
        "a"@ != "dump"@,
        "a"@ != "pc"@,
        "b"@ != "q"@,
        "b"@ != "state"@,
        "b"@ != "test"@,
        "b"@ != "step"@,
        "b"@ != "'"@,
        "b"@ != "run"@,
        "b"@ != "dump"@,
        "b"@ != "pc"@,
        "b"@ != "a"@,
        "sar"@ != "q"@,
        "sar"@ != "state"@,
        "sar"@ != "test"@,
        "sar"@ != "step"@,
        "sar"@ != "'"@,
        "sar"@ != "run"@,
        "sar"@ != "dump"@,
        "sar"@ != "pc"@,
        "sar"@ != "a"@,
        "sar"@ != "b"@,
        "dump"@ != "q"@,
        "dump"@ != "state"@,
        "dump"@ != "test"@,
        "dump"@ != "step"@,
        "dump"@ != "'"@,
        "dump"@ != "run"@,
        "state"@ != "q"@,
        "step"@ != "q"@,
        "step"@ != "state"@,
        "step"@ != "test"@,
        "run"@ != "q"@,
        "run"@ != "state"@,
        "run"@ != "test"@,
        "run"@ != "step"@,
        "run"@ != "'"@,
{
    reveal_strlit("q");
    reveal_strlit("state");
    reveal_strlit("test");
    reveal_strlit("step");
    reveal_strlit("'");
    reveal_strlit("run");
    reveal_strlit("dump");
    reveal_strlit("pc");
    reveal_strlit("a");
    reveal_strlit("b");
    reveal_strlit("sar");
    assert("pc"@.len() != "q"@.len());
    assert("pc"@.len() != "state"@.len());
    assert("pc"@.len() != "test"@.len());
    assert("pc"@.len() != "step"@.len());
    assert("pc"@.len() != "'"@.len());
    assert("pc"@.len() != "run"@.len());
    assert("pc"@.len() != "dump"@.len());
    assert("a"@[0] != "q"@[0]);
    assert("a"@.len() != "state"@.len());
    assert("a"@.len() != "test"@.len());
    assert("a"@.len() != "step"@.len());
    assert("a"@[0] != "'"@[0]);
    assert("a"@.len() != "run"@.len());
    assert("a"@.len() != "dump"@.len());
    assert("a"@.len() != "pc"@.len());
    assert("b"@[0] != "q"@[0]);
    assert("b"@.len() != "state"@.len());
    assert("b"@.len() != "test"@.len());
    assert("b"@.len() != "step"@.len());
    assert("b"@[0] != "'"@[0]);
    assert("b"@.len() != "run"@.len());
    assert("b"@.len() != "dump"@.len());
    assert("b"@.len() != "pc"@.len());
    assert("b"@[0] != "a"@[0]);
    assert("sar"@.len() != "q"@.len());
    assert("sar"@.len() != "state"@.len());
    assert("sar"@.len() != "test"@.len());
    assert("sar"@.len() != "step"@.len());
    assert("sar"@.len() != "'"@.len());
    assert("sar"@[0] != "run"@[0]);
    assert("sar"@.len() != "dump"@.len());
    assert("sar"@.len() != "pc"@.len());
    assert("sar"@.len() != "a"@.len());
    assert("sar"@.len() != "b"@.len());
    assert("dump"@.len() != "q"@.len());
    assert("dump"@.len() != "state"@.len());
    assert("dump"@[0] != "test"@[0]);
    assert("dump"@[0] != "step"@[0]);
    assert("dump"@.len() != "'"@.len());
    assert("dump"@.len() != "run"@.len());
    assert("state"@.len() != "q"@.len());
    assert("step"@.len() != "q"@.len());
    assert("step"@.len() != "state"@.len());
    assert("step"@[0] != "test"@[0]);
    assert("run"@.len() != "q"@.len());
    assert("run"@.len() != "state"@.len());
    assert("run"@.len() != "test"@.len());
    assert("run"@.len() != "step"@.len());
    assert("run"@.len() != "'"@.len());
}

/// `pc`, `a`, `b` and `sar` with one value set that register and nothing else
/// (`pc` also lets a paused machine run again), and answer nothing.
pub proof fn law_register_commands(m: MachineView, input: Seq<char>, v: int)
    requires
        words(input).len() == 2,
        read_code(words(input)[1]) == Reading::Value(v),
    ensures
        lower_text(words(input)[0]) == "pc"@ ==> command(m, input) == (
            MachineView { pc: v, paused: false, ..m },
            quiet(),
        ),
        lower_text(words(input)[0]) == "a"@ ==> command(m, input) == (MachineView { a: v, ..m }, quiet()),
        lower_text(words(input)[0]) == "b"@ ==> command(m, input) == (MachineView { b: v, ..m }, quiet()),
        lower_text(words(input)[0]) == "sar"@ ==> command(m, input) == (
            MachineView { sar: v, ..m },
            quiet(),
        ),
{
    lemma_other_command_words();
    let args = words(input);
    assert(args.drop_first()[0] == args[1]);
}

/// `dump <region>` shows the whole region that its argument names (`ram` or `sto`, in
/// any case), from `-HALF_WORD` to `HALF_WORD`, and changes nothing; `state all` shows
/// the full state report.
pub proof fn law_dump_command_region(m: MachineView, input: Seq<char>)
    requires
        words(input).len() == 2,
    ensures
        lower_text(words(input)[0]) == "dump"@ ==> command(m, input).0 == m,
        lower_text(words(input)[0]) == "dump"@ && lower_text(words(input)[1]) == "ram"@ ==> command(
            m,
            input,
        ).1.lines == m.dump(RegionType::Ram, -364, 364).0,
        lower_text(words(input)[0]) == "dump"@ && lower_text(words(input)[1]) == "sto"@ ==> command(
            m,
            input,
        ).1.lines == m.dump(RegionType::Sto, -364, 364).0,
        lower_text(words(input)[0]) == "state"@ && eq_ignore_ascii_case(words(input)[1], "all"@)
            ==> command(m, input) == (m, showing(m.report(true))),
{
    lemma_other_command_words();
    lemma_command_words();
    let args = words(input);
    assert(args.drop_first()[0] == args[1]);
}

/// `step` (or `'`) lets a paused machine go on and runs one instruction, and the
/// machine ends as that step leaves it.
pub proof fn law_step_command(m: MachineView, input: Seq<char>)
    requires
        words(input).len() >= 1,
        lower_text(words(input)[0]) == "step"@ || lower_text(words(input)[0]) == "'"@,
    ensures
        command(m, input).0 == (MachineView { paused: false, ..m }).step().0,
{
    lemma_other_command_words();
    reveal_strlit("step");
    reveal_strlit("'");
    reveal_strlit("q");
    reveal_strlit("state");
    reveal_strlit("test");
    assert("'"@.len() != "q"@.len() || "'"@[0] != "q"@[0]);
    assert("'"@.len() != "state"@.len());
    assert("'"@.len() != "test"@.len());
}

/// `run <n>` lets a paused machine go on and runs up to `n` instructions; the
/// machine ends as that run leaves it.
pub proof fn law_run_command(m: MachineView, input: Seq<char>, n: int)
    requires
        words(input).len() == 2,
        lower_text(words(input)[0]) == "run"@,
        parse_integer(words(input)[1], false, 0, usize::MAX as int) == Some(n),
    ensures
        command(m, input).0 == (MachineView { paused: false, ..m }).run(n as nat).0,
{
    lemma_other_command_words();
    let args = words(input);
    assert(args.drop_first()[0] == args[1]);
}

/// The data line read for `write <region> <addr>` lands in that region: a blank
/// line cancels and changes nothing; otherwise the trimmed line, where it is made of
/// sip letters that fit from `addr` on, goes in two letters to a word (high sip
/// first) at consecutive addresses from `addr`, while the other region keeps its
/// words, and the answer is empty.
pub proof fn law_write_data_lands(
    m: MachineView,
    region: RegionType,
    other: RegionType,
    addr: int,
    data: Seq<char>,
    k: int,
)
    requires
        m.wf(),
        -364 <= addr,
        addr + (trim(data).len() + 1) / 2 <= 365,
        is_word(addr + k),
    ensures
        trim(data).len() == 0 ==> write_reply(m, region, addr, data) == (m, showing(seq!["Cancelled."@])),
        trim(data).len() > 0 && is_sip_text(trim(data)) ==> ({
            let t = trim(data);
            let (m2, reply) = write_reply(m, region, addr, data);
            &&& reply == quiet()
            &&& 0 <= k < (t.len() + 1) / 2 ==> m2.read(region, addr + k) == Ok::<int, Seq<char>>(
                char_sip(t[2 * k])->Some_0 * 27 + if 2 * k + 1 < t.len() {
                    char_sip(t[2 * k + 1])->Some_0
                } else {
                    0
                },
            )
            &&& other != region ==> m2.cells(other) == m.cells(other)
        }),
{
    law_write_stream_words(m, region, other, addr, trim(data), k);
}

/// `dump <region> <from> <to>` shows the region named by its first argument from the
/// lower of the two addresses to the higher, whichever comes first, and changes
/// nothing; `dump <region> <addr>` shows that one address.
pub proof fn law_dump_command_range(m: MachineView, input: Seq<char>, x: int, y: int)
    requires
        words(input).len() == 3 || words(input).len() == 4,
        lower_text(words(input)[0]) == "dump"@,
        read_code(words(input)[2]) == Reading::Value(x),
        words(input).len() == 4 ==> read_code(words(input)[3]) == Reading::Value(y),
    ensures
        command(m, input).0 == m,
        words(input).len() == 3 && lower_text(words(input)[1]) == "ram"@ ==> command(
            m,
            input,
        ).1 == dump_reply(m, RegionType::Ram, x, x),
        words(input).len() == 3 && lower_text(words(input)[1]) == "sto"@ ==> command(
            m,
            input,
        ).1 == dump_reply(m, RegionType::Sto, x, x),
        words(input).len() == 4 && lower_text(words(input)[1]) == "ram"@ ==> command(
            m,
            input,
        ).1 == dump_reply(m, RegionType::Ram, if x <= y { x } else { y }, if x <= y { y } else { x }),
        words(input).len() == 4 && lower_text(words(input)[1]) == "sto"@ ==> command(
            m,
            input,
        ).1 == dump_reply(m, RegionType::Sto, if x <= y { x } else { y }, if x <= y { y } else { x }),
{
    lemma_other_command_words();
    lemma_command_words();
    let args = words(input);
    let rest = args.drop_first();
    assert(rest[0] == args[1]);
    assert(rest[1] == args[2]);
    if args.len() == 4 {
        assert(rest[2] == args[3]);
    }
}

} // verus!
