//! The simulated machine: registers, two memory regions of words, and the
//! instruction set.
use vstd::prelude::*;

use crate::helper::{char_to_digit, code_overflows, decode_word, encode_word, spec_code_to_word};
use crate::sips::{char_sip, fits_i16, is_sip_text, lemma_short_text_fits, lemma_word_code, sip_bound, word_code};
use crate::text::{decimal, decimal_chars, literal, push_chars, push_str, string_of};

verus! {

/// Number of values one sip can take.
pub const SIP_SIZE: i16 = 27;

/// Sips in one word of the machine.
pub const SIP_PER_WORD: u32 = 2;

/// Number of distinct words: `SIP_SIZE` squared.
pub const WORD_SIZE: i16 = 729;

/// Largest magnitude of a word; words range over `-HALF_WORD..=HALF_WORD`.
pub const HALF_WORD: i16 = 364;

/// Words of main memory, addressed `-HALF_WORD..=HALF_WORD`.
pub const RAM_SIZE: usize = 729;

/// Words of storage, addressed `-HALF_WORD..=HALF_WORD`.
pub const STO_SIZE: usize = 729;

/// A memory region.
#[derive(Debug, Clone, Copy, PartialEq, Eq, Structural)]
pub enum RegionType {
    Ram,
    Sto,
}

/// An instruction, by the opcode word that selects it.
#[derive(Debug, Clone, Copy, PartialEq, Eq, Structural)]
pub enum Op {
    Nop,
    Hlt,
    Cla,
    Lra,
    Sra,
    Lsa,
    Ssa,
    Lpa,
    Spa,
    Lia,
    Mul,
    Add,
    Sub,
    Jmp,
    Jnz,
    Jms,
    Rte,
    Rtr,
    Unknown,
}

/// The instruction that an opcode word selects.
pub open spec fn op_of(v: int) -> Op {
    if v == 0 {
        Op::Nop
    } else if v == 3 {
        Op::Cla
    } else if v == 8 {
        Op::Hlt
    } else if v == 28 {
        Op::Lra
    } else if v == 26 {
        Op::Sra
    } else if v == 37 {
        Op::Lsa
    } else if v == 35 {
        Op::Ssa
    } else if v == 40 {
        Op::Lpa
    } else if v == 38 {
        Op::Spa
    } else if v == 36 {
        Op::Lia
    } else if v == 364 {
        Op::Mul
    } else if v == 352 {
        Op::Add
    } else if v == 343 {
        Op::Sub
    } else if v == 283 {
        Op::Jmp
    } else if v == 257 {
        Op::Jnz
    } else if v == 262 {
        Op::Jms
    } else if v == -238 {
        Op::Rte
    } else if v == -252 {
        Op::Rtr
    } else {
        Op::Unknown
    }
}

impl Op {
    /// The instruction that an opcode word selects; `Unknown` for words that select none.
    pub fn from_i16(v: i16) -> (op: Op)
        ensures
            op == op_of(v as int),
    {
        match v {
            0 => Op::Nop,
            3 => Op::Cla,
            8 => Op::Hlt,
            28 => Op::Lra,
            26 => Op::Sra,
            37 => Op::Lsa,
            35 => Op::Ssa,
            40 => Op::Lpa,
            38 => Op::Spa,
            36 => Op::Lia,
            364 => Op::Mul,
            352 => Op::Add,
            343 => Op::Sub,
            283 => Op::Jmp,
            257 => Op::Jnz,
            262 => Op::Jms,
            -238 => Op::Rte,
            -252 => Op::Rtr,
            _ => Op::Unknown,
        }
    }
}

/// A number in `-HALF_WORD..=HALF_WORD`.
pub open spec fn is_word(v: int) -> bool {
    -364 <= v <= 364
}

/// The remainder of Rust's `%`: the sign of the dividend, the magnitude below `m`.
pub open spec fn trunc_rem(x: int, m: int) -> int {
    if x >= 0 {
        x % m
    } else {
        -((-x) % m)
    }
}

/// The message for an address outside a region.
pub open spec fn address_error(addr: int) -> Seq<char> {
    "Address "@ + decimal(addr) + " out of range!"@
}

/// The message for a program counter that left the words.
pub open spec fn pc_error(pc: int) -> Seq<char> {
    "PC is out of bounds: "@ + decimal(pc)
}

/// The machine as numbers and sequences.
pub struct MachineView {
    pub pc: int,
    pub a: int,
    pub b: int,
    pub sar: int,
    pub srr: int,
    pub paused: bool,
    pub ram: Seq<i16>,
    pub sto: Seq<i16>,
}

/// What one instruction step came to.
pub enum StepOutcome {
    /// The instruction ran.
    Done,
    /// The opcode word selects no instruction; the machine paused.
    Unknown { at: int, opcode: int },
    /// A reported error; the step stopped there.
    Failed(Seq<char>),
    /// The 16-bit arithmetic of the instruction overflowed; the simulator stops there.
    Overflow,
}

impl MachineView {
    /// The machine's shape, and every register and word within the numbers it can reach.
    pub open spec fn wf(self) -> bool {
        &&& self.ram.len() == 729
        &&& self.sto.len() == 729
        &&& is_word(self.a)
        &&& is_word(self.b)
        &&& is_word(self.sar)
        &&& -365 <= self.pc <= 365
        &&& -365 <= self.srr <= 365
        &&& forall|i: int| 0 <= i < 729 ==> is_word(#[trigger] self.ram[i] as int)
        &&& forall|i: int| 0 <= i < 729 ==> is_word(#[trigger] self.sto[i] as int)
    }

    pub open spec fn cells(self, region: RegionType) -> Seq<i16> {
        match region {
            RegionType::Ram => self.ram,
            RegionType::Sto => self.sto,
        }
    }

    /// The word at `addr` (cell `addr + HALF_WORD`) of a region.
    pub open spec fn read(self, region: RegionType, addr: int) -> Result<int, Seq<char>> {
        let idx = addr + 364;
        if 0 <= idx < self.cells(region).len() {
            Ok(self.cells(region)[idx] as int)
        } else {
            Err(address_error(addr))
        }
    }

    /// The machine after writing `value` at `addr` of a region.
    pub open spec fn write(self, region: RegionType, addr: int, value: i16) -> Result<
        MachineView,
        Seq<char>,
    > {
        let idx = addr + 364;
        if 0 <= idx < self.cells(region).len() {
            Ok(
                match region {
                    RegionType::Ram => MachineView { ram: self.ram.update(idx, value), ..self },
                    RegionType::Sto => MachineView { sto: self.sto.update(idx, value), ..self },
                },
            )
        } else {
            Err(address_error(addr))
        }
    }

    /// Fetching the word at the program counter, which then moves one step away from
    /// zero.
    pub open spec fn advance(self) -> (MachineView, Result<int, Seq<char>>) {
        match self.read(RegionType::Ram, self.pc) {
            Err(e) => (self, Err(e)),
            Ok(w) => if self.pc >= 0 {
                let m = MachineView { pc: self.pc + 1, ..self };
                if m.pc > 364 {
                    (m, Err(pc_error(m.pc)))
                } else {
                    (m, Ok(w))
                }
            } else {
                let m = MachineView { pc: self.pc - 1, ..self };
                if m.pc < -364 {
                    (m, Err(pc_error(m.pc)))
                } else {
                    (m, Ok(w))
                }
            },
        }
    }

    /// One instruction: fetch the opcode, then run the instruction it selects.
    pub open spec fn step(self) -> (MachineView, StepOutcome) {
        let (m, r) = self.advance();
        match r {
            Err(e) => (m, StepOutcome::Failed(e)),
            Ok(opcode) => m.execute(op_of(opcode), opcode),
        }
    }

    /// Fetches an operand and reads the RAM word it addresses into `b`.
    pub open spec fn load_b(self) -> (MachineView, Result<int, Seq<char>>) {
        let (m, r) = self.advance();
        match r {
            Err(e) => (m, Err(e)),
            Ok(operand) => match m.read(RegionType::Ram, operand) {
                Err(e) => (m, Err(e)),
                Ok(w) => (MachineView { b: w, ..m }, Ok(w)),
            },
        }
    }

    /// Runs `op`, whose opcode word was `opcode`, with the program counter past it.
    pub open spec fn execute(self, op: Op, opcode: int) -> (MachineView, StepOutcome) {
        match op {
            Op::Nop => (self, StepOutcome::Done),
            Op::Hlt => (MachineView { paused: true, ..self }, StepOutcome::Done),
            Op::Cla => (MachineView { a: 0, b: 0, srr: 0, ..self }, StepOutcome::Done),
            Op::Lra => {
                let (m, r) = self.advance();
                match r {
                    Err(e) => (m, StepOutcome::Failed(e)),
                    Ok(operand) => match m.read(RegionType::Ram, operand) {
                        Err(e) => (m, StepOutcome::Failed(e)),
                        Ok(w) => (MachineView { a: w, ..m }, StepOutcome::Done),
                    },
                }
            },
            Op::Sra | Op::Ssa => {
                let region = if op == Op::Sra {
                    RegionType::Ram
                } else {
                    RegionType::Sto
                };
                let (m, r) = self.advance();
                match r {
                    Err(e) => (m, StepOutcome::Failed(e)),
                    Ok(operand) => match m.write(region, operand, m.a as i16) {
                        Err(e) => (m, StepOutcome::Failed(e)),
                        Ok(m2) => (m2, StepOutcome::Done),
                    },
                }
            },
            Op::Lsa => match self.read(RegionType::Sto, self.sar) {
                Err(e) => (self, StepOutcome::Failed(e)),
                Ok(w) => (
                    MachineView { a: w, sar: trunc_rem(self.sar + 1, 364), ..self },
                    StepOutcome::Done,
                ),
            },
            Op::Lpa => (MachineView { a: self.sar, ..self }, StepOutcome::Done),
            Op::Spa => (MachineView { sar: self.a, ..self }, StepOutcome::Done),
            Op::Lia => {
                let (m, r) = self.advance();
                match r {
                    Err(e) => (m, StepOutcome::Failed(e)),
                    Ok(w) => (MachineView { a: w, ..m }, StepOutcome::Done),
                }
            },
            Op::Mul | Op::Add | Op::Sub => {
                let (m, r) = self.load_b();
                match r {
                    Err(e) => (m, StepOutcome::Failed(e)),
                    Ok(w) => {
                        let x = if op == Op::Mul {
                            m.a * w
                        } else if op == Op::Add {
                            m.a + w
                        } else {
                            m.a - w
                        };
                        if !fits_i16(x) {
                            (m, StepOutcome::Overflow)
                        } else {
                            (MachineView { a: trunc_rem(x, 364), ..m }, StepOutcome::Done)
                        }
                    },
                }
            },
            Op::Jmp => {
                let (m, r) = self.advance();
                match r {
                    Err(e) => (m, StepOutcome::Failed(e)),
                    Ok(w) => (MachineView { pc: w, ..m }, StepOutcome::Done),
                }
            },
            Op::Jnz => {
                let (m, r) = self.advance();
                match r {
                    Err(e) => (m, StepOutcome::Failed(e)),
                    Ok(t) => if m.a != 0 {
                        (MachineView { pc: t, ..m }, StepOutcome::Done)
                    } else {
                        (m, StepOutcome::Done)
                    },
                }
            },
            Op::Jms => {
                let (m, r) = self.advance();
                match r {
                    Err(e) => (m, StepOutcome::Failed(e)),
                    Ok(t) => if m.a > 0 {
                        (MachineView { pc: t, ..m }, StepOutcome::Done)
                    } else if m.a < 0 {
                        (MachineView { pc: -t, ..m }, StepOutcome::Done)
                    } else {
                        (m, StepOutcome::Done)
                    },
                }
            },
            Op::Rte => {
                let m0 = MachineView { srr: self.pc + 1, ..self };
                let (m, r) = m0.advance();
                match r {
                    Err(e) => (m, StepOutcome::Failed(e)),
                    Ok(w) => (MachineView { pc: w, ..m }, StepOutcome::Done),
                }
            },
            Op::Rtr => (MachineView { pc: self.srr, ..self }, StepOutcome::Done),
            Op::Unknown => (
                MachineView { paused: true, ..self },
                StepOutcome::Unknown { at: self.pc - 1, opcode },
            ),
        }
    }
}

/// Index of the first character of `s` that is no sip letter (`s.len()` where all are).
pub open spec fn first_non_sip(s: Seq<char>) -> int
    decreases s.len(),
{
    if s.len() == 0 {
        0
    } else if char_sip(s[0]) is None {
        0
    } else {
        1 + first_non_sip(s.drop_first())
    }
}

/// The sips of a text of sip letters.
pub open spec fn text_sips(s: Seq<char>) -> Seq<int> {
    s.map_values(|c: char| char_sip(c).unwrap())
}

/// Sips taken two at a time, high then low, as words; a lone last sip is a high sip
/// with a zero low sip.
pub open spec fn stream_words(vals: Seq<int>) -> Seq<int> {
    Seq::new(
        ((vals.len() + 1) / 2) as nat,
        |k: int|
            vals[2 * k] * 27 + if 2 * k + 1 < vals.len() {
                vals[2 * k + 1]
            } else {
                0
            },
    )
}

/// The message for a character that is no sip letter.
pub open spec fn symbol_error(c: char) -> Seq<char> {
    "Invalid symbol '"@ + seq![c] + "'"@
}

impl MachineView {
    /// Writing `words` at consecutive addresses from `addr` on, up to the first write
    /// that fails.
    pub open spec fn write_words(self, region: RegionType, addr: int, words: Seq<int>) -> (
        MachineView,
        Result<(), Seq<char>>,
    )
        decreases words.len(),
    {
        if words.len() == 0 {
            (self, Ok(()))
        } else {
            match self.write(region, addr, words[0] as i16) {
                Err(e) => (self, Err(e)),
                Ok(m) => if addr + 1 > 729 {
                    (m, Err("address limit reached!"@))
                } else {
                    m.write_words(region, addr + 1, words.drop_first())
                },
            }
        }
    }

    /// Writing a text of sip letters, two letters to a word, from `start` on.
    pub open spec fn write_stream(self, region: RegionType, start: int, data: Seq<char>) -> (
        MachineView,
        Result<(), Seq<char>>,
    ) {
        let bad = first_non_sip(data);
        if bad < data.len() {
            (self, Err(symbol_error(data[bad])))
        } else {
            self.write_words(region, start, stream_words(text_sips(data)))
        }
    }

    /// Running up to `limit` instructions, while the machine is not paused; stops at
    /// an unknown opcode, an error or an overflow.
    pub open spec fn run(self, limit: nat) -> (MachineView, StepOutcome)
        decreases limit,
    {
        if self.paused || limit == 0 {
            (self, StepOutcome::Done)
        } else {
            let (m, o) = self.step();
            match o {
                StepOutcome::Done => m.run((limit - 1) as nat),
                _ => (m, o),
            }
        }
    }
}

/// The machine as it starts: every register and word zero, running.
pub open spec fn initial_machine() -> MachineView {
    MachineView {
        pc: 0,
        a: 0,
        b: 0,
        sar: 0,
        srr: 0,
        paused: false,
        ram: Seq::new(729, |i: int| 0i16),
        sto: Seq::new(729, |i: int| 0i16),
    }
}

/// An opcode word that selects no instruction, and where it was fetched from (as the
/// machine reports it: one below the program counter after the fetch).
#[derive(Debug, Clone, Copy, PartialEq, Eq, Structural)]
pub struct UnknownOpcode {
    pub at: i16,
    pub opcode: i16,
}

/// Why the machine stopped short.
#[derive(Debug)]
pub enum Fault {
    /// An error the simulator reports, after which it goes on.
    Error(String),
    /// 16-bit arithmetic overflowed; the simulator stops there.
    Overflow,
    /// A command lacks the argument it reads; the simulator stops there.
    MissingArgument,
}

/// The outcome of one step as the machine reports it.
pub open spec fn step_result_matches(r: Result<Option<UnknownOpcode>, Fault>, o: StepOutcome) -> bool {
    match o {
        StepOutcome::Done => r == Ok::<Option<UnknownOpcode>, Fault>(None),
        StepOutcome::Unknown { at, opcode } => r matches Ok(Some(u)) && u.at == at && u.opcode
            == opcode,
        StepOutcome::Failed(e) => r matches Err(Fault::Error(m)) && m@ == e,
        StepOutcome::Overflow => r matches Err(Fault::Overflow),
    }
}

/// The simulated machine.
pub struct Machine {
    pub pc: i16,
    pub a: i16,
    pub b: i16,
    pub sar: i16,
    pub srr: i16,
    pub paused: bool,
    pub ram: Vec<i16>,
    pub sto: Vec<i16>,
}

impl View for Machine {
    type V = MachineView;

    open spec fn view(&self) -> MachineView {
        MachineView {
            pc: self.pc as int,
            a: self.a as int,
            b: self.b as int,
            sar: self.sar as int,
            srr: self.srr as int,
            paused: self.paused,
            ram: self.ram@,
            sto: self.sto@,
        }
    }
}

fn text_with_number(prefix: &str, n: i16) -> (m: String)
    ensures
        m@ == prefix@ + decimal(n as int),
{
    let mut cs: Vec<char> = Vec::new();
    push_str(&mut cs, prefix);
    let digits = decimal_chars(n as i64);
    push_chars(&mut cs, &digits);
    string_of(&cs)
}

fn error_with_number(prefix: &str, n: i16, suffix: &str) -> (m: String)
    ensures
        m@ == prefix@ + decimal(n as int) + suffix@,
{
    let mut cs: Vec<char> = Vec::new();
    push_str(&mut cs, prefix);
    let digits = decimal_chars(n as i64);
    push_chars(&mut cs, &digits);
    push_str(&mut cs, suffix);
    string_of(&cs)
}

impl Machine {
    /// The word at `addr` (cell `addr + HALF_WORD`) of a region, or the error for an
    /// address outside it.
    pub fn read_word(&self, region: RegionType, addr: i16) -> (r: Result<i16, String>)
        requires
            addr + 364 <= i16::MAX,
        ensures
            r is Ok <==> self@.read(region, addr as int) is Ok,
            r matches Ok(w) ==> self@.read(region, addr as int) == Ok::<int, Seq<char>>(w as int),
            r matches Err(m) ==> self@.read(region, addr as int) == Err::<int, Seq<char>>(m@),
    {
        let idx = addr + HALF_WORD;
        let cells = match region {
            RegionType::Ram => &self.ram,
            RegionType::Sto => &self.sto,
        };
        if 0 <= idx && (idx as usize) < cells.len() {
            Ok(cells[idx as usize])
        } else {
            Err(error_with_number("Address ", addr, " out of range!"))
        }
    }

    /// Writes `value` at `addr` of a region, or reports an address outside it and
    /// changes nothing.
    pub fn write_word(&mut self, region: RegionType, addr: i16, value: i16) -> (r: Result<(), String>)
        requires
            addr + 364 <= i16::MAX,
        ensures
            r is Ok <==> old(self)@.write(region, addr as int, value) is Ok,
            r is Ok ==> old(self)@.write(region, addr as int, value) == Ok::<MachineView, Seq<char>>(final(self)@),
            r matches Err(m) ==> old(self)@.write(region, addr as int, value) == Err::<MachineView, Seq<char>>(m@)
                && final(self)@ == old(self)@,
    {
        let idx = addr + HALF_WORD;
        let len = match region {
            RegionType::Ram => self.ram.len(),
            RegionType::Sto => self.sto.len(),
        };
        if 0 <= idx && (idx as usize) < len {
            match region {
                RegionType::Ram => self.ram.set(idx as usize, value),
                RegionType::Sto => self.sto.set(idx as usize, value),
            }
            Ok(())
        } else {
            Err(error_with_number("Address ", addr, " out of range!"))
        }
    }

    /// Fetches the RAM word at the program counter and moves the counter one step away
    /// from zero; reports a counter that leaves the words.
    pub fn advance_pc(&mut self) -> (r: Result<i16, String>)
        requires
            old(self)@.wf(),
        ensures
            final(self)@ == old(self)@.advance().0,
            r is Ok <==> old(self)@.advance().1 is Ok,
            r matches Ok(w) ==> old(self)@.advance().1 == Ok::<int, Seq<char>>(w as int),
            r matches Err(m) ==> old(self)@.advance().1 == Err::<int, Seq<char>>(m@),
    {
        let word = match self.read_word(RegionType::Ram, self.pc) {
            Ok(w) => w,
            Err(e) => return Err(e),
        };
        if self.pc >= 0 {
            self.pc += 1;
            if self.pc > HALF_WORD {
                return Err(text_with_number("PC is out of bounds: ", self.pc));
            }
        } else {
            self.pc -= 1;
            if self.pc < -HALF_WORD {
                return Err(text_with_number("PC is out of bounds: ", self.pc));
            }
        }
        Ok(word)
    }

    /// Runs one instruction.
    pub fn step(&mut self) -> (r: Result<Option<UnknownOpcode>, Fault>)
        requires
            old(self)@.wf(),
        ensures
            final(self)@ == old(self)@.step().0,
            step_result_matches(r, old(self)@.step().1),
            final(self)@.wf(),
    {
        proof {
            law_step_keeps_wf(self@);
            lemma_advance_wf(self@);
        }
        let opcode = match self.advance_pc() {
            Ok(w) => w,
            Err(e) => return Err(Fault::Error(e)),
        };
        let op = Op::from_i16(opcode);
        let ghost m1 = self@;
        proof {
            lemma_advance_wf(m1);
            lemma_load_b_wf(m1);
        }
        match op {
            Op::Nop => {},
            Op::Hlt => self.paused = true,
            Op::Cla => {
                self.a = 0;
                self.b = 0;
                self.srr = 0;
            },
            Op::Lra => {
                let operand = match self.advance_pc() {
                    Ok(w) => w,
                    Err(e) => return Err(Fault::Error(e)),
                };
                match self.read_word(RegionType::Ram, operand) {
                    Ok(w) => self.a = w,
                    Err(e) => return Err(Fault::Error(e)),
                }
            },
            Op::Sra => {
                let operand = match self.advance_pc() {
                    Ok(w) => w,
                    Err(e) => return Err(Fault::Error(e)),
                };
                let a = self.a;
                match self.write_word(RegionType::Ram, operand, a) {
                    Ok(()) => {},
                    Err(e) => return Err(Fault::Error(e)),
                }
            },
            Op::Lsa => {
                let sar = self.sar;
                match self.read_word(RegionType::Sto, sar) {
                    Ok(w) => self.a = w,
                    Err(e) => return Err(Fault::Error(e)),
                }
                self.sar = (self.sar + 1) % HALF_WORD;
            },
            Op::Ssa => {
                let operand = match self.advance_pc() {
                    Ok(w) => w,
                    Err(e) => return Err(Fault::Error(e)),
                };
                let a = self.a;
                match self.write_word(RegionType::Sto, operand, a) {
                    Ok(()) => {},
                    Err(e) => return Err(Fault::Error(e)),
                }
            },
            Op::Lpa => self.a = self.sar,
            Op::Spa => self.sar = self.a,
            Op::Lia => {
                match self.advance_pc() {
                    Ok(w) => self.a = w,
                    Err(e) => return Err(Fault::Error(e)),
                }
            },
            Op::Mul | Op::Add | Op::Sub => {
                let operand = match self.advance_pc() {
                    Ok(w) => w,
                    Err(e) => return Err(Fault::Error(e)),
                };
                match self.read_word(RegionType::Ram, operand) {
                    Ok(w) => self.b = w,
                    Err(e) => return Err(Fault::Error(e)),
                }
                let a = self.a as i32;
                let b = self.b as i32;
                assert(-0x4000_0000 <= a * b <= 0x4000_0000) by (nonlinear_arith)
                    requires
                        -32768 <= a <= 32767,
                        -32768 <= b <= 32767,
                ;
                let x: i32 = match op {
                    Op::Mul => a * b,
                    Op::Add => a + b,
                    _ => a - b,
                };
                if x < -32768 || x > 32767 {
                    return Err(Fault::Overflow);
                }
                self.a = (x % (HALF_WORD as i32)) as i16;
            },
            Op::Jmp => {
                match self.advance_pc() {
                    Ok(w) => self.pc = w,
                    Err(e) => return Err(Fault::Error(e)),
                }
            },
            Op::Jnz => {
                let target = match self.advance_pc() {
                    Ok(w) => w,
                    Err(e) => return Err(Fault::Error(e)),
                };
                if self.a != 0 {
                    self.pc = target;
                }
            },
            Op::Jms => {
                let target = match self.advance_pc() {
                    Ok(w) => w,
                    Err(e) => return Err(Fault::Error(e)),
                };
                if self.a > 0 {
                    self.pc = target;
                } else if self.a < 0 {
                    self.pc = -target;
                }
            },
            Op::Rte => {
                self.srr = self.pc + 1;
                proof {
                    lemma_advance_wf(self@);
                }
                match self.advance_pc() {
                    Ok(w) => self.pc = w,
                    Err(e) => return Err(Fault::Error(e)),
                }
            },
            Op::Rtr => self.pc = self.srr,
            Op::Unknown => {
                self.paused = true;
                return Ok(Some(UnknownOpcode { at: self.pc - 1, opcode }));
            },
        }
        Ok(None)
    }
}

/// Fetching keeps the machine well formed; a fetched word is a word, and after a
/// successful fetch the counter is within the words.
proof fn lemma_advance_wf(m: MachineView)
    requires
        m.wf(),
    ensures
        m.advance().0.wf(),
        m.advance().1 matches Ok(w) ==> is_word(w) && is_word(m.advance().0.pc),
        m.advance().0.ram == m.ram && m.advance().0.sto == m.sto,
{
}

proof fn lemma_load_b_wf(m: MachineView)
    requires
        m.wf(),
    ensures
        m.load_b().0.wf(),
        m.load_b().1 matches Ok(w) ==> is_word(w) && is_word(m.load_b().0.pc),
{
    lemma_advance_wf(m);
}

proof fn lemma_trunc_rem_word(x: int)
    ensures
        is_word(trunc_rem(x, 364)),
{
}

proof fn lemma_write_wf(m: MachineView, region: RegionType, addr: int, value: i16)
    requires
        m.wf(),
        is_word(value as int),
    ensures
        m.write(region, addr, value) matches Ok(m2) ==> m2.wf(),
{
    if let Ok(m2) = m.write(region, addr, value) {
        assert forall|i: int| 0 <= i < 729 implies is_word(#[trigger] m2.ram[i] as int) by {
            if region == RegionType::Ram && i == addr + 364 {
            } else {
                assert(m2.ram[i] == m.ram[i]);
            }
        }
        assert forall|i: int| 0 <= i < 729 implies is_word(#[trigger] m2.sto[i] as int) by {
            if region == RegionType::Sto && i == addr + 364 {
            } else {
                assert(m2.sto[i] == m.sto[i]);
            }
        }
    }
}

/// Every step keeps the machine well formed.
pub proof fn law_step_keeps_wf(m: MachineView)
    requires
        m.wf(),
    ensures
        m.step().0.wf(),
{
    lemma_advance_wf(m);
    let (m1, r) = m.advance();
    if let Ok(opcode) = r {
        lemma_advance_wf(m1);
        lemma_load_b_wf(m1);
        let (m2, r2) = m1.advance();
        if let Ok(operand) = r2 {
            lemma_write_wf(m2, RegionType::Ram, operand, m2.a as i16);
            lemma_write_wf(m2, RegionType::Sto, operand, m2.a as i16);
        }
        let m0 = MachineView { srr: m1.pc + 1, ..m1 };
        lemma_advance_wf(m0);
        lemma_trunc_rem_word(m1.sar + 1);
        let (m3, r3) = m1.load_b();
        if let Ok(w) = r3 {
            lemma_trunc_rem_word(m3.a * w);
            lemma_trunc_rem_word(m3.a + w);
            lemma_trunc_rem_word(m3.a - w);
        }
    }
}


impl Default for Machine {
    fn default() -> (m: Self)
        ensures
            m@ == initial_machine(),
    {
        let m = Machine {
            pc: 0,
            a: 0,
            b: 0,
            sar: 0,
            srr: 0,
            paused: false,
            ram: vec![0; RAM_SIZE],
            sto: vec![0; STO_SIZE],
        };
        assert(m.ram@ =~= Seq::new(729, |i: int| 0i16));
        assert(m.sto@ =~= Seq::new(729, |i: int| 0i16));
        m
    }
}

impl Machine {
    /// Runs instructions until the machine pauses or `limit` of them have run; stops
    /// at the first unknown opcode (reported), error or overflow.
    pub fn run(&mut self, limit: usize) -> (r: Result<Option<UnknownOpcode>, Fault>)
        requires
            old(self)@.wf(),
        ensures
            final(self)@ == old(self)@.run(limit as nat).0,
            step_result_matches(r, old(self)@.run(limit as nat).1),
            final(self)@.wf(),
    {
        let mut steps: usize = 0;
        while steps < limit && !self.paused
            invariant
                steps <= limit,
                self@.wf(),
                old(self)@.run(limit as nat) == self@.run((limit - steps) as nat),
            decreases limit - steps,
        {
            match self.step() {
                Ok(None) => {},
                Ok(Some(u)) => return Ok(Some(u)),
                Err(f) => return Err(f),
            }
            steps += 1;
        }
        Ok(None)
    }

    /// Writes a text of sip letters into a region, two letters to a word (high sip
    /// first), at consecutive addresses from `start` on.
    pub fn write_stream(&mut self, region: RegionType, start: i16, data: &str) -> (r: Result<(), String>)
        requires
            old(self)@.wf(),
            start + 364 <= i16::MAX,
        ensures
            final(self)@ == old(self)@.write_stream(region, start as int, data@).0,
            r is Ok <==> old(self)@.write_stream(region, start as int, data@).1 is Ok,
            r matches Err(m) ==> old(self)@.write_stream(region, start as int, data@).1 == Err::<(), Seq<char>>(m@),
            final(self)@.wf(),
    {
        let mut values: Vec<i16> = Vec::new();
        let ghost d = data@;
        let ghost start_state = self@;
        for c in it: data.chars()
            invariant
                it.seq() == d,
                d == data@,
                self@ == start_state,
                start_state == old(self)@,
                start_state.wf(),
                values@.len() == it.index(),
                forall|j: int| 0 <= j < it.index() ==> (#[trigger] char_sip(d[j])) is Some,
                forall|j: int| 0 <= j < it.index() ==> char_sip(d[j]) == Some(#[trigger] values@[j] as int),
        {
            let ghost i = it.index();
            match char_to_digit(c) {
                Some(v) => values.push(v),
                None => {
                    proof {
                        assert(c == d[i]);
                        lemma_first_non_sip(d, i);
                    }
                    let mut m: Vec<char> = Vec::new();
                    push_str(&mut m, "Invalid symbol '");
                    m.push(c);
                    push_str(&mut m, "'");
                    assert(m@ =~= symbol_error(c));
                    return Err(string_of(&m));
                },
            }
        }
        proof {
            lemma_all_sips(d);
            assert(values@.map_values(|v: i16| v as int) =~= text_sips(d));
        }
        let ghost vals = text_sips(d);
        let ghost words = stream_words(vals);
        let ghost orig = self@;
        let mut addr = start;
        let mut i: usize = 0;
        assert(words.skip(0) =~= words);
        assert(forall|j: int| 0 <= j < vals.len() ==> -13 <= #[trigger] vals[j] <= 13);
        while i < values.len()
            invariant
                vals == values@.map_values(|v: i16| v as int),
                words == stream_words(vals),
                orig == old(self)@,
                d == data@,
                forall|j: int| 0 <= j < vals.len() ==> -13 <= #[trigger] vals[j] <= 13,
                i % 2 == 0,
                i <= values.len() + 1,
                addr + 364 <= i16::MAX,
                addr == start + i / 2,
                self@.wf(),
                orig.write_stream(region, start as int, d) == self@.write_words(region, addr as int, words.skip(i as int / 2)),
            decreases values.len() + 1 - i,
        {
            let hi = values[i];
            let lo = if i + 1 < values.len() {
                values[i + 1]
            } else {
                0
            };
            let word = hi * SIP_SIZE + lo;
            proof {
                assert(words.skip(i as int / 2)[0] == word as int);
                assert(words.skip(i as int / 2).drop_first() =~= words.skip(i as int / 2 + 1));
                lemma_write_wf(self@, region, addr as int, word);
                let ws = words.skip(i as int / 2);
                assert(ws.len() > 0);
                assert(ws[0] as i16 == word);
            }
            match self.write_word(region, addr, word) {
                Ok(()) => {},
                Err(e) => return Err(e),
            }
            addr += 1;
            if addr > WORD_SIZE {
                let mut m: Vec<char> = Vec::new();
                push_str(&mut m, "address limit reached!");
                return Err(string_of(&m));
            }
            i += 2;
        }
        proof {
            assert(words.skip(i as int / 2).len() == 0);
        }
        Ok(())
    }
}

proof fn lemma_first_non_sip(d: Seq<char>, i: int)
    requires
        0 <= i < d.len(),
        char_sip(d[i]) is None,
        forall|j: int| 0 <= j < i ==> (#[trigger] char_sip(d[j])) is Some,
    ensures
        first_non_sip(d) == i,
    decreases i,
{
    if i > 0 {
        assert(char_sip(d[0]) is Some);
        lemma_first_non_sip(d.drop_first(), i - 1);
    }
}

proof fn lemma_all_sips(d: Seq<char>)
    requires
        forall|j: int| 0 <= j < d.len() ==> (#[trigger] char_sip(d[j])) is Some,
    ensures
        first_non_sip(d) == d.len(),
    decreases d.len(),
{
    if d.len() > 0 {
        assert(char_sip(d[0]) is Some);
        lemma_all_sips(d.drop_first());
    }
}

// ---------------------------------------------------------------- codes and reports

/// The word code of `value` on this machine: two letters, more for numbers beyond
/// the words.
pub fn i16_to_code(value: i16) -> (code: String)
    ensures
        code@ == word_code(value as int, 2),
{
    let chars = encode_word(value, SIP_PER_WORD as usize);
    string_of(&chars)
}

/// Reads a word of this machine: sip letters, or else a decimal number; it must lie
/// in `-HALF_WORD..=HALF_WORD`.
pub fn code_to_i16(token: &str) -> (r: Result<i16, String>)
    requires
        !code_overflows(token@),
    ensures
        r is Ok <==> spec_code_to_word(token@, 364) is Ok,
        r matches Ok(v) ==> spec_code_to_word(token@, 364) == Ok::<int, Seq<char>>(v as int),
        r matches Err(m) ==> spec_code_to_word(token@, 364) == Err::<int, Seq<char>>(m@),
{
    decode_word(token, HALF_WORD)
}

/// The texts of a sequence of strings.
pub open spec fn string_texts(v: Seq<String>) -> Seq<Seq<char>> {
    v.map_values(|s: String| s@)
}

impl MachineView {
    /// The cells of one dump row from `cur` on: up to `count` words, none past `end`,
    /// each as a space and its code.
    pub open spec fn row_cells(self, region: RegionType, cur: int, count: nat, end: int) -> Result<
        Seq<char>,
        Seq<char>,
    >
        decreases count,
    {
        if count == 0 || cur > end {
            Ok(Seq::empty())
        } else {
            match self.read(region, cur) {
                Err(e) => Err(e),
                Ok(w) => match self.row_cells(region, cur + 1, (count - 1) as nat, end) {
                    Err(e) => Err(e),
                    Ok(rest) => Ok(" "@ + word_code(w, 2) + rest),
                },
            }
        }
    }

    /// The dump of a region from `addr` to `end`: a row per 27 words, each the code of
    /// its first address, a colon, and the codes of its words. Rows up to the first
    /// failed read, and that read's error.
    pub open spec fn dump(self, region: RegionType, addr: int, end: int) -> (
        Seq<Seq<char>>,
        Result<(), Seq<char>>,
    )
        decreases end - addr + 27,
    {
        if addr > end {
            (Seq::empty(), Ok(()))
        } else {
            match self.row_cells(region, addr, 27, end) {
                Err(e) => (Seq::empty(), Err(e)),
                Ok(cells) => {
                    let line = word_code(addr, 2) + ":"@ + cells;
                    let (rest, r) = self.dump(region, addr + 27, end);
                    (seq![line] + rest, r)
                },
            }
        }
    }
}

/// `acc` in front of a row's remaining cells.
pub open spec fn cells_after(acc: Seq<char>, r: Result<Seq<char>, Seq<char>>) -> Result<
    Seq<char>,
    Seq<char>,
> {
    match r {
        Ok(rest) => Ok(acc + rest),
        Err(e) => Err(e),
    }
}

impl Machine {
    /// The cells of the dump row that starts at `addr`.
    fn dump_row_cells(&self, region: RegionType, addr: i16, end: i16) -> (r: Result<Vec<char>, String>)
        requires
            addr <= end,
            end + 364 <= i16::MAX,
        ensures
            r is Ok <==> self@.row_cells(region, addr as int, 27, end as int) is Ok,
            r matches Ok(c) ==> self@.row_cells(region, addr as int, 27, end as int) == Ok::<Seq<char>, Seq<char>>(c@),
            r matches Err(m) ==> self@.row_cells(region, addr as int, 27, end as int) == Err::<Seq<char>, Seq<char>>(m@),
    {
        let mut cells: Vec<char> = Vec::new();
        let mut offset: i16 = 0;
        assert(cells_after(cells@, self@.row_cells(region, addr as int, 27, end as int)) =~= self@.row_cells(region, addr as int, 27, end as int));
        while offset < SIP_SIZE
            invariant
                0 <= offset <= 27,
                addr <= end,
                end + 364 <= i16::MAX,
                self@.row_cells(region, addr as int, 27, end as int) == cells_after(
                    cells@,
                    self@.row_cells(region, addr + offset, (27 - offset) as nat, end as int),
                ),
            decreases 27 - offset,
        {
            let cur = addr + offset;
            if cur > end {
                assert(cells@ + Seq::<char>::empty() =~= cells@);
                return Ok(cells);
            }
            let word = match self.read_word(region, cur) {
                Ok(w) => w,
                Err(e) => return Err(e),
            };
            let ghost before = cells@;
            cells.push(' ');
            let wc = encode_word(word, SIP_PER_WORD as usize);
            push_chars(&mut cells, &wc);
            proof {
                reveal_strlit(" ");
                assert(cells@ =~= before + " "@ + word_code(word as int, 2));
                let next = self@.row_cells(region, cur + 1, (27 - offset - 1) as nat, end as int);
                if let Ok(rest) = next {
                    assert(before + (" "@ + word_code(word as int, 2) + rest) =~= cells@ + rest);
                }
            }
            offset += 1;
        }
        assert(cells@ + Seq::<char>::empty() =~= cells@);
        Ok(cells)
    }

    /// The rows of a region from `start` to `end`, 27 words to a row; stops at the
    /// first word that cannot be read and reports it.
    pub fn dump_region(&self, region: RegionType, start: i16, end: i16) -> (out: (
        Vec<String>,
        Result<(), String>,
    ))
        requires
            end + 364 <= i16::MAX,
        ensures
            string_texts(out.0@) == self@.dump(region, start as int, end as int).0,
            out.1 is Ok <==> self@.dump(region, start as int, end as int).1 is Ok,
            out.1 matches Err(m) ==> self@.dump(region, start as int, end as int).1 == Err::<(), Seq<char>>(m@),
    {
        let mut lines: Vec<String> = Vec::new();
        let mut addr = start;
        let ghost whole = self@.dump(region, start as int, end as int);
        assert(string_texts(lines@) + whole.0 =~= whole.0);
        while addr <= end
            invariant
                end + 364 <= i16::MAX,
                whole == self@.dump(region, start as int, end as int),
                whole.0 == string_texts(lines@) + self@.dump(region, addr as int, end as int).0,
                whole.1 == self@.dump(region, addr as int, end as int).1,
            decreases end - addr,
        {
            let cells = match self.dump_row_cells(region, addr, end) {
                Ok(c) => c,
                Err(e) => {
                    assert(string_texts(lines@) + Seq::<Seq<char>>::empty() =~= string_texts(lines@));
                    return (lines, Err(e));
                },
            };
            let mut line: Vec<char> = Vec::new();
            let code = encode_word(addr, SIP_PER_WORD as usize);
            push_chars(&mut line, &code);
            line.push(':');
            push_chars(&mut line, &cells);
            proof {
                reveal_strlit(":");
                assert(line@ =~= word_code(addr as int, 2) + ":"@ + cells@);
            }
            let ghost before_lines = lines@;
            let ghost rest = self@.dump(region, addr + 27, end as int);
            lines.push(string_of(&line));
            proof {
                assert(string_texts(lines@) =~= string_texts(before_lines).push(line@));
                assert(string_texts(before_lines) + (seq![line@] + rest.0) =~= string_texts(lines@) + rest.0);
            }
            if end - addr < SIP_SIZE {
                assert(string_texts(lines@) + Seq::<Seq<char>>::empty() =~= string_texts(lines@));
                return (lines, Ok(()));
            }
            addr += SIP_SIZE;
        }
        assert(string_texts(lines@) + Seq::<Seq<char>>::empty() =~= string_texts(lines@));
        (lines, Ok(()))
    }
}

/// `true` or `false`, as `{}` prints a `bool`.
pub open spec fn bool_text(b: bool) -> Seq<char> {
    if b {
        "true"@
    } else {
        "false"@
    }
}

/// A register shown as `NAME: decimal (code)`.
pub open spec fn register_line(name: Seq<char>, v: int) -> Seq<char> {
    name + ": "@ + decimal(v) + " ("@ + word_code(v, 2) + ")"@
}

impl MachineView {
    /// The state report: the registers and the pause flag, and with `all` both
    /// regions dumped whole.
    pub open spec fn report(self, all: bool) -> Seq<Seq<char>> {
        let head = seq![
            register_line("PC"@, self.pc),
            register_line("A"@, self.a),
            register_line("B"@, self.b),
            register_line("SAR"@, self.sar),
            "Paused: "@ + bool_text(self.paused),
        ];
        if all {
            head + seq![""@, "RAM:"@] + self.dump(RegionType::Ram, -364, 364).0 + seq![""@, "STO:"@]
                + self.dump(RegionType::Sto, -364, 364).0
        } else {
            head
        }
    }
}

proof fn lemma_row_cells_ok(m: MachineView, region: RegionType, cur: int, count: nat)
    requires
        m.wf(),
        -364 <= cur,
    ensures
        m.row_cells(region, cur, count, 364) is Ok,
    decreases count,
{
    if count > 0 && cur <= 364 {
        lemma_row_cells_ok(m, region, cur + 1, (count - 1) as nat);
    }
}

/// A well-formed machine dumps a region from any of its addresses up to `HALF_WORD`
/// without error (so the state report never meets one).
pub proof fn law_dump_whole_region(m: MachineView, region: RegionType, addr: int)
    requires
        m.wf(),
        -364 <= addr,
    ensures
        m.dump(region, addr, 364).1 is Ok,
    decreases 364 - addr + 27,
{
    if addr <= 364 {
        lemma_row_cells_ok(m, region, addr, 27);
        law_dump_whole_region(m, region, addr + 27);
    }
}

fn register_line_text(name: &str, v: i16) -> (line: String)
    ensures
        line@ == register_line(name@, v as int),
{
    let mut cs: Vec<char> = Vec::new();
    push_str(&mut cs, name);
    push_str(&mut cs, ": ");
    let digits = decimal_chars(v as i64);
    push_chars(&mut cs, &digits);
    push_str(&mut cs, " (");
    let code = encode_word(v, SIP_PER_WORD as usize);
    push_chars(&mut cs, &code);
    push_str(&mut cs, ")");
    string_of(&cs)
}


/// Appends copies of `more` to `lines`.
pub fn append_lines(lines: &mut Vec<String>, more: &Vec<String>)
    ensures
        string_texts(final(lines)@) == string_texts(old(lines)@) + string_texts(more@),
{
    let ghost start = string_texts(lines@);
    let mut i: usize = 0;
    while i < more.len()
        invariant
            i <= more.len(),
            string_texts(lines@) == start + string_texts(more@).take(i as int),
        decreases more.len() - i,
    {
        let ghost before = lines@;
        let c = more[i].clone();
        lines.push(c);
        proof {
            assert(string_texts(lines@) =~= string_texts(before).push(c@));
            assert(string_texts(more@).take(i as int + 1) =~= string_texts(more@).take(i as int).push(
                more@[i as int]@,
            ));
            assert(start + string_texts(more@).take(i as int + 1) =~= (start + string_texts(more@).take(
                i as int,
            )).push(c@));
        }
        i += 1;
    }
    assert(string_texts(more@).take(i as int) =~= string_texts(more@));
}

impl Machine {
    fn register_report(&self) -> (lines: Vec<String>)
        ensures
            string_texts(lines@) == self@.report(false),
    {
        let mut lines: Vec<String> = Vec::new();
        lines.push(register_line_text("PC", self.pc));
        lines.push(register_line_text("A", self.a));
        lines.push(register_line_text("B", self.b));
        lines.push(register_line_text("SAR", self.sar));
        let mut paused: Vec<char> = Vec::new();
        push_str(&mut paused, "Paused: ");
        if self.paused {
            push_str(&mut paused, "true");
        } else {
            push_str(&mut paused, "false");
        }
        lines.push(string_of(&paused));
        assert(string_texts(lines@) =~= self@.report(false));
        lines
    }

    /// The lines that show the machine's state: the registers in decimal and as codes,
    /// whether it is paused, and with `all` both regions dumped whole.
    pub fn state_report(&self, all: bool) -> (lines: Vec<String>)
        requires
            self@.wf(),
        ensures
            string_texts(lines@) == self@.report(all),
    {
        let mut lines = self.register_report();
        if all {
            proof {
                law_dump_whole_region(self@, RegionType::Ram, -364);
                law_dump_whole_region(self@, RegionType::Sto, -364);
            }
            let mut ram_head: Vec<String> = Vec::new();
            ram_head.push(literal(""));
            ram_head.push(literal("RAM:"));
            let (ram_lines, ram_read) = self.dump_region(RegionType::Ram, -HALF_WORD, HALF_WORD);
            assert(ram_read is Ok);
            let mut sto_head: Vec<String> = Vec::new();
            sto_head.push(literal(""));
            sto_head.push(literal("STO:"));
            let (sto_lines, sto_read) = self.dump_region(RegionType::Sto, -HALF_WORD, HALF_WORD);
            assert(sto_read is Ok);
            append_lines(&mut lines, &ram_head);
            append_lines(&mut lines, &ram_lines);
            append_lines(&mut lines, &sto_head);
            append_lines(&mut lines, &sto_lines);
            assert(string_texts(ram_head@) =~= seq![""@, "RAM:"@]);
            assert(string_texts(sto_head@) =~= seq![""@, "STO:"@]);
        }
        lines
    }
}

/// Every word of this machine survives being written as a code and read back: for
/// `v` in `-HALF_WORD..=HALF_WORD`, `i16_to_code(v)` is two letters, reading them does
/// not overflow, and `code_to_i16` gives back `v`.
pub proof fn law_code_round_trip(v: i16)
    requires
        -364 <= v <= 364,
    ensures
        word_code(v as int, 2).len() == 2,
        !code_overflows(word_code(v as int, 2)),
        spec_code_to_word(word_code(v as int, 2), 364) == Ok::<int, Seq<char>>(v as int),
{
    assert(sip_bound(2) == 364) by {
        assert(sip_bound(0) == 0);
        assert(sip_bound(1) == 13);
    }
    lemma_word_code(v as int, 2);
    lemma_short_text_fits(word_code(v as int, 2));
}

/// Memory keeps what is written: a write at an address succeeds exactly where a read
/// there does; after it, reading there gives the written word, while every other
/// cell of either region and every register keep their values.
pub proof fn law_read_after_write(
    m: MachineView,
    region: RegionType,
    addr: int,
    value: i16,
    other: RegionType,
    addr2: int,
)
    ensures
        (m.write(region, addr, value) is Ok) == (m.read(region, addr) is Ok),
        m.write(region, addr, value) matches Ok(m2) ==> {
            &&& m2.read(region, addr) == Ok::<int, Seq<char>>(value as int)
            &&& (other != region || addr2 != addr) ==> m2.read(other, addr2) == m.read(other, addr2)
            &&& m2.pc == m.pc && m2.a == m.a && m2.b == m.b && m2.sar == m.sar && m2.srr == m.srr
            &&& m2.paused == m.paused
        },
{
}

/// Running in two stretches is running once: where a run of `a` steps ends without
/// an unknown opcode, an error or an overflow, running `b` more steps from there
/// gives what running `a + b` steps gives. (So a machine run again and again until it
/// pauses behaves as one run without a limit.)
pub proof fn law_run_in_stretches(m: MachineView, a: nat, b: nat)
    requires
        m.run(a).1 is Done,
    ensures
        m.run(a).0.run(b) == m.run(a + b),
    decreases a,
{
    if m.paused {
        assert(m.run(a).0 == m);
        assert(m.run(b) == (m, StepOutcome::Done));
        assert(m.run(a + b) == (m, StepOutcome::Done));
    } else if a > 0 {
        let (m1, o) = m.step();
        assert(o is Done);
        law_run_in_stretches(m1, (a - 1) as nat, b);
        assert((a - 1) as nat + b == (a + b - 1) as nat);
    }
}

/// The word at `addr` of RAM, for an address within the words.
pub open spec fn ram_at(m: MachineView, addr: int) -> int {
    m.ram[addr + 364] as int
}

/// The direction the counter moves from `pc`: up from zero and above, down below.
pub open spec fn pc_direction(pc: int) -> int {
    if pc >= 0 {
        1
    } else {
        -1
    }
}

/// `JNZ target` jumps exactly when `a` is not zero: after a completed step whose
/// opcode is 257, the counter is the target (the word after the opcode) when `a` is
/// not zero, and otherwise just past the target word, two places on from where the
/// opcode was; nothing but the counter changes.
pub proof fn law_jnz_jumps_on_nonzero(m: MachineView)
    requires
        m.wf(),
        is_word(m.pc),
        is_word(m.pc + pc_direction(m.pc)),
        ram_at(m, m.pc) == 257,
        m.step().1 is Done,
    ensures
        m.step().0.pc == (if m.a != 0 {
            ram_at(m, m.pc + pc_direction(m.pc))
        } else {
            m.pc + 2 * pc_direction(m.pc)
        }),
        m.step().0.a == m.a,
        m.step().0.b == m.b,
        m.step().0.ram == m.ram,
        m.step().0.sto == m.sto,
        m.step().0.paused == m.paused,
{
}


/// A run of words as the report shows them: each as a space and its two-sip code.
pub open spec fn cells_text(cs: Seq<i16>) -> Seq<char>
    decreases cs.len(),
{
    if cs.len() == 0 {
        Seq::empty()
    } else {
        " "@ + word_code(cs[0] as int, 2) + cells_text(cs.drop_first())
    }
}

/// Row `k` of a listing of a region's words: the code of its first address
/// (`27 * k - HALF_WORD`), a colon, and the codes of the 27 words from there.
pub open spec fn region_row(cells: Seq<i16>, k: int) -> Seq<char> {
    word_code(27 * k - 364, 2) + ":"@ + cells_text(cells.subrange(27 * k, 27 * k + 27))
}

proof fn lemma_row_cells_text(m: MachineView, region: RegionType, cur: int, count: nat)
    requires
        m.wf(),
        -364 <= cur,
        cur + count <= 365,
    ensures
        m.row_cells(region, cur, count, 364) == Ok::<Seq<char>, Seq<char>>(
            cells_text(m.cells(region).subrange(cur + 364, cur + 364 + count)),
        ),
    decreases count,
{
    let sub = m.cells(region).subrange(cur + 364, cur + 364 + count);
    if count > 0 {
        lemma_row_cells_text(m, region, cur + 1, (count - 1) as nat);
        assert(sub.drop_first() =~= m.cells(region).subrange(cur + 365, cur + 364 + count));
    } else {
        assert(sub.len() == 0);
    }
}

proof fn lemma_dump_rows(m: MachineView, region: RegionType, k: int)
    requires
        m.wf(),
        0 <= k <= 27,
    ensures
        m.dump(region, 27 * k - 364, 364).0 == Seq::new(
            (27 - k) as nat,
            |j: int| region_row(m.cells(region), k + j),
        ),
    decreases 27 - k,
{
    let rows = Seq::new((27 - k) as nat, |j: int| region_row(m.cells(region), k + j));
    if k < 27 {
        lemma_row_cells_text(m, region, 27 * k - 364, 27);
        lemma_dump_rows(m, region, k + 1);
        assert(27 * (k + 1) - 364 == 27 * k - 364 + 27);
        let rest = Seq::new((27 - (k + 1)) as nat, |j: int| region_row(m.cells(region), k + 1 + j));
        assert(seq![region_row(m.cells(region), k)] + rest =~= rows);
    } else {
        assert(rows =~= Seq::<Seq<char>>::empty());
    }
}

/// The full state report lists each region under its own heading: after the five
/// register lines and a blank line comes `RAM:`, then 27 rows of RAM, row `k` giving
/// the code of address `27 * k - HALF_WORD` and the codes of the RAM words from there;
/// then a blank line, `STO:`, and the same 27 rows of storage. 63 lines in all.
pub proof fn law_report_lists_regions(m: MachineView, k: int)
    requires
        m.wf(),
        0 <= k < 27,
    ensures
        m.report(true).len() == 63,
        m.report(true)[5] == ""@,
        m.report(true)[6] == "RAM:"@,
        m.report(true)[7 + k] == region_row(m.ram, k),
        m.report(true)[34] == ""@,
        m.report(true)[35] == "STO:"@,
        m.report(true)[36 + k] == region_row(m.sto, k),
{
    lemma_dump_rows(m, RegionType::Ram, 0);
    lemma_dump_rows(m, RegionType::Sto, 0);
}

/// The instructions without an operand that only move words between registers: after
/// a completed step, the counter is one place on, and
/// - `NOP` (0) changes nothing else;
/// - `HLT` (8) pauses the machine;
/// - `CLA` (3) clears `a`, `b` and the return register;
/// - `LPA` (40) copies the storage address register into `a`, `SPA` (38) copies `a`
///   into it;
/// - `LSA` (37) loads `a` with the storage word at that register and moves the
///   register one on (as Rust's `%` by `HALF_WORD` leaves it).
pub proof fn law_register_instructions(m: MachineView)
    requires
        m.wf(),
        m.step().1 is Done,
    ensures
        ({
            let next = m.step().0;
            let on = m.pc + pc_direction(m.pc);
            let op = ram_at(m, m.pc);
            &&& op == 0 ==> next == (MachineView { pc: on, ..m })
            &&& op == 8 ==> next == (MachineView { pc: on, paused: true, ..m })
            &&& op == 3 ==> next == (MachineView { pc: on, a: 0, b: 0, srr: 0, ..m })
            &&& op == 40 ==> next == (MachineView { pc: on, a: m.sar, ..m })
            &&& op == 38 ==> next == (MachineView { pc: on, sar: m.a, ..m })
            &&& op == 37 ==> next == (MachineView {
                pc: on,
                a: m.sto[m.sar + 364] as int,
                sar: trunc_rem(m.sar + 1, 364),
                ..m
            })
        }),
{
}

/// The instructions with an operand that load or store: after a completed step the
/// counter is past the operand (two places on), and
/// - `LIA` (36) loads the operand itself into `a`;
/// - `LRA` (28) loads `a` with the RAM word the operand addresses;
/// - `SRA` (26) and `SSA` (35) store `a` at the operand's address of RAM and of
///   storage.
pub proof fn law_memory_instructions(m: MachineView)
    requires
        m.wf(),
        m.step().1 is Done,
    ensures
        ({
            let next = m.step().0;
            let dir = pc_direction(m.pc);
            let past = m.pc + 2 * dir;
            let op = ram_at(m, m.pc);
            let operand = ram_at(m, m.pc + dir);
            &&& op == 36 ==> next == (MachineView { pc: past, a: operand, ..m })
            &&& op == 28 ==> next == (MachineView { pc: past, a: ram_at(m, operand), ..m })
            &&& op == 26 ==> next == (MachineView {
                pc: past,
                ram: m.ram.update(operand + 364, m.a as i16),
                ..m
            })
            &&& op == 35 ==> next == (MachineView {
                pc: past,
                sto: m.sto.update(operand + 364, m.a as i16),
                ..m
            })
        }),
{
}

/// The arithmetic instructions: `ADD` (352), `SUB` (343) and `MUL` (364) load `b` with
/// the RAM word the operand addresses and set `a` to the sum, difference or product
/// of `a` and `b`, reduced as Rust's `%` by `HALF_WORD` reduces it; the counter ends
/// past the operand. A product that leaves the 16-bit range stops the step with an
/// overflow, and only a product can.
pub proof fn law_arithmetic_instructions(m: MachineView)
    requires
        m.wf(),
        is_word(m.pc),
        is_word(m.pc + 2 * pc_direction(m.pc)),
        is_word(ram_at(m, m.pc + pc_direction(m.pc))),
    ensures
        ({
            let (next, outcome) = m.step();
            let dir = pc_direction(m.pc);
            let past = m.pc + 2 * dir;
            let op = ram_at(m, m.pc);
            let w = ram_at(m, ram_at(m, m.pc + dir));
            &&& op == 352 ==> outcome is Done && next == (MachineView {
                pc: past,
                b: w,
                a: trunc_rem(m.a + w, 364),
                ..m
            })
            &&& op == 343 ==> outcome is Done && next == (MachineView {
                pc: past,
                b: w,
                a: trunc_rem(m.a - w, 364),
                ..m
            })
            &&& op == 364 && fits_i16(m.a * w) ==> outcome is Done && next == (MachineView {
                pc: past,
                b: w,
                a: trunc_rem(m.a * w, 364),
                ..m
            })
            &&& op == 364 && !fits_i16(m.a * w) ==> outcome is Overflow
        }),
{
}

/// The jumps, after a completed step:
/// - `JMP` (283) sets the counter to its operand;
/// - `JMS` (262) to its operand where `a` is above zero, to the operand negated where
///   `a` is below zero, and past the operand where `a` is zero;
/// - `RTE` (-238) jumps to its operand and keeps in the return register the address
///   one above the operand's;
/// - `RTR` (-252) sets the counter to the return register.
/// Nothing else changes.
pub proof fn law_jump_instructions(m: MachineView)
    requires
        m.wf(),
        m.step().1 is Done,
    ensures
        ({
            let next = m.step().0;
            let dir = pc_direction(m.pc);
            let op = ram_at(m, m.pc);
            let operand = ram_at(m, m.pc + dir);
            &&& op == 283 ==> next == (MachineView { pc: operand, ..m })
            &&& op == 262 ==> next == (MachineView {
                pc: if m.a > 0 {
                    operand
                } else if m.a < 0 {
                    -operand
                } else {
                    m.pc + 2 * dir
                },
                ..m
            })
            &&& op == -238 ==> next == (MachineView { pc: operand, srr: m.pc + dir + 1, ..m })
            &&& op == -252 ==> next == (MachineView { pc: m.srr, ..m })
        }),
{
}

/// A word that selects no instruction pauses the machine: the step reports it as an
/// unknown opcode, with the address the counter had after the fetch less one, and
/// changes nothing but the counter (one place on) and the pause flag.
pub proof fn law_unknown_opcode(m: MachineView)
    requires
        m.wf(),
        is_word(m.pc),
        is_word(m.pc + pc_direction(m.pc)),
        !(ram_at(m, m.pc) == 0 || ram_at(m, m.pc) == 3 || ram_at(m, m.pc) == 8
            || ram_at(m, m.pc) == 28 || ram_at(m, m.pc) == 26 || ram_at(m, m.pc) == 37
            || ram_at(m, m.pc) == 35 || ram_at(m, m.pc) == 40 || ram_at(m, m.pc) == 38
            || ram_at(m, m.pc) == 36 || ram_at(m, m.pc) == 364 || ram_at(m, m.pc) == 352
            || ram_at(m, m.pc) == 343 || ram_at(m, m.pc) == 283 || ram_at(m, m.pc) == 257
            || ram_at(m, m.pc) == 262 || ram_at(m, m.pc) == -238 || ram_at(m, m.pc) == -252),
    ensures
        m.step() == (
            MachineView { pc: m.pc + pc_direction(m.pc), paused: true, ..m },
            StepOutcome::Unknown { at: m.pc + pc_direction(m.pc) - 1, opcode: ram_at(m, m.pc) },
        ),
{
}

proof fn lemma_write_words(m: MachineView, region: RegionType, addr: int, ws: Seq<int>)
    requires
        m.ram.len() == 729,
        m.sto.len() == 729,
        -364 <= addr,
        addr + ws.len() <= 365,
    ensures
        m.write_words(region, addr, ws).1 is Ok,
        ({
            let m2 = m.write_words(region, addr, ws).0;
            &&& m2.ram.len() == 729
            &&& m2.sto.len() == 729
            &&& forall|i: int|
                0 <= i < 729 ==> #[trigger] m2.cells(region)[i] == if addr + 364 <= i < addr + 364
                    + ws.len() {
                    ws[i - addr - 364] as i16
                } else {
                    m.cells(region)[i]
                }
            &&& m2 == (match region {
                RegionType::Ram => MachineView { ram: m2.ram, ..m },
                RegionType::Sto => MachineView { sto: m2.sto, ..m },
            })
        }),
    decreases ws.len(),
{
    if ws.len() > 0 {
        let m1 = m.write(region, addr, ws[0] as i16)->Ok_0;
        lemma_write_words(m1, region, addr + 1, ws.drop_first());
        let m2 = m.write_words(region, addr, ws).0;
        assert forall|i: int| 0 <= i < 729 implies #[trigger] m2.cells(region)[i] == if addr + 364 <= i
            < addr + 364 + ws.len() {
            ws[i - addr - 364] as i16
        } else {
            m.cells(region)[i]
        } by {
            assert(m2.cells(region)[i] == m1.write_words(region, addr + 1, ws.drop_first()).0.cells(region)[i]);
            if addr + 365 <= i < addr + 364 + ws.len() {
                assert(ws.drop_first()[i - addr - 365] == ws[i - addr - 364]);
            }
        }
    }
}

proof fn lemma_first_non_sip_found(d: Seq<char>)
    ensures
        0 <= first_non_sip(d) <= d.len(),
        first_non_sip(d) < d.len() || is_sip_text(d),
    decreases d.len(),
{
    if d.len() > 0 && char_sip(d[0]) is Some {
        lemma_first_non_sip_found(d.drop_first());
        if is_sip_text(d.drop_first()) {
            assert forall|i: int| 0 <= i < d.len() implies (#[trigger] char_sip(d[i])) is Some by {
                if i > 0 {
                    assert(d[i] == d.drop_first()[i - 1]);
                }
            }
        }
    }
}

/// Writing a stream: a text of sip letters goes in two letters to a word, the high
/// sip first (a lone last letter is the high sip of a word whose low sip is zero),
/// at consecutive addresses from `start` on; every other word of the region, the
/// other region and the registers keep their values. A text with a character that
/// is no sip letter fails and changes nothing.
pub proof fn law_write_stream_words(
    m: MachineView,
    region: RegionType,
    other: RegionType,
    start: int,
    data: Seq<char>,
    k: int,
)
    requires
        m.wf(),
        -364 <= start,
        start + (data.len() + 1) / 2 <= 365,
        is_word(start + k),
    ensures
        !is_sip_text(data) ==> m.write_stream(region, start, data).0 == m
            && m.write_stream(region, start, data).1 is Err,
        is_sip_text(data) ==> m.write_stream(region, start, data).1 is Ok,
        is_sip_text(data) ==> ({
            let m2 = m.write_stream(region, start, data).0;
            &&& 0 <= k < (data.len() + 1) / 2 ==> m2.read(region, start + k) == Ok::<int, Seq<char>>(
                char_sip(data[2 * k])->Some_0 * 27 + if 2 * k + 1 < data.len() {
                    char_sip(data[2 * k + 1])->Some_0
                } else {
                    0
                },
            )
            &&& !(0 <= k < (data.len() + 1) / 2) ==> m2.read(region, start + k) == m.read(region, start + k)
            &&& other != region ==> m2.cells(other) == m.cells(other)
            &&& m2.pc == m.pc && m2.a == m.a && m2.b == m.b && m2.sar == m.sar
            &&& m2.srr == m.srr && m2.paused == m.paused
        }),
{
    lemma_first_non_sip_found(data);
    if is_sip_text(data) {
        lemma_all_sips(data);
        let vals = text_sips(data);
        let ws = stream_words(vals);
        lemma_write_words(m, region, start, ws);
        if 0 <= k < (data.len() + 1) / 2 {
            let hi = char_sip(data[2 * k])->Some_0;
            assert(-13 <= hi <= 13);
            if 2 * k + 1 < data.len() {
                let lo = char_sip(data[2 * k + 1])->Some_0;
                assert(-13 <= lo <= 13);
            }
            assert(ws[k] == vals[2 * k] * 27 + if 2 * k + 1 < vals.len() {
                vals[2 * k + 1]
            } else {
                0
            });
        }
    }
}

/// A run of at most one instruction is one step: a paused machine does not run, a
/// limit of zero runs nothing, and a limit of one on a running machine gives what
/// one step gives.
pub proof fn law_run_one_step(m: MachineView, limit: nat)
    ensures
        m.run(0) == (m, StepOutcome::Done),
        m.paused ==> m.run(limit) == (m, StepOutcome::Done),
        !m.paused ==> m.run(1) == m.step(),
{
    if !m.paused {
        let (m1, o) = m.step();
        assert(m1.run(0) == (m1, StepOutcome::Done));
    }
}

/// The row of a region's listing that starts at address `a` and stops at `end`: the
/// code of `a`, a colon, and the codes of the words from `a` up to 27 of them, none
/// past `end`.
pub open spec fn listing_row(cells: Seq<i16>, a: int, end: int) -> Seq<char> {
    let hi = if a + 27 <= end + 1 {
        a + 27
    } else {
        end + 1
    };
    word_code(a, 2) + ":"@ + cells_text(cells.subrange(a + 364, hi + 364))
}

proof fn lemma_row_cells_upto(m: MachineView, region: RegionType, cur: int, count: nat, end: int)
    requires
        m.wf(),
        -364 <= cur <= end + 1,
        end <= 364,
    ensures
        ({
            let hi = if cur + count <= end + 1 {
                cur + count
            } else if cur <= end {
                end + 1
            } else {
                cur
            };
            m.row_cells(region, cur, count, end) == Ok::<Seq<char>, Seq<char>>(
                cells_text(m.cells(region).subrange(cur + 364, hi + 364)),
            )
        }),
    decreases count,
{
    let hi = if cur + count <= end + 1 {
        cur + count
    } else if cur <= end {
        end + 1
    } else {
        cur
    };
    let sub = m.cells(region).subrange(cur + 364, hi + 364);
    if count > 0 && cur <= end {
        lemma_row_cells_upto(m, region, cur + 1, (count - 1) as nat, end);
        assert(sub.drop_first() =~= m.cells(region).subrange(cur + 365, hi + 364));
    } else {
        assert(sub.len() == 0);
    }
}

proof fn lemma_dump_listing(m: MachineView, region: RegionType, start: int, end: int)
    requires
        m.wf(),
        -364 <= start <= end,
        end <= 364,
    ensures
        m.dump(region, start, end) == (
            Seq::new(
                ((end - start) / 27 + 1) as nat,
                |i: int| listing_row(m.cells(region), start + 27 * i, end),
            ),
            Ok::<(), Seq<char>>(()),
        ),
    decreases end - start,
{
    let rows = Seq::new(
        ((end - start) / 27 + 1) as nat,
        |i: int| listing_row(m.cells(region), start + 27 * i, end),
    );
    lemma_row_cells_upto(m, region, start, 27, end);
    if start + 27 <= end {
        lemma_dump_listing(m, region, start + 27, end);
        let rest = Seq::new(
            ((end - start - 27) / 27 + 1) as nat,
            |i: int| listing_row(m.cells(region), start + 27 + 27 * i, end),
        );
        assert((end - start - 27) / 27 + 1 == (end - start) / 27);
        assert forall|i: int| 0 <= i < rest.len() implies rest[i] == rows[i + 1] by {
            assert(start + 27 + 27 * i == start + 27 * (i + 1));
        }
        assert(seq![listing_row(m.cells(region), start, end)] + rest =~= rows);
    } else {
        assert((end - start) / 27 == 0);
        assert(m.dump(region, start + 27, end) == (Seq::<Seq<char>>::empty(), Ok::<(), Seq<char>>(())));
        assert(seq![listing_row(m.cells(region), start, end)] =~= rows);
    }
}

/// Dumping a range of a region within the words never fails and lists it 27 words to
/// a row: row `i` starts at address `start + 27 * i` and shows the code of that
/// address, a colon, and the codes of the words from there up to 27 of them, none
/// past `end`; there are as many rows as it takes to reach `end`.
pub proof fn law_dump_rows(m: MachineView, region: RegionType, start: int, end: int, i: int)
    requires
        m.wf(),
        -364 <= start <= end,
        end <= 364,
    ensures
        m.dump(region, start, end).1 is Ok,
        m.dump(region, start, end).0.len() == (end - start) / 27 + 1,
        0 <= i < (end - start) / 27 + 1 ==> m.dump(region, start, end).0[i] == word_code(
            start + 27 * i,
            2,
        ) + ":"@ + cells_text(
            m.cells(region).subrange(
                start + 27 * i + 364,
                (if start + 27 * i + 27 <= end + 1 {
                    start + 27 * i + 27
                } else {
                    end + 1
                }) + 364,
            ),
        ),
{
    lemma_dump_listing(m, region, start, end);
}

} // verus!
