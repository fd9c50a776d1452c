//! The machine's state file: `TSIM1`, then `key value` lines for the registers and
//! the pause flag, and `RAM` / `STO` each followed by one word code per line.
use vstd::prelude::*;

use crate::helper::{code_overflows, code_would_overflow, encode_word, spec_code_to_word};
use crate::machine::{
    bool_text, code_to_i16, is_word, law_code_round_trip, Fault, Machine, MachineView, RegionType,
    StepOutcome,
};
use crate::sips::{char_sip, is_sip_text, word_code};
use crate::text::{
    ascii_lower, chars_eq_str, chars_of, eq_ascii_case, eq_ignore_ascii_case, is_ascii_text,
    is_white, lemma_lines_terminated, lemma_trim_plain, lemma_two_words, lines, literal, lower_text,
    lowercase_chars, no_newline, no_white, prefixed, push_chars, push_str, split_lines, split_words,
    string_of, terminated, texts, trim, trimmed, words,
};

verus! {

/// The non-blank lines of a text, each without white space at its ends.
pub open spec fn content_lines(ls: Seq<Seq<char>>) -> Seq<Seq<char>>
    decreases ls.len(),
{
    if ls.len() == 0 {
        Seq::empty()
    } else {
        let rest = content_lines(ls.drop_last());
        let t = trim(ls.last());
        if t.len() > 0 {
            rest.push(t)
        } else {
            rest
        }
    }
}

/// Reading a word token of the machine (a state file value or a command argument):
/// overflow, an error, or its value.
pub open spec fn read_code(token: Seq<char>) -> Reading {
    if code_overflows(token) {
        Reading::Overflow
    } else {
        match spec_code_to_word(token, 364) {
            Ok(v) => Reading::Value(v),
            Err(e) => Reading::Failed(e),
        }
    }
}

/// What reading a word token gives: its value, or why there is none.
pub enum Reading {
    Value(int),
    Failed(Seq<char>),
    Overflow,
}

pub open spec fn region_name(region: RegionType) -> Seq<char> {
    match region {
        RegionType::Ram => "RAM"@,
        RegionType::Sto => "STO"@,
    }
}

impl MachineView {
    /// The machine with cell `k` of a region set to `v`.
    pub open spec fn set_cell(self, region: RegionType, k: int, v: int) -> MachineView {
        match region {
            RegionType::Ram => MachineView { ram: self.ram.update(k, v as i16), ..self },
            RegionType::Sto => MachineView { sto: self.sto.update(k, v as i16), ..self },
        }
    }

    /// Loading cells `k..729` of a region from lines `i..` on.
    pub open spec fn load_cells(self, region: RegionType, ls: Seq<Seq<char>>, i: int, k: int) -> (
        MachineView,
        StepOutcome,
    )
        decreases 729 - k,
    {
        if k >= 729 {
            (self, StepOutcome::Done)
        } else if i >= ls.len() {
            (
                self,
                StepOutcome::Failed("Unexpected end of file while reading "@ + region_name(region)),
            )
        } else {
            match read_code(ls[i]) {
                Reading::Overflow => (self, StepOutcome::Overflow),
                Reading::Failed(e) => (self, StepOutcome::Failed(e)),
                Reading::Value(v) => self.set_cell(region, k, v).load_cells(
                    region,
                    ls,
                    i + 1,
                    k + 1,
                ),
            }
        }
    }

    /// Loading one `key value` line.
    pub open spec fn load_entry(self, line: Seq<char>) -> (MachineView, StepOutcome) {
        let ws = words(line);
        if ws.len() == 0 {
            (self, StepOutcome::Failed("Invalid state line"@))
        } else if ws.len() < 2 {
            (self, StepOutcome::Failed("Missing value for "@ + ws[0]))
        } else {
            let key = lower_text(ws[0]);
            let val = ws[1];
            if key == "paused"@ {
                (MachineView { paused: eq_ignore_ascii_case(val, "true"@), ..self }, StepOutcome::Done)
            } else if key == "pc"@ || key == "a"@ || key == "b"@ {
                match read_code(val) {
                    Reading::Overflow => (self, StepOutcome::Overflow),
                    Reading::Failed(e) => (self, StepOutcome::Failed(e)),
                    Reading::Value(v) => (
                        if key == "pc"@ {
                            MachineView { pc: v, ..self }
                        } else if key == "a"@ {
                            MachineView { a: v, ..self }
                        } else {
                            MachineView { b: v, ..self }
                        },
                        StepOutcome::Done,
                    ),
                }
            } else {
                (self, StepOutcome::Failed("Unknown state key: "@ + ws[0]))
            }
        }
    }

    /// Loading the state file's lines from `i` on.
    pub open spec fn load_lines(self, ls: Seq<Seq<char>>, i: int) -> (MachineView, StepOutcome)
        decreases (if i < ls.len() { ls.len() - i } else { 0 }),
    {
        if i >= ls.len() || i < 0 {
            (self, StepOutcome::Done)
        } else {
            let line = ls[i];
            if eq_ignore_ascii_case(line, "RAM"@) || eq_ignore_ascii_case(line, "STO"@) {
                let region = if eq_ignore_ascii_case(line, "RAM"@) {
                    RegionType::Ram
                } else {
                    RegionType::Sto
                };
                let (m, o) = self.load_cells(region, ls, i + 1, 0);
                match o {
                    StepOutcome::Done => m.load_lines(ls, i + 1 + 729),
                    _ => (m, o),
                }
            } else {
                let (m, o) = self.load_entry(line);
                match o {
                    StepOutcome::Done => m.load_lines(ls, i + 1),
                    _ => (m, o),
                }
            }
        }
    }

    /// Loading a state file's text into the machine.
    pub open spec fn load(self, text: Seq<char>) -> (MachineView, StepOutcome) {
        let ls = content_lines(lines(text));
        if ls.len() == 0 {
            (self, StepOutcome::Failed("Empty file"@))
        } else if ls[0] != "TSIM1"@ {
            (self, StepOutcome::Failed("Unrecognised state file header (expected TSIM1)"@))
        } else {
            self.load_lines(ls, 1)
        }
    }
}

/// The outcome of loading as the machine reports it.
pub open spec fn load_result_matches(r: Result<(), Fault>, o: StepOutcome) -> bool {
    match o {
        StepOutcome::Done => r is Ok,
        StepOutcome::Unknown { .. } => false,
        StepOutcome::Failed(e) => r matches Err(Fault::Error(m)) && m@ == e,
        StepOutcome::Overflow => r matches Err(Fault::Overflow),
    }
}

/// The non-blank lines of `text`, trimmed.
fn content_lines_of(text: &str) -> (r: Vec<Vec<char>>)
    ensures
        texts(r@) == content_lines(lines(text@)),
{
    let cs = chars_of(text);
    let raw = split_lines(&cs);
    let mut out: Vec<Vec<char>> = Vec::new();
    let mut i: usize = 0;
    while i < raw.len()
        invariant
            i <= raw.len(),
            texts(raw@) == lines(text@),
            texts(out@) == content_lines(texts(raw@).take(i as int)),
        decreases raw.len() - i,
    {
        let t = trimmed(&raw[i]);
        proof {
            assert(texts(raw@).take(i as int + 1).drop_last() =~= texts(raw@).take(i as int));
            assert(texts(raw@).take(i as int + 1).last() == raw@[i as int]@);
        }
        if t.len() > 0 {
            let ghost before = out@;
            out.push(t);
            assert(texts(out@) =~= texts(before).push(t@));
        }
        i += 1;
    }
    assert(texts(raw@).take(i as int) =~= texts(raw@));
    out
}

/// Reads a word token of the state file.
pub(crate) fn read_token(token: &Vec<char>) -> (r: Result<i16, Fault>)
    ensures
        match read_code(token@) {
            Reading::Overflow => r matches Err(Fault::Overflow),
            Reading::Failed(e) => r matches Err(Fault::Error(m)) && m@ == e,
            Reading::Value(v) => r matches Ok(w) && w == v,
        },
        r matches Ok(w) ==> -364 <= w <= 364,
{
    let s = string_of(token);
    if code_would_overflow(s.as_str()) {
        return Err(Fault::Overflow);
    }
    match code_to_i16(s.as_str()) {
        Ok(v) => Ok(v),
        Err(e) => Err(Fault::Error(e)),
    }
}

proof fn lemma_load_cells_consumes(
    m: MachineView,
    region: RegionType,
    ls: Seq<Seq<char>>,
    i: int,
    k: int,
)
    requires
        0 <= k <= 729,
        0 <= i <= ls.len(),
    ensures
        m.load_cells(region, ls, i, k).1 is Done ==> i + (729 - k) <= ls.len(),
    decreases 729 - k,
{
    if k < 729 && i < ls.len() {
        if let Reading::Value(v) = read_code(ls[i]) {
            lemma_load_cells_consumes(m.set_cell(region, k, v), region, ls, i + 1, k + 1);
        }
    }
}

impl Machine {
    /// Loads the 729 cells of a region from lines `i..` on.
    fn load_cells_from(&mut self, region: RegionType, ls: &Vec<Vec<char>>, i: usize) -> (r: Result<
        (),
        Fault,
    >)
        requires
            old(self)@.wf(),
            i <= ls.len(),
        ensures
            final(self)@ == old(self)@.load_cells(region, texts(ls@), i as int, 0).0,
            load_result_matches(r, old(self)@.load_cells(region, texts(ls@), i as int, 0).1),
            final(self)@.wf(),
    {
        let ghost l = texts(ls@);
        let mut k: usize = 0;
        while k < 729
            invariant
                k <= 729,
                i <= ls.len(),
                l == texts(ls@),
                self@.wf(),
                old(self)@.load_cells(region, l, i as int, 0) == self@.load_cells(
                    region,
                    l,
                    i + k,
                    k as int,
                ),
            decreases 729 - k,
        {
            if k >= ls.len() - i {
                let msg = match region {
                    RegionType::Ram => literal("Unexpected end of file while reading RAM"),
                    RegionType::Sto => literal("Unexpected end of file while reading STO"),
                };
                proof {
                    reveal_strlit("Unexpected end of file while reading RAM");
                    reveal_strlit("Unexpected end of file while reading STO");
                    reveal_strlit("Unexpected end of file while reading ");
                    reveal_strlit("RAM");
                    reveal_strlit("STO");
                    assert(msg@ =~= "Unexpected end of file while reading "@ + region_name(region));
                }
                return Err(Fault::Error(msg));
            }
            assert(l[i + k] == ls@[i + k]@);
            let v = match read_token(&ls[i + k]) {
                Ok(v) => v,
                Err(f) => return Err(f),
            };
            let ghost before = self@;
            match region {
                RegionType::Ram => self.ram.set(k, v),
                RegionType::Sto => self.sto.set(k, v),
            }
            proof {
                assert(self@ == before.set_cell(region, k as int, v as int));
                assert forall|j: int| 0 <= j < 729 implies crate::machine::is_word(
                    #[trigger] self@.ram[j] as int,
                ) by {
                    if !(region == RegionType::Ram && j == k) {
                        assert(self@.ram[j] == before.ram[j]);
                    }
                }
                assert forall|j: int| 0 <= j < 729 implies crate::machine::is_word(
                    #[trigger] self@.sto[j] as int,
                ) by {
                    if !(region == RegionType::Sto && j == k) {
                        assert(self@.sto[j] == before.sto[j]);
                    }
                }
            }
            k += 1;
        }
        Ok(())
    }

    /// Loads one `key value` line.
    fn load_entry_line(&mut self, line: &Vec<char>) -> (r: Result<(), Fault>)
        requires
            old(self)@.wf(),
        ensures
            final(self)@ == old(self)@.load_entry(line@).0,
            load_result_matches(r, old(self)@.load_entry(line@).1),
            final(self)@.wf(),
    {
        let ws = split_words(line);
        if ws.len() == 0 {
            return Err(Fault::Error(literal("Invalid state line")));
        }
        if ws.len() < 2 {
            return Err(Fault::Error(prefixed("Missing value for ", &ws[0])));
        }
        let key = lowercase_chars(&ws[0]);
        let val = &ws[1];
        assert(texts(ws@)[1] == val@);
        if chars_eq_str(&key, "paused") {
            self.paused = eq_ascii_case(val, "true");
            Ok(())
        } else if chars_eq_str(&key, "pc") || chars_eq_str(&key, "a") || chars_eq_str(&key, "b") {
            let v = match read_token(val) {
                Ok(v) => v,
                Err(f) => return Err(f),
            };
            if chars_eq_str(&key, "pc") {
                self.pc = v;
            } else if chars_eq_str(&key, "a") {
                self.a = v;
            } else {
                self.b = v;
            }
            Ok(())
        } else {
            Err(Fault::Error(prefixed("Unknown state key: ", &ws[0])))
        }
    }

    /// Loads a state file's text: after the `TSIM1` header, `pc`, `a`, `b` and `paused`
    /// lines set those registers, and a `RAM` or `STO` line is followed by the codes of
    /// all 729 words of that region. Blank lines and white space at line ends do not
    /// count. Stops at the first error, keeping what was loaded before it.
    pub fn load_state(&mut self, text: &str) -> (r: Result<(), Fault>)
        requires
            old(self)@.wf(),
        ensures
            final(self)@ == old(self)@.load(text@).0,
            load_result_matches(r, old(self)@.load(text@).1),
            final(self)@.wf(),
    {
        let ls = content_lines_of(text);
        let ghost l = texts(ls@);
        if ls.len() == 0 {
            return Err(Fault::Error(literal("Empty file")));
        }
        assert(l[0] == ls@[0]@);
        if !chars_eq_str(&ls[0], "TSIM1") {
            return Err(Fault::Error(literal("Unrecognised state file header (expected TSIM1)")));
        }
        let mut i: usize = 1;
        while i < ls.len()
            invariant
                1 <= i,
                l == texts(ls@),
                self@.wf(),
                old(self)@.load(text@) == self@.load_lines(l, i as int),
            decreases ls.len() - i,
        {
            let line = &ls[i];
            assert(l[i as int] == line@);
            let is_ram = eq_ascii_case(line, "RAM");
            if is_ram || eq_ascii_case(line, "STO") {
                let region = if is_ram {
                    RegionType::Ram
                } else {
                    RegionType::Sto
                };
                let ghost before = self@;
                match self.load_cells_from(region, &ls, i + 1) {
                    Ok(()) => {},
                    Err(f) => return Err(f),
                }
                proof {
                    lemma_load_cells_consumes(before, region, l, i + 1, 0);
                }
                i = i + 1 + 729;
            } else {
                match self.load_entry_line(line) {
                    Ok(()) => {},
                    Err(f) => return Err(f),
                }
                i += 1;
            }
        }
        Ok(())
    }
}

// ---------------------------------------------------------------- saving and loading back

/// The code lines of a region's words.
pub open spec fn region_codes(cells: Seq<i16>) -> Seq<Seq<char>> {
    cells.map_values(|w: i16| word_code(w as int, 2))
}

/// The lines of a saved state, without their `\n`.
pub open spec fn saved_lines(m: MachineView) -> Seq<Seq<char>> {
    seq![
        "TSIM1"@,
        "pc "@ + word_code(m.pc, 2),
        "a "@ + word_code(m.a, 2),
        "b "@ + word_code(m.b, 2),
        "paused "@ + bool_text(m.paused),
        "RAM"@,
    ] + region_codes(m.ram) + seq!["STO"@] + region_codes(m.sto)
}

/// `m` with the cells of a region replaced.
pub open spec fn with_cells(m: MachineView, region: RegionType, cells: Seq<i16>) -> MachineView {
    match region {
        RegionType::Ram => MachineView { ram: cells, ..m },
        RegionType::Sto => MachineView { sto: cells, ..m },
    }
}

/// The state file text of a machine: its saved lines, each followed by `\n`.
pub open spec fn state_text(m: MachineView) -> Seq<char> {
    terminated(saved_lines(m))
}

/// Appends a line and its `\n`.
fn push_line(out: &mut Vec<char>, line: &Vec<char>, Ghost(done): Ghost<Seq<Seq<char>>>)
    requires
        old(out)@ == terminated(done),
    ensures
        final(out)@ == terminated(done.push(line@)),
{
    push_chars(out, line);
    out.push('\n');
    assert(done.push(line@).drop_last() =~= done);
    assert(final(out)@ =~= terminated(done) + line@ + seq!['\n']);
}

fn key_line(key: &str, v: i16) -> (line: Vec<char>)
    ensures
        line@ == key@ + word_code(v as int, 2),
{
    let mut line: Vec<char> = Vec::new();
    push_str(&mut line, key);
    let code = encode_word(v, 2);
    push_chars(&mut line, &code);
    line
}

fn push_region(out: &mut Vec<char>, cells: &Vec<i16>, Ghost(done): Ghost<Seq<Seq<char>>>)
    requires
        old(out)@ == terminated(done),
    ensures
        final(out)@ == terminated(done + region_codes(cells@)),
{
    let mut i: usize = 0;
    assert(done + region_codes(cells@).take(0) =~= done);
    while i < cells.len()
        invariant
            i <= cells.len(),
            out@ == terminated(done + region_codes(cells@).take(i as int)),
        decreases cells.len() - i,
    {
        let code = encode_word(cells[i], 2);
        let ghost before = done + region_codes(cells@).take(i as int);
        push_line(out, &code, Ghost(before));
        assert(before.push(code@) =~= done + region_codes(cells@).take(i as int + 1));
        i += 1;
    }
    assert(region_codes(cells@).take(i as int) =~= region_codes(cells@));
}

impl Machine {
    /// The state file text of the machine: the header, `pc`, `a`, `b` and `paused`
    /// lines, then `RAM` and `STO` each followed by the codes of all their words,
    /// every line ended by `\n`.
    pub fn save_state(&self) -> (text: String)
        ensures
            text@ == state_text(self@),
    {
        let mut out: Vec<char> = Vec::new();
        let ghost mut done: Seq<Seq<char>> = Seq::empty();
        assert(out@ =~= terminated(done));
        let header = chars_of("TSIM1");
        push_line(&mut out, &header, Ghost(done));
        proof { done = done.push(header@); }
        let pc = key_line("pc ", self.pc);
        push_line(&mut out, &pc, Ghost(done));
        proof { done = done.push(pc@); }
        let a = key_line("a ", self.a);
        push_line(&mut out, &a, Ghost(done));
        proof { done = done.push(a@); }
        let b = key_line("b ", self.b);
        push_line(&mut out, &b, Ghost(done));
        proof { done = done.push(b@); }
        let mut paused: Vec<char> = Vec::new();
        push_str(&mut paused, "paused ");
        if self.paused {
            push_str(&mut paused, "true");
        } else {
            push_str(&mut paused, "false");
        }
        push_line(&mut out, &paused, Ghost(done));
        proof { done = done.push(paused@); }
        let ram = chars_of("RAM");
        push_line(&mut out, &ram, Ghost(done));
        proof { done = done.push(ram@); }
        push_region(&mut out, &self.ram, Ghost(done));
        proof { done = done + region_codes(self.ram@); }
        let sto = chars_of("STO");
        push_line(&mut out, &sto, Ghost(done));
        proof { done = done.push(sto@); }
        push_region(&mut out, &self.sto, Ghost(done));
        proof {
            done = done + region_codes(self.sto@);
            assert(done =~= saved_lines(self@));
        }
        string_of(&out)
    }
}

proof fn lemma_sip_text_plain(x: Seq<char>)
    requires
        is_sip_text(x),
    ensures
        no_white(x),
        no_newline(x),
        forall|i: int| 0 <= i < x.len() ==> x[i] != '\r',
{
    assert forall|i: int| 0 <= i < x.len() implies !is_white(x[i]) && x[i] != '\n' && x[i] != '\r' by {
        assert(char_sip(x[i]) is Some);
    }
}

/// A line that loading reads back as it is: not empty, no `\n`, no `\r` at its end
/// and no white space at either end.
pub open spec fn tidy(x: Seq<char>) -> bool {
    &&& x.len() > 0
    &&& no_newline(x)
    &&& !is_white(x[0])
    &&& !is_white(x.last())
    &&& x.last() != '\r'
}

proof fn lemma_content_tidy(ls: Seq<Seq<char>>)
    requires
        forall|i: int| 0 <= i < ls.len() ==> tidy(#[trigger] ls[i]),
    ensures
        content_lines(ls) == ls,
    decreases ls.len(),
{
    if ls.len() > 0 {
        let pre = ls.drop_last();
        assert forall|i: int| 0 <= i < pre.len() implies tidy(#[trigger] pre[i]) by {
            assert(pre[i] == ls[i]);
        }
        lemma_content_tidy(pre);
        assert(tidy(ls.last()));
        lemma_trim_plain(ls.last());
        assert(pre.push(ls.last()) =~= ls);
    }
}

/// A word code of a word is two sip letters, and a tidy line.
proof fn lemma_code_tidy(w: int)
    requires
        is_word(w),
    ensures
        word_code(w, 2).len() == 2,
        is_sip_text(word_code(w, 2)),
        no_white(word_code(w, 2)),
        tidy(word_code(w, 2)),
        read_code(word_code(w, 2)) == Reading::Value(w),
{
    law_code_round_trip(w as i16);
    lemma_sip_text_plain(word_code(w, 2));
}

/// A key, a space and a word code form a tidy line that splits into the two.
proof fn lemma_key_line(key: Seq<char>, w: int)
    requires
        is_word(w),
        key.len() > 0,
        no_white(key),
        no_newline(key),
    ensures
        tidy(key + seq![' '] + word_code(w, 2)),
        words(key + seq![' '] + word_code(w, 2)) == seq![key, word_code(w, 2)],
{
    lemma_code_tidy(w);
    let c = word_code(w, 2);
    let line = key + seq![' '] + c;
    lemma_two_words(key, c);
    assert(line[0] == key[0]);
    assert(line.last() == c.last());
    assert forall|i: int| 0 <= i < line.len() implies line[i] != '\n' by {
        if i < key.len() {
            assert(line[i] == key[i]);
        } else if i > key.len() {
            assert(line[i] == c[i - key.len() - 1]);
        }
    }
}

/// Lower-case ASCII text is its own lower-case form.
proof fn lemma_lower_plain(s: Seq<char>)
    requires
        forall|i: int| 0 <= i < s.len() ==> 'a' <= #[trigger] s[i] <= 'z',
    ensures
        lower_text(s) == s,
{
    assert(is_ascii_text(s));
    assert(s.map_values(|c: char| ascii_lower(c)) =~= s);
}

/// Loading the code lines of `src` into a region from cell `k` on sets those cells.
proof fn lemma_load_codes(
    m1: MachineView,
    region: RegionType,
    ls: Seq<Seq<char>>,
    i: int,
    k: int,
    src: Seq<i16>,
)
    requires
        0 <= k <= 729,
        src.len() == 729,
        m1.cells(region).len() == 729,
        0 <= i,
        i + (729 - k) <= ls.len(),
        forall|j: int| k <= j < 729 ==> is_word(#[trigger] src[j] as int),
        forall|j: int| k <= j < 729 ==> ls[i + (j - k)] == word_code(#[trigger] src[j] as int, 2),
    ensures
        m1.load_cells(region, ls, i, k) == (
            with_cells(m1, region, m1.cells(region).take(k) + src.skip(k)),
            StepOutcome::Done,
        ),
    decreases 729 - k,
{
    if k < 729 {
        assert(ls[i + (k - k)] == word_code(src[k] as int, 2));
        lemma_code_tidy(src[k] as int);
        let m2 = m1.set_cell(region, k, src[k] as int);
        lemma_load_codes(m2, region, ls, i + 1, k + 1, src);
        assert(m2.cells(region).take(k + 1) + src.skip(k + 1) =~= m1.cells(region).take(k) + src.skip(
            k,
        ));
    } else {
        assert(m1.cells(region).take(k) + src.skip(k) =~= m1.cells(region));
    }
}

proof fn lemma_saved_lines_tidy(m: MachineView)
    requires
        m.wf(),
        is_word(m.pc),
    ensures
        forall|i: int| 0 <= i < saved_lines(m).len() ==> tidy(#[trigger] saved_lines(m)[i]),
        saved_lines(m).len() == 1465,
{
    reveal_strlit("TSIM1");
    reveal_strlit("RAM");
    reveal_strlit("STO");
    reveal_strlit("pc ");
    reveal_strlit("a ");
    reveal_strlit("b ");
    reveal_strlit("paused ");
    reveal_strlit("true");
    reveal_strlit("false");
    reveal_strlit("pc");
    reveal_strlit("a");
    reveal_strlit("b");
    let l = saved_lines(m);
    lemma_key_line("pc"@, m.pc);
    lemma_key_line("a"@, m.a);
    lemma_key_line("b"@, m.b);
    assert("pc "@ =~= "pc"@ + seq![' ']);
    assert("a "@ =~= "a"@ + seq![' ']);
    assert("b "@ =~= "b"@ + seq![' ']);
    assert forall|i: int| 0 <= i < l.len() implies tidy(#[trigger] l[i]) by {
        if 6 <= i < 735 {
            assert(l[i] == word_code(m.ram[i - 6] as int, 2));
            lemma_code_tidy(m.ram[i - 6] as int);
        } else if 736 <= i {
            assert(l[i] == word_code(m.sto[i - 736] as int, 2));
            lemma_code_tidy(m.sto[i - 736] as int);
        } else if i == 4 {
            let p = "paused "@ + bool_text(m.paused);
            assert(l[i] == p);
            assert forall|j: int| 0 <= j < p.len() implies p[j] != '\n' by {
                if j >= 7 {
                    assert(p[j] == bool_text(m.paused)[j - 7]);
                }
            }
        }
    }
}

/// Saving the machine and loading the text back, into a machine in any
/// well-formed state, restores `pc`, `a`, `b`, the pause flag and both regions,
/// and reports no error; `sar` and `srr`, which the file does not hold, stay as they
/// were. (A machine whose counter stands just past the words, at 365 or -365, saves
/// a counter that loading refuses.)
pub proof fn law_save_load_round_trip(m0: MachineView, m: MachineView)
    requires
        m0.wf(),
        m.wf(),
        is_word(m.pc),
    ensures
        m0.load(state_text(m)) == (
            MachineView { pc: m.pc, a: m.a, b: m.b, paused: m.paused, ram: m.ram, sto: m.sto, ..m0 },
            StepOutcome::Done,
        ),
{
    reveal_strlit("TSIM1");
    reveal_strlit("RAM");
    reveal_strlit("STO");
    reveal_strlit("pc ");
    reveal_strlit("a ");
    reveal_strlit("b ");
    reveal_strlit("pc");
    reveal_strlit("a");
    reveal_strlit("b");
    reveal_strlit("paused ");
    reveal_strlit("paused");
    reveal_strlit("true");
    reveal_strlit("false");
    let l = saved_lines(m);
    lemma_saved_lines_tidy(m);
    assert forall|i: int| 0 <= i < l.len() implies no_newline(#[trigger] l[i]) by {
        assert(tidy(l[i]));
    }
    assert forall|i: int| 0 <= i < l.len() implies (#[trigger] l[i]).len() == 0 || l[i].last() != '\r' by {
        assert(tidy(l[i]));
    }
    lemma_lines_terminated(l);
    lemma_content_tidy(l);
    assert(content_lines(lines(state_text(m))) == l);
    assert(l[0] == "TSIM1"@);
    // the register lines
    assert("pc "@ =~= "pc"@ + seq![' ']);
    assert("a "@ =~= "a"@ + seq![' ']);
    assert("b "@ =~= "b"@ + seq![' ']);
    assert("paused "@ =~= "paused"@ + seq![' ']);
    lemma_key_line("pc"@, m.pc);
    lemma_key_line("a"@, m.a);
    lemma_key_line("b"@, m.b);
    lemma_lower_plain("pc"@);
    lemma_lower_plain("a"@);
    lemma_lower_plain("b"@);
    lemma_lower_plain("paused"@);
    lemma_code_tidy(m.pc);
    lemma_code_tidy(m.a);
    lemma_code_tidy(m.b);
    let m1 = MachineView { pc: m.pc, ..m0 };
    assert(!eq_ignore_ascii_case(l[1], "RAM"@) && !eq_ignore_ascii_case(l[1], "STO"@));
    assert(m0.load_entry(l[1]) == (m1, StepOutcome::Done));
    assert(m0.load_lines(l, 1) == m1.load_lines(l, 2));
    let m2 = MachineView { a: m.a, ..m1 };
    assert(!eq_ignore_ascii_case(l[2], "RAM"@) && !eq_ignore_ascii_case(l[2], "STO"@));
    assert(m1.load_entry(l[2]) == (m2, StepOutcome::Done));
    assert(m1.load_lines(l, 2) == m2.load_lines(l, 3));
    let m3 = MachineView { b: m.b, ..m2 };
    assert(!eq_ignore_ascii_case(l[3], "RAM"@) && !eq_ignore_ascii_case(l[3], "STO"@));
    assert(m2.load_entry(l[3]) == (m3, StepOutcome::Done));
    assert(m2.load_lines(l, 3) == m3.load_lines(l, 4));
    // the pause flag
    let flag = bool_text(m.paused);
    assert(flag.len() > 0 && no_white(flag));
    lemma_two_words("paused"@, flag);
    assert(l[4] == "paused"@ + seq![' '] + flag);
    assert(eq_ignore_ascii_case(flag, "true"@) == m.paused);
    let m4 = MachineView { paused: m.paused, ..m3 };
    assert(!eq_ignore_ascii_case(l[4], "RAM"@) && !eq_ignore_ascii_case(l[4], "STO"@));
    assert(m3.load_entry(l[4]) == (m4, StepOutcome::Done));
    assert(m3.load_lines(l, 4) == m4.load_lines(l, 5));
    // the regions
    assert(l[5] == "RAM"@);
    assert(eq_ignore_ascii_case(l[5], "RAM"@));
    assert forall|j: int| 0 <= j < 729 implies l[6 + (j - 0)] == word_code(#[trigger] m.ram[j] as int, 2) by {
        assert(l[6 + j] == region_codes(m.ram)[j]);
    }
    lemma_load_codes(m4, RegionType::Ram, l, 6, 0, m.ram);
    assert(m4.cells(RegionType::Ram).take(0) + m.ram.skip(0) =~= m.ram);
    let m5 = with_cells(m4, RegionType::Ram, m.ram);
    assert(m4.load_lines(l, 5) == m5.load_lines(l, 735));
    assert(l[735] == "STO"@);
    assert(!eq_ignore_ascii_case(l[735], "RAM"@));
    assert(eq_ignore_ascii_case(l[735], "STO"@));
    assert forall|j: int| 0 <= j < 729 implies l[736 + (j - 0)] == word_code(#[trigger] m.sto[j] as int, 2) by {
        assert(l[736 + j] == region_codes(m.sto)[j]);
    }
    lemma_load_codes(m5, RegionType::Sto, l, 736, 0, m.sto);
    assert(m5.cells(RegionType::Sto).take(0) + m.sto.skip(0) =~= m.sto);
    let m6 = with_cells(m5, RegionType::Sto, m.sto);
    assert(m5.load_lines(l, 735) == m6.load_lines(l, 1465));
    assert(m6.load_lines(l, 1465) == (m6, StepOutcome::Done));
}

/// The layout of a saved state: its lines are the header `TSIM1`; `pc`, `a` and `b`,
/// each with the two-sip code of the register; `paused` with `true` or `false`;
/// `RAM` and then the code of each RAM word in address order; `STO` and then the
/// code of each storage word. 1465 lines in all, each ended by `\n`.
pub proof fn law_saved_layout(m: MachineView, j: int)
    requires
        m.wf(),
        is_word(m.pc),
        0 <= j < 729,
    ensures
        ({
            let l = lines(state_text(m));
            &&& l.len() == 1465
            &&& l[0] == "TSIM1"@
            &&& l[1] == "pc "@ + word_code(m.pc, 2)
            &&& l[2] == "a "@ + word_code(m.a, 2)
            &&& l[3] == "b "@ + word_code(m.b, 2)
            &&& l[4] == "paused "@ + bool_text(m.paused)
            &&& l[5] == "RAM"@
            &&& l[6 + j] == word_code(m.ram[j] as int, 2)
            &&& l[735] == "STO"@
            &&& l[736 + j] == word_code(m.sto[j] as int, 2)
        }),
{
    let l = saved_lines(m);
    lemma_saved_lines_tidy(m);
    assert forall|i: int| 0 <= i < l.len() implies no_newline(#[trigger] l[i]) by {
        assert(tidy(l[i]));
    }
    assert forall|i: int| 0 <= i < l.len() implies (#[trigger] l[i]).len() == 0 || l[i].last() != '\r' by {
        assert(tidy(l[i]));
    }
    lemma_lines_terminated(l);
    assert(l[6 + j] == region_codes(m.ram)[j]);
    assert(l[736 + j] == region_codes(m.sto)[j]);
}

} // verus!
