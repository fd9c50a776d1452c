//! The two-pass assembler for the ternary machine, and the layout of a program
//! image: one line per address, from `-HALF_WORD` up to `HALF_WORD`.
//!
//! Pass one reads the source token by token. Upper-case words and `#literals` are
//! emitted at the location counter, which counts up from 1 on the positive side and
//! down on the negative side; `>label` names the counter, while `:label`, `?label`
//! and `!label` move it and name the place; `.+n` / `.-n` emit the code of an address
//! relative to the counter; anything else is a reference `label[+n|-n]`, emitted as
//! `???` and filled in with the code of the label's address by pass two.
use vstd::prelude::*;

use crate::helper::encode_word;
use crate::sips::{char_sip, lemma_word_code, sip_bound, word_code};
use crate::text::{
    chars_eq, chars_of, is_ascii_char, lemma_lines_no_newline, lemma_split_state_extend,
    lemma_words_nonempty, lines, literal, no_newline, parse_i32, split_newlines, split_state,
    parse_integer, prefixed, push_chars, push_str, split_lines, split_words, string_of, texts, trim,
    trimmed, words,
};

verus! {

/// A reference waiting for pass two: where its code goes, the label, and the offset.
pub struct RefView {
    pub output_index: int,
    pub label: Seq<char>,
    pub offset: int,
}

/// The assembler's state as values.
pub struct AsmView {
    pub labels: Map<Seq<char>, int>,
    pub negative: Seq<Seq<char>>,
    pub positive: Seq<Seq<char>>,
    pub references: Seq<RefView>,
    pub pc: int,
}

/// Where a pass stands: still running, stopped on an error, or stopped where the
/// 32-bit arithmetic or an unchecked read of a token does not go on.
pub enum Pass {
    Running(AsmView),
    Failed(Seq<char>),
    Aborted,
}

pub open spec fn fits_i32(x: int) -> bool {
    i32::MIN <= x <= i32::MAX
}

/// The text of an address that holds nothing.
pub open spec fn filler() -> Seq<char> {
    "..."@
}

/// `v` made long enough to have an element `idx`, with filler.
pub open spec fn grow(v: Seq<Seq<char>>, idx: int) -> Seq<Seq<char>> {
    if v.len() <= idx {
        v + Seq::new((idx + 1 - v.len()) as nat, |i: int| filler())
    } else {
        v
    }
}

/// The assembler as it starts: each side holds the filler at index 0, no labels, no
/// references, counter at 1.
pub open spec fn initial_asm() -> AsmView {
    AsmView {
        labels: Map::empty(),
        negative: seq![filler()],
        positive: seq![filler()],
        references: Seq::empty(),
        pc: 1,
    }
}

/// Emitting `text` at the counter, which then moves one step away from zero.
pub open spec fn emit(s: AsmView, text: Seq<char>) -> Pass {
    if s.pc >= 0 {
        if !fits_i32(s.pc + 1) {
            Pass::Aborted
        } else {
            Pass::Running(
                AsmView { positive: grow(s.positive, s.pc).update(s.pc, text), pc: s.pc + 1, ..s },
            )
        }
    } else {
        if !fits_i32(-s.pc) {
            Pass::Aborted
        } else {
            Pass::Running(
                AsmView {
                    negative: grow(s.negative, -s.pc).update(-s.pc, text),
                    pc: s.pc - 1,
                    ..s
                },
            )
        }
    }
}

/// A length as the assembler's 32-bit counter takes it.
pub open spec fn len_i32(n: nat) -> int {
    (n as i32) as int
}

/// `t` is made of the letters `A`..`Z` only.
pub open spec fn all_upper(t: Seq<char>) -> bool {
    forall|i: int| 0 <= i < t.len() ==> 'A' <= #[trigger] t[i] <= 'Z'
}

/// Index of the first `c` in `t`, or `t.len()` where there is none.
pub open spec fn first_index(t: Seq<char>, c: char) -> int
    decreases t.len(),
{
    if t.len() == 0 {
        0
    } else if t[0] == c {
        0
    } else {
        1 + first_index(t.drop_first(), c)
    }
}

/// What reading a reference token gives.
pub enum RefParse {
    Found { label: Seq<char>, offset: int },
    Failed(Seq<char>),
    Aborted,
}

/// A reference token: `label+n`, `label-n` (split at the first `+`, or else at the
/// first `-`) or a bare `label`.
pub open spec fn reference_of(t: Seq<char>) -> RefParse {
    let p = first_index(t, '+');
    if p < t.len() {
        match parse_integer(t.skip(p + 1), true, i32::MIN as int, i32::MAX as int) {
            Some(v) => RefParse::Found { label: t.take(p), offset: v },
            None => RefParse::Failed("bad offset"@),
        }
    } else {
        let m = first_index(t, '-');
        if m < t.len() {
            match parse_integer(t.skip(m + 1), true, i32::MIN as int, i32::MAX as int) {
                Some(v) => if v == i32::MIN as int {
                    RefParse::Aborted
                } else {
                    RefParse::Found { label: t.take(m), offset: -v }
                },
                None => RefParse::Failed("bad offset"@),
            }
        } else {
            RefParse::Found { label: t, offset: 0 }
        }
    }
}

/// The counter for a new `?` or `!` label: past the longer side, on the side the
/// counter is on.
pub open spec fn fresh_pc(s: AsmView) -> int {
    let n = len_i32(
        if s.positive.len() >= s.negative.len() {
            s.positive.len()
        } else {
            s.negative.len()
        },
    );
    if s.pc > 0 {
        n
    } else {
        -n
    }
}

/// One token of pass one.
pub open spec fn token_step(s: AsmView, t: Seq<char>) -> Pass {
    if all_upper(t) {
        emit(s, t)
    } else if t[0] == '>' {
        Pass::Running(AsmView { labels: s.labels.insert(t.drop_first(), s.pc), ..s })
    } else if t[0] == ':' {
        if s.positive.len() > s.negative.len() && !fits_i32(-len_i32(s.negative.len())) {
            Pass::Aborted
        } else {
            let pc = if s.positive.len() > s.negative.len() {
                -len_i32(s.negative.len())
            } else {
                len_i32(s.positive.len())
            };
            Pass::Running(AsmView { pc, labels: s.labels.insert(t.drop_first(), pc), ..s })
        }
    } else if t[0] == '?' {
        let label = t.drop_first();
        if !s.labels.contains_key(label) {
            if !fits_i32(fresh_pc(s)) {
                Pass::Aborted
            } else {
                Pass::Running(
                    AsmView { pc: fresh_pc(s), labels: s.labels.insert(label, fresh_pc(s)), ..s },
                )
            }
        } else {
            Pass::Running(AsmView { pc: s.labels[label], ..s })
        }
    } else if t[0] == '!' {
        let label = t.drop_first();
        if !s.labels.contains_key(label) {
            if !fits_i32(fresh_pc(s)) || !fits_i32(-fresh_pc(s)) {
                Pass::Aborted
            } else {
                Pass::Running(
                    AsmView { pc: fresh_pc(s), labels: s.labels.insert(label, -fresh_pc(s)), ..s },
                )
            }
        } else {
            if !fits_i32(-s.labels[label]) {
                Pass::Aborted
            } else {
                Pass::Running(AsmView { pc: -s.labels[label], ..s })
            }
        }
    } else if t[0] == '#' {
        emit(s, t.drop_first())
    } else if t[0] == '.' {
        if t.len() < 2 || !is_ascii_char(t[1]) {
            Pass::Aborted
        } else {
            match parse_integer(t.skip(2), true, i32::MIN as int, i32::MAX as int) {
                None => Pass::Aborted,
                Some(d) => {
                    let sign: int = if t[1] == '-' {
                        -1
                    } else {
                        1
                    };
                    let realsign: int = if s.pc < 0 {
                        -sign
                    } else {
                        sign
                    };
                    if !fits_i32(realsign * d) || !fits_i32(s.pc + realsign * d) {
                        Pass::Aborted
                    } else {
                        emit(s, word_code(((s.pc + realsign * d) as i16) as int, 3))
                    }
                },
            }
        }
    } else {
        match reference_of(t) {
            RefParse::Failed(e) => Pass::Failed(e),
            RefParse::Aborted => Pass::Aborted,
            RefParse::Found { label, offset } => emit(
                AsmView {
                    references: s.references.push(
                        RefView { output_index: s.pc, label, offset },
                    ),
                    ..s
                },
                "???"@,
            ),
        }
    }
}

/// Pass one over tokens `k..` of one line.
pub open spec fn run_tokens(s: AsmView, ts: Seq<Seq<char>>, k: int) -> Pass
    decreases ts.len() - k,
{
    if k >= ts.len() || k < 0 {
        Pass::Running(s)
    } else {
        match token_step(s, ts[k]) {
            Pass::Running(s2) => run_tokens(s2, ts, k + 1),
            other => other,
        }
    }
}

/// The part of a line before its first `;`.
pub open spec fn before_comment(line: Seq<char>) -> Seq<char> {
    line.take(first_index(line, ';'))
}

/// The tokens of a source line: the words before its comment.
pub open spec fn line_tokens(line: Seq<char>) -> Seq<Seq<char>> {
    let t = trim(before_comment(line));
    if t.len() == 0 {
        Seq::empty()
    } else {
        words(t)
    }
}

/// Pass one over lines `i..` of the source.
pub open spec fn run_lines(s: AsmView, ls: Seq<Seq<char>>, i: int) -> Pass
    decreases ls.len() - i,
{
    if i >= ls.len() || i < 0 {
        Pass::Running(s)
    } else {
        match run_tokens(s, line_tokens(ls[i]), 0) {
            Pass::Running(s2) => run_lines(s2, ls, i + 1),
            other => other,
        }
    }
}

/// Pass two from reference `k` on: each reference's place gets the code of its
/// label's address plus its offset.
pub open spec fn resolve(s: AsmView, k: int) -> Pass
    decreases s.references.len() - k,
{
    if k >= s.references.len() || k < 0 {
        Pass::Running(s)
    } else {
        let r = s.references[k];
        if !s.labels.contains_key(r.label) {
            Pass::Failed("Unknown label "@ + r.label)
        } else {
            let a = s.labels[r.label] + r.offset;
            if !fits_i32(a) {
                Pass::Aborted
            } else {
                let code = word_code((a as i16) as int, 3);
                let s2 = if r.output_index > 0 {
                    AsmView { positive: s.positive.update(r.output_index, code), ..s }
                } else {
                    AsmView { negative: s.negative.update(-r.output_index, code), ..s }
                };
                resolve(s2, k + 1)
            }
        }
    }
}

/// The line of side `v` at index `k`: what was emitted there, or filler.
pub open spec fn line_at(v: Seq<Seq<char>>, k: int) -> Seq<char> {
    if k < v.len() {
        v[k]
    } else {
        filler()
    }
}

/// The program image: line `i` holds address `i - 9841`, so the negative side comes
/// first, from -9841 up to -1, then the positive side from 0 to 9841.
pub open spec fn image_lines(negative: Seq<Seq<char>>, positive: Seq<Seq<char>>) -> Seq<Seq<char>> {
    Seq::new(
        19683,
        |i: int|
            if i < 9841 {
                line_at(negative, 9841 - i)
            } else {
                line_at(positive, i - 9841)
            },
    )
}

/// Lines joined with `\n` between them.
pub open spec fn join_lines(ls: Seq<Seq<char>>) -> Seq<char>
    decreases ls.len(),
{
    if ls.len() == 0 {
        Seq::empty()
    } else if ls.len() == 1 {
        ls[0]
    } else {
        join_lines(ls.drop_last()) + "\n"@ + ls.last()
    }
}

/// What assembling a source gives.
pub enum Assembled {
    Image { text: Seq<char>, labels: Map<Seq<char>, int> },
    Failed(Seq<char>),
    Aborted,
}

/// Assembling `source` from state `s`: both passes, then the image.
pub open spec fn assemble_from(s: AsmView, source: Seq<char>) -> Assembled {
    match run_lines(s, lines(source), 0) {
        Pass::Running(s1) => match resolve(s1, 0) {
            Pass::Running(s2) => Assembled::Image {
                text: join_lines(image_lines(s2.negative, s2.positive)),
                labels: s2.labels,
            },
            Pass::Failed(e) => Assembled::Failed(e),
            Pass::Aborted => Assembled::Aborted,
        },
        Pass::Failed(e) => Assembled::Failed(e),
        Pass::Aborted => Assembled::Aborted,
    }
}

// ---------------------------------------------------------------- labels

/// The labels held as names and values side by side, later entries over earlier.
pub open spec fn label_map(names: Seq<Seq<char>>, values: Seq<i32>) -> Map<Seq<char>, int>
    decreases names.len(),
{
    if names.len() == 0 || values.len() == 0 {
        Map::empty()
    } else {
        label_map(names.drop_last(), values.drop_last()).insert(
            names.last(),
            values.last() as int,
        )
    }
}

pub open spec fn unique_names(names: Seq<Seq<char>>) -> bool {
    forall|i: int, j: int| 0 <= i < j < names.len() ==> names[i] != names[j]
}

proof fn lemma_label_map_has(names: Seq<Seq<char>>, values: Seq<i32>, i: int)
    requires
        unique_names(names),
        names.len() == values.len(),
        0 <= i < names.len(),
    ensures
        label_map(names, values).contains_key(names[i]),
        label_map(names, values)[names[i]] == values[i] as int,
    decreases names.len(),
{
    if i < names.len() - 1 {
        lemma_label_map_has(names.drop_last(), values.drop_last(), i);
    }
}

proof fn lemma_label_map_lacks(names: Seq<Seq<char>>, values: Seq<i32>, k: Seq<char>)
    requires
        names.len() == values.len(),
        forall|i: int| 0 <= i < names.len() ==> names[i] != k,
    ensures
        !label_map(names, values).contains_key(k),
    decreases names.len(),
{
    if names.len() > 0 {
        lemma_label_map_lacks(names.drop_last(), values.drop_last(), k);
    }
}

proof fn lemma_label_map_set(names: Seq<Seq<char>>, values: Seq<i32>, i: int, x: i32)
    requires
        unique_names(names),
        names.len() == values.len(),
        0 <= i < names.len(),
    ensures
        label_map(names, values.update(i, x)) == label_map(names, values).insert(names[i], x as int),
    decreases names.len(),
{
    let vs = values.update(i, x);
    if i == names.len() - 1 {
        assert(vs.drop_last() =~= values.drop_last());
        assert(label_map(names, vs) =~= label_map(names, values).insert(names[i], x as int));
    } else {
        assert(vs.drop_last() =~= values.drop_last().update(i, x));
        lemma_label_map_set(names.drop_last(), values.drop_last(), i, x);
        assert(names.last() != names[i]);
        assert(label_map(names, vs) =~= label_map(names, values).insert(names[i], x as int));
    }
}

// ---------------------------------------------------------------- the assembler

/// A reference waiting for pass two.
pub struct Reference {
    pub output_index: i32,
    pub label: Vec<char>,
    pub offset: i32,
}

/// Why assembling stopped.
#[derive(Debug)]
pub enum AsmError {
    /// An error in the source, with its message.
    Error(String),
    /// A token that the assembler reads without checking (`.` without a sign and a
    /// 32-bit number after it) or 32-bit arithmetic that overflows; the assembler
    /// stops there.
    Abort,
}

/// The two-pass assembler.
pub struct Assembler {
    label_names: Vec<Vec<char>>,
    label_values: Vec<i32>,
    negative: Vec<Vec<char>>,
    positive: Vec<Vec<char>>,
    references: Vec<Reference>,
    pc: i32,
}

pub open spec fn ref_views(rs: Seq<Reference>) -> Seq<RefView> {
    rs.map_values(|r: Reference| RefView { output_index: r.output_index as int, label: r.label@, offset: r.offset as int })
}

impl View for Assembler {
    type V = AsmView;

    closed spec fn view(&self) -> AsmView {
        AsmView {
            labels: label_map(texts(self.label_names@), self.label_values@),
            negative: texts(self.negative@),
            positive: texts(self.positive@),
            references: ref_views(self.references@),
            pc: self.pc as int,
        }
    }
}

/// Every reference points at a line that exists, and both sides hold index 0.
pub open spec fn refs_in_place(s: AsmView) -> bool {
    &&& s.negative.len() >= 1
    &&& s.positive.len() >= 1
    &&& forall|k: int|
        0 <= k < s.references.len() ==> {
            let r = #[trigger] s.references[k];
            if r.output_index > 0 {
                r.output_index < s.positive.len()
            } else {
                -r.output_index < s.negative.len()
            }
        }
}

impl Assembler {
    /// The assembler's own consistency: label names appear once, and every reference
    /// points at a line that exists.
    pub closed spec fn wf(&self) -> bool {
        &&& self.label_names.len() == self.label_values.len()
        &&& unique_names(texts(self.label_names@))
        &&& refs_in_place(self@)
        &&& forall|k: int| 0 <= k < self.references.len() ==> fits_i32(-(#[trigger] self.references@[k]).output_index)
    }

    /// A fresh assembler.
    pub fn new() -> (a: Self)
        ensures
            a@ == initial_asm(),
            a.wf(),
    {
        let mut negative: Vec<Vec<char>> = Vec::new();
        negative.push(chars_of("..."));
        let mut positive: Vec<Vec<char>> = Vec::new();
        positive.push(chars_of("..."));
        let a = Assembler {
            label_names: Vec::new(),
            label_values: Vec::new(),
            negative,
            positive,
            references: Vec::new(),
            pc: 1,
        };
        assert(texts(a.negative@) =~= seq![filler()]);
        assert(texts(a.positive@) =~= seq![filler()]);
        assert(ref_views(a.references@) =~= Seq::<RefView>::empty());
        assert(a@.labels =~= Map::<Seq<char>, int>::empty());
        a
    }
}

/// The assembler after a pass step, as the call reports it.
pub open spec fn pass_matches(r: Result<(), AsmError>, a: Assembler, p: Pass) -> bool {
    match p {
        Pass::Running(s) => r is Ok && a@ == s && a.wf(),
        Pass::Failed(e) => r matches Err(AsmError::Error(m)) && m@ == e,
        Pass::Aborted => r matches Err(AsmError::Abort),
    }
}

/// A copy of the characters `v[from..]`.
fn tail(v: &Vec<char>, from: usize) -> (r: Vec<char>)
    requires
        from <= v.len(),
    ensures
        r@ == v@.skip(from as int),
{
    let mut r: Vec<char> = Vec::new();
    let mut i = from;
    while i < v.len()
        invariant
            from <= i <= v.len(),
            r@ == v@.subrange(from as int, i as int),
        decreases v.len() - i,
    {
        r.push(v[i]);
        i += 1;
        assert(r@ =~= v@.subrange(from as int, i as int));
    }
    assert(r@ =~= v@.skip(from as int));
    r
}

/// A copy of the characters `v[..to]`.
fn head(v: &Vec<char>, to: usize) -> (r: Vec<char>)
    requires
        to <= v.len(),
    ensures
        r@ == v@.take(to as int),
{
    let mut r: Vec<char> = Vec::new();
    let mut i: usize = 0;
    while i < to
        invariant
            i <= to <= v.len(),
            r@ == v@.take(i as int),
        decreases to - i,
    {
        r.push(v[i]);
        i += 1;
        assert(r@ =~= v@.take(i as int));
    }
    r
}

/// Index of the first `c` in `t`, or its length.
fn find_char(t: &Vec<char>, c: char) -> (r: usize)
    ensures
        r as int == first_index(t@, c),
        r <= t.len(),
{
    let mut i: usize = 0;
    assert(t@.skip(0) =~= t@);
    while i < t.len()
        invariant
            i <= t.len(),
            first_index(t@, c) == i + first_index(t@.skip(i as int), c),
        decreases t.len() - i,
    {
        if t[i] == c {
            return i;
        }
        assert(t@.skip(i as int + 1) =~= t@.skip(i as int).drop_first());
        i += 1;
    }
    assert(t@.skip(i as int).len() == 0);
    i
}

/// `v` made long enough to have an element `idx`, with filler.
fn grow_to(v: &mut Vec<Vec<char>>, idx: usize)
    requires
        idx < usize::MAX,
    ensures
        texts(final(v)@) == grow(texts(old(v)@), idx as int),
{
    let ghost start = texts(v@);
    let ghost old_len = v.len();
    while v.len() <= idx
        invariant
            v.len() >= old_len,
            old_len == start.len(),
            idx < usize::MAX,
            texts(v@) == start + Seq::new((v.len() - old_len) as nat, |i: int| filler()),
            v.len() > old_len ==> v.len() <= idx + 1,
        decreases idx + 1 - v.len(),
    {
        let ghost before = texts(v@);
        let f = chars_of("...");
        v.push(f);
        assert(texts(v@) =~= before.push(f@));
        assert(texts(v@) =~= start + Seq::new((v.len() - old_len) as nat, |i: int| filler()));
    }
    proof {
        if old_len > idx {
            assert(texts(v@) =~= start);
        }
    }
}

proof fn lemma_texts_update(v: Seq<Vec<char>>, i: int, t: Vec<char>)
    requires
        0 <= i < v.len(),
    ensures
        texts(v.update(i, t)) == texts(v).update(i, t@),
{
    assert(texts(v.update(i, t)) =~= texts(v).update(i, t@));
}

impl Assembler {
    /// Emits `text` at the counter, which then moves one step away from zero.
    fn emit(&mut self, text: Vec<char>) -> (r: Result<(), AsmError>)
        requires
            old(self).wf(),
        ensures
            pass_matches(r, *final(self), emit(old(self)@, text@)),
    {
        if self.pc >= 0 {
            if self.pc == i32::MAX {
                return Err(AsmError::Abort);
            }
            let index = self.pc as usize;
            grow_to(&mut self.positive, index);
            assert(texts(self.positive@).len() == self.positive@.len());
            assert(self.positive@.len() > index);
            proof {
                lemma_texts_update(self.positive@, index as int, text);
            }
            self.positive.set(index, text);
            self.pc += 1;
        } else {
            if self.pc == i32::MIN {
                return Err(AsmError::Abort);
            }
            let index = (-self.pc) as usize;
            grow_to(&mut self.negative, index);
            assert(texts(self.negative@).len() == self.negative@.len());
            assert(self.negative@.len() > index);
            proof {
                lemma_texts_update(self.negative@, index as int, text);
            }
            self.negative.set(index, text);
            self.pc -= 1;
        }
        Ok(())
    }

    /// Where `name` is among the labels.
    fn find_label(&self, name: &Vec<char>) -> (r: Option<usize>)
        requires
            self.wf(),
        ensures
            r matches Some(i) ==> i < self.label_names.len() && self.label_names@[i as int]@ == name@
                && self@.labels.contains_key(name@) && self@.labels[name@] == self.label_values@[i as int] as int,
            r is None ==> !self@.labels.contains_key(name@),
    {
        let mut i: usize = 0;
        while i < self.label_names.len()
            invariant
                self.wf(),
                i <= self.label_names.len(),
                forall|j: int| 0 <= j < i ==> self.label_names@[j]@ != name@,
            decreases self.label_names.len() - i,
        {
            if chars_eq(&self.label_names[i], name) {
                proof {
                    assert(texts(self.label_names@)[i as int] == name@);
                    lemma_label_map_has(texts(self.label_names@), self.label_values@, i as int);
                }
                return Some(i);
            }
            i += 1;
        }
        proof {
            assert forall|j: int| 0 <= j < texts(self.label_names@).len() implies texts(
                self.label_names@,
            )[j] != name@ by {
                assert(texts(self.label_names@)[j] == self.label_names@[j]@);
            }
            lemma_label_map_lacks(texts(self.label_names@), self.label_values@, name@);
        }
        None
    }

    /// Defines label `name` as `value`, or redefines it.
    fn set_label(&mut self, name: Vec<char>, value: i32)
        requires
            old(self).wf(),
        ensures
            final(self).wf(),
            final(self)@ == (AsmView { labels: old(self)@.labels.insert(name@, value as int), ..old(self)@ }),
    {
        match self.find_label(&name) {
            Some(i) => {
                proof {
                    lemma_label_map_set(texts(self.label_names@), self.label_values@, i as int, value);
                }
                self.label_values.set(i, value);
            },
            None => {
                let ghost names = texts(self.label_names@);
                let ghost values = self.label_values@;
                proof {
                    assert forall|j: int| 0 <= j < names.len() implies names[j] != name@ by {
                        if names[j] == name@ {
                            lemma_label_map_has(names, values, j);
                        }
                    }
                }
                self.label_names.push(name);
                self.label_values.push(value);
                proof {
                    let n2 = texts(self.label_names@);
                    assert(n2 =~= names.push(name@));
                    assert(n2.drop_last() =~= names);
                    assert(self.label_values@.drop_last() =~= values);
                    assert(unique_names(n2)) by {
                        assert forall|i: int, j: int| 0 <= i < j < n2.len() implies n2[i] != n2[j] by {
                            if j == n2.len() - 1 {
                                assert(n2[i] == names[i]);
                            } else {
                                assert(n2[i] == names[i] && n2[j] == names[j]);
                            }
                        }
                    }
                }
            },
        }
    }
}

/// The label and offset of a reference token.
fn reference_parts(t: &Vec<char>) -> (r: Result<(Vec<char>, i32), AsmError>)
    ensures
        match reference_of(t@) {
            RefParse::Found { label, offset } => r matches Ok((l, o)) && l@ == label && o == offset,
            RefParse::Failed(e) => r matches Err(AsmError::Error(m)) && m@ == e,
            RefParse::Aborted => r matches Err(AsmError::Abort),
        },
{
    let p = find_char(t, '+');
    if p < t.len() {
        let off = tail(t, p + 1);
        match parse_i32(&off) {
            Some(v) => Ok((head(t, p), v)),
            None => Err(AsmError::Error(literal("bad offset"))),
        }
    } else {
        let m = find_char(t, '-');
        if m < t.len() {
            let off = tail(t, m + 1);
            match parse_i32(&off) {
                Some(v) => if v == i32::MIN {
                    Err(AsmError::Abort)
                } else {
                    Ok((head(t, m), -v))
                },
                None => Err(AsmError::Error(literal("bad offset"))),
            }
        } else {
            let whole = tail(t, 0);
            assert(whole@ =~= t@);
            Ok((whole, 0))
        }
    }
}

/// Reads a reference token: `label+n`, `label-n` (split at the first `+`, or else at
/// the first `-`), or a bare `label` with offset 0.
pub fn parse_reference(token: &str) -> (r: Result<(String, i32), AsmError>)
    ensures
        match reference_of(token@) {
            RefParse::Found { label, offset } => r matches Ok((l, o)) && l@ == label && o == offset,
            RefParse::Failed(e) => r matches Err(AsmError::Error(m)) && m@ == e,
            RefParse::Aborted => r matches Err(AsmError::Abort),
        },
{
    let t = chars_of(token);
    match reference_parts(&t) {
        Ok((l, o)) => Ok((string_of(&l), o)),
        Err(e) => Err(e),
    }
}

/// Whether `t` is made of `A`..`Z` only.
fn is_all_upper(t: &Vec<char>) -> (r: bool)
    ensures
        r == all_upper(t@),
{
    let mut i: usize = 0;
    while i < t.len()
        invariant
            i <= t.len(),
            forall|j: int| 0 <= j < i ==> 'A' <= #[trigger] t@[j] <= 'Z',
        decreases t.len() - i,
    {
        if !('A' <= t[i] && t[i] <= 'Z') {
            return false;
        }
        i += 1;
    }
    true
}

impl Assembler {
    /// Pass one on one token.
    fn step_token(&mut self, t: &Vec<char>) -> (r: Result<(), AsmError>)
        requires
            old(self).wf(),
            t.len() > 0,
        ensures
            pass_matches(r, *final(self), token_step(old(self)@, t@)),
    {
        if is_all_upper(t) {
            let whole = tail(t, 0);
            assert(whole@ =~= t@);
            return self.emit(whole);
        }
        let c0 = t[0];
        if c0 == '>' {
            let pc = self.pc;
            self.set_label(tail(t, 1), pc);
            Ok(())
        } else if c0 == ':' {
            let neg_len = self.negative.len() as i32;
            let pos_len = self.positive.len() as i32;
            let pc = if self.positive.len() > self.negative.len() {
                if neg_len == i32::MIN {
                    return Err(AsmError::Abort);
                }
                -neg_len
            } else {
                pos_len
            };
            self.pc = pc;
            self.set_label(tail(t, 1), pc);
            Ok(())
        } else if c0 == '?' || c0 == '!' {
            let label = tail(t, 1);
            match self.find_label(&label) {
                None => {
                    let longest = if self.positive.len() >= self.negative.len() {
                        self.positive.len()
                    } else {
                        self.negative.len()
                    };
                    let n = longest as i32;
                    let pc = if self.pc > 0 {
                        n
                    } else {
                        if n == i32::MIN {
                            return Err(AsmError::Abort);
                        }
                        -n
                    };
                    self.pc = pc;
                    if c0 == '?' {
                        self.set_label(label, pc);
                    } else {
                        if pc == i32::MIN {
                            return Err(AsmError::Abort);
                        }
                        self.set_label(label, -pc);
                    }
                    Ok(())
                },
                Some(i) => {
                    let v = self.label_values[i];
                    if c0 == '?' {
                        self.pc = v;
                    } else {
                        if v == i32::MIN {
                            return Err(AsmError::Abort);
                        }
                        self.pc = -v;
                    }
                    Ok(())
                },
            }
        } else if c0 == '#' {
            self.emit(tail(t, 1))
        } else if c0 == '.' {
            if t.len() < 2 {
                return Err(AsmError::Abort);
            }
            let second = t[1];
            if second >= '\u{80}' {
                return Err(AsmError::Abort);
            }
            let digits = tail(t, 2);
            let d = match parse_i32(&digits) {
                Some(d) => d,
                None => return Err(AsmError::Abort),
            };
            let negate = (second == '-') != (self.pc < 0);
            let delta: i64 = if negate {
                -(d as i64)
            } else {
                d as i64
            };
            proof {
                let sign: int = if t@[1] == '-' {
                    -1
                } else {
                    1
                };
                let realsign: int = if self.pc < 0 {
                    -sign
                } else {
                    sign
                };
                assert(realsign * d == delta) by (nonlinear_arith)
                    requires
                        realsign == 1 || realsign == -1,
                        (realsign == -1) == negate,
                        delta == (if negate { -d } else { d as int }),
                ;
            }
            if delta < i32::MIN as i64 || delta > i32::MAX as i64 {
                return Err(AsmError::Abort);
            }
            let addr: i64 = self.pc as i64 + delta;
            if addr < i32::MIN as i64 || addr > i32::MAX as i64 {
                return Err(AsmError::Abort);
            }
            let code = encode_word(addr as i16, 3);
            self.emit(code)
        } else {
            match reference_parts(t) {
                Ok((label, offset)) => {
                    let pc = self.pc;
                    let placeholder = chars_of("???");
                    match self.emit(placeholder) {
                        Ok(()) => {},
                        Err(e) => return Err(e),
                    }
                    let ghost refs = self.references@;
                    let ghost lab = label@;
                    self.references.push(Reference { output_index: pc, label, offset });
                    proof {
                        assert(ref_views(self.references@) =~= ref_views(refs).push(
                            RefView { output_index: pc as int, label: lab, offset: offset as int },
                        ));
                    }
                    Ok(())
                },
                Err(e) => Err(e),
            }
        }
    }
}

/// The tokens of one source line.
fn tokens_of_line(line: &Vec<char>) -> (r: Vec<Vec<char>>)
    ensures
        texts(r@) == line_tokens(line@),
        forall|i: int| 0 <= i < r.len() ==> (#[trigger] r@[i]).len() > 0,
{
    let cut = find_char(line, ';');
    let code = head(line, cut);
    let t = trimmed(&code);
    if t.len() == 0 {
        let r: Vec<Vec<char>> = Vec::new();
        assert(texts(r@) =~= Seq::<Seq<char>>::empty());
        return r;
    }
    let r = split_words(&t);
    proof {
        lemma_words_nonempty(t@);
        assert forall|i: int| 0 <= i < r.len() implies (#[trigger] r@[i]).len() > 0 by {
            assert(texts(r@)[i] == r@[i]@);
        }
    }
    r
}

impl Assembler {
    /// Pass one over a source text.
    fn first_pass(&mut self, source: &str) -> (r: Result<(), AsmError>)
        requires
            old(self).wf(),
        ensures
            pass_matches(r, *final(self), run_lines(old(self)@, lines(source@), 0)),
    {
        let cs = chars_of(source);
        let ls = split_lines(&cs);
        let ghost l = texts(ls@);
        let mut i: usize = 0;
        while i < ls.len()
            invariant
                i <= ls.len(),
                l == texts(ls@),
                l == lines(source@),
                self.wf(),
                run_lines(old(self)@, l, 0) == run_lines(self@, l, i as int),
            decreases ls.len() - i,
        {
            let toks = tokens_of_line(&ls[i]);
            let ghost start = self@;
            let ghost tk = texts(toks@);
            assert(l[i as int] == ls@[i as int]@);
            let mut j: usize = 0;
            while j < toks.len()
                invariant
                    j <= toks.len(),
                    tk == texts(toks@),
                    i < ls.len(),
                    l == texts(ls@),
                    l == lines(source@),
                    tk == line_tokens(l[i as int]),
                    run_lines(old(self)@, l, 0) == run_lines(start, l, i as int),
                    forall|x: int| 0 <= x < toks.len() ==> (#[trigger] toks@[x]).len() > 0,
                    self.wf(),
                    run_tokens(start, tk, 0) == run_tokens(self@, tk, j as int),
                decreases toks.len() - j,
            {
                assert(tk[j as int] == toks@[j as int]@);
                let ghost cur = self@;
                match self.step_token(&toks[j]) {
                    Ok(()) => {},
                    Err(e) => {
                        proof {
                            assert(!(token_step(cur, tk[j as int]) is Running));
                            assert(run_tokens(cur, tk, j as int) == token_step(cur, tk[j as int]));
                            assert(run_lines(start, l, i as int) == run_tokens(start, tk, 0));
                        }
                        return Err(e);
                    },
                }
                j += 1;
            }
            i += 1;
        }
        Ok(())
    }

    /// Pass two: fills in each reference with the code of its label's address plus
    /// its offset.
    fn second_pass(&mut self) -> (r: Result<(), AsmError>)
        requires
            old(self).wf(),
        ensures
            pass_matches(r, *final(self), resolve(old(self)@, 0)),
    {
        let mut k: usize = 0;
        while k < self.references.len()
            invariant
                k <= self.references.len(),
                self.wf(),
                resolve(old(self)@, 0) == resolve(self@, k as int),
            decreases self.references.len() - k,
        {
            let found = self.find_label(&self.references[k].label);
            let value = match found {
                Some(i) => self.label_values[i],
                None => {
                    return Err(AsmError::Error(prefixed("Unknown label ", &self.references[k].label)));
                },
            };
            let a: i64 = value as i64 + self.references[k].offset as i64;
            if a < i32::MIN as i64 || a > i32::MAX as i64 {
                return Err(AsmError::Abort);
            }
            let code = encode_word(a as i16, 3);
            let idx = self.references[k].output_index;
            proof {
                assert(self@.references[k as int].output_index == idx);
            }
            if idx > 0 {
                proof {
                    lemma_texts_update(self.positive@, idx as int, code);
                }
                self.positive.set(idx as usize, code);
            } else {
                proof {
                    lemma_texts_update(self.negative@, -idx, code);
                }
                self.negative.set((-idx) as usize, code);
            }
            k += 1;
        }
        Ok(())
    }

    /// The program image text.
    fn image_text(&self) -> (out: Vec<char>)
        ensures
            out@ == join_lines(image_lines(self@.negative, self@.positive)),
    {
        let ghost img = image_lines(self@.negative, self@.positive);
        let mut out: Vec<char> = Vec::new();
        let filler_line = chars_of("...");
        let mut i: usize = 0;
        assert(img.take(0) =~= Seq::<Seq<char>>::empty());
        while i < 19683
            invariant
                i <= 19683,
                img == image_lines(self@.negative, self@.positive),
                filler_line@ == filler(),
                out@ == join_lines(img.take(i as int)),
            decreases 19683 - i,
        {
            let line: &Vec<char> = if i < 9841 {
                let k = 9841 - i;
                if k < self.negative.len() {
                    &self.negative[k]
                } else {
                    &filler_line
                }
            } else {
                let k = i - 9841;
                if k < self.positive.len() {
                    &self.positive[k]
                } else {
                    &filler_line
                }
            };
            proof {
                assert(line@ == img[i as int]);
                assert(img.take(i as int + 1).drop_last() =~= img.take(i as int));
            }
            if i > 0 {
                push_str(&mut out, "\n");
            }
            push_chars(&mut out, line);
            proof {
                if i == 0 {
                    assert(out@ =~= img.take(1)[0]);
                }
            }
            i += 1;
        }
        assert(img.take(19683) =~= img);
        out
    }

    /// The labels and their addresses, each once.
    fn label_list(&self) -> (r: Vec<(String, i32)>)
        requires
            self.wf(),
        ensures
            lists_labels(r@, self@.labels),
    {
        let mut r: Vec<(String, i32)> = Vec::new();
        let mut i: usize = 0;
        while i < self.label_names.len()
            invariant
                self.wf(),
                i <= self.label_names.len(),
                r.len() == i,
                forall|j: int| 0 <= j < i ==> (#[trigger] r@[j]).0@ == self.label_names@[j]@ && r@[j].1
                    == self.label_values@[j],
            decreases self.label_names.len() - i,
        {
            r.push((string_of(&self.label_names[i]), self.label_values[i]));
            i += 1;
        }
        proof {
            let names = texts(self.label_names@);
            assert forall|j: int|
                0 <= j < r.len() implies self@.labels.contains_key((#[trigger] r@[j]).0@)
                && self@.labels[r@[j].0@] == r@[j].1 as int by {
                assert(names[j] == self.label_names@[j]@);
                lemma_label_map_has(names, self.label_values@, j);
            }
            assert forall|k: Seq<char>| self@.labels.contains_key(k) implies exists|j: int|
                0 <= j < r.len() && (#[trigger] r@[j]).0@ == k by {
                if !(exists|j: int| 0 <= j < r.len() && (#[trigger] r@[j]).0@ == k) {
                    assert forall|j: int| 0 <= j < names.len() implies names[j] != k by {
                        assert(r@[j].0@ == names[j]);
                    }
                    lemma_label_map_lacks(names, self.label_values@, k);
                }
            }
            assert forall|x: int, y: int| 0 <= x < y < r.len() implies (#[trigger] r@[x]).0@ != (
            #[trigger] r@[y]).0@ by {
                assert(names[x] == self.label_names@[x]@);
                assert(names[y] == self.label_names@[y]@);
            }
        }
        r
    }

    /// Assembles a source text: the program image, one line per address from -9841
    /// up to 9841, each the text emitted there or `...`, and the labels with their
    /// addresses.
    pub fn assemble(self, source: &str) -> (r: Result<Assembly, AsmError>)
        requires
            self.wf(),
        ensures
            match assemble_from(self@, source@) {
                Assembled::Image { text, labels } => r matches Ok(a) && a.image@ == text
                    && lists_labels(a.labels@, labels),
                Assembled::Failed(e) => r matches Err(AsmError::Error(m)) && m@ == e,
                Assembled::Aborted => r matches Err(AsmError::Abort),
            },
    {
        let mut work = self;
        match work.first_pass(source) {
            Ok(()) => {},
            Err(e) => return Err(e),
        }
        match work.second_pass() {
            Ok(()) => {},
            Err(e) => return Err(e),
        }
        let out = work.image_text();
        let labels = work.label_list();
        Ok(Assembly { image: string_of(&out), labels })
    }
}

/// `r` lists the labels of `labels` with their addresses, each label once.
pub open spec fn lists_labels(r: Seq<(String, i32)>, labels: Map<Seq<char>, int>) -> bool {
    &&& forall|i: int|
        0 <= i < r.len() ==> labels.contains_key((#[trigger] r[i]).0@) && labels[r[i].0@] == r[i].1 as int
    &&& forall|k: Seq<char>| labels.contains_key(k) ==> exists|i: int| 0 <= i < r.len() && (#[trigger] r[i]).0@ == k
    &&& forall|x: int, y: int| 0 <= x < y < r.len() ==> (#[trigger] r[x]).0@ != (#[trigger] r[y]).0@
}

/// An assembled program.
pub struct Assembly {
    /// The program image.
    pub image: String,
    /// The labels and their addresses.
    pub labels: Vec<(String, i32)>,
}

// ---------------------------------------------------------------- data images

/// Every other element of `ls`, from index `start` on.
pub open spec fn every_other(ls: Seq<Seq<char>>, start: int) -> Seq<Seq<char>> {
    Seq::new(
        (if ls.len() > start {
            (ls.len() - start + 1) / 2
        } else {
            0
        }) as nat,
        |k: int| ls[start + 2 * k],
    )
}

/// `v` cut or padded with filler to `n` elements.
pub open spec fn fit(v: Seq<Seq<char>>, n: int) -> Seq<Seq<char>> {
    if v.len() >= n {
        v.take(n)
    } else {
        v + Seq::new((n - v.len()) as nat, |i: int| filler())
    }
}

/// The program image that holds a text whose characters are given as code words,
/// one per line: the positive side runs `hlt`, `mmm`, then the even-numbered code
/// words; the negative side runs the code of the positive side's length (code
/// words plus two), then the odd-numbered code words, filler up to that length,
/// and `mmm`.
pub open spec fn data_image(codewords: Seq<char>) -> Seq<char> {
    let ls = lines(codewords);
    let pos = every_other(ls, 0);
    let neg = every_other(ls, 1);
    let size = pos.len() + 2;
    let p2 = seq!["hlt"@, "mmm"@] + pos;
    let n2 = seq![filler(), word_code((size as i16) as int, 3)] + neg;
    let n3 = fit(n2, size as int) + seq!["mmm"@];
    join_lines(image_lines(n3, p2))
}

/// Lays out code words (one per line) as a data image; see `data_image`.
pub fn lay_out_codewords(codewords: &str) -> (out: String)
    ensures
        out@ == data_image(codewords@),
{
    let cs = chars_of(codewords);
    let ls = split_lines(&cs);
    let ghost l = texts(ls@);
    let mut positive: Vec<Vec<char>> = Vec::new();
    let mut negative: Vec<Vec<char>> = Vec::new();
    positive.push(chars_of("hlt"));
    positive.push(chars_of("mmm"));
    let mut i: usize = 0;
    while i < ls.len()
        invariant
            i <= ls.len(),
            l == texts(ls@),
            texts(positive@) == seq!["hlt"@, "mmm"@] + every_other(l.take(i as int), 0),
            texts(negative@) == every_other(l.take(i as int), 1),
        decreases ls.len() - i,
    {
        let ghost p0 = texts(positive@);
        let ghost n0 = texts(negative@);
        let line = tail(&ls[i], 0);
        assert(line@ =~= l[i as int]);
        if i % 2 == 0 {
            positive.push(line);
            proof {
                assert(texts(positive@) =~= p0.push(line@));
                assert(every_other(l.take(i as int + 1), 0) =~= every_other(l.take(i as int), 0).push(
                    l[i as int],
                ));
                assert(every_other(l.take(i as int + 1), 1) =~= every_other(l.take(i as int), 1));
            }
        } else {
            negative.push(line);
            proof {
                assert(texts(negative@) =~= n0.push(line@));
                assert(every_other(l.take(i as int + 1), 1) =~= every_other(l.take(i as int), 1).push(
                    l[i as int],
                ));
                assert(every_other(l.take(i as int + 1), 0) =~= every_other(l.take(i as int), 0));
            }
        }
        i += 1;
    }
    assert(l.take(i as int) =~= l);
    let size = positive.len();
    let mut n2: Vec<Vec<char>> = Vec::new();
    n2.push(chars_of("..."));
    n2.push(encode_word(size as i16, 3));
    let mut k: usize = 0;
    let ghost neg = texts(negative@);
    while k < negative.len()
        invariant
            k <= negative.len(),
            neg == texts(negative@),
            size == positive.len(),
            texts(n2@) == seq![filler(), word_code((size as i16) as int, 3)] + neg.take(k as int),
            n2.len() == k + 2,
        decreases negative.len() - k,
    {
        let ghost before = texts(n2@);
        let line = tail(&negative[k], 0);
        assert(line@ =~= neg[k as int]);
        n2.push(line);
        assert(texts(n2@) =~= before.push(line@));
        assert(neg.take(k as int + 1) =~= neg.take(k as int).push(neg[k as int]));
        k += 1;
    }
    assert(neg.take(k as int) =~= neg);
    let ghost n2v = texts(n2@);
    let mut n3: Vec<Vec<char>> = Vec::new();
    let mut j: usize = 0;
    while j < size
        invariant
            j <= size,
            n2v == texts(n2@),
            texts(n3@) == fit(n2v, size as int).take(j as int),
        decreases size - j,
    {
        let ghost before = texts(n3@);
        let line = if j < n2.len() {
            tail(&n2[j], 0)
        } else {
            chars_of("...")
        };
        proof {
            assert(line@ == fit(n2v, size as int)[j as int]);
        }
        n3.push(line);
        assert(texts(n3@) =~= before.push(line@));
        assert(fit(n2v, size as int).take(j as int + 1) =~= fit(n2v, size as int).take(j as int).push(
            fit(n2v, size as int)[j as int],
        ));
        j += 1;
    }
    assert(fit(n2v, size as int).take(j as int) =~= fit(n2v, size as int));
    let ghost n3v = texts(n3@);
    n3.push(chars_of("mmm"));
    assert(texts(n3@) =~= n3v.push("mmm"@));
    let image = Assembler {
        label_names: Vec::new(),
        label_values: Vec::new(),
        negative: n3,
        positive,
        references: Vec::new(),
        pc: 1,
    };
    let out = image.image_text();
    proof {
        assert(image@.negative == fit(n2v, size as int) + seq!["mmm"@]);
    }
    string_of(&out)
}

/// The state of a fresh assembler after the first `k` of the upper-case words `ts`.
pub open spec fn after_words(ts: Seq<Seq<char>>, k: int) -> AsmView {
    AsmView { positive: seq![filler()] + ts.take(k), pc: k + 1, ..initial_asm() }
}

proof fn lemma_words_from(ts: Seq<Seq<char>>, k: int)
    requires
        forall|i: int| 0 <= i < ts.len() ==> all_upper(#[trigger] ts[i]),
        ts.len() < 0x7fff_fffe,
        0 <= k <= ts.len(),
    ensures
        run_tokens(after_words(ts, k), ts, k) == Pass::Running(after_words(ts, ts.len() as int)),
    decreases ts.len() - k,
{
    if k < ts.len() {
        let s = after_words(ts, k);
        assert(all_upper(ts[k]));
        assert(grow(s.positive, s.pc) =~= s.positive + seq![filler()]);
        assert(grow(s.positive, s.pc).update(s.pc, ts[k]) =~= seq![filler()] + ts.take(k + 1));
        assert(token_step(s, ts[k]) == Pass::Running(after_words(ts, k + 1)));
        lemma_words_from(ts, k + 1);
    } else {
        assert(ts.take(k) =~= ts);
    }
}

/// Upper-case words fill consecutive addresses from 1: from a fresh assembler, pass
/// one over words `w1..wn` of `A`..`Z` leaves `wi` at address `i` and the counter at
/// `n + 1`; with no references, pass two changes nothing, and the image shows `wi` on
/// the line of address `i`.
pub proof fn law_words_fill_addresses(ts: Seq<Seq<char>>)
    requires
        forall|i: int| 0 <= i < ts.len() ==> all_upper(#[trigger] ts[i]),
        ts.len() < 0x7fff_fffe,
    ensures
        run_tokens(initial_asm(), ts, 0) == Pass::Running(after_words(ts, ts.len() as int)),
        after_words(ts, ts.len() as int).positive == seq![filler()] + ts,
        after_words(ts, ts.len() as int).pc == ts.len() + 1,
        resolve(after_words(ts, ts.len() as int), 0) == Pass::Running(after_words(ts, ts.len() as int)),
        forall|i: int|
            1 <= i <= ts.len() && i <= 9841 ==> #[trigger] image_lines(
                initial_asm().negative,
                seq![filler()] + ts,
            )[9841 + i] == ts[i - 1],
{
    assert(after_words(ts, 0) =~= initial_asm()) by {
        assert(seq![filler()] + ts.take(0) =~= seq![filler()]);
    }
    lemma_words_from(ts, 0);
    assert(ts.take(ts.len() as int) =~= ts);
}

/// The text at the counter's place on the side the counter is on.
pub open spec fn text_at_counter(s: AsmView, pc: int) -> Seq<char> {
    if pc >= 0 {
        s.positive[pc]
    } else {
        s.negative[-pc]
    }
}

/// A relative token `.+n` / `.-n` emits, at the counter, the code of the address `n`
/// places further on / back along the way the counter moves (up on the positive
/// side, down on the negative side), and then moves the counter one place on.
pub proof fn law_relative_address(s: AsmView, t: Seq<char>, n: int)
    requires
        t.len() >= 2,
        t[0] == '.',
        t[1] == '+' || t[1] == '-',
        parse_integer(t.skip(2), true, i32::MIN as int, i32::MAX as int) == Some(n),
        token_step(s, t) is Running,
    ensures
        ({
            let dir: int = if s.pc >= 0 { 1 } else { -1 };
            let target: int = if t[1] == '+' { s.pc + n * dir } else { s.pc - n * dir };
            &&& text_at_counter(token_step(s, t)->Running_0, s.pc) == word_code((target as i16) as int, 3)
            &&& (token_step(s, t)->Running_0).pc == s.pc + dir
        }),
{
    assert(!all_upper(t));
    let dir: int = if s.pc >= 0 { 1 } else { -1 };
    let sign: int = if t[1] == '-' { -1 } else { 1 };
    let realsign: int = if s.pc < 0 { -sign } else { sign };
    assert(realsign * n == (if t[1] == '+' { n * dir } else { -(n * dir) })) by (nonlinear_arith)
        requires
            realsign == (if s.pc < 0 { -sign } else { sign }),
            sign == (if t[1] == '-' { -1int } else { 1 }),
            dir == (if s.pc >= 0 { 1int } else { -1 }),
            t[1] == '+' || t[1] == '-',
    ;
}

/// Lines without `\n`, joined with `\n`, split at `\n` into the same lines.
pub proof fn lemma_split_joined(ls: Seq<Seq<char>>)
    requires
        ls.len() > 0,
        forall|i: int| 0 <= i < ls.len() ==> no_newline(#[trigger] ls[i]),
    ensures
        split_state(join_lines(ls)) == (ls.drop_last(), ls.last()),
        split_newlines(join_lines(ls)) == ls,
    decreases ls.len(),
{
    if ls.len() == 1 {
        lemma_split_state_extend(Seq::empty(), ls[0]);
        assert(Seq::<char>::empty() + ls[0] =~= ls[0]);
        assert(ls.drop_last() =~= Seq::<Seq<char>>::empty());
    } else {
        let pre = ls.drop_last();
        assert forall|i: int| 0 <= i < pre.len() implies no_newline(#[trigger] pre[i]) by {
            assert(pre[i] == ls[i]);
        }
        lemma_split_joined(pre);
        reveal_strlit("\n");
        let j = join_lines(pre) + "\n"@;
        assert(j.drop_last() =~= join_lines(pre));
        assert(pre.drop_last().push(pre.last()) =~= pre);
        lemma_split_state_extend(j, ls.last());
        assert(Seq::<char>::empty() + ls.last() =~= ls.last());
    }
    assert(ls.drop_last().push(ls.last()) =~= ls);
}

/// The data image of code words, read line by line (line `i` holds address
/// `i - 9841`): address 0 holds `hlt` and address 1 `mmm`; the code words with even
/// index (0, 2, 4, ...) follow from address 2 up, then filler. Address -1 holds the
/// code of the number of lines on the positive side from address 0 (`hlt`, `mmm` and
/// the even-indexed code words); the odd-indexed code words follow from address -2
/// down, then filler, and the end mark `mmm` stands at minus that number; every
/// address below it holds filler.
pub proof fn law_data_image_layout(codewords: Seq<char>, k: int)
    requires
        (lines(codewords).len() + 1) / 2 + 2 <= 9841,
        0 <= k,
    ensures
        ({
            let ls = lines(codewords);
            let n = ls.len() as int;
            let size = (n + 1) / 2 + 2;
            let img = split_newlines(data_image(codewords));
            &&& img.len() == 19683
            &&& img[9841] == "hlt"@
            &&& img[9842] == "mmm"@
            &&& 2 * k < n ==> img[9843 + k] == ls[2 * k]
            &&& size + k <= 9841 ==> img[9841 + size + k] == filler()
            &&& img[9840] == word_code(size, 3)
            &&& 2 * k + 1 < n ==> img[9839 - k] == ls[2 * k + 1]
            &&& n / 2 + 2 + k < size ==> img[9841 - (n / 2 + 2 + k)] == filler()
            &&& img[9841 - size] == "mmm"@
            &&& size + 1 + k <= 9841 ==> img[9841 - (size + 1 + k)] == filler()
        }),
{
    let ls = lines(codewords);
    let n = ls.len() as int;
    let pos = every_other(ls, 0);
    let neg = every_other(ls, 1);
    let size: int = pos.len() as int + 2;
    assert(size == (n + 1) / 2 + 2);
    assert(neg.len() == n / 2);
    let code = word_code((size as i16) as int, 3);
    assert((size as i16) as int == size);
    let p2 = seq!["hlt"@, "mmm"@] + pos;
    let n2 = seq![filler(), code] + neg;
    let n3 = fit(n2, size as int) + seq!["mmm"@];
    let all = image_lines(n3, p2);
    assert(data_image(codewords) == join_lines(all));
    reveal_strlit("hlt");
    reveal_strlit("mmm");
    reveal_strlit("...");
    lemma_lines_no_newline(codewords);
    assert(sip_bound(3) == 9841) by {
        assert(sip_bound(0) == 0);
        assert(sip_bound(1) == 13);
        assert(sip_bound(2) == 364);
    }
    lemma_word_code(size, 3);
    assert forall|i: int| 0 <= i < code.len() implies code[i] != '\n' by {
        assert(char_sip(code[i]) is Some);
    }
    assert(no_newline(code));
    assert(no_newline(filler()));
    assert(no_newline("hlt"@));
    assert(no_newline("mmm"@));
    assert(n3.len() == size + 1);
    assert forall|j: int| 0 <= j < n3.len() implies no_newline(#[trigger] n3[j]) by {
        if j < size {
            if j < n2.len() && j >= 2 {
                assert(n3[j] == ls[1 + 2 * (j - 2)]);
            }
        }
    }
    assert forall|j: int| 0 <= j < p2.len() implies no_newline(#[trigger] p2[j]) by {
        if j >= 2 {
            assert(p2[j] == ls[2 * (j - 2)]);
        }
    }
    assert forall|i: int| 0 <= i < all.len() implies no_newline(#[trigger] all[i]) by {
        if i < 9841 {
            if 9841 - i < n3.len() {
                assert(no_newline(n3[9841 - i]));
            }
        } else {
            if i - 9841 < p2.len() {
                assert(no_newline(p2[i - 9841]));
            }
        }
    }
    lemma_split_joined(all);
    if 2 * k < n {
        assert(all[9843 + k] == p2[2 + k]);
    }
    if 2 * k + 1 < n {
        assert(all[9839 - k] == n3[2 + k]);
    }
    assert(all[9841 - size] == n3[size]);
}

/// The line a reference names by its place: index `idx` of the positive side for a
/// place above zero, else index `-idx` of the negative side.
pub open spec fn text_at_place(s: AsmView, idx: int) -> Seq<char> {
    if idx > 0 {
        s.positive[idx]
    } else {
        s.negative[-idx]
    }
}

/// The code pass two writes for reference `k`: its label's address plus its offset,
/// as a 16-bit word, in three sips.
pub open spec fn reference_code(s: AsmView, k: int) -> Seq<char> {
    let r = s.references[k];
    word_code(((s.labels[r.label] + r.offset) as i16) as int, 3)
}

proof fn lemma_resolve_from(s: AsmView, j: int, k: int, p: int)
    requires
        refs_in_place(s),
        0 <= j,
        resolve(s, j) is Running,
        if p > 0 {
            p < s.positive.len()
        } else {
            -p < s.negative.len()
        },
    ensures
        ({
            let s2 = resolve(s, j)->Running_0;
            &&& s2.labels == s.labels
            &&& s2.references == s.references
            &&& s2.pc == s.pc
            &&& s2.positive.len() == s.positive.len()
            &&& s2.negative.len() == s.negative.len()
            &&& (j <= k < s.references.len() && forall|x: int|
                k < x < s.references.len() ==> (#[trigger] s.references[x]).output_index
                    != s.references[k].output_index) ==> s.labels.contains_key(
                s.references[k].label,
            ) && text_at_place(s2, s.references[k].output_index) == reference_code(s, k)
            &&& (forall|x: int|
                j <= x < s.references.len() ==> (#[trigger] s.references[x]).output_index != p)
                ==> text_at_place(s2, p) == text_at_place(s, p)
        }),
    decreases s.references.len() - j,
{
    if j < s.references.len() {
        let r = s.references[j];
        let a = s.labels[r.label] + r.offset;
        let code = word_code((a as i16) as int, 3);
        let s1 = if r.output_index > 0 {
            AsmView { positive: s.positive.update(r.output_index, code), ..s }
        } else {
            AsmView { negative: s.negative.update(-r.output_index, code), ..s }
        };
        assert(resolve(s, j) == resolve(s1, j + 1));
        assert(refs_in_place(s1)) by {
            assert forall|x: int| 0 <= x < s1.references.len() implies {
                let q = #[trigger] s1.references[x];
                if q.output_index > 0 {
                    q.output_index < s1.positive.len()
                } else {
                    -q.output_index < s1.negative.len()
                }
            } by {
                assert(s1.references[x] == s.references[x]);
            }
        }
        lemma_resolve_from(s1, j + 1, k, p);
        lemma_resolve_from(s1, j + 1, k, r.output_index);
        let s2 = resolve(s, j)->Running_0;
        if (forall|x: int|
            j <= x < s.references.len() ==> (#[trigger] s.references[x]).output_index != p) {
            assert(s.references[j].output_index != p);
            assert(text_at_place(s1, p) == text_at_place(s, p));
        }
        if j == k && (forall|x: int|
            k < x < s.references.len() ==> (#[trigger] s.references[x]).output_index
                != s.references[k].output_index) {
            assert(text_at_place(s1, r.output_index) == code);
        }
    }
}

/// Pass two fills in every reference: after it, the place where a reference was
/// emitted holds the code of its label's address plus its offset (as a 16-bit word,
/// three sips), unless a later reference was emitted at the same place; every
/// existing line where no reference was emitted keeps what pass one left there;
/// labels, references and the counter do not change.
pub proof fn law_references_resolved(s: AsmView, k: int, p: int)
    requires
        refs_in_place(s),
        resolve(s, 0) is Running,
        if p > 0 {
            p < s.positive.len()
        } else {
            -p < s.negative.len()
        },
    ensures
        ({
            let s2 = resolve(s, 0)->Running_0;
            &&& s2.labels == s.labels
            &&& s2.references == s.references
            &&& s2.pc == s.pc
            &&& (0 <= k < s.references.len() && forall|x: int|
                k < x < s.references.len() ==> (#[trigger] s.references[x]).output_index
                    != s.references[k].output_index) ==> s.labels.contains_key(
                s.references[k].label,
            ) && text_at_place(s2, s.references[k].output_index) == reference_code(s, k)
            &&& (forall|x: int|
                0 <= x < s.references.len() ==> (#[trigger] s.references[x]).output_index != p)
                ==> text_at_place(s2, p) == text_at_place(s, p)
        }),
{
    lemma_resolve_from(s, 0, k, p);
}

/// The longer side's length, as the 32-bit counter takes it: the next place free
/// on both sides.
pub open spec fn past_longer_side(s: AsmView) -> int {
    len_i32(
        if s.positive.len() >= s.negative.len() {
            s.positive.len()
        } else {
            s.negative.len()
        },
    )
}

/// The tokens of pass one that name places or move the counter:
/// - `>name` names the counter's place and changes nothing else;
/// - `:name` moves the counter to the first place past the shorter side (past the
///   negative side, as a negative address, where the positive side is longer, else
///   past the positive side) and names it;
/// - `?name` moves the counter to the place the name has; a name not yet known
///   names a new place past the longer side, above zero where the counter was above
///   zero and below zero else, and the counter moves there;
/// - `!name` moves the counter to minus the place the name has; a name not yet known
///   is handled as by `?`, but names minus the new place;
/// - `#text` emits `text` at the counter, which moves one place on.
pub proof fn law_place_tokens(s: AsmView, t: Seq<char>)
    requires
        t.len() >= 1,
        token_step(s, t) is Running,
    ensures
        ({
            let s2 = token_step(s, t)->Running_0;
            let name = t.drop_first();
            let fresh = if s.pc > 0 {
                past_longer_side(s)
            } else {
                -past_longer_side(s)
            };
            &&& t[0] == '>' ==> s2 == (AsmView { labels: s.labels.insert(name, s.pc), ..s })
            &&& t[0] == ':' ==> s2.pc == (if s.positive.len() > s.negative.len() {
                -len_i32(s.negative.len())
            } else {
                len_i32(s.positive.len())
            }) && s2 == (AsmView { pc: s2.pc, labels: s.labels.insert(name, s2.pc), ..s })
            &&& t[0] == '?' && s.labels.contains_key(name) ==> s2 == (AsmView {
                pc: s.labels[name],
                ..s
            })
            &&& t[0] == '?' && !s.labels.contains_key(name) ==> s2 == (AsmView {
                pc: fresh,
                labels: s.labels.insert(name, fresh),
                ..s
            })
            &&& t[0] == '!' && s.labels.contains_key(name) ==> s2 == (AsmView {
                pc: -s.labels[name],
                ..s
            })
            &&& t[0] == '!' && !s.labels.contains_key(name) ==> s2 == (AsmView {
                pc: fresh,
                labels: s.labels.insert(name, -fresh),
                ..s
            })
            &&& t[0] == '#' ==> s2.pc == s.pc + (if s.pc >= 0 {
                1int
            } else {
                -1
            }) && text_at_counter(s2, s.pc) == name && s2.labels == s.labels && s2.references
                == s.references
        }),
{
    assert(!('A' <= t[0] <= 'Z') ==> !all_upper(t));
}

/// A reference token (one that is neither an upper-case word nor starts with `>`,
/// `:`, `?`, `!`, `#` or `.`) emits `???` at the counter, which moves one place on,
/// and records a reference to be filled in at that place with the label and offset
/// the token names.
pub proof fn law_reference_token(s: AsmView, t: Seq<char>)
    requires
        t.len() >= 1,
        !all_upper(t),
        t[0] != '>' && t[0] != ':' && t[0] != '?' && t[0] != '!' && t[0] != '#' && t[0] != '.',
        token_step(s, t) is Running,
    ensures
        reference_of(t) is Found,
        ({
            let s2 = token_step(s, t)->Running_0;
            &&& s2.references == s.references.push(
                RefView {
                    output_index: s.pc,
                    label: reference_of(t)->label,
                    offset: reference_of(t)->offset,
                },
            )
            &&& text_at_counter(s2, s.pc) == "???"@
            &&& s2.pc == s.pc + (if s.pc >= 0 {
                1int
            } else {
                -1
            })
            &&& s2.labels == s.labels
        }),
{
}

proof fn lemma_first_index_after(l: Seq<char>, c: char, d: Seq<char>)
    requires
        forall|i: int| 0 <= i < l.len() ==> l[i] != c,
    ensures
        first_index(l + seq![c] + d, c) == l.len(),
    decreases l.len(),
{
    if l.len() > 0 {
        let rest = l.drop_first();
        lemma_first_index_after(rest, c, d);
        assert((l + seq![c] + d).drop_first() =~= rest + seq![c] + d);
    } else {
        assert((l + seq![c] + d)[0] == c);
    }
}

proof fn lemma_first_index_none(l: Seq<char>, c: char)
    requires
        forall|i: int| 0 <= i < l.len() ==> l[i] != c,
    ensures
        first_index(l, c) == l.len(),
    decreases l.len(),
{
    if l.len() > 0 {
        lemma_first_index_none(l.drop_first(), c);
    }
}

/// How a reference token reads: a bare `label` is the label with offset zero;
/// `label+n` is the label with offset `n`, where the label holds no `+`; `label-n` is
/// the label with offset `-n`, where neither the label nor `n` holds a `+` and the
/// label holds no `-`.
pub proof fn law_reference_parts(label: Seq<char>, digits: Seq<char>, n: int)
    ensures
        (forall|i: int| 0 <= i < label.len() ==> label[i] != '+' && label[i] != '-') ==> reference_of(
            label,
        ) == (RefParse::Found { label, offset: 0 }),
        (forall|i: int| 0 <= i < label.len() ==> label[i] != '+') && parse_integer(
            digits,
            true,
            i32::MIN as int,
            i32::MAX as int,
        ) == Some(n) ==> reference_of(label + seq!['+'] + digits) == (RefParse::Found {
            label,
            offset: n,
        }),
        (forall|i: int| 0 <= i < label.len() ==> label[i] != '+' && label[i] != '-') && (forall|
            i: int,
        | 0 <= i < digits.len() ==> digits[i] != '+') && parse_integer(
            digits,
            true,
            i32::MIN as int,
            i32::MAX as int,
        ) == Some(n) && n != i32::MIN ==> reference_of(label + seq!['-'] + digits) == (
        RefParse::Found { label, offset: -n }),
{
    if forall|i: int| 0 <= i < label.len() ==> label[i] != '+' {
        lemma_first_index_after(label, '+', digits);
        let t = label + seq!['+'] + digits;
        assert(t.take(label.len() as int) =~= label);
        assert(t.skip(label.len() as int + 1) =~= digits);
        if forall|i: int| 0 <= i < label.len() ==> label[i] != '-' {
            lemma_first_index_none(label, '+');
            lemma_first_index_none(label, '-');
            if forall|i: int| 0 <= i < digits.len() ==> digits[i] != '+' {
                let u = label + seq!['-'] + digits;
                lemma_first_index_none(u, '+');
                lemma_first_index_after(label, '-', digits);
                assert(u.take(label.len() as int) =~= label);
                assert(u.skip(label.len() as int + 1) =~= digits);
            }
        }
    }
}

} // verus!
