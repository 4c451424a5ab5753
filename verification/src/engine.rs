//! The line-repeat controller and the read engine.
//!
//! The controller consumes one acquired unit at a time, splits it under
//! the configured policy, and records the resulting bindings.  It loops
//! only in per-record mode, where one acquisition feeds one destination
//! slot group at a time; every other mode distributes a single acquisition
//! over all slots.  On early termination every unfilled slot is cleared to
//! one empty value in non-array mode, so callers always observe a
//! deterministic post-state.

use vstd::prelude::*;

use crate::acquire::{
    bat_run, chunk_run, choose_strategy, delim_byte, delim_char, read_in_chunks,
    read_one_char_at_a_time, strategy_for, Strategy,
};
use crate::decode::decode_text;
use crate::opts::Options;
use crate::split::{
    field_views, per_char_fields, split_about, split_about_spec, split_per_char, split_string_tok,
    split_tok_spec,
};
use crate::stream::ByteStream;
use crate::AcquireResult;

verus! {

/// One recorded binding: a destination slot and the ordered values bound
/// to it (a single value outside array mode).
pub struct Assignment {
    /// The destination slot identifier.
    pub name: Vec<char>,
    /// The values bound to it, in order.
    pub values: Vec<Vec<char>>,
}

/// The observable outcome of one engine run: the final result, the
/// bindings in assignment order, and the unit echoed to standard output
/// when no slots were named.
pub struct ReadOutcome {
    /// Final result of the run.
    pub status: AcquireResult,
    /// All bindings, in the order they were made.
    pub assignments: Vec<Assignment>,
    /// The acquired unit, in echo mode.
    pub output: Option<Vec<char>>,
}

/// The fields the configured splitting policy produces from one unit,
/// with `slots_left` unfilled slots out of `total`.
pub open spec fn unit_fields(
    o: Options,
    ifs: Seq<char>,
    u: Seq<char>,
    slots_left: nat,
    total: nat,
) -> Seq<Seq<char>>
    recommends
        o.array || slots_left >= 1,
        total >= 1,
        !o.tokenize,
{
    let dl = match o.delimiter {
        Some(d) => d@,
        None => ifs,
    };
    if dl.len() == 0 {
        per_char_fields(u, slots_left, o.array)
    } else if o.array {
        if o.delimiter is Some {
            split_about_spec(u, dl, usize::MAX as nat)
        } else {
            split_tok_spec(u, dl, usize::MAX as nat)
        }
    } else {
        if o.delimiter is Some {
            split_about_spec(u, dl, (total - 1) as nat)
        } else {
            split_tok_spec(u, dl, slots_left)
        }
    }
}

/// What is bound, one field per slot, outside array mode: legacy
/// tokenization fills every remaining slot (empty when the tokens run
/// out); the other policies bind one field per produced piece, never more
/// than there are slots.
pub open spec fn slot_fields(
    o: Options,
    ifs: Seq<char>,
    u: Seq<char>,
    slots_left: nat,
    total: nat,
) -> Seq<Seq<char>>
    recommends
        !o.array,
        slots_left >= 1,
        total >= 1,
        !o.tokenize,
{
    let fs = unit_fields(o, ifs, u, slots_left, total);
    let dl_tok = o.delimiter is None && ifs.len() > 0;
    if fs.len() >= slots_left {
        fs.take(slots_left as int)
    } else if dl_tok {
        fs + Seq::new((slots_left - fs.len()) as nat, |j: int| Seq::<char>::empty())
    } else {
        fs
    }
}

/// Tokens produced for one unit come with at most `slots_left` fields.
pub proof fn lemma_split_tok_count(s: Seq<char>, seps: Seq<char>, max: nat)
    ensures
        split_tok_spec(s, seps, max).len() <= max,
    decreases max,
{
    if max > 0 {
        let i = crate::split::skip_seps(s, seps);
        if i == s.len() {
        } else if max == 1 {
        } else {
            let k = i + crate::split::next_sep(s.skip(i), seps);
            lemma_split_tok_count(s.skip(k), seps, (max - 1) as nat);
        }
    }
}

/// A non-empty unit always yields at least one bound field, and never
/// more than there are unfilled slots.
pub proof fn lemma_slot_fields_len(
    o: Options,
    ifs: Seq<char>,
    u: Seq<char>,
    slots_left: nat,
    total: nat,
)
    requires
        !o.array,
        !o.tokenize,
        slots_left >= 1,
        total >= 1,
    ensures
        slot_fields(o, ifs, u, slots_left, total).len() <= slots_left,
        u.len() > 0 ==> slot_fields(o, ifs, u, slots_left, total).len() >= 1,
{
    let fs = unit_fields(o, ifs, u, slots_left, total);
    let dl = match o.delimiter {
        Some(d) => d@,
        None => ifs,
    };
    if dl.len() == 0 {
    } else if o.delimiter is Some {
        crate::split::lemma_split_about_count(u, dl, (total - 1) as nat);
    } else {
        lemma_split_tok_count(u, dl, slots_left);
    }
}

/// One shell-word token, as produced by the external tokenizer: where it
/// starts in the unit, and its unescaped text.
pub struct TokenSpan {
    /// Offset of the token's first character in the unit.
    pub offset: usize,
    /// The token's unescaped text.
    pub text: Vec<char>,
}

/// The unescaped text of each token.
pub open spec fn token_texts(toks: Seq<TokenSpan>) -> Seq<Seq<char>> {
    toks.map_values(|t: TokenSpan| t.text@)
}

/// Fields bound in tokenize mode outside array mode: one unescaped token
/// per slot until one slot remains; when tokens are left over, that last
/// slot takes the raw remainder of the unit from the offset where the
/// next token started.
pub open spec fn token_fields(u: Seq<char>, toks: Seq<TokenSpan>, nslots: nat) -> Seq<Seq<char>>
    recommends
        nslots >= 1,
        forall|t: int| 0 <= t < toks.len() ==> (#[trigger] toks[t]).offset <= u.len(),
{
    let texts = token_texts(toks);
    if texts.len() <= nslots - 1 {
        texts
    } else {
        texts.take((nslots - 1) as int) + seq![u.skip(toks[(nslots - 1) as int].offset as int)]
    }
}

/// The mutable state of the line-repeat controller.  The configuration
/// and the slot names are passed to each step, so the controller itself
/// holds only what changes.
pub struct Controller {
    /// Index of the next unfilled destination slot.
    pub var_ptr: usize,
    /// The bindings made so far, in order.
    pub assignments: Vec<Assignment>,
    /// The acquired unit, in echo mode.
    pub output: Option<Vec<char>>,
    /// The result to report: the first non-success acquisition result, or
    /// success.
    pub status: AcquireResult,
    /// Whether the controller has reached its terminal state.
    pub done: bool,
}

/// Controller well-formedness with respect to the configuration and the
/// destination slots.
pub open spec fn ctrl_wf(c: Controller, o: Options, names: Seq<Seq<char>>) -> bool {
    &&& c.var_ptr <= names.len()
    &&& (!o.array ==> c.assignments@.len() == c.var_ptr)
    &&& (o.array ==> c.assignments@.len() == c.var_ptr && c.var_ptr <= 1)
    &&& (forall|i: int|
        0 <= i < c.assignments@.len() ==> (#[trigger] c.assignments@[i]).name@ == names[
            if o.array {
                0
            } else {
                i
            }
        ])
}

/// Copy a text value.
fn clone_chars(v: &Vec<char>) -> (r: Vec<char>)
    ensures
        r@ == v@,
{
    let mut r: Vec<char> = Vec::new();
    let mut i: usize = 0;
    while i < v.len()
        invariant
            i <= v.len(),
            r@ == v@.subrange(0, i as int),
        decreases v.len() - i,
    {
        let c = v[i];
        r.push(c);
        proof {
            assert(v@.subrange(0, i + 1 as int) =~= v@.subrange(0, i as int).push(v@[i as int]));
        }
        i = i + 1;
    }
    proof {
        assert(v@.subrange(0, v@.len() as int) =~= v@);
    }
    r
}

impl Controller {
    /// A controller in its initial looping state.
    pub fn new() -> (c: Controller)
        ensures
            c.var_ptr == 0,
            c.assignments@.len() == 0,
            c.output is None,
            c.status == AcquireResult::Success,
            !c.done,
    {
        Controller {
            var_ptr: 0,
            assignments: Vec::new(),
            output: None,
            status: AcquireResult::Success,
            done: false,
        }
    }

    /// True while another acquisition is wanted.
    pub fn wants_more(&self) -> (r: bool)
        ensures
            r == !self.done,
    {
        !self.done
    }

    /// Bind the fields `fs`, one per slot, to the next slots in order,
    /// never past the end.
    fn push_each(&mut self, names: &Vec<Vec<char>>, fs: Vec<Vec<char>>)
        requires
            old(self).var_ptr + fs@.len() <= names@.len(),
        ensures
            final(self).var_ptr == old(self).var_ptr + fs@.len(),
            final(self).assignments@.len() == old(self).assignments@.len() + fs@.len(),
            forall|j: int|
                0 <= j < old(self).assignments@.len() ==> #[trigger] final(self).assignments@[j]
                    == old(self).assignments@[j],
            forall|j: int|
                0 <= j < fs@.len() ==> (#[trigger] final(self).assignments@[old(self).assignments@.len() + j]).name@ == names@[old(self).var_ptr + j]@ && field_views(
                    final(self).assignments@[old(self).assignments@.len() + j].values@,
                ) == seq![fs@[j]@],
            final(self).output == old(self).output,
            final(self).status == old(self).status,
            final(self).done == old(self).done,
            old(self).assignments@.len() == old(self).var_ptr ==> final(self).assignments@.len()
                == final(self).var_ptr,
    {
        let mut j: usize = 0;
        while j < fs.len()
            invariant
                j <= fs@.len(),
                old(self).var_ptr + fs@.len() <= names@.len(),
                self.var_ptr == old(self).var_ptr + j,
                self.assignments@.len() == old(self).assignments@.len() + j,
                forall|t: int|
                    0 <= t < old(self).assignments@.len() ==> #[trigger] self.assignments@[t]
                        == old(self).assignments@[t],
                forall|t: int|
                    0 <= t < j ==> (#[trigger] self.assignments@[old(self).assignments@.len() + t])
                        .name@ == names@[old(self).var_ptr + t]@ && field_views(
                        self.assignments@[old(self).assignments@.len() + t].values@,
                    ) == seq![fs@[t]@],
                self.output == old(self).output,
                self.status == old(self).status,
                self.done == old(self).done,
            decreases fs@.len() - j,
        {
            let name = clone_chars(&names[self.var_ptr]);
            let value = clone_chars(&fs[j]);
            let mut values: Vec<Vec<char>> = Vec::new();
            values.push(value);
            proof {
                assert(field_views(values@) =~= seq![fs@[j as int]@]);
            }
            self.assignments.push(Assignment { name, values });
            proof {
                vstd::std_specs::vec::axiom_spec_len(names);
            }
            self.var_ptr = self.var_ptr + 1;
            j = j + 1;
        }
    }

    /// Feed one acquired unit and its result to the controller.  This is
    /// the per-iteration body of the line-repeat loop for every policy
    /// except shell-word tokenization.
    pub fn on_unit(
        &mut self,
        o: &Options,
        names: &Vec<Vec<char>>,
        unit: Vec<char>,
        st: AcquireResult,
        ifs: &Vec<char>,
    )
        requires
            !old(self).done,
            old(self).status == AcquireResult::Success,
            ctrl_wf(*old(self), *o, field_views(names@)),
            !o.tokenize,
            o.array ==> names@.len() == 1 && old(self).var_ptr == 0,
            !o.array && !o.to_stdout ==> old(self).var_ptr < names@.len(),
            o.to_stdout ==> names@.len() == 0,
        ensures
            ctrl_wf(*final(self), *o, field_views(names@)),
            st != AcquireResult::Success ==> final(self).status == st && final(self).done && final(self).assignments == old(self).assignments && final(self).var_ptr == old(self).var_ptr
                && final(self).output == old(self).output,
            st == AcquireResult::Success ==> final(self).status == AcquireResult::Success,
            st == AcquireResult::Success && o.to_stdout ==> final(self).done && (final(self).output matches Some(v) && v@ == unit@) && final(self).assignments == old(self).assignments,
            st == AcquireResult::Success && !o.to_stdout ==> final(self).output == old(self).output,
            st == AcquireResult::Success && !o.to_stdout && o.array ==> final(self).assignments@.len() == 1 && final(self).var_ptr == 1 && (#[trigger] final(self).assignments@[0]).name@ == names@[0]@ && field_views(final(self).assignments@[0].values@)
                == unit_fields(*o, ifs@, unit@, 1, 1) && final(self).done,
            st == AcquireResult::Success && !o.to_stdout && !o.array ==> ({
                let fs = slot_fields(
                    *o,
                    ifs@,
                    unit@,
                    (names@.len() - old(self).var_ptr) as nat,
                    names@.len() as nat,
                );
                &&& final(self).var_ptr == old(self).var_ptr + fs.len()
                &&& final(self).assignments@.len() == old(self).assignments@.len() + fs.len()
                &&& (forall|j: int|
                    0 <= j < old(self).assignments@.len() ==> #[trigger] final(self).assignments@[j]
                        == old(self).assignments@[j])
                &&& (forall|j: int|
                    0 <= j < fs.len() ==> (#[trigger] final(self).assignments@[old(self).var_ptr
                        + j]).name@ == names@[old(self).var_ptr + j]@ && field_views(
                        final(self).assignments@[old(self).var_ptr + j].values@,
                    ) == seq![fs[j]])
                &&& final(self).done == (!o.one_line || final(self).var_ptr == names@.len())
            }),
    {
        if !matches!(st, AcquireResult::Success) {
            self.status = st;
            self.done = true;
            return ;
        }
        if o.to_stdout {
            self.output = Some(unit);
            self.done = true;
            return ;
        }
        let ghost nv = field_views(names@);
        let ghost slots_left_g = (names@.len() - self.var_ptr) as nat;
        if o.array {
            let fs = match &o.delimiter {
                Some(d) => {
                    if d.len() == 0 {
                        split_per_char(&unit, 1, true)
                    } else {
                        split_about(&unit, d, usize::MAX)
                    }
                },
                None => {
                    if ifs.len() == 0 {
                        split_per_char(&unit, 1, true)
                    } else {
                        split_string_tok(&unit, ifs, usize::MAX)
                    }
                },
            };
            proof {
                assert(field_views(fs@) == unit_fields(*o, ifs@, unit@, 1, 1));
            }
            let name = clone_chars(&names[0]);
            self.assignments.push(Assignment { name, values: fs });
            self.var_ptr = 1;
            self.done = true;
            proof {
                assert(nv[0] == names@[0]@);
            }
            return ;
        }
        let slots_left = names.len() - self.var_ptr;
        let total = names.len();
        let fs: Vec<Vec<char>> = match &o.delimiter {
            Some(d) => {
                if d.len() == 0 {
                    split_per_char(&unit, slots_left, false)
                } else {
                    split_about(&unit, d, total - 1)
                }
            },
            None => {
                if ifs.len() == 0 {
                    split_per_char(&unit, slots_left, false)
                } else {
                    split_string_tok(&unit, ifs, slots_left)
                }
            },
        };
        let ghost ufs = unit_fields(*o, ifs@, unit@, slots_left_g, names@.len() as nat);
        proof {
            assert(field_views(fs@) == ufs);
        }
        // Cap at the unfilled slots; legacy tokenization instead fills
        // every remaining slot, clearing those past the last token.
        let mut bound: Vec<Vec<char>> = fs;
        if bound.len() > slots_left {
            bound.truncate(slots_left);
            proof {
                assert(field_views(bound@) =~= ufs.take(slots_left_g as int));
            }
        } else if o.delimiter.is_none() && ifs.len() > 0 && bound.len() < slots_left {
            let ghost fs_len = bound@.len();
            while bound.len() < slots_left
                invariant
                    fs_len <= bound@.len() <= slots_left <= names@.len(),
                    field_views(bound@) == ufs + Seq::new(
                        (bound@.len() - fs_len) as nat,
                        |j: int| Seq::<char>::empty(),
                    ),
                decreases slots_left - bound.len(),
            {
                let ghost bv_old = bound@;
                let empty_field: Vec<char> = Vec::new();
                bound.push(empty_field);
                proof {
                    crate::split::lemma_field_views_push(bv_old, empty_field);
                    assert(field_views(bound@) =~= ufs + Seq::new(
                        (bound@.len() - fs_len) as nat,
                        |j: int| Seq::<char>::empty(),
                    ));
                }
            }
        }
        let ghost sf = slot_fields(*o, ifs@, unit@, slots_left_g, names@.len() as nat);
        proof {
            assert(field_views(bound@) == sf);
            assert(field_views(bound@).len() == bound@.len());
        }
        self.push_each(names, bound);
        self.done = !o.one_line || self.var_ptr == names.len();
        proof {
            assert forall|j: int| 0 <= j < sf.len() implies (#[trigger] self.assignments@[old(self).var_ptr + j]).name@ == names@[old(self).var_ptr + j]@ && field_views(
                self.assignments@[old(self).var_ptr + j].values@,
            ) == seq![sf[j]] by {
                assert(field_views(bound@)[j] == bound@[j]@);
            }
            assert forall|i: int| 0 <= i < self.assignments@.len() implies (
            #[trigger] self.assignments@[i]).name@ == nv[i] by {
                if i >= old(self).assignments@.len() {
                    assert(self.assignments@[i].name@ == names@[old(self).var_ptr + (i - old(self).assignments@.len())]@);
                    assert(nv[i] == names@[i]@);
                } else {
                    assert(self.assignments@[i] == old(self).assignments@[i]);
                    assert(old(self).assignments@[i].name@ == nv[i]);
                }
            }
        }
    }

    /// Feed one acquired unit in shell-word tokenize mode.  The external
    /// tokenizer has already parsed the unit; each token comes with its
    /// offset into the unit and its unescaped text.  Outside array mode,
    /// one token is bound per slot until one slot remains, which then
    /// takes the raw untokenized remainder of the unit from the offset
    /// where that token started; in array mode all unescaped tokens go to
    /// the lone slot.
    pub fn on_unit_tokens(
        &mut self,
        o: &Options,
        names: &Vec<Vec<char>>,
        unit: &Vec<char>,
        st: AcquireResult,
        tokens: &Vec<TokenSpan>,
    )
        requires
            !old(self).done,
            old(self).status == AcquireResult::Success,
            ctrl_wf(*old(self), *o, field_views(names@)),
            o.tokenize,
            forall|t: int|
                0 <= t < tokens@.len() ==> (#[trigger] tokens@[t]).offset <= unit@.len(),
            o.array ==> names@.len() == 1 && old(self).var_ptr == 0,
            !o.array && !o.to_stdout ==> old(self).var_ptr < names@.len(),
            o.to_stdout ==> names@.len() == 0,
        ensures
            ctrl_wf(*final(self), *o, field_views(names@)),
            st != AcquireResult::Success ==> final(self).status == st && final(self).done && final(self).assignments == old(self).assignments && final(self).var_ptr == old(self).var_ptr
                && final(self).output == old(self).output,
            st == AcquireResult::Success ==> final(self).status == AcquireResult::Success,
            st == AcquireResult::Success && o.to_stdout ==> final(self).done && (final(self).output matches Some(v) && v@ == unit@) && final(self).assignments == old(self).assignments,
            st == AcquireResult::Success && !o.to_stdout ==> final(self).output == old(self).output,
            st == AcquireResult::Success && !o.to_stdout && o.array ==> final(self).assignments@.len() == 1 && final(self).var_ptr == 1 && (#[trigger] final(self).assignments@[0]).name@ == names@[0]@ && field_views(final(self).assignments@[0].values@)
                == token_texts(tokens@) && final(self).done,
            st == AcquireResult::Success && !o.to_stdout && !o.array ==> ({
                let fs = token_fields(
                    unit@,
                    tokens@,
                    (names@.len() - old(self).var_ptr) as nat,
                );
                &&& final(self).var_ptr == old(self).var_ptr + fs.len()
                &&& final(self).assignments@.len() == old(self).assignments@.len() + fs.len()
                &&& (forall|j: int|
                    0 <= j < old(self).assignments@.len() ==> #[trigger] final(self).assignments@[j]
                        == old(self).assignments@[j])
                &&& (forall|j: int|
                    0 <= j < fs.len() ==> (#[trigger] final(self).assignments@[old(self).var_ptr
                        + j]).name@ == names@[old(self).var_ptr + j]@ && field_views(
                        final(self).assignments@[old(self).var_ptr + j].values@,
                    ) == seq![fs[j]])
                &&& final(self).done == (!o.one_line || final(self).var_ptr == names@.len())
            }),
    {
        if !matches!(st, AcquireResult::Success) {
            self.status = st;
            self.done = true;
            return ;
        }
        if o.to_stdout {
            self.output = Some(clone_chars(unit));
            self.done = true;
            return ;
        }
        let ghost nv = field_views(names@);
        if o.array {
            let mut values: Vec<Vec<char>> = Vec::new();
            let mut t: usize = 0;
            while t < tokens.len()
                invariant
                    t <= tokens@.len(),
                    field_views(values@) == token_texts(tokens@).take(t as int),
                decreases tokens.len() - t,
            {
                let ghost v_old = values@;
                let text = clone_chars(&tokens[t].text);
                values.push(text);
                proof {
                    crate::split::lemma_field_views_push(v_old, text);
                    assert(token_texts(tokens@).take(t + 1 as int) =~= token_texts(
                        tokens@,
                    ).take(t as int).push(tokens@[t as int].text@));
                }
                t = t + 1;
            }
            proof {
                assert(token_texts(tokens@).take(tokens@.len() as int) =~= token_texts(tokens@));
            }
            let name = clone_chars(&names[0]);
            self.assignments.push(Assignment { name, values });
            self.var_ptr = 1;
            self.done = true;
            proof {
                assert(nv[0] == names@[0]@);
            }
            return ;
        }
        let slots_left = names.len() - self.var_ptr;
        let ghost fs = token_fields(unit@, tokens@, slots_left as nat);
        let head: usize = if tokens.len() <= slots_left - 1 {
            tokens.len()
        } else {
            slots_left - 1
        };
        let mut bound: Vec<Vec<char>> = Vec::new();
        let mut t: usize = 0;
        while t < head
            invariant
                t <= head <= tokens@.len(),
                field_views(bound@) == token_texts(tokens@).take(t as int),
            decreases head - t,
        {
            let ghost b_old = bound@;
            let text = clone_chars(&tokens[t].text);
            bound.push(text);
            proof {
                crate::split::lemma_field_views_push(b_old, text);
                assert(token_texts(tokens@).take(t + 1 as int) =~= token_texts(tokens@).take(
                    t as int,
                ).push(tokens@[t as int].text@));
            }
            t = t + 1;
        }
        if tokens.len() > slots_left - 1 {
            let ghost b_old = bound@;
            let rest = crate::split::tail_field(unit, tokens[slots_left - 1].offset);
            bound.push(rest);
            proof {
                crate::split::lemma_field_views_push(b_old, rest);
                assert(field_views(bound@) =~= fs);
            }
        } else {
            proof {
                assert(token_texts(tokens@).take(tokens@.len() as int) =~= token_texts(tokens@));
                assert(field_views(bound@) =~= fs);
            }
        }
        self.push_each(names, bound);
        self.done = !o.one_line || self.var_ptr == names.len();
        proof {
            assert forall|j: int| 0 <= j < fs.len() implies (#[trigger] self.assignments@[old(self).var_ptr + j]).name@ == names@[old(self).var_ptr + j]@ && field_views(
                self.assignments@[old(self).var_ptr + j].values@,
            ) == seq![fs[j]] by {
                assert(field_views(bound@)[j] == bound@[j]@);
            }
            assert forall|i: int| 0 <= i < self.assignments@.len() implies (
            #[trigger] self.assignments@[i]).name@ == nv[i] by {
                if i >= old(self).assignments@.len() {
                    assert(self.assignments@[i].name@ == names@[old(self).var_ptr + (i - old(self).assignments@.len())]@);
                    assert(nv[i] == names@[i]@);
                } else {
                    assert(self.assignments@[i] == old(self).assignments@[i]);
                    assert(old(self).assignments@[i].name@ == nv[i]);
                }
            }
        }
    }

    /// Leave the looping state: clear every unfilled slot to one empty
    /// value (outside array mode) and report the recorded outcome.
    pub fn finish(self, o: &Options, names: &Vec<Vec<char>>) -> (r: ReadOutcome)
        requires
            ctrl_wf(self, *o, field_views(names@)),
        ensures
            r.status == self.status,
            r.output == self.output,
            o.array ==> r.assignments == self.assignments,
            !o.array ==> ({
                &&& r.assignments@.len() == names@.len()
                &&& (forall|i: int|
                    0 <= i < self.var_ptr ==> #[trigger] r.assignments@[i] == self.assignments@[i])
                &&& (forall|i: int|
                    self.var_ptr <= i < names@.len() ==> (#[trigger] r.assignments@[i]).name@
                        == names@[i]@ && field_views(r.assignments@[i].values@) == seq![
                        Seq::<char>::empty(),
                    ])
            }),
    {
        let Controller { var_ptr, mut assignments, output, status, done: _ } = self;
        let mut p = var_ptr;
        if !o.array {
            while p < names.len()
                invariant
                    var_ptr <= p <= names@.len(),
                    assignments@.len() == p - var_ptr + self.assignments@.len(),
                    forall|i: int|
                        0 <= i < self.assignments@.len() ==> #[trigger] assignments@[i]
                            == self.assignments@[i],
                    forall|i: int|
                        self.assignments@.len() <= i < assignments@.len() ==> (
                        #[trigger] assignments@[i]).name@ == names@[var_ptr + (
                        i - self.assignments@.len())]@ && field_views(assignments@[i].values@)
                            == seq![Seq::<char>::empty()],
                    ctrl_wf(self, *o, field_views(names@)),
                decreases names@.len() - p,
            {
                let name = clone_chars(&names[p]);
                let empty_field: Vec<char> = Vec::new();
                let mut values: Vec<Vec<char>> = Vec::new();
                values.push(empty_field);
                proof {
                    assert(field_views(values@) =~= seq![Seq::<char>::empty()]);
                }
                assignments.push(Assignment { name, values });
                p = p + 1;
            }
        }
        ReadOutcome { status, assignments, output }
    }
}

/// The text, final cursor and result of one non-interactive acquisition
/// from the modelled descriptor.
pub open spec fn acq_spec(
    o: Options,
    data: Seq<u8>,
    pos: int,
    directly_redirected: bool,
    seekable: bool,
    limit: nat,
) -> (Seq<char>, int, AcquireResult)
    recommends
        0 <= pos <= data.len(),
{
    if strategy_for(false, o.split_null, o.nchars as nat, o.one_line, directly_redirected, seekable)
        == Strategy::Chunked {
        let oc = chunk_run(
            data,
            pos,
            Seq::<u8>::empty(),
            delim_byte(o.split_null),
            !directly_redirected,
            limit,
        );
        (
            decode_text(oc.0),
            oc.1,
            if oc.3 {
                AcquireResult::ReadTooMuch
            } else if oc.2 && oc.0.len() == 0 {
                AcquireResult::CmdFailure
            } else {
                AcquireResult::Success
            },
        )
    } else {
        bat_run(
            data,
            pos,
            Seq::<char>::empty(),
            Seq::<u8>::empty(),
            0,
            o.nchars as nat,
            delim_char(o.split_null),
            limit,
        )
    }
}

/// The single value each of a controller's bindings carries, in binding
/// order; meaningful outside array mode, where every binding holds
/// exactly one value.
pub open spec fn single_values(a: Seq<Assignment>) -> Seq<Seq<char>> {
    a.map_values(|x: Assignment| x.values@[0]@)
}

/// The whole per-record loop, unfolded one record per recursion: acquire
/// one record byte by byte, bind its fields to the next slots, and repeat
/// until a non-success result or no slot is left.  The result lists the
/// values bound from slot `var_ptr` on, the final cursor, and the final
/// status.  `fuel` only bounds the recursion; every call from the engine
/// supplies more fuel than records the stream can hold, so the zero-fuel
/// base case is never reached.
pub open spec fn record_loop(
    o: Options,
    ifs: Seq<char>,
    data: Seq<u8>,
    pos: int,
    var_ptr: nat,
    total: nat,
    limit: nat,
    fuel: nat,
) -> (Seq<Seq<char>>, int, AcquireResult)
    recommends
        !o.array,
        !o.tokenize,
        0 <= pos <= data.len(),
        var_ptr < total,
    decreases fuel,
{
    if fuel == 0 {
        (Seq::<Seq<char>>::empty(), pos, AcquireResult::Success)
    } else {
        let a = bat_run(
            data,
            pos,
            Seq::<char>::empty(),
            Seq::<u8>::empty(),
            0,
            o.nchars as nat,
            delim_char(o.split_null),
            limit,
        );
        if a.2 != AcquireResult::Success {
            (Seq::<Seq<char>>::empty(), a.1, a.2)
        } else {
            let fs = slot_fields(o, ifs, a.0, (total - var_ptr) as nat, total);
            if var_ptr + fs.len() >= total {
                (fs, a.1, AcquireResult::Success)
            } else {
                let rest = record_loop(
                    o,
                    ifs,
                    data,
                    a.1,
                    var_ptr + fs.len(),
                    total,
                    limit,
                    (fuel - 1) as nat,
                );
                (fs + rest.0, rest.1, rest.2)
            }
        }
    }
}

/// The cursor never moves backward, a read before the end makes progress,
/// and a successful acquisition that read nothing produced text.
pub proof fn lemma_bat_run_pos(
    data: Seq<u8>,
    pos: int,
    buff: Seq<char>,
    q: Seq<u8>,
    nbytes: nat,
    nchars: nat,
    delim: char,
    limit: nat,
)
    requires
        0 <= pos <= data.len(),
    ensures
        ({
            let o = bat_run(data, pos, buff, q, nbytes, nchars, delim, limit);
            &&& pos <= o.1 <= data.len()
            &&& (pos < data.len() ==> o.1 > pos)
            &&& (o.2 == AcquireResult::Success ==> o.1 > pos || o.0.len() > 0)
        }),
    decreases data.len() - pos,
{
    if pos < data.len() {
        let b = data[pos];
        let emitted = crate::decode::step_emit(q, b);
        let q2 = crate::decode::step_partial(q, b);
        if emitted.len() == 0 {
            lemma_bat_run_pos(data, pos + 1, buff, q2, nbytes + 1, nchars, delim, limit);
        } else if crate::stream::budget_exceeded(nbytes + 1, limit) {
        } else {
            let buff2 = buff + emitted;
            if buff2.last() == delim {
            } else if nchars > 0 && nchars <= buff2.len() {
            } else {
                lemma_bat_run_pos(data, pos + 1, buff2, q2, nbytes + 1, nchars, delim, limit);
            }
        }
    }
}

/// The per-record loop is insensitive to its fuel once the fuel covers
/// the stream and the slots: every adequate fuel yields the same outcome,
/// because each record consumes input or fills a slot.
pub proof fn lemma_record_loop_fuel(
    o: Options,
    ifs: Seq<char>,
    data: Seq<u8>,
    pos: int,
    var_ptr: nat,
    total: nat,
    limit: nat,
    f1: nat,
    f2: nat,
)
    requires
        !o.array,
        !o.tokenize,
        0 <= pos <= data.len(),
        var_ptr < total,
        f1 >= data.len() - pos + total - var_ptr,
        f2 >= data.len() - pos + total - var_ptr,
    ensures
        record_loop(o, ifs, data, pos, var_ptr, total, limit, f1) == record_loop(
            o,
            ifs,
            data,
            pos,
            var_ptr,
            total,
            limit,
            f2,
        ),
    decreases f1 + f2,
{
    let a = bat_run(
        data,
        pos,
        Seq::<char>::empty(),
        Seq::<u8>::empty(),
        0,
        o.nchars as nat,
        delim_char(o.split_null),
        limit,
    );
    if a.2 == AcquireResult::Success {
        let fs = slot_fields(o, ifs, a.0, (total - var_ptr) as nat, total);
        if var_ptr + fs.len() < total {
            lemma_bat_run_pos(
                data,
                pos,
                Seq::<char>::empty(),
                Seq::<u8>::empty(),
                0,
                o.nchars as nat,
                delim_char(o.split_null),
                limit,
            );
            if a.0.len() > 0 {
                lemma_slot_fields_len(o, ifs, a.0, (total - var_ptr) as nat, total);
            }
            lemma_record_loop_fuel(
                o,
                ifs,
                data,
                a.1,
                (var_ptr + fs.len()) as nat,
                total,
                limit,
                (f1 - 1) as nat,
                (f2 - 1) as nat,
            );
        }
    }
}

/// Run the read engine against an in-memory descriptor: acquire one unit
/// per iteration with the selected strategy, split it, bind the fields,
/// and repeat only in per-record mode while unfilled slots remain.  The
/// interactive strategy never applies here, since the modelled descriptor
/// is not a terminal; shell-word tokenization needs the external
/// tokenizer and is driven through the controller instead.
pub fn read(
    o: &Options,
    names: &Vec<Vec<char>>,
    stream: &mut ByteStream,
    ifs: &Vec<char>,
    directly_redirected: bool,
    seekable: bool,
    limit: usize,
) -> (r: ReadOutcome)
    requires
        old(stream).wf(),
        !o.tokenize,
        o.array ==> names@.len() == 1,
        !o.array && !o.to_stdout ==> names@.len() >= 1,
        o.to_stdout ==> names@.len() == 0,
    ensures
        final(stream).wf(),
        final(stream).data_seq() == old(stream).data_seq(),
        !o.array && !o.to_stdout ==> r.assignments@.len() == names@.len() && (forall|i: int|
            0 <= i < names@.len() ==> (#[trigger] r.assignments@[i]).name@ == names@[i]@),
        o.array ==> r.assignments@.len() <= 1,
        !o.one_line ==> ({
            let a = acq_spec(
                *o,
                old(stream).data_seq(),
                old(stream).cursor(),
                directly_redirected,
                seekable,
                limit as nat,
            );
            &&& final(stream).cursor() == a.1
            &&& r.status == a.2
            &&& (a.2 != AcquireResult::Success && !o.array ==> forall|i: int|
                0 <= i < names@.len() ==> field_views(
                    (#[trigger] r.assignments@[i]).values@,
                ) == seq![Seq::<char>::empty()])
            &&& (a.2 != AcquireResult::Success ==> r.output is None)
            &&& (a.2 == AcquireResult::Success && o.to_stdout ==> (r.output matches Some(v) && v@
                == a.0))
            &&& (a.2 == AcquireResult::Success && !o.to_stdout && o.array ==> r.assignments@.len()
                == 1 && (#[trigger] r.assignments@[0]).name@ == names@[0]@ && field_views(
                r.assignments@[0].values@,
            ) == unit_fields(*o, ifs@, a.0, 1, 1))
            &&& (a.2 == AcquireResult::Success && !o.to_stdout && !o.array ==> ({
                let fs = slot_fields(*o, ifs@, a.0, names@.len() as nat, names@.len() as nat);
                &&& (forall|i: int|
                    0 <= i < fs.len() ==> field_views((#[trigger] r.assignments@[i]).values@)
                        == seq![fs[i]])
                &&& (forall|i: int|
                    fs.len() <= i < names@.len() ==> field_views(
                        (#[trigger] r.assignments@[i]).values@,
                    ) == seq![Seq::<char>::empty()])
            }))
        }),
        o.one_line && !o.array && !o.to_stdout ==> ({
            let rl = record_loop(
                *o,
                ifs@,
                old(stream).data_seq(),
                old(stream).cursor(),
                0,
                names@.len() as nat,
                limit as nat,
                (old(stream).data_seq().len() - old(stream).cursor() + names@.len() + 1) as nat,
            );
            &&& final(stream).cursor() == rl.1
            &&& r.status == rl.2
            &&& rl.0.len() <= names@.len()
            &&& r.output is None
            &&& (forall|i: int|
                0 <= i < rl.0.len() ==> field_views((#[trigger] r.assignments@[i]).values@)
                    == seq![rl.0[i]])
            &&& (forall|i: int|
                rl.0.len() <= i < names@.len() ==> field_views(
                    (#[trigger] r.assignments@[i]).values@,
                ) == seq![Seq::<char>::empty()])
        }),
{
    let mut ctrl = Controller::new();
    let ghost data0 = stream.data_seq();
    let ghost pos0 = stream.cursor();
    if !o.one_line {
        let strat = choose_strategy(
            false,
            o.split_null,
            o.nchars,
            o.one_line,
            directly_redirected,
            seekable,
        );
        let acq: (Vec<char>, AcquireResult) = match strat {
            Strategy::Chunked => read_in_chunks(stream, o.split_null, !directly_redirected, limit),
            Strategy::CharAtATime => read_one_char_at_a_time(
                stream,
                o.nchars,
                o.split_null,
                limit,
            ),
            Strategy::Interactive => {
                proof {
                    assert(false);
                }
                (Vec::new(), AcquireResult::CmdFailure)
            },
        };
        let (unit, st) = acq;
        proof {
            crate::decode::lemma_decode_text_len(
                chunk_run(
                    data0,
                    pos0,
                    Seq::<u8>::empty(),
                    delim_byte(o.split_null),
                    !directly_redirected,
                    limit as nat,
                ).0,
            );
        }
        proof {
            if matches!(st, AcquireResult::Success) && !o.to_stdout && !o.array {
                lemma_slot_fields_len(*o, ifs@, unit@, names@.len() as nat, names@.len() as nat);
            }
        }
        ctrl.on_unit(o, names, unit, st, ifs);
        proof {
            let a = acq_spec(*o, data0, pos0, directly_redirected, seekable, limit as nat);
            assert(unit@ == a.0);
            if matches!(st, AcquireResult::Success) && !o.to_stdout && !o.array {
                let fs = slot_fields(*o, ifs@, a.0, names@.len() as nat, names@.len() as nat);
                assert forall|i: int| 0 <= i < fs.len() implies field_views(
                    (#[trigger] ctrl.assignments@[i]).values@,
                ) == seq![fs[i]] by {
                    assert(ctrl.assignments@[0 + i] == ctrl.assignments@[i]);
                }
            }
        }
        return ctrl.finish(o, names);
    }
    let ghost total: nat = names@.len() as nat;
    let ghost fuel0: nat = (data0.len() - pos0 + names@.len() + 1) as nat;
    let ghost mut fuel: nat = fuel0;
    proof {
        if !o.array && !o.to_stdout {
            assert(single_values(ctrl.assignments@) =~= Seq::<Seq<char>>::empty());
            assert(Seq::<Seq<char>>::empty() + record_loop(
                *o,
                ifs@,
                data0,
                pos0,
                0,
                total,
                limit as nat,
                fuel0,
            ).0 =~= record_loop(*o, ifs@, data0, pos0, 0, total, limit as nat, fuel0).0);
        }
    }
    loop
        invariant_except_break
            stream.wf(),
            stream.data_seq() == data0,
            data0 == old(stream).data_seq(),
            pos0 == old(stream).cursor(),
            ctrl_wf(ctrl, *o, field_views(names@)),
            !ctrl.done,
            ctrl.status == AcquireResult::Success,
            o.one_line,
            !o.tokenize,
            total == names@.len(),
            o.array ==> names@.len() == 1 && ctrl.var_ptr == 0,
            !o.array && !o.to_stdout ==> ctrl.var_ptr < names@.len(),
            o.to_stdout ==> names@.len() == 0,
            !o.array && !o.to_stdout ==> ({
                let rl0 = record_loop(*o, ifs@, data0, pos0, 0, total, limit as nat, fuel0);
                let rlc = record_loop(
                    *o,
                    ifs@,
                    data0,
                    stream.cursor(),
                    ctrl.var_ptr as nat,
                    total,
                    limit as nat,
                    fuel,
                );
                &&& fuel >= data0.len() - stream.cursor() + total - ctrl.var_ptr + 1
                &&& rl0.0 == single_values(ctrl.assignments@) + rlc.0
                &&& rl0.1 == rlc.1
                &&& rl0.2 == rlc.2
                &&& ctrl.output is None
                &&& (forall|j: int|
                    0 <= j < ctrl.assignments@.len() ==> (#[trigger] ctrl.assignments@[j]).values@.len()
                        == 1)
            }),
        ensures
            stream.wf(),
            stream.data_seq() == data0,
            ctrl_wf(ctrl, *o, field_views(names@)),
            !o.array && !o.to_stdout ==> ({
                let rl0 = record_loop(*o, ifs@, data0, pos0, 0, total, limit as nat, fuel0);
                &&& rl0.0 == single_values(ctrl.assignments@)
                &&& rl0.1 == stream.cursor()
                &&& rl0.2 == ctrl.status
                &&& ctrl.output is None
                &&& ctrl.assignments@.len() == ctrl.var_ptr
                &&& (forall|j: int|
                    0 <= j < ctrl.assignments@.len() ==> (#[trigger] ctrl.assignments@[j]).values@.len()
                        == 1)
            }),
        decreases data0.len() - stream.cursor(), names@.len() - ctrl.var_ptr,
    {
        let ghost cur = stream.cursor();
        let ghost vp = ctrl.var_ptr;
        let ghost assign_old = ctrl.assignments@;
        // Per-record mode always reads byte by byte: chunked reads could
        // consume several records at once.
        let acq = read_one_char_at_a_time(stream, o.nchars, o.split_null, limit);
        let (unit, st) = acq;
        proof {
            lemma_bat_run_pos(
                data0,
                cur,
                Seq::<char>::empty(),
                Seq::<u8>::empty(),
                0,
                o.nchars as nat,
                delim_char(o.split_null),
                limit as nat,
            );
            if !o.array && !o.to_stdout && unit@.len() > 0 {
                lemma_slot_fields_len(
                    *o,
                    ifs@,
                    unit@,
                    (names@.len() - ctrl.var_ptr) as nat,
                    names@.len() as nat,
                );
            }
        }
        ctrl.on_unit(o, names, unit, st, ifs);
        proof {
            if !o.array && !o.to_stdout {
                let lim = limit as nat;
                let a = bat_run(
                    data0,
                    cur,
                    Seq::<char>::empty(),
                    Seq::<u8>::empty(),
                    0,
                    o.nchars as nat,
                    delim_char(o.split_null),
                    lim,
                );
                let rlc = record_loop(*o, ifs@, data0, cur, vp as nat, total, lim, fuel);
                assert(fuel >= 1);
                if a.2 != AcquireResult::Success {
                    assert(rlc == (Seq::<Seq<char>>::empty(), a.1, a.2));
                    assert(single_values(assign_old) + Seq::<Seq<char>>::empty()
                        =~= single_values(assign_old));
                } else {
                    let fs = slot_fields(*o, ifs@, a.0, (total - vp) as nat, total);
                    assert(single_values(ctrl.assignments@) =~= single_values(assign_old) + fs) by {
                        assert forall|j: int| 0 <= j < ctrl.assignments@.len() implies (
                        #[trigger] single_values(ctrl.assignments@)[j]) == (single_values(
                            assign_old,
                        ) + fs)[j] by {
                            if j < assign_old.len() {
                                assert(ctrl.assignments@[j] == assign_old[j]);
                            } else {
                                assert(ctrl.assignments@[vp + (j - assign_old.len())]
                                    == ctrl.assignments@[j]);
                                assert(field_views(ctrl.assignments@[j].values@) == seq![
                                    fs[j - assign_old.len()],
                                ]);
                                assert(field_views(ctrl.assignments@[j].values@)[0]
                                    == ctrl.assignments@[j].values@[0]@);
                            }
                        }
                    }
                    assert forall|j: int| 0 <= j < ctrl.assignments@.len() implies (
                    #[trigger] ctrl.assignments@[j]).values@.len() == 1 by {
                        if j < assign_old.len() {
                            assert(ctrl.assignments@[j] == assign_old[j]);
                        } else {
                            assert(ctrl.assignments@[vp + (j - assign_old.len())]
                                == ctrl.assignments@[j]);
                            assert(field_views(ctrl.assignments@[j].values@) == seq![
                                fs[j - assign_old.len()],
                            ]);
                            assert(field_views(ctrl.assignments@[j].values@).len()
                                == ctrl.assignments@[j].values@.len());
                        }
                    }
                    if vp + fs.len() >= total {
                        assert(rlc == (fs, a.1, AcquireResult::Success));
                        assert(single_values(assign_old) + fs
                            =~= single_values(ctrl.assignments@));
                    } else {
                        let rlc2 = record_loop(
                            *o,
                            ifs@,
                            data0,
                            a.1,
                            (vp + fs.len()) as nat,
                            total,
                            lim,
                            (fuel - 1) as nat,
                        );
                        assert(rlc == (fs + rlc2.0, rlc2.1, rlc2.2));
                        assert(single_values(assign_old) + (fs + rlc2.0) =~= single_values(
                            ctrl.assignments@,
                        ) + rlc2.0);
                    }
                }
                fuel = (fuel - 1) as nat;
            }
        }
        if !ctrl.wants_more() {
            break ;
        }
    }
    let ghost cfin = ctrl;
    let r = ctrl.finish(o, names);
    proof {
        if !o.array && !o.to_stdout {
            let rl0 = record_loop(*o, ifs@, data0, pos0, 0, total, limit as nat, fuel0);
            assert forall|i: int| 0 <= i < rl0.0.len() implies field_views(
                (#[trigger] r.assignments@[i]).values@,
            ) == seq![rl0.0[i]] by {
                assert(r.assignments@[i] == cfin.assignments@[i]);
                assert(cfin.assignments@[i].values@.len() == 1);
                assert(field_views(cfin.assignments@[i].values@) =~= seq![
                    cfin.assignments@[i].values@[0]@,
                ]);
                assert(rl0.0[i] == single_values(cfin.assignments@)[i]);
            }
        }
    }
    r
}

} // verus!
