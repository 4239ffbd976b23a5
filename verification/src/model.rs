//! The mathematical model of the recomposition engine: its abstract state,
//! the one-call transition function, and the full output it produces.

use crate::oracle::Oracle;
use vstd::prelude::*;

verus! {

/// A positioned character: a character together with its alignment delta,
/// the signed cumulative offset between the original text and the
/// normalized output at this point.
pub type Pc = (char, int);

/// The engine's control state.  `Composing` scans and merges upstream
/// elements; `Purging(c)` drains the pending buffer from cursor `c` before
/// resuming the scan; `Finished(c)` drains the buffer once the upstream is
/// exhausted and then signals exhaustion forever.
pub ghost enum Mode {
    Composing,
    Purging(nat),
    Finished(nat),
}

/// The abstract state of the engine: the upstream elements not yet
/// consumed, the control state, the buffered (blocked) marks, the pending
/// composee, and the combining class of the mark buffered last.
#[verifier::ext_equal]
pub ghost struct Model {
    pub input: Seq<Pc>,
    pub mode: Mode,
    pub buffer: Seq<Pc>,
    pub composee: Option<Pc>,
    pub last_class: Option<u8>,
}

/// The state a freshly constructed engine is in.
pub open spec fn init_model(input: Seq<Pc>) -> Model {
    Model {
        input,
        mode: Mode::Composing,
        buffer: Seq::empty(),
        composee: None,
        last_class: None,
    }
}

/// The step taken when the upstream is exhausted and no composee is
/// pending: the drain of `Finished(0)`, entered at once.
pub open spec fn finish_drain(input: Seq<Pc>, buffer: Seq<Pc>, last: Option<u8>) -> (Model, Option<
    Pc,
>) {
    if buffer.len() > 0 {
        (
            Model {
                input,
                mode: Mode::Finished(1),
                buffer,
                composee: None,
                last_class: last,
            },
            Some(buffer[0]),
        )
    } else {
        (
            Model {
                input,
                mode: Mode::Finished(0),
                buffer: Seq::empty(),
                composee: None,
                last_class: last,
            },
            None,
        )
    }
}

/// One call in the `Composing` state: upstream elements are consumed until
/// one output element is due.  Merging a mark into the composee adds the
/// deltas and subtracts one, the adjustment for the code point lost to the
/// merge; a mark whose class is not above the last buffered class is
/// blocked and buffered; a blocked starter finalizes the composee and
/// triggers the purge.
pub open spec fn composing_spec(
    o: Oracle,
    input: Seq<Pc>,
    composee: Option<Pc>,
    buffer: Seq<Pc>,
    last: Option<u8>,
) -> (Model, Option<Pc>)
    decreases input.len(),
{
    if input.len() == 0 {
        match composee {
            Some(k) => (
                Model { input, mode: Mode::Finished(0), buffer, composee: None, last_class: last },
                Some(k),
            ),
            None => finish_drain(input, buffer, last),
        }
    } else {
        let e = input[0];
        let rest = input.drop_first();
        let cc = o.class_spec(e.0);
        match composee {
            None => {
                if cc != 0 {
                    (
                        Model {
                            input: rest,
                            mode: Mode::Composing,
                            buffer,
                            composee: None,
                            last_class: last,
                        },
                        Some(e),
                    )
                } else {
                    composing_spec(o, rest, Some(e), buffer, last)
                }
            },
            Some(k) => match last {
                None => match o.compose_spec(k.0, e.0) {
                    Some(r) => composing_spec(o, rest, Some((r, k.1 + e.1 - 1)), buffer, last),
                    None => {
                        if cc == 0 {
                            (
                                Model {
                                    input: rest,
                                    mode: Mode::Composing,
                                    buffer,
                                    composee: Some(e),
                                    last_class: None,
                                },
                                Some(k),
                            )
                        } else {
                            composing_spec(o, rest, Some(k), buffer.push(e), Some(cc))
                        }
                    },
                },
                Some(l) => {
                    if l >= cc {
                        if cc == 0 {
                            (
                                Model {
                                    input: rest,
                                    mode: Mode::Purging(0),
                                    buffer,
                                    composee: Some(e),
                                    last_class: None,
                                },
                                Some(k),
                            )
                        } else {
                            composing_spec(o, rest, Some(k), buffer.push(e), Some(cc))
                        }
                    } else {
                        match o.compose_spec(k.0, e.0) {
                            Some(r) => composing_spec(
                                o,
                                rest,
                                Some((r, k.1 + e.1 - 1)),
                                buffer,
                                last,
                            ),
                            None => composing_spec(o, rest, Some(k), buffer.push(e), Some(cc)),
                        }
                    }
                },
            },
        }
    }
}

/// What one call to the engine does from state `m`: the state after the
/// call, and the element emitted (`None` signals exhaustion).
pub open spec fn next_spec(o: Oracle, m: Model) -> (Model, Option<Pc>) {
    match m.mode {
        Mode::Composing => composing_spec(o, m.input, m.composee, m.buffer, m.last_class),
        Mode::Purging(c) => {
            if c < m.buffer.len() {
                (
                    Model {
                        input: m.input,
                        mode: Mode::Purging(c + 1),
                        buffer: m.buffer,
                        composee: m.composee,
                        last_class: m.last_class,
                    },
                    Some(m.buffer[c as int]),
                )
            } else {
                composing_spec(o, m.input, m.composee, Seq::empty(), m.last_class)
            }
        },
        Mode::Finished(c) => {
            if c < m.buffer.len() {
                (
                    Model {
                        input: m.input,
                        mode: Mode::Finished(c + 1),
                        buffer: m.buffer,
                        composee: m.composee,
                        last_class: m.last_class,
                    },
                    Some(m.buffer[c as int]),
                )
            } else {
                (
                    Model {
                        input: m.input,
                        mode: m.mode,
                        buffer: Seq::empty(),
                        composee: None,
                        last_class: m.last_class,
                    },
                    m.composee,
                )
            }
        },
    }
}

/// The part of the buffer still due for emission.
pub open spec fn pend_len(buffer: Seq<Pc>, c: nat) -> int {
    if c < buffer.len() {
        buffer.len() - c
    } else {
        0
    }
}

/// A bound on how many more elements the engine can emit from state `m`;
/// it shrinks with every emission.
pub open spec fn measure(m: Model) -> int {
    3 * m.input.len() + (match m.mode {
        Mode::Composing => m.buffer.len() + 2int,
        Mode::Purging(c) => pend_len(m.buffer, c) + 1,
        Mode::Finished(c) => pend_len(m.buffer, c),
    }) + (match m.composee {
        Some(_) => 1int,
        None => 0int,
    })
}

/// `composing_spec` emits at most one element and never grows the measure
/// past its starting bound; when it signals exhaustion everything is empty.
pub proof fn lemma_composing_measure(
    o: Oracle,
    input: Seq<Pc>,
    composee: Option<Pc>,
    buffer: Seq<Pc>,
    last: Option<u8>,
)
    ensures
        ({
            let (m2, r) = composing_spec(o, input, composee, buffer, last);
            &&& (r is Some ==> 0 <= measure(m2) < 3 * input.len() + buffer.len() + 1 + (
            if composee is Some {
                1int
            } else {
                0int
            }))
            &&& (r is None ==> measure(m2) == 0)
        }),
    decreases input.len(),
{
    if input.len() == 0 {
    } else {
        let e = input[0];
        let rest = input.drop_first();
        let cc = o.class_spec(e.0);
        match composee {
            None => {
                if cc != 0 {
                } else {
                    lemma_composing_measure(o, rest, Some(e), buffer, last);
                }
            },
            Some(k) => match last {
                None => match o.compose_spec(k.0, e.0) {
                    Some(r) => {
                        lemma_composing_measure(o, rest, Some((r, k.1 + e.1 - 1)), buffer, last);
                    },
                    None => {
                        if cc == 0 {
                        } else {
                            lemma_composing_measure(o, rest, Some(k), buffer.push(e), Some(cc));
                        }
                    },
                },
                Some(l) => {
                    if l >= cc {
                        if cc == 0 {
                        } else {
                            lemma_composing_measure(o, rest, Some(k), buffer.push(e), Some(cc));
                        }
                    } else {
                        match o.compose_spec(k.0, e.0) {
                            Some(r) => {
                                lemma_composing_measure(
                                    o,
                                    rest,
                                    Some((r, k.1 + e.1 - 1)),
                                    buffer,
                                    last,
                                );
                            },
                            None => {
                                lemma_composing_measure(o, rest, Some(k), buffer.push(e), Some(cc));
                            },
                        }
                    }
                },
            },
        }
    }
}

/// Every emission strictly shrinks the measure, and exhaustion leaves a
/// state of measure zero.
pub proof fn lemma_next_measure(o: Oracle, m: Model)
    ensures
        ({
            let (m2, r) = next_spec(o, m);
            r is Some ==> 0 <= measure(m2) < measure(m)
        }),
{
    match m.mode {
        Mode::Composing => {
            lemma_composing_measure(o, m.input, m.composee, m.buffer, m.last_class);
        },
        Mode::Purging(c) => {
            if c < m.buffer.len() {
            } else {
                lemma_composing_measure(o, m.input, m.composee, Seq::empty(), m.last_class);
            }
        },
        Mode::Finished(c) => {},
    }
}

/// Absolute value of a delta.
pub open spec fn abs1(d: int) -> int {
    if d < 0 {
        -d
    } else {
        d
    }
}

/// The overflow budget an upstream sequence demands: each element may cost
/// its delta's magnitude plus one (the merge adjustment).
pub open spec fn in_budget(s: Seq<Pc>) -> int
    decreases s.len(),
{
    if s.len() == 0 {
        0
    } else {
        abs1(s[0].1) + 1 + in_budget(s.drop_first())
    }
}

/// The budget already spent on buffered elements.
pub open spec fn buf_budget(s: Seq<Pc>) -> int
    decreases s.len(),
{
    if s.len() == 0 {
        0
    } else {
        abs1(s[0].1) + buf_budget(s.drop_first())
    }
}

/// The budget the composee holds.
pub open spec fn comp_budget(c: Option<Pc>) -> int {
    match c {
        Some(k) => abs1(k.1),
        None => 0,
    }
}

/// The whole budget of a state.  It never grows as the engine runs, so
/// every delta the engine computes stays within it.
pub open spec fn budget(m: Model) -> int {
    in_budget(m.input) + buf_budget(m.buffer) + comp_budget(m.composee)
}

/// What the executable engine maintains: every delta it will ever compute
/// fits in `isize`, and buffer plus remaining input stay addressable.
pub open spec fn wf_m(m: Model) -> bool {
    &&& budget(m) <= isize::MAX as int
    &&& m.buffer.len() + m.input.len() <= usize::MAX as int
}

pub proof fn lemma_in_budget_nonneg(s: Seq<Pc>)
    ensures
        in_budget(s) >= 0,
    decreases s.len(),
{
    if s.len() > 0 {
        lemma_in_budget_nonneg(s.drop_first());
    }
}

/// A caller that knows a uniform bound on its deltas knows the budget of
/// the whole stream.
pub proof fn lemma_in_budget_bounded(s: Seq<Pc>, b: int)
    requires
        b >= 0,
        forall|i: int| 0 <= i < s.len() ==> abs1(#[trigger] s[i].1) <= b,
    ensures
        in_budget(s) <= s.len() * (b + 1),
    decreases s.len(),
{
    if s.len() == 0 {
    } else {
        let rest = s.drop_first();
        assert forall|i: int| 0 <= i < rest.len() implies abs1(#[trigger] rest[i].1) <= b by {
            assert(rest[i] == s[i + 1]);
            assert(abs1(s[i + 1].1) <= b);
        }
        lemma_in_budget_bounded(rest, b);
        assert(abs1(s[0].1) <= b);
        assert(s.len() * (b + 1) == (s.len() - 1) * (b + 1) + (b + 1)) by (nonlinear_arith);
    }
}

pub proof fn lemma_buf_budget_nonneg(s: Seq<Pc>)
    ensures
        buf_budget(s) >= 0,
    decreases s.len(),
{
    if s.len() > 0 {
        lemma_buf_budget_nonneg(s.drop_first());
    }
}

pub proof fn lemma_buf_budget_push(s: Seq<Pc>, x: Pc)
    ensures
        buf_budget(s.push(x)) == buf_budget(s) + abs1(x.1),
    decreases s.len(),
{
    assert(s.push(x).len() == s.len() + 1);
    assert(buf_budget(s.push(x)) == abs1(s.push(x)[0].1) + buf_budget(s.push(x).drop_first()));
    if s.len() == 0 {
        assert(s.push(x)[0] == x);
        assert(s.push(x).drop_first() =~= Seq::<Pc>::empty());
    } else {
        assert(s.push(x)[0] == s[0]);
        assert(s.push(x).drop_first() =~= s.drop_first().push(x));
        lemma_buf_budget_push(s.drop_first(), x);
    }
}

/// The full output the engine produces from state `m`, one element per
/// call, until it signals exhaustion.
pub open spec fn run(o: Oracle, m: Model) -> Seq<Pc>
    decreases measure(m),
    via run_decreases
{
    let s = next_spec(o, m);
    match s.1 {
        None => Seq::empty(),
        Some(pc) => seq![pc] + run(o, s.0),
    }
}

#[via_fn]
proof fn run_decreases(o: Oracle, m: Model) {
    lemma_next_measure(o, m);
}

} // verus!
