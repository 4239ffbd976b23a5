//! The general properties of the engine, stated over its mathematical
//! model and proved once and for all: alignment correctness, permanent
//! exhaustion, the empty stream, and idempotence on fully composed input.

use crate::model::composing_spec;
use crate::model::init_model;
use crate::model::lemma_next_measure;
use crate::model::measure;
use crate::model::next_spec;
use crate::model::run;
use crate::model::Mode;
use crate::model::Model;
use crate::model::Pc;
use crate::oracle::Oracle;
use vstd::prelude::*;

verus! {

/// The sum of the deltas a positioned sequence carries.
pub open spec fn delta_sum(s: Seq<Pc>) -> int
    decreases s.len(),
{
    if s.len() == 0 {
        0
    } else {
        s[0].1 + delta_sum(s.drop_first())
    }
}

/// The part of the buffer at or after cursor `c`.
pub open spec fn buf_pending(buffer: Seq<Pc>, c: nat) -> Seq<Pc> {
    if c <= buffer.len() {
        buffer.skip(c as int)
    } else {
        Seq::empty()
    }
}

/// An optional element as a sequence of zero or one elements.
pub open spec fn opt_seq(c: Option<Pc>) -> Seq<Pc> {
    match c {
        Some(k) => seq![k],
        None => Seq::empty(),
    }
}

proof fn lemma_delta_sum_push(s: Seq<Pc>, x: Pc)
    ensures
        delta_sum(s.push(x)) == delta_sum(s) + x.1,
    decreases s.len(),
{
    assert(s.push(x).len() == s.len() + 1);
    assert(delta_sum(s.push(x)) == s.push(x)[0].1 + delta_sum(s.push(x).drop_first()));
    if s.len() == 0 {
        assert(s.push(x)[0] == x);
        assert(s.push(x).drop_first() =~= Seq::<Pc>::empty());
    } else {
        assert(s.push(x)[0] == s[0]);
        assert(s.push(x).drop_first() =~= s.drop_first().push(x));
        lemma_delta_sum_push(s.drop_first(), x);
    }
}

proof fn lemma_delta_sum_cons(x: Pc, s: Seq<Pc>)
    ensures
        delta_sum(seq![x] + s) == x.1 + delta_sum(s),
{
    assert((seq![x] + s).len() == s.len() + 1);
    assert((seq![x] + s)[0] == x);
    assert((seq![x] + s).drop_first() =~= s);
}

// ------------------------------------------------------------------
// Alignment correctness.
// ------------------------------------------------------------------
/// The delta the composee still owes the output: merging happened already,
/// so it carries its summed delta minus one per merged-away character, and
/// will be emitted as a single element.
pub open spec fn comp_excess(c: Option<Pc>) -> int {
    match c {
        Some(k) => k.1 - 1,
        None => 0,
    }
}

/// How far the deltas still to be emitted from state `m` exceed one less
/// than each element: the invariant quantity behind alignment.
pub open spec fn excess(m: Model) -> int {
    (match m.mode {
        Mode::Composing => delta_sum(m.input) - m.input.len() + delta_sum(m.buffer)
            - m.buffer.len(),
        Mode::Purging(c) => delta_sum(m.input) - m.input.len() + delta_sum(
            buf_pending(m.buffer, c),
        ) - buf_pending(m.buffer, c).len(),
        Mode::Finished(c) => delta_sum(buf_pending(m.buffer, c)) - buf_pending(m.buffer, c).len(),
    }) + comp_excess(m.composee)
}

proof fn lemma_excess_composing(
    o: Oracle,
    input: Seq<Pc>,
    composee: Option<Pc>,
    buffer: Seq<Pc>,
    last: Option<u8>,
)
    ensures
        ({
            let (m2, r) = composing_spec(o, input, composee, buffer, last);
            let e0 = delta_sum(input) - input.len() + delta_sum(buffer) - buffer.len()
                + comp_excess(composee);
            match r {
                Some(pc) => e0 == (pc.1 - 1) + excess(m2),
                None => e0 == 0 && excess(m2) == 0,
            }
        }),
    decreases input.len(),
{
    if input.len() == 0 {
        match composee {
            Some(k) => {
                assert(buffer.skip(0) =~= buffer);
            },
            None => {
                if buffer.len() > 0 {
                    assert(delta_sum(buffer) == buffer[0].1 + delta_sum(buffer.drop_first()));
                    assert(buffer.skip(1) =~= buffer.drop_first());
                } else {
                }
            },
        }
    } else {
        let e = input[0];
        let rest = input.drop_first();
        let cc = o.class_spec(e.0);
        assert(delta_sum(input) == e.1 + delta_sum(rest));
        match composee {
            None => {
                if cc != 0 {
                } else {
                    lemma_excess_composing(o, rest, Some(e), buffer, last);
                }
            },
            Some(k) => match last {
                None => match o.compose_spec(k.0, e.0) {
                    Some(r) => {
                        lemma_excess_composing(o, rest, Some((r, k.1 + e.1 - 1)), buffer, last);
                    },
                    None => {
                        if cc == 0 {
                        } else {
                            lemma_delta_sum_push(buffer, e);
                            lemma_excess_composing(o, rest, Some(k), buffer.push(e), Some(cc));
                        }
                    },
                },
                Some(l) => {
                    if l >= cc {
                        if cc == 0 {
                            assert(buffer.skip(0) =~= buffer);
                        } else {
                            lemma_delta_sum_push(buffer, e);
                            lemma_excess_composing(o, rest, Some(k), buffer.push(e), Some(cc));
                        }
                    } else {
                        match o.compose_spec(k.0, e.0) {
                            Some(r) => {
                                lemma_excess_composing(
                                    o,
                                    rest,
                                    Some((r, k.1 + e.1 - 1)),
                                    buffer,
                                    last,
                                );
                            },
                            None => {
                                lemma_delta_sum_push(buffer, e);
                                lemma_excess_composing(o, rest, Some(k), buffer.push(e), Some(cc));
                            },
                        }
                    }
                },
            },
        }
    }
}

/// One call keeps the excess: an emitted element takes `delta - 1` with it,
/// and exhaustion happens only at excess zero.
proof fn lemma_excess_step(o: Oracle, m: Model)
    ensures
        ({
            let (m2, r) = next_spec(o, m);
            match r {
                Some(pc) => excess(m) == (pc.1 - 1) + excess(m2),
                None => excess(m) == 0 && excess(m2) == 0,
            }
        }),
{
    match m.mode {
        Mode::Composing => {
            lemma_excess_composing(o, m.input, m.composee, m.buffer, m.last_class);
        },
        Mode::Purging(c) => {
            if c < m.buffer.len() {
                assert(buf_pending(m.buffer, c)[0] == m.buffer[c as int]);
                assert(buf_pending(m.buffer, c).drop_first() =~= buf_pending(m.buffer, c + 1));
                assert(delta_sum(buf_pending(m.buffer, c)) == m.buffer[c as int].1 + delta_sum(
                    buf_pending(m.buffer, c + 1),
                ));
            } else {
                lemma_excess_composing(o, m.input, m.composee, Seq::empty(), m.last_class);
                assert(buf_pending(m.buffer, c) =~= Seq::<Pc>::empty());
            }
        },
        Mode::Finished(c) => {
            if c < m.buffer.len() {
                assert(buf_pending(m.buffer, c)[0] == m.buffer[c as int]);
                assert(buf_pending(m.buffer, c).drop_first() =~= buf_pending(m.buffer, c + 1));
                assert(delta_sum(buf_pending(m.buffer, c)) == m.buffer[c as int].1 + delta_sum(
                    buf_pending(m.buffer, c + 1),
                ));
            } else {
                assert(buf_pending(m.buffer, c) =~= Seq::<Pc>::empty());
                assert(buf_pending(Seq::<Pc>::empty(), c) =~= Seq::<Pc>::empty());
            }
        },
    }
}

/// Over a whole run, the emitted deltas sum to the excess of the starting
/// state plus one per emitted element.
proof fn lemma_run_excess(o: Oracle, m: Model)
    ensures
        delta_sum(run(o, m)) - run(o, m).len() == excess(m),
    decreases measure(m),
{
    lemma_next_measure(o, m);
    lemma_excess_step(o, m);
    let (m2, r) = next_spec(o, m);
    match r {
        None => {
            assert(run(o, m) =~= Seq::<Pc>::empty());
        },
        Some(pc) => {
            lemma_run_excess(o, m2);
            assert(run(o, m) == seq![pc] + run(o, m2));
            lemma_delta_sum_cons(pc, run(o, m2));
        },
    }
}

/// Alignment correctness: over a whole run from a fresh engine the emitted
/// deltas sum to the input deltas plus the length change the merges caused
/// — output length minus input length.  Applied cumulatively, the deltas
/// therefore reconstruct the exact offset mapping between the original and
/// the final text.
pub proof fn lemma_alignment(o: Oracle, s: Seq<Pc>)
    ensures
        delta_sum(run(o, init_model(s))) == delta_sum(s) + run(o, init_model(s)).len() - s.len(),
{
    lemma_run_excess(o, init_model(s));
}

// ------------------------------------------------------------------
// Composition only merges, never splits.
// ------------------------------------------------------------------
/// How many elements can still come out of state `m`.
pub open spec fn emission_bound(m: Model) -> int {
    (match m.mode {
        Mode::Composing => m.input.len() + m.buffer.len(),
        Mode::Purging(c) => m.input.len() + buf_pending(m.buffer, c).len(),
        Mode::Finished(c) => buf_pending(m.buffer, c).len(),
    }) + (match m.composee {
        Some(_) => 1int,
        None => 0int,
    })
}

proof fn lemma_bound_composing(
    o: Oracle,
    input: Seq<Pc>,
    composee: Option<Pc>,
    buffer: Seq<Pc>,
    last: Option<u8>,
)
    ensures
        ({
            let (m2, r) = composing_spec(o, input, composee, buffer, last);
            let b0 = input.len() + buffer.len() + (match composee {
                Some(_) => 1int,
                None => 0int,
            });
            match r {
                Some(pc) => emission_bound(m2) <= b0 - 1,
                None => emission_bound(m2) <= b0,
            }
        }),
    decreases input.len(),
{
    if input.len() == 0 {
        if composee is Some {
            assert(buffer.skip(0) =~= buffer);
        } else {
            if buffer.len() > 0 {
                assert(buffer.skip(1).len() == buffer.len() - 1);
            }
        }
    } else {
        let e = input[0];
        let rest = input.drop_first();
        let cc = o.class_spec(e.0);
        match composee {
            None => {
                if cc != 0 {
                } else {
                    lemma_bound_composing(o, rest, Some(e), buffer, last);
                }
            },
            Some(k) => match last {
                None => match o.compose_spec(k.0, e.0) {
                    Some(r) => {
                        lemma_bound_composing(o, rest, Some((r, k.1 + e.1 - 1)), buffer, last);
                    },
                    None => {
                        if cc == 0 {
                        } else {
                            lemma_bound_composing(o, rest, Some(k), buffer.push(e), Some(cc));
                        }
                    },
                },
                Some(l) => {
                    if l >= cc {
                        if cc == 0 {
                            assert(buffer.skip(0) =~= buffer);
                        } else {
                            lemma_bound_composing(o, rest, Some(k), buffer.push(e), Some(cc));
                        }
                    } else {
                        match o.compose_spec(k.0, e.0) {
                            Some(r) => {
                                lemma_bound_composing(
                                    o,
                                    rest,
                                    Some((r, k.1 + e.1 - 1)),
                                    buffer,
                                    last,
                                );
                            },
                            None => {
                                lemma_bound_composing(o, rest, Some(k), buffer.push(e), Some(cc));
                            },
                        }
                    }
                },
            },
        }
    }
}

proof fn lemma_bound_step(o: Oracle, m: Model)
    ensures
        ({
            let (m2, r) = next_spec(o, m);
            match r {
                Some(pc) => emission_bound(m2) <= emission_bound(m) - 1,
                None => emission_bound(m2) <= emission_bound(m),
            }
        }),
{
    match m.mode {
        Mode::Composing => {
            lemma_bound_composing(o, m.input, m.composee, m.buffer, m.last_class);
        },
        Mode::Purging(c) => {
            if c < m.buffer.len() {
                assert(buf_pending(m.buffer, c).len() == buf_pending(m.buffer, c + 1).len() + 1);
            } else {
                lemma_bound_composing(o, m.input, m.composee, Seq::empty(), m.last_class);
                assert(buf_pending(m.buffer, c) =~= Seq::<Pc>::empty());
            }
        },
        Mode::Finished(c) => {
            if c < m.buffer.len() {
                assert(buf_pending(m.buffer, c).len() == buf_pending(m.buffer, c + 1).len() + 1);
            } else {
                assert(buf_pending(m.buffer, c) =~= Seq::<Pc>::empty());
                assert(buf_pending(Seq::<Pc>::empty(), c) =~= Seq::<Pc>::empty());
            }
        },
    }
}

proof fn lemma_run_len(o: Oracle, m: Model)
    ensures
        run(o, m).len() <= emission_bound(m),
    decreases measure(m),
{
    lemma_next_measure(o, m);
    lemma_bound_step(o, m);
    let (m2, r) = next_spec(o, m);
    match r {
        None => {
            assert(run(o, m) =~= Seq::<Pc>::empty());
        },
        Some(pc) => {
            lemma_run_len(o, m2);
            assert(run(o, m) == seq![pc] + run(o, m2));
        },
    }
}

/// Composition only merges, never splits: the output sequence is never
/// longer than the input sequence.
pub proof fn lemma_output_no_longer(o: Oracle, s: Seq<Pc>)
    ensures
        run(o, init_model(s)).len() <= s.len(),
{
    lemma_run_len(o, init_model(s));
}

// ------------------------------------------------------------------
// Exhaustion is permanent.
// ------------------------------------------------------------------
proof fn lemma_composing_none(
    o: Oracle,
    input: Seq<Pc>,
    composee: Option<Pc>,
    buffer: Seq<Pc>,
    last: Option<u8>,
)
    ensures
        ({
            let (m2, r) = composing_spec(o, input, composee, buffer, last);
            &&& (r is None ==> m2.mode is Finished)
            &&& (r is None ==> m2.buffer.len() == 0)
            &&& (r is None ==> m2.composee is None)
        }),
    decreases input.len(),
{
    if input.len() == 0 {
    } else {
        let e = input[0];
        let rest = input.drop_first();
        let cc = o.class_spec(e.0);
        match composee {
            None => {
                if cc != 0 {
                } else {
                    lemma_composing_none(o, rest, Some(e), buffer, last);
                }
            },
            Some(k) => match last {
                None => match o.compose_spec(k.0, e.0) {
                    Some(r) => {
                        lemma_composing_none(o, rest, Some((r, k.1 + e.1 - 1)), buffer, last);
                    },
                    None => {
                        if cc == 0 {
                        } else {
                            lemma_composing_none(o, rest, Some(k), buffer.push(e), Some(cc));
                        }
                    },
                },
                Some(l) => {
                    if l >= cc {
                        if cc == 0 {
                        } else {
                            lemma_composing_none(o, rest, Some(k), buffer.push(e), Some(cc));
                        }
                    } else {
                        match o.compose_spec(k.0, e.0) {
                            Some(r) => {
                                lemma_composing_none(
                                    o,
                                    rest,
                                    Some((r, k.1 + e.1 - 1)),
                                    buffer,
                                    last,
                                );
                            },
                            None => {
                                lemma_composing_none(o, rest, Some(k), buffer.push(e), Some(cc));
                            },
                        }
                    }
                },
            },
        }
    }
}

/// Exhaustion: once a call signals exhaustion, the very next call — and so,
/// by induction, every later one — signals exhaustion as well, whatever
/// state the engine was in.
pub proof fn lemma_exhaustion(o: Oracle, m: Model)
    ensures
        next_spec(o, m).1 is None ==> next_spec(o, next_spec(o, m).0).1 is None,
{
    match m.mode {
        Mode::Composing => {
            lemma_composing_none(o, m.input, m.composee, m.buffer, m.last_class);
        },
        Mode::Purging(c) => {
            if c < m.buffer.len() {
            } else {
                lemma_composing_none(o, m.input, m.composee, Seq::empty(), m.last_class);
            }
        },
        Mode::Finished(c) => {},
    }
}

/// The state the engine is in after `n` further calls.
pub open spec fn after_calls(o: Oracle, m: Model, n: nat) -> Model
    decreases n,
{
    if n == 0 {
        m
    } else {
        after_calls(o, next_spec(o, m).0, (n - 1) as nat)
    }
}

/// Exhaustion, over any horizon: once a call signals exhaustion, the call
/// made after any number of further calls still signals exhaustion.
pub proof fn lemma_exhaustion_forever(o: Oracle, m: Model, n: nat)
    requires
        next_spec(o, m).1 is None,
    ensures
        next_spec(o, after_calls(o, m, n)).1 is None,
    decreases n,
{
    if n == 0 {
    } else {
        lemma_exhaustion(o, m);
        lemma_exhaustion_forever(o, next_spec(o, m).0, (n - 1) as nat);
    }
}

// ------------------------------------------------------------------
// The empty stream.
// ------------------------------------------------------------------
/// Empty input yields an empty output sequence, whatever the oracle.
pub proof fn lemma_empty_input(o: Oracle)
    ensures
        run(o, init_model(Seq::<Pc>::empty())) == Seq::<Pc>::empty(),
{
    assert(run(o, init_model(Seq::<Pc>::empty())) =~= Seq::<Pc>::empty());
}

// ------------------------------------------------------------------
// The structural invariants of the engine state.
// ------------------------------------------------------------------
/// The invariants of the data model: the buffer holds only characters with
/// nonzero combining class, and in the base scanning state — no recorded
/// last class, or no composee at all — the buffer is empty.
pub open spec fn state_inv(o: Oracle, m: Model) -> bool {
    &&& forall|i: int|
        0 <= i < m.buffer.len() ==> o.class_spec(#[trigger] m.buffer[i].0) != 0
    &&& (m.mode is Composing && m.last_class is None ==> m.buffer.len() == 0)
    &&& (m.mode is Composing && m.composee is None ==> m.buffer.len() == 0)
}

/// A fresh engine satisfies the invariants.
pub proof fn lemma_state_inv_init(o: Oracle, s: Seq<Pc>)
    ensures
        state_inv(o, init_model(s)),
{
}

proof fn lemma_state_inv_composing(
    o: Oracle,
    input: Seq<Pc>,
    composee: Option<Pc>,
    buffer: Seq<Pc>,
    last: Option<u8>,
)
    requires
        forall|i: int| 0 <= i < buffer.len() ==> o.class_spec(#[trigger] buffer[i].0) != 0,
        last is None ==> buffer.len() == 0,
        composee is None ==> buffer.len() == 0,
    ensures
        state_inv(o, composing_spec(o, input, composee, buffer, last).0),
    decreases input.len(),
{
    if input.len() == 0 {
    } else {
        let e = input[0];
        let rest = input.drop_first();
        let cc = o.class_spec(e.0);
        match composee {
            None => {
                if cc != 0 {
                } else {
                    lemma_state_inv_composing(o, rest, Some(e), buffer, last);
                }
            },
            Some(k) => match last {
                None => match o.compose_spec(k.0, e.0) {
                    Some(r) => {
                        lemma_state_inv_composing(o, rest, Some((r, k.1 + e.1 - 1)), buffer, last);
                    },
                    None => {
                        if cc == 0 {
                        } else {
                            lemma_state_inv_composing(o, rest, Some(k), buffer.push(e), Some(cc));
                        }
                    },
                },
                Some(l) => {
                    if l >= cc {
                        if cc == 0 {
                        } else {
                            lemma_state_inv_composing(o, rest, Some(k), buffer.push(e), Some(cc));
                        }
                    } else {
                        match o.compose_spec(k.0, e.0) {
                            Some(r) => {
                                lemma_state_inv_composing(
                                    o,
                                    rest,
                                    Some((r, k.1 + e.1 - 1)),
                                    buffer,
                                    last,
                                );
                            },
                            None => {
                                lemma_state_inv_composing(
                                    o,
                                    rest,
                                    Some(k),
                                    buffer.push(e),
                                    Some(cc),
                                );
                            },
                        }
                    }
                },
            },
        }
    }
}

/// Every call preserves the invariants.
pub proof fn lemma_state_inv_preserved(o: Oracle, m: Model)
    requires
        state_inv(o, m),
    ensures
        state_inv(o, next_spec(o, m).0),
{
    match m.mode {
        Mode::Composing => {
            lemma_state_inv_composing(o, m.input, m.composee, m.buffer, m.last_class);
        },
        Mode::Purging(c) => {
            if c < m.buffer.len() {
            } else {
                lemma_state_inv_composing(o, m.input, m.composee, Seq::empty(), m.last_class);
            }
        },
        Mode::Finished(c) => {},
    }
}

// ------------------------------------------------------------------
// Idempotence on fully composed streams.
// ------------------------------------------------------------------
/// A stream is fully composed when no character of it composes with any
/// character standing anywhere before it: the canonical form, as far as
/// the composition oracle is concerned.
pub open spec fn fully_composed(o: Oracle, s: Seq<Pc>) -> bool {
    forall|i: int, j: int|
        0 <= i < j < s.len() ==> #[trigger] o.compose_spec(s[i].0, s[j].0) is None
}

/// The elements still to be emitted from state `m`, in emission order.
pub open spec fn flat(m: Model) -> Seq<Pc> {
    match m.mode {
        Mode::Composing => opt_seq(m.composee) + m.buffer + m.input,
        Mode::Purging(c) => buf_pending(m.buffer, c) + opt_seq(m.composee) + m.input,
        Mode::Finished(c) => buf_pending(m.buffer, c) + opt_seq(m.composee),
    }
}

/// The conditions under which the engine merely passes elements through:
/// nothing in the input composes with anything earlier, and the state has
/// the shape every reachable state has.
pub open spec fn nc_state(o: Oracle, m: Model) -> bool {
    &&& fully_composed(o, m.input)
    &&& (match m.composee {
        Some(k) => forall|j: int|
            0 <= j < m.input.len() ==> #[trigger] o.compose_spec(k.0, m.input[j].0) is None,
        None => true,
    })
    &&& (m.mode is Composing && m.composee is None ==> m.buffer.len() == 0)
    &&& (m.mode is Composing && m.last_class is None ==> m.buffer.len() == 0)
}

proof fn lemma_fc_drop(o: Oracle, s: Seq<Pc>)
    requires
        fully_composed(o, s),
        s.len() > 0,
    ensures
        fully_composed(o, s.drop_first()),
        forall|j: int|
            0 <= j < s.drop_first().len() ==> #[trigger] o.compose_spec(
                s[0].0,
                s.drop_first()[j].0,
            ) is None,
{
    let rest = s.drop_first();
    assert forall|i: int, j: int| 0 <= i < j < rest.len() implies #[trigger] o.compose_spec(
        rest[i].0,
        rest[j].0,
    ) is None by {
        assert(rest[i] == s[i + 1]);
        assert(rest[j] == s[j + 1]);
        assert(o.compose_spec(s[i + 1].0, s[j + 1].0) is None);
    }
    assert forall|j: int| 0 <= j < rest.len() implies #[trigger] o.compose_spec(
        s[0].0,
        rest[j].0,
    ) is None by {
        assert(rest[j] == s[j + 1]);
        assert(o.compose_spec(s[0].0, s[j + 1].0) is None);
    }
}

proof fn lemma_nc_composing(
    o: Oracle,
    input: Seq<Pc>,
    composee: Option<Pc>,
    buffer: Seq<Pc>,
    last: Option<u8>,
)
    requires
        fully_composed(o, input),
        (match composee {
            Some(k) => forall|j: int|
                0 <= j < input.len() ==> #[trigger] o.compose_spec(k.0, input[j].0) is None,
            None => buffer.len() == 0,
        }),
        last is None ==> buffer.len() == 0,
    ensures
        ({
            let (m2, r) = composing_spec(o, input, composee, buffer, last);
            &&& nc_state(o, m2)
            &&& (match r {
                Some(pc) => opt_seq(composee) + buffer + input == seq![pc] + flat(m2),
                None => opt_seq(composee) + buffer + input == Seq::<Pc>::empty(),
            })
        }),
    decreases input.len(),
{
    if input.len() == 0 {
        match composee {
            Some(k) => {
                let (m2, r) = composing_spec(o, input, composee, buffer, last);
                assert(buffer.skip(0) =~= buffer);
                assert(flat(m2) =~= buffer);
                assert(opt_seq(composee) + buffer + input =~= seq![k] + buffer);
            },
            None => {
                assert(opt_seq(composee) + buffer + input =~= Seq::<Pc>::empty());
            },
        }
    } else {
        let e = input[0];
        let rest = input.drop_first();
        let cc = o.class_spec(e.0);
        lemma_fc_drop(o, input);
        match composee {
            None => {
                if cc != 0 {
                    let (m2, r) = composing_spec(o, input, composee, buffer, last);
                    assert(opt_seq(composee) + buffer + input =~= seq![e] + (opt_seq(
                        m2.composee,
                    ) + m2.buffer + m2.input));
                } else {
                    lemma_nc_composing(o, rest, Some(e), buffer, last);
                    assert(opt_seq(composee) + buffer + input =~= opt_seq(Some(e)) + buffer
                        + rest);
                }
            },
            Some(k) => {
                assert(o.compose_spec(k.0, input[0].0) is None);
                match last {
                    None => {
                        // the buffer is empty here
                        if cc == 0 {
                            let (m2, r) = composing_spec(o, input, composee, buffer, last);
                            assert(opt_seq(composee) + buffer + input =~= seq![k] + (opt_seq(
                                Some(e),
                            ) + buffer + rest));
                            assert(flat(m2) =~= opt_seq(Some(e)) + buffer + rest);
                        } else {
                            lemma_nc_composing(o, rest, Some(k), buffer.push(e), Some(cc));
                            assert(opt_seq(Some(k)) + buffer + input =~= opt_seq(Some(k))
                                + buffer.push(e) + rest);
                        }
                    },
                    Some(l) => {
                        if l >= cc {
                            if cc == 0 {
                                let (m2, r) = composing_spec(o, input, composee, buffer, last);
                                assert(buffer.skip(0) =~= buffer);
                                assert(flat(m2) =~= buffer + opt_seq(Some(e)) + rest);
                                assert(opt_seq(Some(k)) + buffer + input =~= seq![k] + (buffer
                                    + opt_seq(Some(e)) + rest));
                            } else {
                                lemma_nc_composing(o, rest, Some(k), buffer.push(e), Some(cc));
                                assert(opt_seq(Some(k)) + buffer + input =~= opt_seq(Some(k))
                                    + buffer.push(e) + rest);
                            }
                        } else {
                            lemma_nc_composing(o, rest, Some(k), buffer.push(e), Some(cc));
                            assert(opt_seq(Some(k)) + buffer + input =~= opt_seq(Some(k))
                                + buffer.push(e) + rest);
                        }
                    },
                }
            },
        }
    }
}

/// One call under `nc_state`: the emitted element is exactly the head of
/// the elements still due, and the conditions persist.
proof fn lemma_nc_step(o: Oracle, m: Model)
    requires
        nc_state(o, m),
    ensures
        ({
            let (m2, r) = next_spec(o, m);
            &&& nc_state(o, m2)
            &&& (match r {
                Some(pc) => flat(m) == seq![pc] + flat(m2),
                None => flat(m) == Seq::<Pc>::empty(),
            })
        }),
{
    match m.mode {
        Mode::Composing => {
            lemma_nc_composing(o, m.input, m.composee, m.buffer, m.last_class);
            assert(flat(m) == opt_seq(m.composee) + m.buffer + m.input);
        },
        Mode::Purging(c) => {
            let (m2, r) = next_spec(o, m);
            if c < m.buffer.len() {
                assert(buf_pending(m.buffer, c)[0] == m.buffer[c as int]);
                assert(flat(m) =~= seq![m.buffer[c as int]] + (buf_pending(m.buffer, c + 1)
                    + opt_seq(m.composee) + m.input));
            } else {
                lemma_nc_composing(o, m.input, m.composee, Seq::empty(), m.last_class);
                assert(buf_pending(m.buffer, c) =~= Seq::<Pc>::empty());
                assert(flat(m) =~= opt_seq(m.composee) + Seq::<Pc>::empty() + m.input);
                match r {
                    Some(pc) => {
                        assert(flat(m) == seq![pc] + flat(m2));
                    },
                    None => {
                        assert(flat(m) =~= Seq::<Pc>::empty());
                    },
                }
            }
        },
        Mode::Finished(c) => {
            let (m2, r) = next_spec(o, m);
            if c < m.buffer.len() {
                assert(buf_pending(m.buffer, c)[0] == m.buffer[c as int]);
                assert(buf_pending(m.buffer, c).drop_first() =~= buf_pending(m.buffer, c + 1));
                assert(flat(m) =~= seq![m.buffer[c as int]] + (buf_pending(m.buffer, c + 1)
                    + opt_seq(m.composee)));
            } else {
                assert(buf_pending(m.buffer, c) =~= Seq::<Pc>::empty());
                assert(buf_pending(m2.buffer, c) =~= Seq::<Pc>::empty());
                match m.composee {
                    Some(k) => {
                        assert(flat(m) =~= seq![k] + flat(m2));
                    },
                    None => {
                        assert(flat(m) =~= Seq::<Pc>::empty());
                    },
                }
            }
        },
    }
}

proof fn lemma_nc_run(o: Oracle, m: Model)
    requires
        nc_state(o, m),
    ensures
        run(o, m) == flat(m),
    decreases measure(m),
{
    lemma_next_measure(o, m);
    lemma_nc_step(o, m);
    let (m2, r) = next_spec(o, m);
    match r {
        None => {
            assert(run(o, m) =~= Seq::<Pc>::empty());
        },
        Some(pc) => {
            lemma_nc_run(o, m2);
            assert(run(o, m) == seq![pc] + run(o, m2));
        },
    }
}

/// Idempotence: a stream that is already fully composed — no character of
/// it composes with any earlier one — is reproduced unchanged, characters,
/// order and deltas alike.
pub proof fn lemma_idempotent(o: Oracle, s: Seq<Pc>)
    requires
        fully_composed(o, s),
    ensures
        run(o, init_model(s)) == s,
{
    lemma_nc_run(o, init_model(s));
    assert(flat(init_model(s)) =~= s);
}

} // verus!
