//! The recomposition engine: a resumable, pull-based transducer over an
//! already-decomposed, canonically-ordered stream of positioned characters.

use crate::buffer::buf_clear;
use crate::buffer::buf_get;
use crate::buffer::buf_new;
use crate::buffer::buf_push;
use crate::buffer::pending_of;
use crate::buffer::MarkBuffer;
use crate::model::abs1;
use crate::model::in_budget;
use crate::model::init_model;
use crate::model::lemma_buf_budget_nonneg;
use crate::model::lemma_buf_budget_push;
use crate::model::lemma_in_budget_nonneg;
use crate::model::lemma_next_measure;
use crate::model::measure;
use crate::model::next_spec;
use crate::model::run;
use crate::model::wf_m;
use crate::model::Mode;
use crate::model::Model;
use crate::model::Pc;
use crate::oracle::Oracle;
use vstd::prelude::*;

verus! {

/// The positioned character `p` at the mathematical level.
pub open spec fn pcv(p: (char, isize)) -> Pc {
    (p.0, p.1 as int)
}

/// A whole sequence of positioned characters at the mathematical level.
pub open spec fn pcs(s: Seq<(char, isize)>) -> Seq<Pc> {
    s.map_values(|p: (char, isize)| pcv(p))
}

/// An optional positioned character at the mathematical level.
pub open spec fn opt_pcv(p: Option<(char, isize)>) -> Option<Pc> {
    match p {
        Some(q) => Some(pcv(q)),
        None => None,
    }
}

/// The characters of a positioned sequence, deltas dropped.
pub open spec fn chars_of(s: Seq<Pc>) -> Seq<char> {
    s.map_values(|pc: Pc| pc.0)
}

#[derive(Clone, Copy)]
enum RecompositionState {
    Composing,
    Purging(usize),
    Finished(usize),
}

/// The recomposition engine.  It consumes its input stream front to back,
/// one upstream element at a time, merging combining marks into pending
/// composees according to the oracle, and emits one positioned character
/// per call to [`Self::next`].
pub struct RecompositionsAlignment {
    oracle: Oracle,
    input: Vec<(char, isize)>,
    pos: usize,
    state: RecompositionState,
    buffer: MarkBuffer,
    composee: Option<(char, isize)>,
    last_ccc: Option<u8>,
}

impl View for RecompositionsAlignment {
    type V = Model;

    /// The abstract state this engine is in.
    closed spec fn view(&self) -> Model {
        Model {
            input: pcs(self.input@).skip(self.pos as int),
            mode: match self.state {
                RecompositionState::Composing => Mode::Composing,
                RecompositionState::Purging(c) => Mode::Purging(c as nat),
                RecompositionState::Finished(c) => Mode::Finished(c as nat),
            },
            buffer: pcs(pending_of(self.buffer)),
            composee: opt_pcv(self.composee),
            last_class: self.last_ccc,
        }
    }
}

spec fn arm_rank(s: RecompositionState) -> int {
    match s {
        RecompositionState::Purging(_) => 2,
        RecompositionState::Composing => 1,
        RecompositionState::Finished(_) => 0,
    }
}

impl RecompositionsAlignment {
    /// The oracle this engine consults.
    pub closed spec fn oracle_spec(self) -> Oracle {
        self.oracle
    }

    /// Well-formedness: the engine's position is inside its input and the
    /// abstract state keeps its overflow budget.
    pub closed spec fn wf(self) -> bool {
        &&& self.pos <= self.input@.len()
        &&& wf_m(self@)
    }

    /// One pull: either the next element of the recomposed stream, or
    /// `None` once the stream is exhausted.  Exactly the transition the
    /// model's `next_spec` describes.
    pub fn next(&mut self) -> (r: Option<(char, isize)>)
        requires
            old(self).wf(),
        ensures
            final(self).wf(),
            final(self).oracle_spec() == old(self).oracle_spec(),
            final(self)@ == next_spec(old(self).oracle_spec(), old(self)@).0,
            opt_pcv(r) == next_spec(old(self).oracle_spec(), old(self)@).1,
    {
        let ghost o = self.oracle;
        let ghost m0 = self@;
        let ghost s_all = pcs(self.input@);
        loop
            invariant
                self.wf(),
                self.oracle == o,
                pcs(self.input@) == s_all,
                o == old(self).oracle_spec(),
                m0 == old(self)@,
                next_spec(o, self@) == next_spec(o, m0),
            decreases arm_rank(self.state),
        {
            match self.state {
                RecompositionState::Composing => {
                    while self.pos < self.input.len()
                        invariant
                            self.wf(),
                            self.oracle == o,
                            pcs(self.input@) == s_all,
                            o == old(self).oracle_spec(),
                            m0 == old(self)@,
                            self.state is Composing,
                            next_spec(o, self@) == next_spec(o, m0),
                        decreases self.input.len() - self.pos,
                    {
                        let ghost pre = self@;
                        let ghost p: int = self.pos as int;
                        let e = self.input[self.pos];
                        let cc = self.oracle.canonical_combining_class(e.0);
                        self.pos = self.pos + 1;
                        proof {
                            assert(pre.input == s_all.skip(p));
                            assert(pre.input[0] == pcv(e));
                            assert(pre.input.drop_first() =~= s_all.skip(p + 1));
                            lemma_in_budget_nonneg(s_all.skip(p + 1));
                            lemma_buf_budget_nonneg(pre.buffer);
                            assert(in_budget(pre.input) == abs1(pcv(e).1) + 1 + in_budget(
                                s_all.skip(p + 1),
                            ));
                        }
                        match self.composee {
                            None => {
                                if cc != 0 {
                                    proof {
                                        assert(self@ =~= (Model {
                                            input: s_all.skip(p + 1),
                                            ..pre
                                        }));
                                    }
                                    return Some(e);
                                }
                                self.composee = Some(e);
                                proof {
                                    assert(self@ =~= (Model {
                                        input: s_all.skip(p + 1),
                                        composee: Some(pcv(e)),
                                        ..pre
                                    }));
                                }
                            },
                            Some(k) => {
                                match self.last_ccc {
                                    None => {
                                        match self.oracle.compose(k.0, e.0) {
                                            Some(rc) => {
                                                let nd: isize = k.1 + e.1 - 1;
                                                self.composee = Some((rc, nd));
                                                proof {
                                                    assert(self@ =~= (Model {
                                                        input: s_all.skip(p + 1),
                                                        composee: Some((rc, k.1 + e.1 - 1)),
                                                        ..pre
                                                    }));
                                                }
                                            },
                                            None => {
                                                if cc == 0 {
                                                    self.composee = Some(e);
                                                    proof {
                                                        assert(self@ =~= (Model {
                                                            input: s_all.skip(p + 1),
                                                            composee: Some(pcv(e)),
                                                            last_class: None,
                                                            ..pre
                                                        }));
                                                    }
                                                    return Some(k);
                                                }
                                                buf_push(&mut self.buffer, e);
                                                self.last_ccc = Some(cc);
                                                proof {
                                                    assert(pcs(pending_of(self.buffer))
                                                        =~= pre.buffer.push(pcv(e)));
                                                    lemma_buf_budget_push(pre.buffer, pcv(e));
                                                    assert(self@ =~= (Model {
                                                        input: s_all.skip(p + 1),
                                                        buffer: pre.buffer.push(pcv(e)),
                                                        last_class: Some(cc),
                                                        ..pre
                                                    }));
                                                }
                                            },
                                        }
                                    },
                                    Some(l) => {
                                        if l >= cc {
                                            if cc == 0 {
                                                self.composee = Some(e);
                                                self.last_ccc = None;
                                                self.state = RecompositionState::Purging(0);
                                                proof {
                                                    assert(self@ =~= (Model {
                                                        input: s_all.skip(p + 1),
                                                        mode: Mode::Purging(0),
                                                        composee: Some(pcv(e)),
                                                        last_class: None,
                                                        ..pre
                                                    }));
                                                }
                                                return Some(k);
                                            }
                                            buf_push(&mut self.buffer, e);
                                            self.last_ccc = Some(cc);
                                            proof {
                                                assert(pcs(pending_of(self.buffer))
                                                    =~= pre.buffer.push(pcv(e)));
                                                lemma_buf_budget_push(pre.buffer, pcv(e));
                                                assert(self@ =~= (Model {
                                                    input: s_all.skip(p + 1),
                                                    buffer: pre.buffer.push(pcv(e)),
                                                    last_class: Some(cc),
                                                    ..pre
                                                }));
                                            }
                                        } else {
                                            match self.oracle.compose(k.0, e.0) {
                                                Some(rc) => {
                                                    let nd: isize = k.1 + e.1 - 1;
                                                    self.composee = Some((rc, nd));
                                                    proof {
                                                        assert(self@ =~= (Model {
                                                            input: s_all.skip(p + 1),
                                                            composee: Some((rc, k.1 + e.1 - 1)),
                                                            ..pre
                                                        }));
                                                    }
                                                },
                                                None => {
                                                    buf_push(&mut self.buffer, e);
                                                    self.last_ccc = Some(cc);
                                                    proof {
                                                        assert(pcs(pending_of(self.buffer))
                                                            =~= pre.buffer.push(pcv(e)));
                                                        lemma_buf_budget_push(pre.buffer, pcv(e));
                                                        assert(self@ =~= (Model {
                                                            input: s_all.skip(p + 1),
                                                            buffer: pre.buffer.push(pcv(e)),
                                                            last_class: Some(cc),
                                                            ..pre
                                                        }));
                                                    }
                                                },
                                            }
                                        }
                                    },
                                }
                            },
                        }
                    }
                    // Upstream exhausted: emit the pending composee, if
                    // any, then drain the buffer through `Finished`.
                    let ghost pre = self@;
                    proof {
                        assert(pre.input.len() == 0);
                    }
                    self.state = RecompositionState::Finished(0);
                    match self.composee {
                        Some(k) => {
                            self.composee = None;
                            proof {
                                assert(self@ =~= (Model {
                                    mode: Mode::Finished(0),
                                    composee: None,
                                    ..pre
                                }));
                            }
                            return Some(k);
                        },
                        None => {
                            proof {
                                assert(self@ =~= (Model { mode: Mode::Finished(0), ..pre }));
                            }
                        },
                    }
                },
                RecompositionState::Purging(c) => {
                    let ghost pre = self@;
                    match buf_get(&self.buffer, c) {
                        Some(s) => {
                            proof {
                                assert(pre.buffer[c as int] == pcv(s));
                            }
                            self.state = RecompositionState::Purging(c + 1);
                            proof {
                                assert(self@ =~= (Model {
                                    mode: Mode::Purging(c as nat + 1),
                                    ..pre
                                }));
                            }
                            return Some(s);
                        },
                        None => {
                            buf_clear(&mut self.buffer);
                            self.state = RecompositionState::Composing;
                            proof {
                                assert(pcs(pending_of(self.buffer)) =~= Seq::<Pc>::empty());
                                lemma_buf_budget_nonneg(pre.buffer);
                                assert(self@ =~= (Model {
                                    mode: Mode::Composing,
                                    buffer: Seq::empty(),
                                    ..pre
                                }));
                            }
                        },
                    }
                },
                RecompositionState::Finished(c) => {
                    let ghost pre = self@;
                    match buf_get(&self.buffer, c) {
                        Some(s) => {
                            proof {
                                assert(pre.buffer[c as int] == pcv(s));
                            }
                            self.state = RecompositionState::Finished(c + 1);
                            proof {
                                assert(self@ =~= (Model {
                                    mode: Mode::Finished(c as nat + 1),
                                    ..pre
                                }));
                            }
                            return Some(s);
                        },
                        None => {
                            buf_clear(&mut self.buffer);
                            let k = self.composee;
                            self.composee = None;
                            proof {
                                assert(pcs(pending_of(self.buffer)) =~= Seq::<Pc>::empty());
                                lemma_buf_budget_nonneg(pre.buffer);
                                assert(self@ =~= (Model {
                                    buffer: Seq::empty(),
                                    composee: None,
                                    ..pre
                                }));
                            }
                            return k;
                        },
                    }
                },
            }
        }
    }

    /// Drains the engine, returning every remaining output element with
    /// its delta, in emission order.
    #[verifier::loop_isolation(false)]
    pub fn collect_remaining(self) -> (r: Vec<(char, isize)>)
        requires
            self.wf(),
        ensures
            pcs(r@) == run(self.oracle_spec(), self@),
    {
        let ghost o = self.oracle_spec();
        let ghost m0 = self@;
        let mut eng = self;
        let mut out: Vec<(char, isize)> = Vec::new();
        proof {
            assert(pcs(out@) =~= Seq::<Pc>::empty());
            assert(Seq::<Pc>::empty() + run(o, m0) =~= run(o, m0));
        }
        loop
            invariant
                eng.wf(),
                eng.oracle_spec() == o,
                run(o, m0) == pcs(out@) + run(o, eng@),
            decreases measure(eng@),
        {
            let ghost pre = eng@;
            proof {
                lemma_next_measure(o, pre);
            }
            match eng.next() {
                Some(p) => {
                    let ghost out0 = out@;
                    out.push(p);
                    proof {
                        let (m2, e) = next_spec(o, pre);
                        assert(run(o, pre) == seq![pcv(p)] + run(o, m2));
                        assert(pcs(out@) =~= pcs(out0).push(pcv(p)));
                        assert(pcs(out0) + run(o, pre) =~= pcs(out@) + run(o, m2));
                    }
                },
                None => {
                    proof {
                        assert(run(o, pre) =~= Seq::<Pc>::empty());
                        assert(pcs(out@) + run(o, pre) =~= pcs(out@));
                        assert(pcs(out@) == run(o, m0));
                    }
                    return out;
                },
            }
        }
    }

    /// Materializes the character-only text of the whole remaining stream,
    /// consuming the engine and discarding the deltas.
    #[verifier::loop_isolation(false)]
    pub fn into_text(self) -> (r: String)
        requires
            self.wf(),
        ensures
            r@ == chars_of(run(self.oracle_spec(), self@)),
    {
        let ghost o = self.oracle_spec();
        let ghost m0 = self@;
        let mut eng = self;
        let mut out = String::new();
        proof {
            assert(Seq::<char>::empty() + chars_of(run(o, m0)) =~= chars_of(run(o, m0)));
        }
        loop
            invariant
                eng.wf(),
                eng.oracle_spec() == o,
                chars_of(run(o, m0)) == out@ + chars_of(run(o, eng@)),
            decreases measure(eng@),
        {
            let ghost pre = eng@;
            proof {
                lemma_next_measure(o, pre);
            }
            match eng.next() {
                Some(p) => {
                    let ghost out0 = out@;
                    push_char(&mut out, p.0);
                    proof {
                        let (m2, e) = next_spec(o, pre);
                        assert(run(o, pre) == seq![pcv(p)] + run(o, m2));
                        assert(chars_of(run(o, pre)) =~= seq![p.0] + chars_of(run(o, m2)));
                        assert(out0 + chars_of(run(o, pre)) =~= out@ + chars_of(run(o, m2)));
                    }
                },
                None => {
                    proof {
                        assert(run(o, pre) =~= Seq::<Pc>::empty());
                        assert(chars_of(run(o, pre)) =~= Seq::<char>::empty());
                        assert(out@ =~= out@ + chars_of(run(o, pre)));
                        assert(out@ == chars_of(run(o, m0)));
                    }
                    return out;
                },
            }
        }
    }
}

/// Relies on String::push: appends the character at the back.
#[verifier::external_body]
fn push_char(s: &mut String, c: char)
    ensures
        final(s)@ == old(s)@.push(c),
{
    s.push(c)
}

/// Builds the engine for canonical mode: `input` is the canonical
/// decomposition of the original text, ordered by combining class, each
/// element carrying its cumulative alignment delta.  The recomposition
/// logic is mode-independent; canonical and compatibility engines differ
/// only in which decomposition the upstream producer performed.
pub fn new_canonical(oracle: Oracle, input: Vec<(char, isize)>) -> (r: RecompositionsAlignment)
    requires
        in_budget(pcs(input@)) <= isize::MAX as int,
    ensures
        r.wf(),
        r.oracle_spec() == oracle,
        r@ == init_model(pcs(input@)),
{
    let n: usize = input.len();
    let r = RecompositionsAlignment {
        oracle,
        input,
        pos: 0,
        state: RecompositionState::Composing,
        buffer: buf_new(),
        composee: None,
        last_ccc: None,
    };
    proof {
        assert(n == r.input@.len());
        assert(pcs(r.input@).skip(0) =~= pcs(r.input@));
        assert(pcs(pending_of(r.buffer)) =~= Seq::<Pc>::empty());
        assert(r@ =~= init_model(pcs(r.input@)));
    }
    r
}

/// Builds the engine for compatibility mode: as [`new_canonical`], with
/// `input` the compatibility decomposition of the original text.
/// Compatibility normalization is compatibility-decompose followed by the
/// same canonical composition this engine performs.
pub fn new_compatible(oracle: Oracle, input: Vec<(char, isize)>) -> (r: RecompositionsAlignment)
    requires
        in_budget(pcs(input@)) <= isize::MAX as int,
    ensures
        r.wf(),
        r.oracle_spec() == oracle,
        r@ == init_model(pcs(input@)),
{
    new_canonical(oracle, input)
}

} // verus!
