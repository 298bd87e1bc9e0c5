//! The aggregator: turning the stream of "currently pressed" snapshots
//! into count increments and trace records.
//!
//! Only transitions into the pressed state count. A key is newly
//! pressed when it appears in the snapshot but not in the previous one.
//! In chord mode a snapshot with any new press counts as one unit — the
//! whole snapshot; in chordless mode every newly pressed key is its own
//! one-key unit. In single-counting mode each unit increments its own
//! `Single` key; in pair-counting mode a unit pairs with the previous
//! unit of interest, the very first unit only seeding the left side.

use vstd::prelude::*;
use vstd::string::StringExecFns;

use crate::codec::{clone_chord, encode_chord, input_to_string, CountItem, ItemView, KeyId};
use crate::numbers::{dec_rep, u64_to_string};
use crate::text::str_eq;

verus! {

/// One record of the optional trace log: the first unit of a run, a
/// later unit with the milliseconds elapsed since the previous one, or
/// the empty record used to touch the log file.
#[derive(Debug)]
pub enum TraceStep {
    First(Vec<KeyId>),
    Regular(Vec<KeyId>, u64),
    Empty,
}

/// The mathematical value of a trace record.
pub enum TraceView {
    First(Seq<Seq<char>>),
    Regular(Seq<Seq<char>>, u64),
    Empty,
}

impl View for TraceStep {
    type V = TraceView;

    open spec fn view(&self) -> TraceView {
        match self {
            TraceStep::First(u) => TraceView::First(u.deep_view()),
            TraceStep::Regular(u, ms) => TraceView::Regular(u.deep_view(), *ms),
            TraceStep::Empty => TraceView::Empty,
        }
    }
}

impl DeepView for TraceStep {
    type V = TraceView;

    open spec fn deep_view(&self) -> TraceView {
        self.view()
    }
}

// === the transition, specified ===

/// The keys of the snapshot that were not pressed before, in snapshot
/// order (a key listed twice is taken twice, as the source reports it).
pub open spec fn new_keys(snap: Seq<Seq<char>>, last: Seq<Seq<char>>) -> Seq<Seq<char>>
    decreases snap.len(),
{
    if snap.len() == 0 {
        Seq::<Seq<char>>::empty()
    } else {
        let rest = new_keys(snap.drop_first(), last);
        if !last.contains(snap[0]) {
            seq![snap[0]] + rest
        } else {
            rest
        }
    }
}

/// Each key as a one-key chord.
pub open spec fn singletons(ks: Seq<Seq<char>>) -> Seq<Seq<Seq<char>>> {
    ks.map_values(|k: Seq<char>| seq![k])
}

/// The units one snapshot contributes: nothing without a new press; the
/// whole snapshot as one chord in chord mode; one unit per new key in
/// chordless mode.
pub open spec fn units_of(snap: Seq<Seq<char>>, last: Seq<Seq<char>>, no_chords: bool) -> Seq<
    Seq<Seq<char>>,
> {
    if no_chords {
        singletons(new_keys(snap, last))
    } else if new_keys(snap, last).len() > 0 {
        seq![snap]
    } else {
        Seq::<Seq<Seq<char>>>::empty()
    }
}

/// The increments a run of units produces. Without pair counting, one
/// `Single` per unit. With it, a unit pairs with the previous unit of
/// interest when there is one, and always becomes the next left side.
pub open spec fn step_increments(
    units: Seq<Seq<Seq<char>>>,
    pairs: bool,
    last_pair: Seq<Seq<char>>,
) -> Seq<ItemView>
    decreases units.len(),
{
    if units.len() == 0 {
        Seq::<ItemView>::empty()
    } else {
        let u = units[0];
        let inc: Seq<ItemView> = if !pairs {
            seq![ItemView::Single(u)]
        } else if last_pair.len() > 0 {
            seq![ItemView::Pair(last_pair, u)]
        } else {
            Seq::<ItemView>::empty()
        };
        inc + step_increments(
            units.drop_first(),
            pairs,
            if pairs {
                u
            } else {
                last_pair
            },
        )
    }
}

/// The unit of interest left pending after a run of units.
pub open spec fn step_last_pair(
    units: Seq<Seq<Seq<char>>>,
    pairs: bool,
    last_pair: Seq<Seq<char>>,
) -> Seq<Seq<char>> {
    if pairs && units.len() > 0 {
        units.last()
    } else {
        last_pair
    }
}

pub open spec fn elapsed_ms(last: u64, now: u64) -> u64 {
    if now >= last {
        (now - last) as u64
    } else {
        0
    }
}

/// The trace records a run of units produces: the first unit of a run
/// is distinguished; every later one carries the time elapsed since the
/// unit before it, so units after the first within one snapshot carry
/// zero.
pub open spec fn step_traces(
    units: Seq<Seq<Seq<char>>>,
    first: bool,
    last_ms: u64,
    now: u64,
) -> Seq<TraceView>
    decreases units.len(),
{
    if units.len() == 0 {
        Seq::<TraceView>::empty()
    } else {
        let head: TraceView = if first {
            TraceView::First(units[0])
        } else {
            TraceView::Regular(units[0], elapsed_ms(last_ms, now))
        };
        seq![head] + step_traces(units.drop_first(), false, now, now)
    }
}

/// The increments and trace of one unit, from the aggregator's state.
pub open spec fn unit_incs(a: Aggregator, u: Seq<Seq<char>>) -> Seq<ItemView> {
    if !a.pairs {
        seq![ItemView::Single(u)]
    } else if a.last_pair.deep_view().len() > 0 {
        seq![ItemView::Pair(a.last_pair.deep_view(), u)]
    } else {
        Seq::<ItemView>::empty()
    }
}

pub open spec fn unit_trace(a: Aggregator, u: Seq<Seq<char>>, now: u64) -> TraceView {
    if a.first_trace {
        TraceView::First(u)
    } else {
        TraceView::Regular(u, elapsed_ms(a.last_ms, now))
    }
}

// === the aggregator ===

/// The per-run state: the mode flags, the previous snapshot, the
/// pending left side of the next pair, and the trace clock.
pub struct Aggregator {
    pub pairs: bool,
    pub no_chords: bool,
    pub last_keys: Vec<KeyId>,
    pub last_pair: Vec<KeyId>,
    pub first_trace: bool,
    pub last_ms: u64,
}

impl Aggregator {
    /// A fresh aggregator for one run, with nothing seen yet.
    pub fn new(pairs: bool, no_chords: bool) -> (r: Aggregator)
        ensures
            r.pairs == pairs,
            r.no_chords == no_chords,
            r.last_keys.deep_view() == Seq::<Seq<char>>::empty(),
            r.last_pair.deep_view() == Seq::<Seq<char>>::empty(),
            r.first_trace,
            r.last_ms == 0,
    {
        let r = Aggregator {
            pairs,
            no_chords,
            last_keys: Vec::new(),
            last_pair: Vec::new(),
            first_trace: true,
            last_ms: 0,
        };
        proof {
            assert(r.last_keys.deep_view() =~~= Seq::<Seq<char>>::empty());
            assert(r.last_pair.deep_view() =~~= Seq::<Seq<char>>::empty());
        }
        r
    }

    /// Does the previous snapshot contain this key?
    fn was_pressed(&self, k: &KeyId) -> (r: bool)
        ensures
            r == self.last_keys.deep_view().contains(k@),
    {
        let n = self.last_keys.len();
        let mut i: usize = 0;
        while i < n
            invariant
                i <= n,
                n == self.last_keys@.len(),
                forall|j: int| 0 <= j < i ==> self.last_keys.deep_view()[j] != k@,
            decreases n - i,
        {
            proof {
                assert(self.last_keys.deep_view()[i as int] == self.last_keys@[i as int]@);
            }
            let cur: &KeyId = &self.last_keys[i];
            if str_eq(cur.name(), k.name()) {
                proof {
                    assert(self.last_keys.deep_view()[i as int] == k@);
                }
                return true;
            }
            i += 1;
        }
        false
    }

    /// Apply one unit: record its increment (if any), reseat the left
    /// side of the next pair, and emit its trace record.
    fn push_unit(
        &mut self,
        unit: &Vec<KeyId>,
        now_ms: u64,
        incs: &mut Vec<CountItem>,
        traces: &mut Vec<TraceStep>,
    )
        ensures
            final(self).pairs == old(self).pairs,
            final(self).no_chords == old(self).no_chords,
            final(self).last_keys == old(self).last_keys,
            final(incs).deep_view() == old(incs).deep_view() + unit_incs(
                *old(self),
                unit.deep_view(),
            ),
            final(traces).deep_view() == old(traces).deep_view() + seq![
                unit_trace(*old(self), unit.deep_view(), now_ms),
            ],
            final(self).last_pair.deep_view() == (if old(self).pairs {
                unit.deep_view()
            } else {
                old(self).last_pair.deep_view()
            }),
            final(self).first_trace == false,
            final(self).last_ms == now_ms,
    {
        let ghost incs0 = incs.deep_view();
        let ghost traces0 = traces.deep_view();
        if !self.pairs {
            incs.push(CountItem::Single(clone_chord(unit)));
            proof {
                assert(incs.deep_view() =~~= incs0 + unit_incs(*old(self), unit.deep_view()));
            }
        } else {
            if self.last_pair.len() > 0 {
                let left = clone_chord(&self.last_pair);
                self.last_pair = clone_chord(unit);
                incs.push(CountItem::Pair(left, clone_chord(unit)));
                proof {
                    assert(incs.deep_view() =~~= incs0 + unit_incs(*old(self), unit.deep_view()));
                }
            } else {
                proof {
                    assert(old(self).last_pair.deep_view().len() == 0);
                }
                self.last_pair = clone_chord(unit);
                proof {
                    assert(incs.deep_view() =~~= incs0 + unit_incs(*old(self), unit.deep_view()));
                }
            }
        }
        let e: u64 = if now_ms >= self.last_ms {
            now_ms - self.last_ms
        } else {
            0
        };
        if self.first_trace {
            traces.push(TraceStep::First(clone_chord(unit)));
            self.first_trace = false;
        } else {
            traces.push(TraceStep::Regular(clone_chord(unit), e));
        }
        self.last_ms = now_ms;
        proof {
            assert(traces.deep_view() =~~= traces0 + seq![
                unit_trace(*old(self), unit.deep_view(), now_ms),
            ]);
        }
    }

    /// Process one snapshot: return the count increments and trace
    /// records it produces, and move the run state forward. A snapshot
    /// with no newly pressed key produces nothing.
    pub fn tick(&mut self, snapshot: Vec<KeyId>, now_ms: u64) -> (r: (
        Vec<CountItem>,
        Vec<TraceStep>,
    ))
        ensures
            final(self).pairs == old(self).pairs,
            final(self).no_chords == old(self).no_chords,
            final(self).last_keys.deep_view() == snapshot.deep_view(),
            ({
                let units = units_of(
                    snapshot.deep_view(),
                    old(self).last_keys.deep_view(),
                    old(self).no_chords,
                );
                &&& r.0.deep_view() == step_increments(
                    units,
                    old(self).pairs,
                    old(self).last_pair.deep_view(),
                )
                &&& r.1.deep_view() == step_traces(
                    units,
                    old(self).first_trace,
                    old(self).last_ms,
                    now_ms,
                )
                &&& final(self).last_pair.deep_view() == step_last_pair(
                    units,
                    old(self).pairs,
                    old(self).last_pair.deep_view(),
                )
                &&& final(self).first_trace == (old(self).first_trace && units.len() == 0)
                &&& final(self).last_ms == (if units.len() > 0 {
                    now_ms
                } else {
                    old(self).last_ms
                })
            }),
    {
        let ghost sv = snapshot.deep_view();
        let ghost lastv = self.last_keys.deep_view();
        let ghost units = units_of(sv, lastv, self.no_chords);
        let ghost pairs0 = self.pairs;
        let ghost nochords0 = self.no_chords;
        let ghost lp0 = self.last_pair.deep_view();
        let ghost first0 = self.first_trace;
        let ghost ms0 = self.last_ms;

        // collect the newly pressed keys, in snapshot order
        let mut fresh: Vec<KeyId> = Vec::new();
        let mut i: usize = 0;
        proof {
            assert(sv.skip(0) =~~= sv);
            assert(fresh.deep_view() + new_keys(sv, lastv) =~~= new_keys(sv, lastv));
        }
        while i < snapshot.len()
            invariant
                i <= snapshot@.len(),
                sv == snapshot.deep_view(),
                sv.len() == snapshot@.len(),
                lastv == self.last_keys.deep_view(),
                new_keys(sv, lastv) == fresh.deep_view() + new_keys(sv.skip(i as int), lastv),
            decreases snapshot@.len() - i,
        {
            proof {
                assert(sv.skip(i as int)[0] == sv[i as int]);
                assert(sv.skip(i as int).drop_first() =~~= sv.skip(i + 1));
                assert(sv[i as int] == snapshot@[i as int]@);
            }
            let k: &KeyId = &snapshot[i];
            if !self.was_pressed(k) {
                let ghost f0 = fresh.deep_view();
                fresh.push(k.duplicate());
                proof {
                    assert(fresh.deep_view() =~~= f0 + seq![sv[i as int]]);
                    assert((f0 + seq![sv[i as int]]) + new_keys(sv.skip(i + 1), lastv) =~~= f0 + (
                    seq![sv[i as int]] + new_keys(sv.skip(i + 1), lastv)));
                }
            }
            i += 1;
        }
        proof {
            assert(sv.skip(sv.len() as int) =~~= Seq::<Seq<char>>::empty());
            assert(fresh.deep_view() + Seq::<Seq<char>>::empty() =~~= fresh.deep_view());
            assert(new_keys(sv, lastv) == fresh.deep_view());
        }

        let mut incs: Vec<CountItem> = Vec::new();
        let mut traces: Vec<TraceStep> = Vec::new();
        if self.no_chords {
            proof {
                assert(units == singletons(fresh.deep_view()));
                assert(units.len() == fresh.deep_view().len());
                assert(units.skip(0) =~~= units);
                assert(incs.deep_view() + step_increments(units, pairs0, lp0) =~~=
                step_increments(units, pairs0, lp0));
                assert(traces.deep_view() + step_traces(units, first0, ms0, now_ms) =~~=
                step_traces(units, first0, ms0, now_ms));
            }
            let mut j: usize = 0;
            while j < fresh.len()
                invariant
                    j <= fresh@.len(),
                    units == singletons(fresh.deep_view()),
                    units.len() == fresh@.len(),
                    fresh@.len() == fresh.deep_view().len(),
                    self.pairs == pairs0,
                    self.no_chords == nochords0,
                    self.last_keys == old(self).last_keys,
                    step_increments(units, pairs0, lp0) == incs.deep_view() + step_increments(
                        units.skip(j as int),
                        pairs0,
                        self.last_pair.deep_view(),
                    ),
                    step_traces(units, first0, ms0, now_ms) == traces.deep_view() + step_traces(
                        units.skip(j as int),
                        self.first_trace,
                        self.last_ms,
                        now_ms,
                    ),
                    step_last_pair(units, pairs0, lp0) == step_last_pair(
                        units.skip(j as int),
                        pairs0,
                        self.last_pair.deep_view(),
                    ),
                    self.first_trace == (first0 && j == 0),
                    self.last_ms == (if j > 0 {
                        now_ms
                    } else {
                        ms0
                    }),
                decreases fresh@.len() - j,
            {
                proof {
                    assert(units.skip(j as int)[0] == units[j as int]);
                    assert(units.skip(j as int).drop_first() =~~= units.skip(j + 1));
                    assert(units[j as int] == seq![fresh.deep_view()[j as int]]);
                    assert(fresh.deep_view()[j as int] == fresh@[j as int]@);
                }
                let mut unit: Vec<KeyId> = Vec::new();
                unit.push(fresh[j].duplicate());
                proof {
                    assert(unit.deep_view() =~~= seq![fresh.deep_view()[j as int]]);
                }
                let ghost incs_before = incs.deep_view();
                let ghost traces_before = traces.deep_view();
                let ghost self_before = *self;
                self.push_unit(&unit, now_ms, &mut incs, &mut traces);
                proof {
                    let u = units[j as int];
                    let rest = units.skip(j + 1);
                    assert(step_increments(units.skip(j as int), pairs0, self_before
                        .last_pair
                        .deep_view()) == unit_incs(self_before, u) + step_increments(
                        rest,
                        pairs0,
                        self.last_pair.deep_view(),
                    ));
                    assert((incs_before + unit_incs(self_before, u)) + step_increments(
                        rest,
                        pairs0,
                        self.last_pair.deep_view(),
                    ) =~~= incs_before + (unit_incs(self_before, u) + step_increments(
                        rest,
                        pairs0,
                        self.last_pair.deep_view(),
                    )));
                    assert(step_traces(units.skip(j as int), self_before.first_trace, self_before
                        .last_ms, now_ms) == seq![
                        unit_trace(self_before, u, now_ms),
                    ] + step_traces(rest, false, now_ms, now_ms));
                    assert((traces_before + seq![unit_trace(self_before, u, now_ms)])
                        + step_traces(rest, false, now_ms, now_ms) =~~= traces_before + (seq![
                        unit_trace(self_before, u, now_ms),
                    ] + step_traces(rest, false, now_ms, now_ms)));
                }
                j += 1;
            }
            proof {
                assert(units.skip(units.len() as int) =~~= Seq::<Seq<Seq<char>>>::empty());
                assert(step_increments(
                    Seq::<Seq<Seq<char>>>::empty(),
                    pairs0,
                    self.last_pair.deep_view(),
                ) =~~= Seq::<ItemView>::empty());
                assert(step_traces(
                    Seq::<Seq<Seq<char>>>::empty(),
                    self.first_trace,
                    self.last_ms,
                    now_ms,
                ) =~~= Seq::<TraceView>::empty());
                assert(incs.deep_view() + Seq::<ItemView>::empty() =~~= incs.deep_view());
                assert(traces.deep_view() + Seq::<TraceView>::empty() =~~= traces.deep_view());
                assert(step_increments(units, pairs0, lp0) == incs.deep_view());
                assert(step_traces(units, first0, ms0, now_ms) == traces.deep_view());
            }
        } else {
            if fresh.len() > 0 {
                proof {
                    assert(units == seq![sv]);
                    assert(units[0] == sv);
                    assert(units.drop_first() =~~= Seq::<Seq<Seq<char>>>::empty());
                }
                let ghost self_before = *self;
                self.push_unit(&snapshot, now_ms, &mut incs, &mut traces);
                proof {
                    assert(step_increments(
                        Seq::<Seq<Seq<char>>>::empty(),
                        pairs0,
                        self.last_pair.deep_view(),
                    ) =~~= Seq::<ItemView>::empty());
                    assert(step_traces(
                        Seq::<Seq<Seq<char>>>::empty(),
                        false,
                        now_ms,
                        now_ms,
                    ) =~~= Seq::<TraceView>::empty());
                    assert(step_increments(units, pairs0, lp0) == unit_incs(self_before, sv)
                        + step_increments(
                        units.drop_first(),
                        pairs0,
                        self.last_pair.deep_view(),
                    ));
                    assert(incs.deep_view() =~~= unit_incs(self_before, sv) + Seq::<
                        ItemView,
                    >::empty());
                    assert(step_traces(units, first0, ms0, now_ms) == seq![
                        unit_trace(self_before, sv, now_ms),
                    ] + step_traces(units.drop_first(), false, now_ms, now_ms));
                    assert(traces.deep_view() =~~= seq![unit_trace(self_before, sv, now_ms)]
                        + Seq::<TraceView>::empty());
                    assert(units.last() == sv);
                    assert(step_increments(units, pairs0, lp0) == incs.deep_view());
                    assert(step_traces(units, first0, ms0, now_ms) == traces.deep_view());
                }
            } else {
                proof {
                    assert(units =~~= Seq::<Seq<Seq<char>>>::empty());
                    assert(step_increments(units, pairs0, lp0) =~~= Seq::<ItemView>::empty());
                    assert(step_traces(units, first0, ms0, now_ms) =~~= Seq::<
                        TraceView,
                    >::empty());
                    assert(incs.deep_view() =~~= Seq::<ItemView>::empty());
                    assert(traces.deep_view() =~~= Seq::<TraceView>::empty());
                }
            }
        }
        self.last_keys = snapshot;
        (incs, traces)
    }
}

// === trace text ===

pub open spec fn trace_sep(plain: bool) -> Seq<char> {
    if plain {
        seq![' ']
    } else {
        seq!['\n']
    }
}

/// The text of one trace record: the unit's token; in the regular,
/// non-plain style followed by the elapsed milliseconds. A plain-style
/// record ends in a space, any other in a newline. The empty record
/// produces no text.
pub open spec fn trace_text(tv: TraceView, plain: bool) -> Option<Seq<char>> {
    match tv {
        TraceView::First(u) => Some(encode_chord(u) + trace_sep(plain)),
        TraceView::Regular(u, ms) => Some(
            if plain {
                encode_chord(u) + trace_sep(plain)
            } else {
                encode_chord(u) + " after "@ + dec_rep(ms as nat) + "ms"@ + trace_sep(plain)
            },
        ),
        TraceView::Empty => None,
    }
}

/// Render one trace record as the text appended to the trace log.
pub fn trace_line(step: &TraceStep, plain: bool) -> (r: Option<String>)
    ensures
        r matches Some(s) ==> trace_text(step@, plain) == Some(s@),
        r is None ==> trace_text(step@, plain) is None,
{
    let sep: &str = if plain {
        " "
    } else {
        "\n"
    };
    proof {
        reveal_strlit(" ");
        reveal_strlit("\n");
        assert(sep@ =~= trace_sep(plain));
    }
    match step {
        TraceStep::First(u) => {
            let mut s = input_to_string(u);
            s.append(sep);
            Some(s)
        },
        TraceStep::Regular(u, ms) => {
            let mut s = input_to_string(u);
            if !plain {
                s.append(" after ");
                let num = u64_to_string(*ms);
                s.append(num.as_str());
                s.append("ms");
            }
            s.append(sep);
            Some(s)
        },
        TraceStep::Empty => None,
    }
}

// === properties of the transition ===

/// With nothing newly pressed, there are no new keys.
proof fn lemma_no_new_keys(snap: Seq<Seq<char>>, last: Seq<Seq<char>>)
    requires
        forall|i: int| 0 <= i < snap.len() ==> last.contains(#[trigger] snap[i]),
    ensures
        new_keys(snap, last) == Seq::<Seq<char>>::empty(),
    decreases snap.len(),
{
    if snap.len() > 0 {
        assert(forall|i: int| 0 <= i < snap.len() - 1 ==> snap.drop_first()[i] == snap[i + 1]);
        lemma_no_new_keys(snap.drop_first(), last);
    }
}

/// Holding keys never counts: a snapshot whose every key was already
/// pressed produces no increment and no trace record, and leaves the
/// pending pair side unchanged.
pub proof fn lemma_hold_produces_nothing(
    snap: Seq<Seq<char>>,
    last: Seq<Seq<char>>,
    no_chords: bool,
    pairs: bool,
    last_pair: Seq<Seq<char>>,
    first: bool,
    last_ms: u64,
    now: u64,
)
    requires
        forall|i: int| 0 <= i < snap.len() ==> last.contains(#[trigger] snap[i]),
    ensures
        units_of(snap, last, no_chords) == Seq::<Seq<Seq<char>>>::empty(),
        step_increments(units_of(snap, last, no_chords), pairs, last_pair) == Seq::<
            ItemView,
        >::empty(),
        step_last_pair(units_of(snap, last, no_chords), pairs, last_pair) == last_pair,
        step_traces(units_of(snap, last, no_chords), first, last_ms, now) == Seq::<
            TraceView,
        >::empty(),
{
    lemma_no_new_keys(snap, last);
    assert(singletons(Seq::<Seq<char>>::empty()) =~~= Seq::<Seq<Seq<char>>>::empty());
}

/// Without pair counting, the increments are exactly one `Single` per
/// unit, in order: every transition into the pressed state is counted
/// exactly once.
pub proof fn lemma_single_counts(units: Seq<Seq<Seq<char>>>, last_pair: Seq<Seq<char>>)
    ensures
        step_increments(units, false, last_pair) == units.map_values(
            |u: Seq<Seq<char>>| ItemView::Single(u),
        ),
    decreases units.len(),
{
    if units.len() > 0 {
        lemma_single_counts(units.drop_first(), last_pair);
        assert(step_increments(units, false, last_pair) =~~= units.map_values(
            |u: Seq<Seq<char>>| ItemView::Single(u),
        ));
    } else {
        assert(step_increments(units, false, last_pair) =~~= units.map_values(
            |u: Seq<Seq<char>>| ItemView::Single(u),
        ));
    }
}

/// With pair counting over non-empty units, every unit but a first one
/// without a left side produces exactly one increment.
pub proof fn lemma_pair_counts(units: Seq<Seq<Seq<char>>>, last_pair: Seq<Seq<char>>)
    requires
        forall|i: int| 0 <= i < units.len() ==> (#[trigger] units[i]).len() > 0,
    ensures
        step_increments(units, true, last_pair).len() == (if last_pair.len() > 0 || units.len()
            == 0 {
            units.len() as int
        } else {
            units.len() - 1
        }),
    decreases units.len(),
{
    if units.len() > 0 {
        assert(forall|i: int| 0 <= i < units.len() - 1 ==> units.drop_first()[i] == units[i + 1]);
        lemma_pair_counts(units.drop_first(), units[0]);
        assert(units[0].len() > 0);
    }
}

/// Within one run the increments are homogeneous in kind: pair counting
/// produces only `Pair` keys, single counting only `Single` keys, so a
/// store whose mode flags pass the load-time check never mixes the two.
pub proof fn lemma_increments_homogeneous(
    units: Seq<Seq<Seq<char>>>,
    pairs: bool,
    last_pair: Seq<Seq<char>>,
)
    ensures
        forall|i: int|
            0 <= i < step_increments(units, pairs, last_pair).len() ==> ((#[trigger] step_increments(
                units,
                pairs,
                last_pair,
            )[i]) is Pair <==> pairs),
    decreases units.len(),
{
    if units.len() > 0 {
        let u = units[0];
        lemma_increments_homogeneous(
            units.drop_first(),
            pairs,
            if pairs {
                u
            } else {
                last_pair
            },
        );
        let inc: Seq<ItemView> = if !pairs {
            seq![ItemView::Single(u)]
        } else if last_pair.len() > 0 {
            seq![ItemView::Pair(last_pair, u)]
        } else {
            Seq::<ItemView>::empty()
        };
        let rest = step_increments(
            units.drop_first(),
            pairs,
            if pairs {
                u
            } else {
                last_pair
            },
        );
        assert forall|i: int|
            0 <= i < step_increments(units, pairs, last_pair).len() implies ((
        #[trigger] step_increments(units, pairs, last_pair)[i]) is Pair <==> pairs) by {
            if i < inc.len() {
                assert(step_increments(units, pairs, last_pair)[i] == inc[i]);
            } else {
                assert(step_increments(units, pairs, last_pair)[i] == rest[i - inc.len()]);
            }
        }
    }
}

/// Every unit a snapshot contributes is a non-empty chord.
pub proof fn lemma_units_nonempty(snap: Seq<Seq<char>>, last: Seq<Seq<char>>, no_chords: bool)
    ensures
        forall|i: int|
            0 <= i < units_of(snap, last, no_chords).len() ==> (#[trigger] units_of(
                snap,
                last,
                no_chords,
            )[i]).len() > 0,
{
    let units = units_of(snap, last, no_chords);
    if no_chords {
        assert forall|i: int| 0 <= i < units.len() implies units[i].len() > 0 by {
            assert(units[i] == seq![new_keys(snap, last)[i]]);
        }
    } else {
        if new_keys(snap, last).len() > 0 {
            assert(snap.len() > 0);
            assert(units[0] == snap);
        }
    }
}

/// Pair sequencing: with no left side yet, the first unit produces no
/// increment but becomes the left side retained for the next unit; the
/// remaining units pair up normally, so a run of `n` non-empty units
/// from a fresh start produces exactly `n - 1` pair increments.
pub proof fn lemma_first_unit_seeds(units: Seq<Seq<Seq<char>>>)
    requires
        units.len() >= 1,
        forall|i: int| 0 <= i < units.len() ==> (#[trigger] units[i]).len() > 0,
    ensures
        step_increments(units, true, Seq::<Seq<char>>::empty()) == step_increments(
            units.drop_first(),
            true,
            units[0],
        ),
        step_last_pair(units, true, Seq::<Seq<char>>::empty()) == units.last(),
        step_increments(units, true, Seq::<Seq<char>>::empty()).len() == units.len() - 1,
{
    assert(Seq::<ItemView>::empty() + step_increments(units.drop_first(), true, units[0]) =~~=
    step_increments(units.drop_first(), true, units[0]));
    assert(forall|i: int| 0 <= i < units.len() - 1 ==> units.drop_first()[i] == units[i + 1]);
    lemma_pair_counts(units.drop_first(), units[0]);
    assert(units[0].len() > 0);
}

} // verus!
