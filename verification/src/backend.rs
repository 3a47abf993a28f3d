use vstd::prelude::*;

use crate::analysis::Drill;
use crate::analysis::Proc;
use crate::analysis::sp_isqrt;
use crate::fmt::fmt_fixed;
use crate::fmt::push_fixed;
use vstd::string::StringExecFns;

verus! {

// ---------------------------------------------------------------------------
// The toolpath emitter.  Jobs are ordered by their position along the
// feed axis and expanded into motion instructions; serialization keeps
// modal state, so a motion-mode word appears only when the mode changes
// (a feed move also re-emits it when the feed rate changes) and an axis
// word only when that axis moved.  All positions are micro-units, the
// rotational axis is in micro-degrees, and every written number has
// three decimal places.
// ---------------------------------------------------------------------------

/// A machine configuration: offsets, tool data and feed rates, all in
/// micro-units, and whether the two trim passes are wanted.
#[derive(PartialEq, Debug, Clone, Copy)]
pub struct AxisOffsetsConfig {
    pub x: i64,
    pub y: i64,
    pub z: i64,
    pub a: i64,
    pub b: i64,
}

#[derive(PartialEq, Debug, Clone, Copy)]
pub struct EndmillConfig {
    pub r: i64,
    pub step: i64,
    pub offset: i64,
    pub feed_rate: i64,
}

#[derive(PartialEq, Debug, Clone, Copy)]
pub struct DrillConfig {
    pub offset: i64,
    pub feed_rate: i64,
}

#[derive(PartialEq, Debug, Clone, Copy)]
pub struct CNCConfig {
    pub gap_endmill_and_drill: i64,
    pub feed_rate: i64,
    pub offsets: AxisOffsetsConfig,
    pub endmill: EndmillConfig,
    pub drill: DrillConfig,
    pub cut: bool,
}

/// One target position on the five output axes.
#[derive(PartialEq, Debug, Clone, Copy)]
pub struct Move {
    pub x: i64,
    pub y: i64,
    pub z: i64,
    pub a: i64,
    pub b: i64,
}

impl Move {
    /// The position the serializer assumes before any motion: off every
    /// axis, so that the first move writes every word.
    pub fn nowhere() -> (r: Move)
        ensures
            r == sp_nowhere(),
    {
        Move { x: -1_000_000, y: -1_000_000, z: -1_000_000, a: -1_000_000, b: -1_000_000 }
    }
}

pub open spec fn sp_nowhere() -> Move {
    Move {
        x: -1_000_000i64,
        y: -1_000_000i64,
        z: -1_000_000i64,
        a: -1_000_000i64,
        b: -1_000_000i64,
    }
}

/// One output line: a comment, a rapid move, a feed move with its rate,
/// or one of the two control markers.
#[derive(PartialEq, Debug)]
pub enum GCode {
    Comment(String),
    G0(Move),
    G1(Move, i64),
    M02,
    M03,
}

// ---------------------------------------------------------------------------
// Serialization with modal state.
// ---------------------------------------------------------------------------

/// The serializer's modal state: the kind of the last motion or control
/// word (0 control, 1 rapid, 2 feed), the last written position and the
/// last written feed rate.
pub struct EmitState {
    pub kind: int,
    pub pos: Move,
    pub feed: int,
}

pub open spec fn sp_init_state() -> EmitState {
    EmitState { kind: 0, pos: sp_nowhere(), feed: -1_000_000 }
}

/// An axis word: written only when the value changed.
pub open spec fn sp_axis_word(prefix: char, before: int, after: int) -> Seq<char> {
    if before == after {
        Seq::empty()
    } else {
        seq![prefix] + fmt_fixed(after)
    }
}

/// The axis words of one motion, in fixed axis order.
pub open spec fn sp_pos_words(before: Move, after: Move) -> Seq<char> {
    sp_axis_word('X', before.x as int, after.x as int) + sp_axis_word(
        'Y',
        before.y as int,
        after.y as int,
    ) + sp_axis_word('Z', before.z as int, after.z as int) + sp_axis_word(
        'A',
        before.a as int,
        after.a as int,
    ) + sp_axis_word('B', before.b as int, after.b as int)
}

pub open spec fn sp_gcode_view(g: GCode) -> GCodeV {
    match g {
        GCode::Comment(c) => GCodeV::Comment(c@),
        GCode::G0(m) => GCodeV::G0(m),
        GCode::G1(m, f) => GCodeV::G1(m, f),
        GCode::M02 => GCodeV::M02,
        GCode::M03 => GCodeV::M03,
    }
}

pub enum GCodeV {
    Comment(Seq<char>),
    G0(Move),
    G1(Move, i64),
    M02,
    M03,
}

pub open spec fn view_gcodes(gs: Seq<GCode>) -> Seq<GCodeV> {
    Seq::new(gs.len(), |i: int| sp_gcode_view(gs[i]))
}

/// The text of one line, given the modal state before it.
pub open spec fn sp_line(g: GCodeV, st: EmitState) -> Seq<char> {
    match g {
        GCodeV::Comment(c) => seq![';'] + c + seq!['\n'],
        GCodeV::M02 => seq!['M', '0', '2', '\n'],
        GCodeV::M03 => seq!['M', '0', '3', '\n'],
        GCodeV::G0(m) => (if st.kind == 1 {
            Seq::<char>::empty()
        } else {
            seq!['G', '0', ' ']
        }) + sp_pos_words(st.pos, m) + seq!['\n'],
        GCodeV::G1(m, f) => (if st.kind == 2 && f as int == st.feed {
            Seq::<char>::empty()
        } else {
            seq!['G', '1', ' ']
        }) + sp_pos_words(st.pos, m) + sp_axis_word('F', st.feed, f as int) + seq!['\n'],
    }
}

/// The modal state after one line.
pub open spec fn sp_step_state(g: GCodeV, st: EmitState) -> EmitState {
    match g {
        GCodeV::Comment(_) => st,
        GCodeV::M02 => EmitState { kind: 0, ..st },
        GCodeV::M03 => EmitState { kind: 0, ..st },
        GCodeV::G0(m) => EmitState { kind: 1, pos: m, ..st },
        GCodeV::G1(m, f) => EmitState { kind: 2, pos: m, feed: f as int },
    }
}

/// The modal state after a whole instruction list.
pub open spec fn sp_state(gs: Seq<GCodeV>) -> EmitState
    decreases gs.len(),
{
    if gs.len() == 0 {
        sp_init_state()
    } else {
        sp_step_state(gs.last(), sp_state(gs.drop_last()))
    }
}

/// The whole serialized text of an instruction list.
pub open spec fn sp_output(gs: Seq<GCodeV>) -> Seq<char>
    decreases gs.len(),
{
    if gs.len() == 0 {
        Seq::empty()
    } else {
        sp_output(gs.drop_last()) + sp_line(gs.last(), sp_state(gs.drop_last()))
    }
}

fn push_axis_word(buf: &mut String, prefix: &str, before: i64, after: i64)
    requires
        prefix@.len() == 1,
    ensures
        final(buf)@ == old(buf)@ + sp_axis_word(prefix@[0], before as int, after as int),
{
    if before != after {
        buf.append(prefix);
        push_fixed(buf, after);
    }
}

fn push_pos_words(buf: &mut String, before: &Move, after: &Move)
    ensures
        final(buf)@ == old(buf)@ + sp_pos_words(*before, *after),
{
    proof {
        reveal_strlit("X");
        reveal_strlit("Y");
        reveal_strlit("Z");
        reveal_strlit("A");
        reveal_strlit("B");
    }
    push_axis_word(buf, "X", before.x, after.x);
    push_axis_word(buf, "Y", before.y, after.y);
    push_axis_word(buf, "Z", before.z, after.z);
    push_axis_word(buf, "A", before.a, after.a);
    push_axis_word(buf, "B", before.b, after.b);
    proof {
        assert(final(buf)@ =~= old(buf)@ + sp_pos_words(*before, *after));
    }
}

/// Serializes the instruction list, suppressing unchanged modal words.
#[verifier::rlimit(100)]
pub fn output(buf: &mut String, cfg: &CNCConfig, gcodes: &Vec<GCode>)
    ensures
        final(buf)@ == old(buf)@ + sp_output(view_gcodes(gcodes@)),
{
    let ghost gv = view_gcodes(gcodes@);
    let mut kind: u8 = 0;
    let mut pos = Move::nowhere();
    let mut feed: i64 = -1_000_000;
    let n = gcodes.len();
    let mut k: usize = 0;
    proof {
        assert(gv.take(0) =~= Seq::<GCodeV>::empty());
        assert(buf@ == old(buf)@ + sp_output(gv.take(0)));
    }
    #[verifier::loop_isolation(false)]
    while k < n
        invariant
            0 <= k <= n,
            buf@ == old(buf)@ + sp_output(gv.take(k as int)),
            kind as int == sp_state(gv.take(k as int)).kind,
            pos == sp_state(gv.take(k as int)).pos,
            feed as int == sp_state(gv.take(k as int)).feed,
            kind <= 2,
        decreases n - k,
    {
        proof {
            assert(gv.take(k as int + 1).drop_last() =~= gv.take(k as int));
            assert(gv.take(k as int + 1).last() == gv[k as int]);
        }
        let ghost st = sp_state(gv.take(k as int));
        match &gcodes[k] {
            GCode::Comment(c) => {
                proof {
                    reveal_strlit(";");
                    reveal_strlit("\n");
                    assert(";"@ =~= seq![';']);
                    assert("\n"@ =~= seq!['\n']);
                }
                buf.append(";");
                buf.append(c.as_str());
                buf.append("\n");
                proof {
                    assert(buf@ =~= old(buf)@ + sp_output(gv.take(k as int + 1)));
                }
            },
            GCode::M02 => {
                proof {
                    reveal_strlit("M02\n");
                    assert("M02\n"@ =~= seq!['M', '0', '2', '\n']);
                }
                buf.append("M02\n");
                kind = 0;
                proof {
                    assert(buf@ =~= old(buf)@ + sp_output(gv.take(k as int + 1)));
                }
            },
            GCode::M03 => {
                proof {
                    reveal_strlit("M03\n");
                    assert("M03\n"@ =~= seq!['M', '0', '3', '\n']);
                }
                buf.append("M03\n");
                kind = 0;
                proof {
                    assert(buf@ =~= old(buf)@ + sp_output(gv.take(k as int + 1)));
                }
            },
            GCode::G0(m) => {
                proof {
                    reveal_strlit("G0 ");
                    reveal_strlit("\n");
                    assert("G0 "@ =~= seq!['G', '0', ' ']);
                    assert("\n"@ =~= seq!['\n']);
                }
                if kind != 1 {
                    buf.append("G0 ");
                }
                push_pos_words(buf, &pos, m);
                buf.append("\n");
                pos = *m;
                kind = 1;
                proof {
                    assert(buf@ =~= old(buf)@ + sp_output(gv.take(k as int + 1)));
                }
            },
            GCode::G1(m, f) => {
                proof {
                    reveal_strlit("G1 ");
                    reveal_strlit("\n");
                    assert("G1 "@ =~= seq!['G', '1', ' ']);
                    assert("\n"@ =~= seq!['\n']);
                    reveal_strlit("F");
                }
                if !(kind == 2 && *f == feed) {
                    buf.append("G1 ");
                }
                push_pos_words(buf, &pos, m);
                push_axis_word(buf, "F", feed, *f);
                buf.append("\n");
                pos = *m;
                feed = *f;
                kind = 2;
                proof {
                    assert(buf@ =~= old(buf)@ + sp_output(gv.take(k as int + 1)));
                }
            },
        }
        k = k + 1;
    }
    proof {
        assert(gv.take(n as int) =~= gv);
    }
}

} // verus!

verus! {

// ---------------------------------------------------------------------------
// Jobs and their expansion.
// ---------------------------------------------------------------------------

/// Feed moves keep their modal words: after a feed move, a second feed
/// move at the same rate that changes only the first axis writes nothing
/// but that axis word — no motion-mode word and no feed word.
pub proof fn lemma_feed_word_once(st: EmitState, m1: Move, m2: Move, f: i64)
    requires
        m2.y == m1.y,
        m2.z == m1.z,
        m2.a == m1.a,
        m2.b == m1.b,
        m2.x != m1.x,
    ensures
        sp_line(GCodeV::G1(m2, f), sp_step_state(GCodeV::G1(m1, f), st)) == seq!['X'] + fmt_fixed(
            m2.x as int,
        ) + seq!['\n'],
{
    let st1 = sp_step_state(GCodeV::G1(m1, f), st);
    assert(sp_pos_words(m1, m2) =~= seq!['X'] + fmt_fixed(m2.x as int));
    assert(sp_line(GCodeV::G1(m2, f), st1) =~= seq!['X'] + fmt_fixed(m2.x as int) + seq!['\n']);
}

/// One unit of work: a drilled hole, or one of the two trim passes.
#[derive(PartialEq, Debug, Clone, Copy)]
pub enum Job {
    Drill(Drill),
    Cut,
}

/// The three motions of one drill job: rapid approach at the safe
/// height, plunge to depth zero at the drill feed rate, rapid retract.
pub open spec fn sp_drill_codes(cfg: CNCConfig, d: Drill, tr: int) -> Seq<GCodeV> {
    let safe = Move {
        x: d.d,
        y: d.slide,
        z: (tr + cfg.drill.offset) as i64,
        a: d.theta,
        b: (tr + cfg.endmill.offset) as i64,
    };
    let plunge = Move {
        x: d.d,
        y: d.slide,
        z: 0,
        a: d.theta,
        b: (tr + cfg.endmill.offset) as i64,
    };
    seq![
        GCodeV::G0(safe),
        GCodeV::G1(plunge, cfg.drill.feed_rate),
        GCodeV::G0(safe),
    ]
}

pub fn gcodes_of_drill(cfg: &CNCConfig, drill: &Drill, target_r: i64) -> (r: Vec<GCode>)
    requires
        -4_000_000_000_000 <= target_r <= 4_000_000_000_000,
        -1_000_000_000_000 <= cfg.drill.offset <= 1_000_000_000_000,
        -1_000_000_000_000 <= cfg.endmill.offset <= 1_000_000_000_000,
    ensures
        view_gcodes(r@) == sp_drill_codes(*cfg, *drill, target_r as int),
        r@.len() == 3,
{
    let safe = Move {
        x: drill.d,
        y: drill.slide,
        z: target_r + cfg.drill.offset,
        a: drill.theta,
        b: target_r + cfg.endmill.offset,
    };
    let plunge = Move {
        x: drill.d,
        y: drill.slide,
        z: 0,
        a: drill.theta,
        b: target_r + cfg.endmill.offset,
    };
    let mut v: Vec<GCode> = Vec::new();
    v.push(GCode::G0(safe));
    v.push(GCode::G1(plunge, cfg.drill.feed_rate));
    v.push(GCode::G0(safe));
    proof {
        assert(view_gcodes(v@) =~= sp_drill_codes(*cfg, *drill, target_r as int));
    }
    v
}

/// How many inward step pairs a trim pass needs: the target radius over
/// twice the stepover, rounded up.
pub open spec fn sp_cut_iters(tr: int, step: int) -> int {
    if tr <= 0 {
        0
    } else {
        (tr + 2 * step - 1) / (2 * step)
    }
}

/// The alternating pairs of a trim pass, innermost last: each pair steps
/// the auxiliary axis inward twice while the rotational axis makes a
/// full turn and returns.
pub open spec fn sp_cut_pairs(cfg: CNCConfig, cut_pos: i64, tr: int, n: nat) -> Seq<GCodeV>
    decreases n,
{
    if n == 0 {
        Seq::empty()
    } else {
        let j = (n - 1) as int;
        let dw = (tr + cfg.drill.offset) as i64;
        sp_cut_pairs(cfg, cut_pos, tr, (n - 1) as nat) + seq![
            GCodeV::G1(
                Move {
                    x: cut_pos,
                    y: 0,
                    z: dw,
                    b: (tr - (2 * j + 1) * cfg.endmill.step) as i64,
                    a: 360_000_000,
                },
                cfg.endmill.feed_rate,
            ),
            GCodeV::G1(
                Move {
                    x: cut_pos,
                    y: 0,
                    z: dw,
                    b: (tr - (2 * j + 2) * cfg.endmill.step) as i64,
                    a: 0,
                },
                cfg.endmill.feed_rate,
            ),
        ]
    }
}

/// A whole trim pass: approach, entry, the inward pairs, and a retract
/// at the general feed rate.
pub open spec fn sp_cut_codes(cfg: CNCConfig, cut_pos: i64, tr: int) -> Seq<GCodeV> {
    let dw = (tr + cfg.drill.offset) as i64;
    seq![
        GCodeV::G0(Move { x: cut_pos, y: 0, z: dw, b: dw, a: 0 }),
        GCodeV::G1(Move { x: cut_pos, y: 0, z: dw, b: tr as i64, a: 0 }, cfg.feed_rate),
    ] + sp_cut_pairs(cfg, cut_pos, tr, sp_cut_iters(tr, cfg.endmill.step as int) as nat) + seq![
        GCodeV::G1(Move { x: cut_pos, y: 0, z: dw, b: dw, a: 0 }, cfg.feed_rate),
    ]
}

pub fn gcodes_of_cut(cfg: &CNCConfig, cut_pos: i64, target_r: i64) -> (r: Vec<GCode>)
    requires
        -8_000_000_000_000 <= cut_pos <= 8_000_000_000_000,
        -4_000_000_000_000 <= target_r <= 4_000_000_000_000,
        1 <= cfg.endmill.step <= 1_000_000_000_000,
        -1_000_000_000_000 <= cfg.drill.offset <= 1_000_000_000_000,
    ensures
        view_gcodes(r@) == sp_cut_codes(*cfg, cut_pos, target_r as int),
{
    let tr = target_r;
    let step = cfg.endmill.step;
    let dw = tr + cfg.drill.offset;
    let iter_times: i64 = if tr <= 0 {
        0
    } else {
        let num: u128 = (tr as u128) + 2 * (step as u128) - 1;
        let q = num / (2 * (step as u128));
        proof {
            assert((num as int) / (2 * (step as int)) <= num as int && (num as int) / (2 * (
            step as int)) >= 0) by (nonlinear_arith)
                requires (num as int) >= 0, step as int >= 1;
        }
        q as i64
    };
    let ghost iters = sp_cut_iters(tr as int, step as int);
    proof {
        assert(iter_times as int == iters);
        if tr > 0 {
            assert((iters) * (2 * (step as int)) <= tr + 2 * (step as int) - 1)
                by (nonlinear_arith)
                requires
                    iters == (tr as int + 2 * (step as int) - 1) / (2 * (step as int)),
                    (step as int) >= 1,
                    tr as int >= 1,
            ;
            assert(iters >= 0) by (nonlinear_arith)
                requires
                    iters == (tr as int + 2 * (step as int) - 1) / (2 * (step as int)),
                    (step as int) >= 1,
                    tr as int >= 1,
            ;
        }
        assert(iters * (2 * (step as int)) <= 6_000_000_000_000);
    }
    let mut gcodes: Vec<GCode> = Vec::new();
    gcodes.push(GCode::G0(Move { x: cut_pos, y: 0, z: dw, b: dw, a: 0 }));
    gcodes.push(GCode::G1(Move { x: cut_pos, y: 0, z: dw, b: tr, a: 0 }, cfg.feed_rate));
    let mut i: i64 = 0;
    #[verifier::loop_isolation(false)]
    while i < iter_times
        invariant
            0 <= i <= iter_times,
            view_gcodes(gcodes@) =~= seq![
                GCodeV::G0(Move { x: cut_pos, y: 0, z: dw, b: dw, a: 0 }),
                GCodeV::G1(Move { x: cut_pos, y: 0, z: dw, b: tr, a: 0 }, cfg.feed_rate),
            ] + sp_cut_pairs(*cfg, cut_pos, tr as int, i as nat),
        decreases iter_times - i,
    {
        proof {
            assert((2 * (i as int) + 2) * (step as int) <= (iters) * (2 * (step as int))
                && (2 * (i as int) + 1) * (step as int) <= (iters) * (2 * (step as int)))
                by (nonlinear_arith)
                requires i + 1 <= iters, (step as int) >= 1, i >= 0;
            assert((2 * (i as int) + 1) * (step as int) >= 0 && (2 * (i as int) + 2) * (
            step as int) >= 0) by (nonlinear_arith)
                requires i >= 0, (step as int) >= 1;
        }
        let b1: i128 = (tr as i128) - ((2 * (i as i128) + 1)) * (step as i128);
        let b2: i128 = (tr as i128) - ((2 * (i as i128) + 2)) * (step as i128);
        proof {
            assert(-12_000_000_000_000 <= b1 as int <= 4_000_000_000_000);
            assert(-12_000_000_000_000 <= b2 as int <= 4_000_000_000_000);
        }
        let ghost g0 = gcodes@;
        gcodes.push(
            GCode::G1(
                Move { x: cut_pos, y: 0, z: dw, b: b1 as i64, a: 360_000_000 },
                cfg.endmill.feed_rate,
            ),
        );
        gcodes.push(
            GCode::G1(Move { x: cut_pos, y: 0, z: dw, b: b2 as i64, a: 0 }, cfg.endmill.feed_rate),
        );
        proof {
            let j = i as int;
            let e1 = GCodeV::G1(
                Move {
                    x: cut_pos,
                    y: 0,
                    z: dw,
                    b: (tr as int - (2 * j + 1) * (cfg.endmill.step as int)) as i64,
                    a: 360_000_000,
                },
                cfg.endmill.feed_rate,
            );
            let e2 = GCodeV::G1(
                Move {
                    x: cut_pos,
                    y: 0,
                    z: dw,
                    b: (tr as int - (2 * j + 2) * (cfg.endmill.step as int)) as i64,
                    a: 0,
                },
                cfg.endmill.feed_rate,
            );
            assert(b1 as i64 == (tr as int - (2 * j + 1) * (cfg.endmill.step as int)) as i64);
            assert(b2 as i64 == (tr as int - (2 * j + 2) * (cfg.endmill.step as int)) as i64);
            assert(sp_cut_pairs(*cfg, cut_pos, tr as int, (j + 1) as nat) =~= sp_cut_pairs(
                *cfg,
                cut_pos,
                tr as int,
                j as nat,
            ) + seq![e1, e2]);
            assert(view_gcodes(gcodes@) =~= view_gcodes(g0) + seq![e1, e2]);
            assert(view_gcodes(gcodes@) =~= (seq![
                GCodeV::G0(Move { x: cut_pos, y: 0, z: dw, b: dw, a: 0 }),
                GCodeV::G1(Move { x: cut_pos, y: 0, z: dw, b: tr, a: 0 }, cfg.feed_rate),
            ] + sp_cut_pairs(*cfg, cut_pos, tr as int, j as nat)) + seq![e1, e2]);
            assert(view_gcodes(gcodes@) =~= seq![
                GCodeV::G0(Move { x: cut_pos, y: 0, z: dw, b: dw, a: 0 }),
                GCodeV::G1(Move { x: cut_pos, y: 0, z: dw, b: tr, a: 0 }, cfg.feed_rate),
            ] + sp_cut_pairs(*cfg, cut_pos, tr as int, (j + 1) as nat));
        }
        i = i + 1;
        proof {
            assert(view_gcodes(gcodes@) =~= seq![
                GCodeV::G0(Move { x: cut_pos, y: 0, z: dw, b: dw, a: 0 }),
                GCodeV::G1(Move { x: cut_pos, y: 0, z: dw, b: tr, a: 0 }, cfg.feed_rate),
            ] + sp_cut_pairs(*cfg, cut_pos, tr as int, i as nat));
        }
    }
    gcodes.push(GCode::G1(Move { x: cut_pos, y: 0, z: dw, b: dw, a: 0 }, cfg.feed_rate));
    proof {
        assert(view_gcodes(gcodes@) =~= sp_cut_codes(*cfg, cut_pos, tr as int));
    }
    gcodes
}

} // verus!

verus! {

// ---------------------------------------------------------------------------
// Ordering the jobs and emitting the program.
// ---------------------------------------------------------------------------

pub open spec fn jobs_sorted(js: Seq<(i64, Job)>) -> bool {
    forall|i: int, j: int| 0 <= i < j < js.len() ==> (#[trigger] js[i]).0 <= (#[trigger] js[j]).0
}

/// Sorts the jobs by their feed-axis position, ascending; the job set is
/// unchanged.
fn sort_jobs(jobs: Vec<(i64, Job)>) -> (r: Vec<(i64, Job)>)
    ensures
        jobs_sorted(r@),
        r@.to_multiset() == jobs@.to_multiset(),
        r@.len() == jobs@.len(),
{
    broadcast use vstd::seq_lib::group_to_multiset_ensures;

    let mut rest = jobs;
    let mut out: Vec<(i64, Job)> = Vec::new();
    proof {
        assert(out@.to_multiset().add(rest@.to_multiset()) =~= jobs@.to_multiset());
    }
    #[verifier::loop_isolation(false)]
    while rest.len() > 0
        invariant
            out@.to_multiset().add(rest@.to_multiset()) == jobs@.to_multiset(),
            out@.len() + rest@.len() == jobs@.len(),
            jobs_sorted(out@),
            forall|a: int, b: int|
                0 <= a < out@.len() && 0 <= b < rest@.len() ==> (#[trigger] out@[a]).0 <= (
                #[trigger] rest@[b]).0,
        decreases rest@.len(),
    {
        let n = rest.len();
        let mut best: usize = 0;
        let mut k: usize = 1;
        while k < n
            invariant
                0 <= best < k <= n == rest@.len(),
                forall|t: int| 0 <= t < k ==> (#[trigger] rest@[t]).0 >= rest@[best as int].0,
            decreases n - k,
        {
            if rest[k].0 < rest[best].0 {
                best = k;
            }
            k = k + 1;
        }
        let ghost rest_before = rest@;
        let ghost out_before = out@;
        let picked = rest.remove(best);
        out.push(picked);
        proof {
            assert(rest@ == rest_before.remove(best as int));
            assert(rest_before.remove(best as int).to_multiset() =~= rest_before.to_multiset()
                .remove(rest_before[best as int]));
            assert(out@ == out_before.push(picked));
            assert(out_before.push(picked).to_multiset() =~= out_before.to_multiset().insert(
                picked,
            ));
            assert(rest_before.contains(rest_before[best as int]));
            assert(rest_before.to_multiset().contains(picked));
            assert(out@.to_multiset().add(rest@.to_multiset()) =~= jobs@.to_multiset());
        }
    }
    proof {
        assert(rest@.to_multiset().len() == 0);
        assert(out@.to_multiset() =~= out@.to_multiset().add(rest@.to_multiset()));
    }
    out
}

/// The expansion of one job into instructions.
pub open spec fn sp_job_codes(cfg: CNCConfig, j: (i64, Job), tr: int) -> Seq<GCodeV> {
    match j.1 {
        Job::Drill(d) => sp_drill_codes(cfg, d, tr),
        Job::Cut => sp_cut_codes(cfg, j.0, tr),
    }
}

/// The expansions of all jobs, in order.
pub open spec fn sp_jobs_codes(cfg: CNCConfig, js: Seq<(i64, Job)>, tr: int) -> Seq<GCodeV>
    decreases js.len(),
{
    if js.len() == 0 {
        Seq::empty()
    } else {
        sp_jobs_codes(cfg, js.drop_last(), tr) + sp_job_codes(cfg, js.last(), tr)
    }
}

/// The job list before sorting: one job per drill, and, where cutting is
/// enabled, the two trim passes placed a tool gap before and after the
/// stock.
pub open spec fn sp_initial_jobs(p: Proc, cfg: CNCConfig) -> Seq<(i64, Job)> {
    let base = Seq::new(p.drills@.len(), |i: int| (p.drills@[i].d, Job::Drill(p.drills@[i])));
    if cfg.cut {
        base.push(((cfg.gap_endmill_and_drill - cfg.endmill.r) as i64, Job::Cut)).push(
            ((cfg.gap_endmill_and_drill + cfg.endmill.r + p.size.sz()) as i64, Job::Cut),
        )
    } else {
        base
    }
}

/// Half the stock diagonal: the radius the tool must clear.
pub open spec fn sp_target_r(p: Proc) -> int {
    let hx = crate::math::div_trunc(p.size.sx(), 2);
    let hy = crate::math::div_trunc(p.size.sy(), 2);
    sp_isqrt((hx * hx + hy * hy) as nat) as int
}

/// All numeric configuration values lie within the working range, and
/// the stepover is positive.
pub open spec fn cfg_bounded(cfg: CNCConfig) -> bool {
    &&& -1_000_000_000_000 <= cfg.gap_endmill_and_drill <= 1_000_000_000_000
    &&& -1_000_000_000_000 <= cfg.feed_rate <= 1_000_000_000_000
    &&& -1_000_000_000_000 <= cfg.endmill.r <= 1_000_000_000_000
    &&& 1 <= cfg.endmill.step <= 1_000_000_000_000
    &&& -1_000_000_000_000 <= cfg.endmill.offset <= 1_000_000_000_000
    &&& -1_000_000_000_000 <= cfg.endmill.feed_rate <= 1_000_000_000_000
    &&& -1_000_000_000_000 <= cfg.drill.offset <= 1_000_000_000_000
    &&& -1_000_000_000_000 <= cfg.drill.feed_rate <= 1_000_000_000_000
}

/// Serializes the whole program: a leading comment and start marker, the
/// sorted jobs, and the end marker.
pub fn gen_gcode(proc_r: Proc, cfg: &CNCConfig) -> (r: String)
    requires
        cfg_bounded(*cfg),
        -4_000_000_000_000 <= proc_r.size.sx() <= 4_000_000_000_000,
        -4_000_000_000_000 <= proc_r.size.sy() <= 4_000_000_000_000,
        -4_000_000_000_000 <= proc_r.size.sz() <= 4_000_000_000_000,
    ensures
        exists|js: Seq<(i64, Job)>|
            {
                &&& #[trigger] jobs_sorted(js)
                &&& js.to_multiset() == sp_initial_jobs(proc_r, *cfg).to_multiset()
                &&& r@ == sp_output(
                    seq![GCodeV::Comment("init"@), GCodeV::M02] + sp_jobs_codes(
                        *cfg,
                        js,
                        sp_target_r(proc_r),
                    ) + seq![GCodeV::M03],
                )
            },
{
    let ghost initial = sp_initial_jobs(proc_r, *cfg);
    let nd = proc_r.drills.len();
    let mut jobs: Vec<(i64, Job)> = Vec::new();
    let mut k: usize = 0;
    #[verifier::loop_isolation(false)]
    while k < nd
        invariant
            0 <= k <= nd == proc_r.drills@.len(),
            jobs@.len() == k,
            forall|i: int|
                0 <= i < k ==> #[trigger] jobs@[i] == (
                    proc_r.drills@[i].d,
                    Job::Drill(proc_r.drills@[i]),
                ),
        decreases nd - k,
    {
        let d = proc_r.drills[k];
        jobs.push((d.d, Job::Drill(d)));
        k = k + 1;
    }
    if cfg.cut {
        jobs.push((cfg.gap_endmill_and_drill - cfg.endmill.r, Job::Cut));
        jobs.push((cfg.gap_endmill_and_drill + cfg.endmill.r + proc_r.size.z(), Job::Cut));
    }
    proof {
        assert(jobs@ =~= initial);
    }
    let jobs = sort_jobs(jobs);
    let hx = crate::analysis::half(proc_r.size.x());
    let hy = crate::analysis::half(proc_r.size.y());
    proof {
        crate::math::lemma_div_trunc_bound(proc_r.size.sx(), 2, 4_000_000_000_000);
        crate::math::lemma_div_trunc_bound(proc_r.size.sy(), 2, 4_000_000_000_000);
        assert((hx as int) * (hx as int) >= 0 && (hy as int) * (hy as int) >= 0)
            by (nonlinear_arith);
        assert((hx as int) * (hx as int) + (hy as int) * (hy as int)
            < 0x1000_0000_0000_0000_0000_0000) by (nonlinear_arith)
            requires
                -2_000_000_000_000 <= (hx as int) <= 2_000_000_000_000,
                -2_000_000_000_000 <= (hy as int) <= 2_000_000_000_000,
        ;
    }
    let n2: i128 = (hx as i128) * (hx as i128) + (hy as i128) * (hy as i128);
    let target_r_u = crate::analysis::isqrt(n2 as u128);
    proof {
        crate::analysis::lemma_sp_isqrt(n2 as nat);
        assert(n2 as nat <= 8_000_000_000_000_000_000_000_000) by (nonlinear_arith)
            requires
                n2 as int == (hx as int) * (hx as int) + (hy as int) * (hy as int),
                -2_000_000_000_000 <= (hx as int) <= 2_000_000_000_000,
                -2_000_000_000_000 <= (hy as int) <= 2_000_000_000_000,
        ;
        assert((3_000_000_000_000 as nat) * (3_000_000_000_000 as nat) > n2 as nat)
            by (nonlinear_arith)
            requires n2 as nat <= 8_000_000_000_000_000_000_000_000;
        if sp_isqrt(n2 as nat) >= 3_000_000_000_000 {
            assert(sp_isqrt(n2 as nat) * sp_isqrt(n2 as nat) >= (3_000_000_000_000 as nat) * (
            3_000_000_000_000 as nat)) by (nonlinear_arith)
                requires sp_isqrt(n2 as nat) >= 3_000_000_000_000;
        }
    }
    let target_r: i64 = target_r_u as i64;
    let mut gcodes: Vec<GCode> = Vec::new();
    proof {
        reveal_strlit("init");
    }
    gcodes.push(GCode::Comment(String::from_str("init")));
    gcodes.push(GCode::M02);
    let ghost head = seq![GCodeV::Comment("init"@), GCodeV::M02];
    let nj = jobs.len();
    let mut t: usize = 0;
    proof {
        assert(view_gcodes(gcodes@) =~= head + sp_jobs_codes(*cfg, jobs@.take(0), target_r as int));
    }
    #[verifier::loop_isolation(false)]
    while t < nj
        invariant
            0 <= t <= nj == jobs@.len(),
            view_gcodes(gcodes@) == head + sp_jobs_codes(
                *cfg,
                jobs@.take(t as int),
                target_r as int,
            ),
        decreases nj - t,
    {
        proof {
            assert(jobs@.take(t as int + 1).drop_last() =~= jobs@.take(t as int));
            assert(jobs@.take(t as int + 1).last() == jobs@[t as int]);
        }
        let ghost gprev = gcodes@;
        let job = jobs[t];
        match job.1 {
            Job::Drill(d) => {
                let mut add = gcodes_of_drill(cfg, &d, target_r);
                let ghost addv = add@;
                gcodes.append(&mut add);
                proof {
                    assert(view_gcodes(gcodes@) =~= view_gcodes(gprev) + view_gcodes(addv));
                }
            },
            Job::Cut => {
                proof {
                    broadcast use vstd::seq_lib::group_to_multiset_ensures;

                    assert(jobs@.contains(job));
                    assert(jobs@.to_multiset().contains(job));
                    assert(initial.to_multiset().contains(job));
                    assert(initial.contains(job));
                    let idx = choose|i: int| 0 <= i < initial.len() && initial[i] == job;
                    let base = Seq::new(
                        proc_r.drills@.len(),
                        |i: int| (proc_r.drills@[i].d, Job::Drill(proc_r.drills@[i])),
                    );
                    if idx < base.len() {
                        assert(initial[idx] == base[idx]);
                        assert(false);
                    }
                }
                let mut add = gcodes_of_cut(cfg, job.0, target_r);
                let ghost addv = add@;
                gcodes.append(&mut add);
                proof {
                    assert(view_gcodes(gcodes@) =~= view_gcodes(gprev) + view_gcodes(addv));
                }
            },
        }
        proof {
            assert(view_gcodes(gcodes@) =~= head + sp_jobs_codes(
                *cfg,
                jobs@.take(t as int + 1),
                target_r as int,
            ));
        }
        t = t + 1;
    }
    gcodes.push(GCode::M03);
    proof {
        assert(jobs@.take(nj as int) =~= jobs@);
        assert(view_gcodes(gcodes@) =~= head + sp_jobs_codes(*cfg, jobs@, target_r as int) + seq![
            GCodeV::M03,
        ]);
    }
    let mut buf = String::new();
    output(&mut buf, cfg, &gcodes);
    proof {
        assert(buf@ == sp_output(
            seq![GCodeV::Comment("init"@), GCodeV::M02] + sp_jobs_codes(
                *cfg,
                jobs@,
                sp_target_r(proc_r),
            ) + seq![GCodeV::M03],
        ));
        assert(jobs_sorted(jobs@));
    }
    buf
}

} // verus!

verus! {

/// A program that opens with a comment starts its text with the comment
/// mark.
pub proof fn lemma_output_first(gs: Seq<GCodeV>)
    requires
        gs.len() >= 1,
        gs[0] is Comment,
    ensures
        sp_output(gs).len() >= 1,
        sp_output(gs)[0] == ';',
    decreases gs.len(),
{
    if gs.len() == 1 {
        assert(gs.drop_last().len() == 0);
        assert(sp_output(gs) == sp_line(gs[0], sp_init_state()));
        assert(sp_output(gs)[0] == ';');
    } else {
        assert(gs.drop_last()[0] == gs[0]);
        lemma_output_first(gs.drop_last());
        assert(sp_output(gs) == sp_output(gs.drop_last()) + sp_line(
            gs.last(),
            sp_state(gs.drop_last()),
        ));
        assert(sp_output(gs)[0] == sp_output(gs.drop_last())[0]);
    }
}

/// A program that closes with the end marker ends its text with that
/// marker's line.
pub proof fn lemma_output_last(gs: Seq<GCodeV>)
    requires
        gs.len() >= 1,
        gs.last() == GCodeV::M03,
    ensures
        sp_output(gs).len() >= 4,
        sp_output(gs).subrange(
            sp_output(gs).len() - 4,
            sp_output(gs).len() as int,
        ) =~= seq!['M', '0', '3', '\n'],
{
    assert(sp_line(gs.last(), sp_state(gs.drop_last())) == seq!['M', '0', '3', '\n']);
}

} // verus!
