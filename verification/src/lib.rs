use vstd::prelude::*;

pub mod analysis;
pub mod backend;
pub mod decode;
pub mod fmt;
pub mod math;
pub mod num;
pub mod resolve;
pub mod roundtrip;

use crate::analysis::Proc;
use crate::backend::CNCConfig;
use crate::backend::GCodeV;
use crate::backend::Job;
use crate::backend::cfg_bounded;
use crate::backend::jobs_sorted;
use crate::backend::sp_initial_jobs;
use crate::backend::sp_jobs_codes;
use crate::backend::sp_output;
use crate::backend::sp_target_r;
use crate::fmt::dec_chars;
use crate::fmt::fmt_fixed;
use crate::fmt::push_fixed;
use crate::fmt::push_u64;
use crate::resolve::ParseError;
use vstd::string::StringExecFns;
use vstd::string::StringSliceAdditionalSpecFns;

verus! {

// ---------------------------------------------------------------------------
// The whole pipeline: decode the exchange file, resolve the faces, analyze
// the solid, and emit the toolpath program together with a short report.
// ---------------------------------------------------------------------------

/// The document resolves: it decodes, its header records are well formed,
/// its record ids are unique, and the fixed chain reaches a face list.
pub open spec fn doc_resolves(b: Seq<u8>) -> bool {
    &&& crate::decode::sp_step(b) is Found
    &&& crate::resolve::sp_parse_header(
        (crate::decode::sp_step(b)->Found_0).header,
        crate::resolve::empty_header(),
    ) is Some
    &&& crate::resolve::unique_ids((crate::decode::sp_step(b)->Found_0).data)
    &&& crate::resolve::sp_faces((crate::decode::sp_step(b)->Found_0).data) is Some
}

/// The report that accompanies a program.
pub open spec fn sp_report(p: Proc) -> Seq<char> {
    "drills: "@ + dec_chars(p.drills@.len()) + "\nsize: "@ + fmt_fixed(p.size.sx()) + " "@
        + fmt_fixed(p.size.sy()) + " "@ + fmt_fixed(p.size.sz()) + "\n"@
}

/// What a successful compilation returns: a program serialized from the
/// sorted jobs of a solid that the analyzer derived from the document's
/// faces, and the report of that solid.
pub open spec fn compile_ok(
    b: Seq<u8>,
    cfg: CNCConfig,
    p: Proc,
    js: Seq<(i64, Job)>,
    g: Seq<char>,
    rep: Seq<char>,
) -> bool {
    &&& doc_resolves(b)
    &&& exists|fs: Vec<crate::resolve::AdvancedFace>|
        {
            &&& crate::resolve::sp_faces((crate::decode::sp_step(b)->Found_0).data)
                == Option::Some(crate::resolve::faces_repr(#[trigger] fs@))
            &&& exists|
                xa: crate::math::V3,
                ya: crate::math::V3,
                za: crate::math::V3,
                rm: crate::math::Mat3x3,
                xr: crate::math::V3,
                yr: crate::math::V3,
                zr: crate::math::V3,
                aligned: Seq<crate::resolve::Axis>,
                cyl_al: Seq<(i64, crate::resolve::Axis)>,
            |
                #[trigger] crate::analysis::proc_chain(
                    fs@,
                    xa,
                    ya,
                    za,
                    rm,
                    xr,
                    yr,
                    zr,
                    aligned,
                    cyl_al,
                    p,
                )
        }
    &&& jobs_sorted(js)
    &&& js.to_multiset() == sp_initial_jobs(p, cfg).to_multiset()
    &&& g == sp_output(
        seq![GCodeV::Comment("init"@), GCodeV::M02] + sp_jobs_codes(cfg, js, sp_target_r(p))
            + seq![GCodeV::M03],
    )
    &&& rep == sp_report(p)
}

/// A successful compilation of `b` under `cfg` produced the program text
/// `g` and the report `rep`.
pub open spec fn compile_ok_pair(b: Seq<u8>, cfg: CNCConfig, g: Seq<char>, rep: Seq<char>) -> bool {
    exists|p: Proc, js: Seq<(i64, Job)>| #[trigger] compile_ok(b, cfg, p, js, g, rep)
}

/// Compiles one exchange document against a machine configuration: the
/// serialized program and a report, or one message naming the stage that
/// failed.
#[verifier::rlimit(100)]
pub fn parse(s: &str, cfg: &CNCConfig) -> (r: Result<(String, String), String>)
    requires
        cfg_bounded(*cfg),
    ensures
        s.spec_bytes().len() < usize::MAX ==> {
            let b = s.spec_bytes();
            &&& (r is Ok <==> doc_resolves(b))
            &&& match r {
                Ok(t) => {
                    &&& compile_ok_pair(b, *cfg, t.0@, t.1@)
                    &&& t.0@.len() > 0
                    &&& t.0@[0] == ';'
                    &&& t.0@.subrange(t.0@.len() - 4, t.0@.len() as int) =~= seq![
                        'M',
                        '0',
                        '3',
                        '\n',
                    ]
                },
                Err(m) => {
                    ||| (exists|im: Seq<char>|
                        #[trigger] crate::resolve::pre_msg_matches(im, b) && m@
                            == "failed to parser file. "@ + im)
                    ||| (exists|im: Seq<char>|
                        #[trigger] crate::resolve::header_err(im) && m@
                            == "failed to parser header section: "@ + im)
                    ||| (m@.len() >= "failed to parser data section: "@.len() && m@.subrange(
                        0,
                        "failed to parser data section: "@.len() as int,
                    ) == "failed to parser data section: "@)
                },
            }
        },
{
    if s.as_bytes().len() == usize::MAX {
        return Err(String::from_str("document too large"));
    }
    let ghost b = s.spec_bytes();
    let parsed = crate::resolve::parse(s);
    let data = match parsed {
        Ok(hd) => hd.1,
        Err(e) => {
            let m: String = match &e {
                ParseError::DataParseError(msg) => {
                    let mut m = String::from_str("failed to parser data section: ");
                    m.append(msg.as_str());
                    proof {
                        assert(m@ == "failed to parser data section: "@ + msg@);
                        assert(m@.subrange(0, "failed to parser data section: "@.len() as int)
                            =~= "failed to parser data section: "@);
                        assert(!doc_resolves(b));
                    }
                    m
                },
                ParseError::HeaderParseError(msg) => {
                    let mut m = String::from_str("failed to parser header section: ");
                    m.append(msg.as_str());
                    proof {
                        assert(crate::resolve::header_err(msg@));
                        assert(m@ == "failed to parser header section: "@ + msg@);
                        assert(!doc_resolves(b));
                    }
                    m
                },
                ParseError::PreprocessError(msg) => {
                    let mut m = String::from_str("failed to parser file. ");
                    m.append(msg.as_str());
                    proof {
                        assert(crate::resolve::pre_msg_matches(msg@, b));
                        assert(m@ == "failed to parser file. "@ + msg@);
                        assert(!doc_resolves(b));
                    }
                    m
                },
            };
            return Err(m);
        },
    };
    let proc_r = Proc::new(&data);
    let mut report = String::from_str("drills: ");
    let nd = proc_r.drills.len();
    push_u64(&mut report, nd as u64);
    report.append("\nsize: ");
    push_fixed(&mut report, proc_r.size.x());
    report.append(" ");
    push_fixed(&mut report, proc_r.size.y());
    report.append(" ");
    push_fixed(&mut report, proc_r.size.z());
    report.append("\n");
    proof {
        assert(report@ =~= sp_report(proc_r));
    }
    let gcode = crate::backend::gen_gcode(proc_r, cfg);
    proof {
        if b.len() < usize::MAX {
            let js = choose|js: Seq<(i64, Job)>|
                {
                    &&& #[trigger] jobs_sorted(js)
                    &&& js.to_multiset() == sp_initial_jobs(proc_r, *cfg).to_multiset()
                    &&& gcode@ == sp_output(
                        seq![GCodeV::Comment("init"@), GCodeV::M02] + sp_jobs_codes(
                            *cfg,
                            js,
                            sp_target_r(proc_r),
                        ) + seq![GCodeV::M03],
                    )
                };
            assert(compile_ok(b, *cfg, proc_r, js, gcode@, report@));
            let whole = seq![GCodeV::Comment("init"@), GCodeV::M02] + sp_jobs_codes(
                *cfg,
                js,
                sp_target_r(proc_r),
            ) + seq![GCodeV::M03];
            assert(whole[0] is Comment);
            assert(whole.last() == GCodeV::M03);
            crate::backend::lemma_output_first(whole);
            crate::backend::lemma_output_last(whole);
            assert(compile_ok_pair(b, *cfg, gcode@, report@));
        }
    }
    Ok((gcode, report))
}

} // verus!
