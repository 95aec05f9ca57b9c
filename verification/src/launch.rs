use vstd::prelude::*;

use crate::geometry::BBox;
use crate::parse::{
    format_roi, law_decimal_round_trip, law_roi_text_round_trip, lemma_decimal_digits,
    lemma_split_no_sep, parse_bool_spec, parse_i32_spec, parse_u32_spec, roi_from_fields, roi_text,
    split_on, unsigned_body, values_from_fields,
};
use crate::text::{decimal, push_char, push_padded, zero_padded};

verus! {

/// The settings the window passes to the clip finder.
pub struct LaunchSettings {
    pub output_dir: String,
    pub start_template: String,
    pub end_template: String,
    pub win_template: String,
    pub lose_template: String,
    pub detect_win_loss: bool,
    pub detect_characters: bool,
    /// The match threshold as the settings file writes it.
    pub threshold_text: String,
    pub step_frames: u32,
    pub start_offset: i32,
    pub end_offset: i32,
    pub win_offset: u32,
    pub start_roi: [u32; 4],
    pub end_roi: [u32; 4],
    pub win_roi: [u32; 4],
    pub lose_roi: [u32; 4],
}

/// Decimal text of a signed number.
pub open spec fn signed_decimal(v: int) -> Seq<char> {
    if v < 0 {
        seq!['-'] + decimal((0 - v) as nat)
    } else {
        decimal(v as nat)
    }
}

pub open spec fn bool_text(b: bool) -> Seq<char> {
    if b {
        "true"@
    } else {
        "false"@
    }
}

/// The command-line arguments for a run on `video`.
pub open spec fn launch_args_spec(s: LaunchSettings, video: Seq<char>) -> Seq<Seq<char>> {
    let out = if s.output_dir@.len() > 0 {
        seq!["-o"@, s.output_dir@]
    } else {
        Seq::empty()
    };
    seq!["-i"@, video] + out + seq![
        "--start-template"@,
        s.start_template@,
        "--end-template"@,
        s.end_template@,
        "--win-template"@,
        if s.detect_win_loss {
            s.win_template@
        } else {
            Seq::empty()
        },
        "--lose-template"@,
        if s.detect_win_loss {
            s.lose_template@
        } else {
            Seq::empty()
        },
        "--threshold"@,
        s.threshold_text@,
        "--step-frames"@,
        decimal(s.step_frames as nat),
        "--start-offset"@,
        signed_decimal(s.start_offset as int),
        "--end-offset"@,
        signed_decimal(s.end_offset as int),
        "--win-offset"@,
        decimal(s.win_offset as nat),
        "--detect-characters"@,
        bool_text(s.detect_characters),
        "--start-roi"@,
        roi_text(s.start_roi@),
        "--end-roi"@,
        roi_text(s.end_roi@),
        "--win-roi"@,
        if s.detect_win_loss {
            roi_text(s.win_roi@)
        } else {
            "0,0,0,0"@
        },
        "--lose-roi"@,
        if s.detect_win_loss {
            roi_text(s.lose_roi@)
        } else {
            "0,0,0,0"@
        },
    ]
}

fn text(s: &str) -> (r: String)
    ensures
        r@ == s@,
{
    let mut r = String::new();
    r.append(s);
    r
}

fn unsigned_text(v: u32) -> (r: String)
    ensures
        r@ == decimal(v as nat),
{
    let mut r = String::new();
    push_padded(&mut r, v as u64, 0);
    r
}

fn signed_text(v: i32) -> (r: String)
    ensures
        r@ == signed_decimal(v as int),
{
    let mut r = String::new();
    if v < 0 {
        push_char(&mut r, '-');
        let m: i64 = 0 - (v as i64);
        push_padded(&mut r, m as u64, 0);
    } else {
        push_padded(&mut r, v as u64, 0);
    }
    proof {
        assert(r@ =~= signed_decimal(v as int));
    }
    r
}

fn push_arg(args: &mut Vec<String>, a: String)
    ensures
        final(args)@.len() == old(args)@.len() + 1,
        forall|k: int| 0 <= k < old(args)@.len() ==> #[trigger] final(args)@[k] == old(args)@[k],
        final(args)@[old(args)@.len() as int] == a,
{
    args.push(a);
}

/// The argument list that starts the clip finder on `video` with these
/// settings; without win/lose detection the result templates and regions
/// are passed empty.
pub fn launch_arguments(s: &LaunchSettings, video: &str) -> (args: Vec<String>)
    ensures
        args@.len() == launch_args_spec(*s, video@).len(),
        forall|k: int|
            0 <= k < args@.len() ==> (#[trigger] args@[k])@ == launch_args_spec(*s, video@)[k],
{
    let ghost spec = launch_args_spec(*s, video@);
    let mut args: Vec<String> = Vec::new();
    push_arg(&mut args, text("-i"));
    push_arg(&mut args, text(video));
    let has_out = !s.output_dir.as_str().is_empty();
    if has_out {
        push_arg(&mut args, text("-o"));
        push_arg(&mut args, text(s.output_dir.as_str()));
    }
    push_arg(&mut args, text("--start-template"));
    push_arg(&mut args, text(s.start_template.as_str()));
    push_arg(&mut args, text("--end-template"));
    push_arg(&mut args, text(s.end_template.as_str()));
    push_arg(&mut args, text("--win-template"));
    if s.detect_win_loss {
        push_arg(&mut args, text(s.win_template.as_str()));
    } else {
        push_arg(&mut args, String::new());
    }
    push_arg(&mut args, text("--lose-template"));
    if s.detect_win_loss {
        push_arg(&mut args, text(s.lose_template.as_str()));
    } else {
        push_arg(&mut args, String::new());
    }
    push_arg(&mut args, text("--threshold"));
    push_arg(&mut args, text(s.threshold_text.as_str()));
    push_arg(&mut args, text("--step-frames"));
    push_arg(&mut args, unsigned_text(s.step_frames));
    push_arg(&mut args, text("--start-offset"));
    push_arg(&mut args, signed_text(s.start_offset));
    push_arg(&mut args, text("--end-offset"));
    push_arg(&mut args, signed_text(s.end_offset));
    push_arg(&mut args, text("--win-offset"));
    push_arg(&mut args, unsigned_text(s.win_offset));
    push_arg(&mut args, text("--detect-characters"));
    if s.detect_characters {
        push_arg(&mut args, text("true"));
    } else {
        push_arg(&mut args, text("false"));
    }
    push_arg(&mut args, text("--start-roi"));
    push_arg(&mut args, format_roi(&s.start_roi));
    push_arg(&mut args, text("--end-roi"));
    push_arg(&mut args, format_roi(&s.end_roi));
    push_arg(&mut args, text("--win-roi"));
    if s.detect_win_loss {
        push_arg(&mut args, format_roi(&s.win_roi));
    } else {
        push_arg(&mut args, text("0,0,0,0"));
    }
    push_arg(&mut args, text("--lose-roi"));
    if s.detect_win_loss {
        push_arg(&mut args, format_roi(&s.lose_roi));
    } else {
        push_arg(&mut args, text("0,0,0,0"));
    }
    proof {
        assert(args@.len() == spec.len());
        assert forall|k: int| 0 <= k < args@.len() implies (#[trigger] args@[k])@ == spec[k] by {}
    }
    args
}

/// A region handed over on the command line is read back by `parse_roi` as
/// the same rectangle when its width and height are positive, and as no
/// region otherwise.
pub proof fn law_roi_argument_round_trip(r: Seq<u32>)
    requires
        r.len() == 4,
    ensures
        roi_from_fields(split_on(roi_text(r), ',')) == (if r[2] > 0 && r[3] > 0 {
            Some(BBox { x: r[0], y: r[1], width: r[2], height: r[3] })
        } else {
            None
        }),
{
    law_decimal_round_trip(r[0]);
    law_decimal_round_trip(r[1]);
    law_decimal_round_trip(r[2]);
    law_decimal_round_trip(r[3]);
    let d0 = decimal(r[0] as nat);
    let d1 = decimal(r[1] as nat);
    let d2 = decimal(r[2] as nat);
    let d3 = decimal(r[3] as nat);
    let sep = seq![','];
    lemma_split_no_sep(d0, ',', Seq::empty());
    lemma_split_no_sep(d1, ',', d0);
    lemma_split_no_sep(d2, ',', d0 + sep + d1);
    lemma_split_no_sep(d3, ',', d0 + sep + d1 + sep + d2);
    assert(roi_text(r) == d0 + sep + d1 + sep + d2 + sep + d3);
    assert(split_on(roi_text(r), ',') =~= seq![d0, d1, d2, d3]);
}

/// A signed number written in decimal reads back as itself.
pub proof fn law_signed_decimal_round_trip(v: i32)
    ensures
        parse_i32_spec(signed_decimal(v as int)) == Some(v),
{
    if v < 0 {
        let m = (0 - v) as nat;
        lemma_decimal_digits(m);
        let t = signed_decimal(v as int);
        assert(t.drop_first() =~= decimal(m));
    } else {
        let d = decimal(v as nat);
        lemma_decimal_digits(v as nat);
        assert(crate::parse::is_digit(d[0]));
        assert(unsigned_body(d) == d);
    }
}

/// Where the launch arguments put each option: the video after `-i`, the
/// output folder after `-o` when one is set, then each option name followed
/// by its value; without win/lose detection the result templates are empty.
#[verifier::rlimit(100)]
#[verifier::spinoff_prover]
pub proof fn law_launch_arguments_layout(s: LaunchSettings, video: Seq<char>)
    ensures
        ({
            let a = launch_args_spec(s, video);
            let b = if s.output_dir@.len() > 0 {
                4int
            } else {
                2int
            };
            &&& a.len() == b + 28
            &&& a[0] == "-i"@ && a[1] == video
            &&& s.output_dir@.len() > 0 ==> a[2] == "-o"@ && a[3] == s.output_dir@
            &&& a[b] == "--start-template"@ && a[b + 1] == s.start_template@
            &&& a[b + 2] == "--end-template"@ && a[b + 3] == s.end_template@
            &&& a[b + 4] == "--win-template"@ && a[b + 5] == (if s.detect_win_loss {
                s.win_template@
            } else {
                Seq::<char>::empty()
            })
            &&& a[b + 6] == "--lose-template"@ && a[b + 7] == (if s.detect_win_loss {
                s.lose_template@
            } else {
                Seq::<char>::empty()
            })
            &&& a[b + 8] == "--threshold"@ && a[b + 9] == s.threshold_text@
            &&& a[b + 10] == "--step-frames"@
            &&& a[b + 12] == "--start-offset"@
            &&& a[b + 14] == "--end-offset"@
            &&& a[b + 16] == "--win-offset"@
            &&& a[b + 18] == "--detect-characters"@
            &&& a[b + 20] == "--start-roi"@
            &&& a[b + 22] == "--end-roi"@
            &&& a[b + 24] == "--win-roi"@
            &&& a[b + 26] == "--lose-roi"@
        }),
{
}

/// The numbers and the flag in the launch arguments read back as the
/// settings they came from.
#[verifier::rlimit(100)]
#[verifier::spinoff_prover]
pub proof fn law_launch_arguments_values(s: LaunchSettings, video: Seq<char>)
    ensures
        ({
            let a = launch_args_spec(s, video);
            let b = if s.output_dir@.len() > 0 {
                4int
            } else {
                2int
            };
            &&& parse_u32_spec(a[b + 11]) == Some(s.step_frames)
            &&& parse_i32_spec(a[b + 13]) == Some(s.start_offset)
            &&& parse_i32_spec(a[b + 15]) == Some(s.end_offset)
            &&& parse_u32_spec(a[b + 17]) == Some(s.win_offset)
            &&& parse_bool_spec(a[b + 19]) == Some(s.detect_characters)
        }),
{
    law_decimal_round_trip(s.step_frames);
    law_decimal_round_trip(s.win_offset);
    law_signed_decimal_round_trip(s.start_offset);
    law_signed_decimal_round_trip(s.end_offset);
    reveal_strlit("true");
    reveal_strlit("false");
    assert("true"@ =~= seq!['t', 'r', 'u', 'e']);
    assert("false"@ =~= seq!['f', 'a', 'l', 's', 'e']);
    let a = launch_args_spec(s, video);
    let b = if s.output_dir@.len() > 0 {
        4int
    } else {
        2int
    };
    assert(a[b + 11] == decimal(s.step_frames as nat));
    assert(a[b + 13] == signed_decimal(s.start_offset as int));
    assert(a[b + 15] == signed_decimal(s.end_offset as int));
    assert(a[b + 17] == decimal(s.win_offset as nat));
    assert(a[b + 19] == bool_text(s.detect_characters));
}

/// The regions in the launch arguments read back as the settings they came
/// from; without win/lose detection the result regions read back as zero.
#[verifier::rlimit(100)]
#[verifier::spinoff_prover]
pub proof fn law_launch_arguments_regions(s: LaunchSettings, video: Seq<char>)
    ensures
        ({
            let a = launch_args_spec(s, video);
            let b = if s.output_dir@.len() > 0 {
                4int
            } else {
                2int
            };
            &&& values_from_fields(split_on(a[b + 21], ',')) == Some(s.start_roi@)
            &&& values_from_fields(split_on(a[b + 23], ',')) == Some(s.end_roi@)
            &&& values_from_fields(split_on(a[b + 25], ',')) == Some(
                if s.detect_win_loss {
                    s.win_roi@
                } else {
                    seq![0u32, 0u32, 0u32, 0u32]
                },
            )
            &&& values_from_fields(split_on(a[b + 27], ',')) == Some(
                if s.detect_win_loss {
                    s.lose_roi@
                } else {
                    seq![0u32, 0u32, 0u32, 0u32]
                },
            )
        }),
{
    law_roi_text_round_trip(s.start_roi@);
    law_roi_text_round_trip(s.end_roi@);
    law_roi_text_round_trip(s.win_roi@);
    law_roi_text_round_trip(s.lose_roi@);
    let zeros = seq![0u32, 0u32, 0u32, 0u32];
    law_roi_text_round_trip(zeros);
    reveal_strlit("0,0,0,0");
    assert(roi_text(zeros) =~= "0,0,0,0"@);
    let a = launch_args_spec(s, video);
    let b = if s.output_dir@.len() > 0 {
        4int
    } else {
        2int
    };
    assert(a[b + 21] == roi_text(s.start_roi@));
    assert(a[b + 23] == roi_text(s.end_roi@));
    if s.detect_win_loss {
        assert(a[b + 25] == roi_text(s.win_roi@));
        assert(a[b + 27] == roi_text(s.lose_roi@));
    } else {
        assert(a[b + 25] == roi_text(zeros));
        assert(a[b + 27] == roi_text(zeros));
    }
}

} // verus!
