use vstd::prelude::*;
use vstd::string::*;
use crate::errors::ClipError;
use crate::numbers::{dec_i, i64_to_dec};
use crate::text::{
    is_prefix, lines_of, split_lines, starts_with_str, has_sub, contains_at,
    lemma_contains_to_found, lemma_has_sub_extend,
};

verus! {

/// The rewritten lines of a styled subtitle file, and whether a resolution
/// line was rewritten. A dialogue line directly followed by a non-empty line
/// that is not itself a dialogue line is merged with it around the explicit
/// in-cue break token; otherwise a line starting with the resolution prefix
/// is replaced by one naming `h`; every other line passes through. Each
/// output line ends with a line feed.
pub open spec fn post_rest(ls: Seq<Seq<char>>, h: int) -> (Seq<char>, bool)
    decreases ls.len(),
{
    if ls.len() == 0 {
        (Seq::empty(), false)
    } else if is_prefix("Dialogue:"@, ls[0]) && ls.len() >= 2 && !is_prefix("Dialogue:"@, ls[1])
        && ls[1].len() > 0 {
        let r = post_rest(ls.skip(2), h);
        (ls[0] + "\\N"@ + ls[1] + "\n"@ + r.0, r.1)
    } else if is_prefix("PlayResY: "@, ls[0]) {
        let r = post_rest(ls.skip(1), h);
        ("PlayResY: "@ + dec_i(h) + "\n"@ + r.0, true)
    } else {
        let r = post_rest(ls.skip(1), h);
        (ls[0] + "\n"@ + r.0, r.1)
    }
}

/// The post-processed styled file: the rewritten lines, with a resolution
/// line naming `h` appended at the end when none was rewritten.
pub open spec fn spec_postprocess_style(s: Seq<char>, h: int) -> Seq<char> {
    let r = post_rest(lines_of(s), h);
    if r.1 {
        r.0
    } else {
        r.0 + "PlayResY: "@ + dec_i(h) + "\n"@
    }
}

/// Post-processes a styled subtitle file: merges each dialogue line's bare
/// continuation line into it around the explicit break token, and rewrites
/// the vertical resolution line to `video_height`, appending one when the
/// file has none.
pub fn postprocess_style(content: &str, video_height: i32) -> (r: String)
    ensures
        r@ == spec_postprocess_style(content@, video_height as int),
{
    let ghost ls = lines_of(content@);
    let ghost hh = video_height as int;
    let lines = split_lines(content);
    let mut out = String::new();
    let mut found = false;
    let mut i: usize = 0;
    proof {
        assert(ls.skip(0) =~= ls);
    }
    while i < lines.len()
        invariant
            i <= lines@.len(),
            lines.deep_view() == ls,
            hh == video_height as int,
            post_rest(ls, hh).0 == out@ + post_rest(ls.skip(i as int), hh).0,
            post_rest(ls, hh).1 == (found || post_rest(ls.skip(i as int), hh).1),
        decreases lines@.len() - i,
    {
        proof {
            assert(ls.skip(i as int)[0] == ls[i as int]);
            assert(ls.skip(i as int).skip(1) =~= ls.skip(i as int + 1));
        }
        let line = &lines[i];
        let is_dlg = starts_with_str(line.as_str(), "Dialogue:");
        let merge = is_dlg && i + 1 < lines.len() && !starts_with_str(
            lines[i + 1].as_str(),
            "Dialogue:",
        ) && lines[i + 1].as_str().unicode_len() > 0;
        let ghost out0 = out@;
        if merge {
            proof {
                assert(ls.skip(i as int)[1] == ls[i as int + 1]);
                assert(ls.skip(i as int).skip(2) =~= ls.skip(i as int + 2));
            }
            out.append(line.as_str());
            out.append("\\N");
            out.append(lines[i + 1].as_str());
            out.append("\n");
            i = i + 2;
            proof {
                assert(out@ =~= out0 + (ls[i - 2] + "\\N"@ + ls[i - 1] + "\n"@));
                assert(out@ + post_rest(ls.skip(i as int), hh).0 =~= out0 + (ls[i - 2] + "\\N"@
                    + ls[i - 1] + "\n"@ + post_rest(ls.skip(i as int), hh).0));
            }
        } else if starts_with_str(line.as_str(), "PlayResY: ") {
            out.append("PlayResY: ");
            let hv = i64_to_dec(video_height as i64);
            out.append(hv.as_str());
            out.append("\n");
            found = true;
            i = i + 1;
            proof {
                assert(out@ =~= out0 + ("PlayResY: "@ + dec_i(hh) + "\n"@));
                assert(out@ + post_rest(ls.skip(i as int), hh).0 =~= out0 + ("PlayResY: "@ + dec_i(
                    hh,
                ) + "\n"@ + post_rest(ls.skip(i as int), hh).0));
            }
        } else {
            out.append(line.as_str());
            out.append("\n");
            i = i + 1;
            proof {
                assert(out@ =~= out0 + (ls[i - 1] + "\n"@));
                assert(out@ + post_rest(ls.skip(i as int), hh).0 =~= out0 + (ls[i - 1] + "\n"@
                    + post_rest(ls.skip(i as int), hh).0));
            }
        }
    }
    proof {
        assert(ls.skip(i as int).len() == 0);
        assert(out@ + Seq::<char>::empty() =~= out@);
    }
    if !found {
        out.append("PlayResY: ");
        let hv = i64_to_dec(video_height as i64);
        out.append(hv.as_str());
        out.append("\n");
        proof {
            assert(out@ =~= spec_postprocess_style(content@, hh));
        }
    }
    out
}

/// Some line of `s` opens a `STYLE` block.
pub open spec fn has_style_line(s: Seq<char>) -> bool {
    exists|i: int| 0 <= i < lines_of(s).len() && is_prefix("STYLE"@, #[trigger] lines_of(s)[i])
}

/// The resolution line for a target height, with its line end.
pub open spec fn resolution_line(h: int) -> Seq<char> {
    "PlayResY: "@ + dec_i(h) + "\n"@
}

/// Whenever a resolution line was rewritten, the rewritten text carries the
/// resolution line for `h`.
proof fn lemma_post_rest_resolution(ls: Seq<Seq<char>>, h: int)
    ensures
        post_rest(ls, h).1 ==> has_sub(post_rest(ls, h).0, resolution_line(h)),
    decreases ls.len(),
{
    let r = post_rest(ls, h);
    if ls.len() == 0 {
    } else if is_prefix("Dialogue:"@, ls[0]) && ls.len() >= 2 && !is_prefix("Dialogue:"@, ls[1])
        && ls[1].len() > 0 {
        lemma_post_rest_resolution(ls.skip(2), h);
        let rec = post_rest(ls.skip(2), h);
        if rec.1 {
            lemma_has_sub_extend(ls[0] + "\\N"@ + ls[1] + "\n"@, rec.0, resolution_line(h));
        }
    } else if is_prefix("PlayResY: "@, ls[0]) {
        lemma_post_rest_resolution(ls.skip(1), h);
        assert(r.0.subrange(0, resolution_line(h).len() as int) =~= resolution_line(h));
        assert(contains_at(r.0, resolution_line(h), 0));
        lemma_contains_to_found(r.0, resolution_line(h), 0, 0);
    } else {
        lemma_post_rest_resolution(ls.skip(1), h);
        let rec = post_rest(ls.skip(1), h);
        if rec.1 {
            lemma_has_sub_extend(ls[0] + "\n"@, rec.0, resolution_line(h));
        }
    }
}

/// Law: the post-processed styled file always carries the resolution line
/// for the target height — rewritten in place when the input had one, and
/// appended at the end when it had none.
pub proof fn lemma_postprocess_resolution(s: Seq<char>, h: int)
    ensures
        has_sub(spec_postprocess_style(s, h), resolution_line(h)),
{
    lemma_post_rest_resolution(lines_of(s), h);
    let r = post_rest(lines_of(s), h);
    if !r.1 {
        let out = spec_postprocess_style(s, h);
        assert(out.subrange(r.0.len() as int, out.len() as int) =~= resolution_line(h));
        assert(contains_at(out, resolution_line(h), r.0.len() as int));
        lemma_contains_to_found(out, resolution_line(h), 0, r.0.len() as int);
    }
}

/// Law: the dialogue-merge rule. When the stream ahead opens with a
/// dialogue line directly followed by a non-empty line that is not itself a
/// dialogue line, the rewrite emits exactly the one merged physical line —
/// the dialogue line, the explicit in-cue break token, the continuation —
/// and the continuation is consumed, the rewrite going on after it.
pub proof fn lemma_dialogue_merge(ls: Seq<Seq<char>>, h: int)
    requires
        ls.len() >= 2,
        is_prefix("Dialogue:"@, ls[0]),
        !is_prefix("Dialogue:"@, ls[1]),
        ls[1].len() > 0,
    ensures
        post_rest(ls, h).0 == ls[0] + "\\N"@ + ls[1] + "\n"@ + post_rest(ls.skip(2), h).0,
        post_rest(ls, h).1 == post_rest(ls.skip(2), h).1,
{
}

/// What rsubs_lib renders when a cue file is parsed and converted to a
/// styled subtitle file; a function of the cue text alone.
pub uninterp spec fn ass_of(vtt: Seq<char>) -> Seq<char>;

/// Whether rsubs_lib's VTT parser accepts the text; a function of the text
/// alone.
pub uninterp spec fn vtt_accepts(vtt: Seq<char>) -> bool;

/// Relies on rsubs_lib's `VTT::parse`, `VTT::to_ssa` and the `Display`
/// rendering of `SSA`: the parse accepts or refuses the text
/// deterministically, and the styled rendering of an accepted text is a
/// function of that text alone. Two inputs are kept out because the
/// converter does not return on them: text without the leading `WEBVTT`
/// header (on wholly blank text the parser indexes an empty block list),
/// and text with a `STYLE` block (the converter slices a parsed colour
/// value at fixed byte offsets, which splits a multi-byte character).
#[verifier::external_body]
fn convert_vtt_to_ass(content: &str) -> (r: Result<String, String>)
    requires
        is_prefix("WEBVTT"@, content@),
        !has_style_line(content@),
    ensures
        r is Ok <==> vtt_accepts(content@),
        r is Ok ==> r->Ok_0@ == ass_of(content@),
{
    match rsubs_lib::VTT::parse(content) {
        Ok(v) => Ok(v.to_ssa().to_string()),
        Err(e) => Err(format!("failed to parse VTT content: {:?}", e)),
    }
}

/// Converts a cue file to a styled subtitle file and post-processes it:
/// continuation lines are merged into their dialogue lines and the vertical
/// resolution is set to `video_height`. Fails with a parse error when the
/// text does not start with the `WEBVTT` header or holds a `STYLE` block
/// (this pipeline never writes one), and exactly when the converter refuses
/// the cue text otherwise.
pub fn vtt_to_ass(content: &str, video_height: i32) -> (r: Result<String, ClipError>)
    ensures
        r is Ok <==> is_prefix("WEBVTT"@, content@) && !has_style_line(content@) && vtt_accepts(
            content@,
        ),
        r is Ok ==> r->Ok_0@ == spec_postprocess_style(ass_of(content@), video_height as int),
        r is Err ==> r->Err_0 is ParseError,
{
    if !starts_with_str(content, "WEBVTT") {
        return Err(
            ClipError::ParseError(String::from_str("cue text does not start with WEBVTT")),
        );
    }
    let ghost ls = lines_of(content@);
    let lines = split_lines(content);
    let mut i: usize = 0;
    while i < lines.len()
        invariant
            i <= lines@.len(),
            lines.deep_view() == ls,
            ls == lines_of(content@),
            forall|k: int| 0 <= k < i ==> !is_prefix("STYLE"@, #[trigger] ls[k]),
        decreases lines@.len() - i,
    {
        if starts_with_str(lines[i].as_str(), "STYLE") {
            proof {
                assert(ls[i as int] == lines@[i as int]@);
                assert(is_prefix("STYLE"@, lines_of(content@)[i as int]));
                assert(has_style_line(content@));
            }
            return Err(
                ClipError::ParseError(String::from_str("cue text holds a STYLE block")),
            );
        }
        i = i + 1;
    }
    match convert_vtt_to_ass(content) {
        Ok(ass) => Ok(postprocess_style(ass.as_str(), video_height)),
        Err(m) => Err(ClipError::ParseError(m)),
    }
}

} // verus!
