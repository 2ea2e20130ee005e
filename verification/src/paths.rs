use vstd::prelude::*;
use vstd::string::*;
use crate::text::str_equal;

verus! {

/// The on-disk path of a job's cue file at the given granularity:
/// `"segments"` names the plain `<id>.vtt` file, any other granularity the
/// `<id>_<granularity>.vtt` file.
pub open spec fn spec_vtt_subtitle_path(id: Seq<char>, sub_type: Seq<char>) -> Seq<char> {
    if sub_type == "segments"@ {
        "../public/"@ + id + ".vtt"@
    } else {
        "../public/"@ + id + "_"@ + sub_type + ".vtt"@
    }
}

/// Builds the path of the cue file for `video_id` at granularity `sub_type`.
pub fn get_vtt_subtitle_path(video_id: &str, sub_type: &str) -> (r: String)
    ensures
        r@ == spec_vtt_subtitle_path(video_id@, sub_type@),
{
    let mut s = String::from_str("../public/");
    s.append(video_id);
    if str_equal(sub_type, "segments") {
        s.append(".vtt");
    } else {
        s.append("_");
        s.append(sub_type);
        s.append(".vtt");
    }
    s
}

/// The cue-file artifacts belonging to one job, in the order they are
/// removed when the job's subtitles are regenerated.
pub open spec fn spec_subtitle_paths(id: Seq<char>) -> Seq<Seq<char>> {
    seq![
        "../public/"@ + id + ".vtt"@,
        "../public/"@ + id + "_words.vtt"@,
        "../public/"@ + id + "_3words.vtt"@,
        "../public/"@ + id + "_4words.vtt"@,
        "../public/"@ + id + "_segments.vtt"@,
        "../public/"@ + id + "_pixel.vtt"@,
    ]
}

fn public_vtt_path(video_id: &str, suffix: &str) -> (r: String)
    ensures
        r@ == "../public/"@ + video_id@ + suffix@,
{
    let mut s = String::from_str("../public/");
    s.append(video_id);
    s.append(suffix);
    s
}

/// Lists every cue-file path belonging to `video_id`.
pub fn subtitle_paths(video_id: &str) -> (r: Vec<String>)
    ensures
        r.deep_view() == spec_subtitle_paths(video_id@),
{
    let mut v: Vec<String> = Vec::new();
    v.push(public_vtt_path(video_id, ".vtt"));
    v.push(public_vtt_path(video_id, "_words.vtt"));
    v.push(public_vtt_path(video_id, "_3words.vtt"));
    v.push(public_vtt_path(video_id, "_4words.vtt"));
    v.push(public_vtt_path(video_id, "_segments.vtt"));
    v.push(public_vtt_path(video_id, "_pixel.vtt"));
    proof {
        assert(v.deep_view() =~= spec_subtitle_paths(video_id@));
    }
    v
}

/// Builds the path of a job's media artifact with the given extension.
pub fn public_media_path(video_id: &str, extension: &str) -> (r: String)
    ensures
        r@ == "../public/"@ + video_id@ + "."@ + extension@,
{
    let mut s = String::from_str("../public/");
    s.append(video_id);
    s.append(".");
    s.append(extension);
    s
}

/// Builds the path of a job's suffixed media artifact, such as the trimmed
/// video or the extracted audio track.
pub fn public_suffixed_path(video_id: &str, suffix: &str, extension: &str) -> (r: String)
    ensures
        r@ == "../public/"@ + video_id@ + suffix@ + "."@ + extension@,
{
    let mut s = String::from_str("../public/");
    s.append(video_id);
    s.append(suffix);
    s.append(".");
    s.append(extension);
    s
}

} // verus!
