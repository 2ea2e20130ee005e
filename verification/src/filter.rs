use vstd::prelude::*;
use vstd::string::*;
use crate::errors::ClipError;
use crate::numbers::{dec_str, zero_pad, u64_to_dec, u64_to_dec_pad};
use crate::text::{strip_trailing, strip_trailing_char};

verus! {

/// One trim range of the source video, in whole milliseconds.
#[derive(Clone, Copy, Debug)]
pub struct Timing {
    pub start_ms: u64,
    pub end_ms: u64,
}

/// A crop region, each field a percentage of the source video's width or
/// height in thousandths of a percent (so fractional percentages keep
/// their precision); applied identically to every segment.
#[derive(Clone, Copy, Debug)]
pub struct Dimensions {
    pub width_milli_pct: u32,
    pub height_milli_pct: u32,
    pub x_milli_pct: u32,
    pub y_milli_pct: u32,
}

/// Height, in pixels, that a cropped segment is rescaled to unless a caller
/// chooses another.
pub const DEFAULT_SCALE_HEIGHT: u32 = 1920;

/// A millisecond count rendered as seconds, the shortest way: the whole
/// seconds alone when the count is whole, else a dot and the fractional
/// digits with trailing zeros dropped.
pub open spec fn sec_str(ms: u64) -> Seq<char> {
    if ms % 1000 == 0 {
        dec_str(ms as nat / 1000)
    } else {
        dec_str(ms as nat / 1000).add(seq!['.']).add(
            strip_trailing(zero_pad(dec_str(ms as nat % 1000), 3), '0'),
        )
    }
}

/// The crop extent in pixels for a source extent and a percentage given in
/// thousandths of a percent, truncated.
pub open spec fn crop_px(src: u32, milli_pct: u32) -> nat {
    (src as nat * milli_pct as nat) / 100_000
}

/// The crop-and-rescale stage for segment `i`: reads the segment's video
/// pad, crops to the region, rescales to `scale_height` keeping aspect,
/// resets timestamps, and writes the same pad name back.
pub open spec fn spec_crop_stage(i: nat, d: Dimensions, w: u32, h: u32, scale_height: u32) -> Seq<
    char,
> {
    "[v"@ + dec_str(i) + "]crop="@ + dec_str(crop_px(w, d.width_milli_pct)) + ":"@ + dec_str(
        crop_px(h, d.height_milli_pct),
    ) + ":"@ + dec_str(crop_px(w, d.x_milli_pct)) + ":"@ + dec_str(crop_px(h, d.y_milli_pct)) + ",scale=-1:"@
        + dec_str(scale_height as nat) + ",setpts=PTS-STARTPTS[v"@ + dec_str(i) + "];"@
}

/// The trim stage pair for segment `i`: trims video and audio to the range,
/// resets timestamps, and names the pads `v{i}` and `a{i}`; a crop stage
/// follows when a region is given.
pub open spec fn spec_trim_stage(
    t: Timing,
    i: nat,
    crop: Option<Dimensions>,
    w: u32,
    h: u32,
    scale_height: u32,
) -> Seq<char> {
    "[0:v]trim=start="@ + sec_str(t.start_ms) + ":end="@ + sec_str(t.end_ms)
        + ",setpts=PTS-STARTPTS[v"@ + dec_str(i) + "];[0:a]atrim=start="@ + sec_str(t.start_ms)
        + ":end="@ + sec_str(t.end_ms) + ",asetpts=PTS-STARTPTS[a"@ + dec_str(i) + "];"@ + (
    match crop {
        Some(d) => spec_crop_stage(i, d, w, h, scale_height),
        None => Seq::<char>::empty(),
    })
}

/// The trim stages for the first `n` segments, in input order.
pub open spec fn spec_stages(
    ts: Seq<Timing>,
    crop: Option<Dimensions>,
    w: u32,
    h: u32,
    scale_height: u32,
    n: int,
) -> Seq<char>
    decreases n,
{
    if n <= 0 {
        Seq::empty()
    } else {
        spec_stages(ts, crop, w, h, scale_height, n - 1) + spec_trim_stage(
            ts[n - 1],
            (n - 1) as nat,
            crop,
            w,
            h,
            scale_height,
        )
    }
}

/// The pad references `[v0][a0][v1][a1]...` for the first `n` segments.
pub open spec fn spec_pads(n: int) -> Seq<char>
    decreases n,
{
    if n <= 0 {
        Seq::empty()
    } else {
        spec_pads(n - 1) + "[v"@ + dec_str((n - 1) as nat) + "][a"@ + dec_str((n - 1) as nat)
            + "]"@
    }
}

/// The whole filter-graph expression: every segment's trim (and optional
/// crop) stage, then every pad pair in input order, then one concatenation
/// of all segments into `[outv]` and `[outa]`.
pub open spec fn spec_filter_graph(
    ts: Seq<Timing>,
    crop: Option<Dimensions>,
    w: u32,
    h: u32,
    scale_height: u32,
) -> Seq<char> {
    spec_stages(ts, crop, w, h, scale_height, ts.len() as int) + spec_pads(ts.len() as int)
        + "concat=n="@ + dec_str(ts.len()) + ":v=1:a=1[outv][outa]"@
}

/// Every range is well-formed: the list is non-empty and no range ends
/// before it starts.
pub open spec fn ranges_valid(ts: Seq<Timing>) -> bool {
    ts.len() > 0 && forall|k: int| 0 <= k < ts.len() ==> #[trigger] ts[k].start_ms <= ts[k].end_ms
}

/// Renders a millisecond count as seconds, the shortest way.
pub fn sec_string(ms: u64) -> (r: String)
    ensures
        r@ == sec_str(ms),
{
    let mut s = u64_to_dec(ms / 1000);
    let f = ms % 1000;
    if f != 0 {
        s.append(".");
        let fs = u64_to_dec_pad(f, 3);
        let stripped = strip_trailing_char(fs.as_str(), '0');
        s.append(stripped.as_str());
        proof {
            reveal_strlit(".");
            assert((".")@ =~= seq!['.']);
            assert(s@ =~= sec_str(ms));
        }
    }
    s
}

/// Computes a crop extent in pixels.
fn crop_px_exec(src: u32, milli_pct: u32) -> (r: u64)
    ensures
        r as nat == crop_px(src, milli_pct),
{
    proof {
        vstd::arithmetic::mul::lemma_mul_upper_bound(
            src as int,
            0xFFFF_FFFF,
            milli_pct as int,
            0xFFFF_FFFF,
        );
    }
    (src as u64 * milli_pct as u64) / 100_000
}

/// Renders the crop-and-rescale stage for segment `i`.
fn crop_stage_string(i: u64, d: Dimensions, w: u32, h: u32, scale_height: u32) -> (r: String)
    ensures
        r@ == spec_crop_stage(i as nat, d, w, h, scale_height),
{
    let idx = u64_to_dec(i);
    let cw = u64_to_dec(crop_px_exec(w, d.width_milli_pct));
    let ch = u64_to_dec(crop_px_exec(h, d.height_milli_pct));
    let cx = u64_to_dec(crop_px_exec(w, d.x_milli_pct));
    let cy = u64_to_dec(crop_px_exec(h, d.y_milli_pct));
    let sh = u64_to_dec(scale_height as u64);
    let mut s = String::from_str("[v");
    s.append(idx.as_str());
    s.append("]crop=");
    s.append(cw.as_str());
    s.append(":");
    s.append(ch.as_str());
    s.append(":");
    s.append(cx.as_str());
    s.append(":");
    s.append(cy.as_str());
    s.append(",scale=-1:");
    s.append(sh.as_str());
    s.append(",setpts=PTS-STARTPTS[v");
    s.append(idx.as_str());
    s.append("];");
    proof {
        assert(s@ =~= spec_crop_stage(i as nat, d, w, h, scale_height));
    }
    s
}

/// Renders the trim stage pair (and optional crop stage) for segment `i`.
fn trim_stage_string(
    t: Timing,
    i: u64,
    crop: Option<Dimensions>,
    w: u32,
    h: u32,
    scale_height: u32,
) -> (r: String)
    ensures
        r@ == spec_trim_stage(t, i as nat, crop, w, h, scale_height),
{
    let idx = u64_to_dec(i);
    let ss = sec_string(t.start_ms);
    let es = sec_string(t.end_ms);
    let mut s = String::from_str("[0:v]trim=start=");
    s.append(ss.as_str());
    s.append(":end=");
    s.append(es.as_str());
    s.append(",setpts=PTS-STARTPTS[v");
    s.append(idx.as_str());
    s.append("];[0:a]atrim=start=");
    s.append(ss.as_str());
    s.append(":end=");
    s.append(es.as_str());
    s.append(",asetpts=PTS-STARTPTS[a");
    s.append(idx.as_str());
    s.append("];");
    proof {
        assert(s@ =~= "[0:v]trim=start="@ + sec_str(t.start_ms) + ":end="@ + sec_str(t.end_ms)
            + ",setpts=PTS-STARTPTS[v"@ + dec_str(i as nat) + "];[0:a]atrim=start="@ + sec_str(
            t.start_ms,
        ) + ":end="@ + sec_str(t.end_ms) + ",asetpts=PTS-STARTPTS[a"@ + dec_str(i as nat) + "];"@);
    }
    match crop {
        Some(d) => {
            let c = crop_stage_string(i, d, w, h, scale_height);
            s.append(c.as_str());
            s
        },
        None => {
            proof {
                assert(s@ =~= spec_trim_stage(t, i as nat, crop, w, h, scale_height));
            }
            s
        },
    }
}

/// Renders the pad reference pair `[v{i}][a{i}]`.
fn pad_ref_string(i: u64) -> (r: String)
    ensures
        r@ == "[v"@ + dec_str(i as nat) + "][a"@ + dec_str(i as nat) + "]"@,
{
    let idx = u64_to_dec(i);
    let mut s = String::from_str("[v");
    s.append(idx.as_str());
    s.append("][a");
    s.append(idx.as_str());
    s.append("]");
    proof {
        assert(s@ =~= "[v"@ + dec_str(i as nat) + "][a"@ + dec_str(i as nat) + "]"@);
    }
    s
}

/// Compiles the trim/crop/concat filter-graph expression for the given
/// ranges, cropping and rescaling every segment when a region is given.
/// Rejects an empty range list, and any range whose start exceeds its end,
/// before emitting anything.
pub fn build_filter_complex(
    timings: &Vec<Timing>,
    dimensions: Option<Dimensions>,
    video_width: u32,
    video_height: u32,
    scale_height: u32,
) -> (r: Result<String, ClipError>)
    ensures
        r is Ok <==> ranges_valid(timings@),
        r is Ok ==> r->Ok_0@ == spec_filter_graph(
            timings@,
            dimensions,
            video_width,
            video_height,
            scale_height,
        ),
        r is Err ==> r->Err_0 is ValidationError,
        r is Err ==> r->Err_0.message_view() == (if timings@.len() == 0 {
            "no timing ranges given"@
        } else {
            "timing range start exceeds end"@
        }),
{
    let n = timings.len();
    if n == 0 {
        return Err(ClipError::ValidationError(String::from_str("no timing ranges given")));
    }
    let mut k: usize = 0;
    while k < n
        invariant
            k <= n,
            n == timings@.len(),
            forall|j: int| 0 <= j < k ==> #[trigger] timings@[j].start_ms <= timings@[j].end_ms,
        decreases n - k,
    {
        if timings[k].start_ms > timings[k].end_ms {
            return Err(
                ClipError::ValidationError(String::from_str("timing range start exceeds end")),
            );
        }
        k = k + 1;
    }
    let mut fc = String::new();
    let mut pads = String::new();
    let mut i: usize = 0;
    while i < n
        invariant
            i <= n,
            n == timings@.len(),
            fc@ == spec_stages(
                timings@,
                dimensions,
                video_width,
                video_height,
                scale_height,
                i as int,
            ),
            pads@ == spec_pads(i as int),
        decreases n - i,
    {
        let stage = trim_stage_string(
            timings[i],
            i as u64,
            dimensions,
            video_width,
            video_height,
            scale_height,
        );
        fc.append(stage.as_str());
        let pr = pad_ref_string(i as u64);
        pads.append(pr.as_str());
        i = i + 1;
        proof {
            assert(pads@ =~= spec_pads(i as int));
        }
    }
    let mut out = fc;
    out.append(pads.as_str());
    out.append("concat=n=");
    let cnt = u64_to_dec(n as u64);
    out.append(cnt.as_str());
    out.append(":v=1:a=1[outv][outa]");
    proof {
        assert(out@ =~= spec_filter_graph(
            timings@,
            dimensions,
            video_width,
            video_height,
            scale_height,
        ));
    }
    Ok(out)
}

} // verus!
