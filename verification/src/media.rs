use vstd::prelude::*;
use vstd::string::*;
use crate::numbers::{all_digits, digits_val, digits_value};
use crate::text::{find_from, has_sub, has_substr, str_equal, trim_spec, trim_str, find_substr};

verus! {

/// One downloadable media rendition: its MIME type, its bitrate, and the
/// container it comes in.
#[derive(Clone, Debug)]
pub struct MediaFormat {
    pub mime: String,
    pub bitrate: u64,
    pub container: String,
}

/// The rendition's MIME type names audio.
pub open spec fn is_audio(f: MediaFormat) -> bool {
    has_sub(f.mime@, "audio"@)
}

/// Picks the container of the best audio rendition: among the entries whose
/// MIME type mentions audio, the last one of maximal bitrate; nothing when
/// no entry does.
pub fn best_audio_container(formats: &Vec<MediaFormat>) -> (r: Option<String>)
    ensures
        r is Some <==> exists|k: int| 0 <= k < formats@.len() && is_audio(#[trigger] formats@[k]),
        r is Some ==> exists|k: int|
            {
                &&& 0 <= k < formats@.len()
                &&& is_audio(#[trigger] formats@[k])
                &&& r->0@ == formats@[k].container@
                &&& forall|j: int|
                    0 <= j < formats@.len() && is_audio(#[trigger] formats@[j])
                        ==> formats@[j].bitrate <= formats@[k].bitrate
                &&& forall|j: int|
                    k < j < formats@.len() && is_audio(#[trigger] formats@[j])
                        ==> formats@[j].bitrate < formats@[k].bitrate
            },
{
    let mut best: usize = 0;
    let mut have = false;
    let mut k: usize = 0;
    while k < formats.len()
        invariant
            k <= formats@.len(),
            !have ==> forall|j: int| 0 <= j < k ==> !is_audio(#[trigger] formats@[j]),
            have ==> {
                &&& best < k
                &&& is_audio(formats@[best as int])
                &&& forall|j: int|
                    0 <= j < k && is_audio(#[trigger] formats@[j]) ==> formats@[j].bitrate
                        <= formats@[best as int].bitrate
                &&& forall|j: int|
                    best < j < k && is_audio(#[trigger] formats@[j]) ==> formats@[j].bitrate
                        < formats@[best as int].bitrate
            },
        decreases formats@.len() - k,
    {
        if has_substr(formats[k].mime.as_str(), "audio") {
            if !have || formats[k].bitrate >= formats[best].bitrate {
                best = k;
                have = true;
            }
        }
        k = k + 1;
    }
    if have {
        Some(formats[best].container.clone())
    } else {
        None
    }
}

/// What to do with an uploaded file, by its extension.
#[derive(Clone, Copy, Debug, PartialEq, Eq, Structural)]
pub enum UploadKind {
    CopyMp4,
    ConvertToMp4,
    Unsupported,
}

/// The upload decision for an extension: an `mp4` is copied as it stands, a
/// `webm` or `mkv` is converted, anything else is refused.
pub open spec fn spec_classify_upload(ext: Option<Seq<char>>) -> UploadKind {
    match ext {
        Some(e) => if e == "mp4"@ {
            UploadKind::CopyMp4
        } else if e == "webm"@ || e == "mkv"@ {
            UploadKind::ConvertToMp4
        } else {
            UploadKind::Unsupported
        },
        None => UploadKind::Unsupported,
    }
}

/// Decides how an uploaded file joins the job store.
pub fn classify_upload(extension: Option<&str>) -> (r: UploadKind)
    ensures
        r == spec_classify_upload(
            match extension {
                Some(e) => Some(e@),
                None => None,
            },
        ),
{
    match extension {
        Some(e) => {
            if str_equal(e, "mp4") {
                UploadKind::CopyMp4
            } else if str_equal(e, "webm") || str_equal(e, "mkv") {
                UploadKind::ConvertToMp4
            } else {
                UploadKind::Unsupported
            }
        },
        None => UploadKind::Unsupported,
    }
}

/// The transcoder audio codec used when extracting audio to the given
/// format: `libmp3lame` for mp3, `aac` for anything else.
pub fn audio_codec_name(audio_format: &str) -> (r: String)
    ensures
        r@ == (if audio_format@ == "mp3"@ {
            "libmp3lame"@
        } else {
            "aac"@
        }),
{
    if str_equal(audio_format, "mp3") {
        String::from_str("libmp3lame")
    } else {
        String::from_str("aac")
    }
}

/// The probe's size line decoded: the text, trimmed, must be two non-empty
/// decimal fields joined by a single `x`, each fitting a 32-bit count.
pub open spec fn spec_parse_dimensions(s: Seq<char>) -> Option<(u32, u32)> {
    let t = trim_spec(s);
    match find_from(t, "x"@, 0) {
        Some(i) => {
            let a = t.take(i);
            let b = t.skip(i + 1);
            if a.len() >= 1 && b.len() >= 1 && all_digits(a) && all_digits(b) && digits_val(a)
                <= 0xFFFF_FFFF && digits_val(b) <= 0xFFFF_FFFF {
                Some((digits_val(a) as u32, digits_val(b) as u32))
            } else {
                None
            }
        },
        None => None,
    }
}

/// Decodes the width and height from the probe's `<width>x<height>` line.
pub fn parse_dimensions(s: &str) -> (r: Option<(u32, u32)>)
    ensures
        r == spec_parse_dimensions(s@),
{
    let t = trim_str(s);
    let n = t.as_str().unicode_len();
    match find_substr(t.as_str(), "x") {
        Some(i) => {
            proof {
                reveal_strlit("x");
                crate::text::lemma_find_from_some(t@, "x"@, 0, i as int);
                assert(t@.take(i as int) =~= t@.subrange(0, i as int));
                assert(t@.skip(i as int + "x"@.len()) =~= t@.subrange(
                    i as int + "x"@.len(),
                    n as int,
                ));
            }
            let xlen = "x".unicode_len();
            if i == 0 || i + xlen >= n {
                return None;
            }
            let wa = digits_value(t.as_str(), 0, i, 0xFFFF_FFFF);
            let hb = digits_value(t.as_str(), i + xlen, n, 0xFFFF_FFFF);
            match (wa, hb) {
                (Some(w), Some(h)) => Some((w as u32, h as u32)),
                _ => None,
            }
        },
        None => None,
    }
}

} // verus!
