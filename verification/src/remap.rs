use vstd::prelude::*;
use vstd::string::*;
use crate::errors::ClipError;
use crate::numbers::{
    all_digits, digits_val, digits_value, dec_i, i64_to_dec, pow10, pow10_u64, is_digit_char,
    lemma_pow10_mono, lemma_pow10_18,
};
use crate::text::lemma_strip_trailing_eq;
use vstd::arithmetic::mul::{lemma_mul_upper_bound, lemma_mul_inequality};
use vstd::arithmetic::div_mod::{lemma_div_is_ordered, lemma_div_multiples_vanish_fancy};
use crate::text::{
    contains_at, unlines, find_from, has_sub, lines_of, strip_trailing, strip_trailing_char,
    trim_start_spec, trim_start_str, lemma_contains_at_single, lemma_find_from_first,
    lemma_find_from_none, lemma_find_from_some, split_lines, has_substr, find_substr,
};

verus! {

/// The largest integer part the percentage parser accepts, in percent, and
/// the largest number of fraction digits it keeps (after trailing zeros are
/// dropped). Both caps exist only because of overflow: they are the bounds
/// under which the pixel computation below stays exact in 128-bit
/// arithmetic.
pub const MAX_PCT_INT: u64 = 1_000_000_000;

/// See `MAX_PCT_INT`.
pub const MAX_PCT_FRAC_DIGITS: usize = 18;

/// The calibration divisor the source pipeline uses when remapping caption
/// line percentages to pixels.
pub const DEFAULT_LINE_DIVISOR: u32 = 92;

/// A digit string's value stays below ten to the power of its length.
proof fn lemma_digits_val_bound(s: Seq<char>)
    requires
        all_digits(s),
    ensures
        digits_val(s) < pow10(s.len()),
    decreases s.len(),
{
    if s.len() > 0 {
        assert(all_digits(s.drop_last())) by {
            assert(forall|i: int|
                0 <= i < s.len() - 1 ==> #[trigger] s.drop_last()[i] == s[i]);
        };
        lemma_digits_val_bound(s.drop_last());
        assert(crate::numbers::digit_val(s.last()) <= 9);
        assert(digits_val(s.drop_last()) * 10 + 9 < pow10(s.drop_last().len()) * 10) by {
            assert(digits_val(s.drop_last()) + 1 <= pow10(s.drop_last().len()));
        };
    }
}

/// The accepted integer and fractional digit fields as an exact scaled
/// percentage: the sign, the value scaled by ten to the number of kept
/// fraction digits, and that digit count. Trailing zeros of the fraction
/// are dropped first, which leaves the value unchanged. Nothing when a
/// field holds a non-digit, both fields are empty, the integer part exceeds
/// `MAX_PCT_INT` percent, or more than `MAX_PCT_FRAC_DIGITS` fraction
/// digits remain.
pub open spec fn pct_of(ip: Seq<char>, fp0: Seq<char>, neg: bool) -> Option<(bool, nat, nat)> {
    let fp = strip_trailing(fp0, '0');
    if all_digits(ip) && all_digits(fp0) && ip.len() + fp0.len() >= 1 && digits_val(ip)
        <= MAX_PCT_INT && fp.len() <= MAX_PCT_FRAC_DIGITS {
        Some((neg, digits_val(ip) * pow10(fp.len()) + digits_val(fp), fp.len()))
    } else {
        None
    }
}

/// Parses a signed decimal percentage exactly: an optional sign, then digit
/// fields around at most one decimal point, with at least one digit in all;
/// nothing when the text is malformed or a cap of `pct_of` is passed.
pub open spec fn parse_pct_spec(s: Seq<char>) -> Option<(bool, nat, nat)> {
    let neg = s.len() > 0 && s[0] == '-';
    let rest = if s.len() > 0 && (s[0] == '-' || s[0] == '+') {
        s.skip(1)
    } else {
        s
    };
    match find_from(rest, seq!['.'], 0) {
        Some(d) => pct_of(rest.take(d), rest.skip(d + 1), neg),
        None => pct_of(rest, Seq::empty(), neg),
    }
}

/// Parses a signed decimal percentage into its sign, its value scaled by
/// ten to the number of kept fraction digits, and that digit count.
#[verifier::rlimit(80)]
pub fn parse_percentage(s: &str) -> (r: Option<(bool, u128, usize)>)
    ensures
        r is Some <==> parse_pct_spec(s@) is Some,
        r is Some ==> parse_pct_spec(s@) == Some(
            ((r->0).0, (r->0).1 as nat, (r->0).2 as nat),
        ),
        r is Some ==> (r->0).2 <= MAX_PCT_FRAC_DIGITS,
        r is Some ==> ((r->0).1 as nat) < 1_000_000_001 * pow10((r->0).2 as nat),
{
    let n = s.unicode_len();
    let mut i: usize = 0;
    let mut neg = false;
    if n > 0 {
        let c0 = s.get_char(0);
        if c0 == '-' {
            neg = true;
            i = 1;
        } else if c0 == '+' {
            i = 1;
        }
    }
    let ghost rest = s@.skip(i as int);
    proof {
        if i == 0 {
            assert(rest =~= s@);
        }
    }
    let mut j = i;
    while j < n && s.get_char(j) != '.'
        invariant
            i <= j <= n,
            n == s@.len(),
            forall|k: int| i <= k < j ==> s@[k] != '.',
        decreases n - j,
    {
        j = j + 1;
    }
    let found = j < n;
    proof {
        assert(rest.len() == n - i);
        assert forall|k: int| 0 <= k < j - i implies !contains_at(rest, seq!['.'], k) by {
            lemma_contains_at_single(rest, '.', k);
            assert(rest[k] == s@[k + i]);
        };
        if found {
            lemma_contains_at_single(rest, '.', j - i);
            assert(rest[j - i] == s@[j as int]);
            lemma_find_from_first(rest, seq!['.'], 0, j - i);
        } else {
            assert forall|k: int| 0 <= k implies !contains_at(rest, seq!['.'], k) by {
                lemma_contains_at_single(rest, '.', k);
                if 0 <= k < rest.len() {
                    assert(rest[k] == s@[k + i]);
                }
            };
            lemma_find_from_none(rest, seq!['.'], 0);
        }
    }
    let ip_to: usize = if found {
        j
    } else {
        n
    };
    let fp_from: usize = if found {
        j + 1
    } else {
        n
    };
    let ghost ip = s@.subrange(i as int, ip_to as int);
    let ghost fp0 = s@.subrange(fp_from as int, n as int);
    proof {
        if found {
            assert(ip =~= rest.take(j - i));
            assert(fp0 =~= rest.skip(j - i + 1));
        } else {
            assert(ip =~= rest);
            assert(fp0 =~= Seq::<char>::empty());
        }
    }
    if ip_to - i == 0 && n - fp_from == 0 {
        return None;
    }
    let ipv = match digits_value(s, i, ip_to, MAX_PCT_INT) {
        None => {
            return None;
        },
        Some(v) => v,
    };
    // drop the fraction's trailing zeros; they do not change the value
    let mut fp_end = n;
    while fp_end > fp_from && s.get_char(fp_end - 1) == '0'
        invariant
            fp_from <= fp_end <= n,
            n == s@.len(),
            forall|q: int| fp_end <= q < n ==> s@[q] == '0',
        decreases fp_end,
    {
        fp_end = fp_end - 1;
    }
    let ghost fpk = s@.subrange(fp_from as int, fp_end as int);
    proof {
        assert forall|q: int| fp_end - fp_from <= q < fp0.len() implies fp0[q] == '0' by {
            assert(fp0[q] == s@[q + fp_from]);
        };
        if fp_end > fp_from {
            assert(fp0[fp_end - fp_from - 1] == s@[fp_end - 1]);
        }
        lemma_strip_trailing_eq(fp0, '0', fp_end - fp_from);
        assert(fp0.take(fp_end - fp_from) =~= fpk);
        assert(strip_trailing(fp0, '0') == fpk);
    }
    let flen = fp_end - fp_from;
    if flen > MAX_PCT_FRAC_DIGITS {
        return None;
    }
    proof {
        if all_digits(fpk) {
            lemma_digits_val_bound(fpk);
            lemma_pow10_mono(fpk.len(), 18);
            lemma_pow10_18();
        }
    }
    let fval = match digits_value(s, fp_from, fp_end, 999_999_999_999_999_999) {
        None => {
            proof {
                assert(!all_digits(fpk));
                let w = choose|q: int| 0 <= q < fpk.len() && !(#[trigger] is_digit_char(
                    fpk[q],
                ));
                assert(fpk[w] == fp0[w]);
                assert(!is_digit_char(fp0[w]));
            }
            return None;
        },
        Some(v) => v,
    };
    proof {
        assert forall|q: int| 0 <= q < fp0.len() implies is_digit_char(#[trigger] fp0[q]) by {
            if q < fpk.len() {
                assert(fp0[q] == fpk[q]);
            } else {
                assert(fp0[q] == s@[q + fp_from]);
                assert(s@[q + fp_from] == '0');
            }
        };
    }
    let p10 = pow10_u64(flen);
    proof {
        lemma_pow10_mono(flen as nat, 18);
        lemma_pow10_18();
        lemma_mul_upper_bound(
            ipv as int,
            1_000_000_000,
            p10 as int,
            1_000_000_000_000_000_000,
        );
        lemma_digits_val_bound(fpk);
        assert(fval < pow10(flen as nat));
        lemma_mul_inequality(digits_val(ip) as int, 1_000_000_000, pow10(flen as nat) as int);
    }
    let num: u128 = (ipv as u128) * (p10 as u128) + (fval as u128);
    Some((neg, num, flen))
}

/// Division truncated toward zero, for a positive divisor.
pub open spec fn trunc_div(a: int, b: int) -> int {
    if a >= 0 {
        a / b
    } else {
        -((-a) / b)
    }
}

/// The pixel offset for a parsed caption line percentage (sign, value
/// scaled by ten to `k`, and `k` fraction digits), a video height, and a
/// calibration divisor: `(1 - percentage/divisor) * height`, computed
/// exactly and truncated toward zero.
pub open spec fn spec_percent_to_pixel(neg: bool, num: nat, k: nat, h: int, d: int) -> int {
    let scaled = d * pow10(k);
    let p = if neg {
        -(num as int)
    } else {
        num as int
    };
    trunc_div((scaled - p) * h, scaled)
}

/// Computes the pixel offset for a parsed percentage.
#[verifier::rlimit(80)]
pub fn percent_to_pixel(
    neg: bool,
    num: u128,
    frac_digits: usize,
    video_height: i32,
    divisor: u32,
) -> (r: i64)
    requires
        frac_digits <= MAX_PCT_FRAC_DIGITS,
        (num as nat) < 1_000_000_001 * pow10(frac_digits as nat),
        1 <= divisor <= 100_000,
    ensures
        r as int == spec_percent_to_pixel(
            neg,
            num as nat,
            frac_digits as nat,
            video_height as int,
            divisor as int,
        ),
{
    let p10 = pow10_u64(frac_digits);
    proof {
        lemma_pow10_mono(0, frac_digits as nat);
        lemma_pow10_mono(frac_digits as nat, 18);
        lemma_pow10_18();
        lemma_mul_upper_bound(divisor as int, 100_000, p10 as int, 1_000_000_000_000_000_000);
        lemma_mul_upper_bound(
            1_000_000_001,
            1_000_000_001,
            pow10(frac_digits as nat) as int,
            1_000_000_000_000_000_000,
        );
    }
    let scaled: u128 = (divisor as u128) * (p10 as u128);
    proof {
        lemma_mul_inequality(1, divisor as int, p10 as int);
        assert(p10 <= scaled);
    }
    let n_neg: bool;
    let n_mag: u128;
    if neg {
        n_neg = false;
        n_mag = scaled + num;
    } else if num <= scaled {
        n_neg = false;
        n_mag = scaled - num;
    } else {
        n_neg = true;
        n_mag = num - scaled;
    }
    let h_neg = video_height < 0;
    let mh: u128 = if h_neg {
        (-(video_height as i64)) as u128
    } else {
        video_height as u128
    };
    proof {
        lemma_mul_upper_bound(
            n_mag as int,
            1_100_000_000_000_000_000_000_000_000,
            mh as int,
            2_147_483_648,
        );
    }
    let prod: u128 = n_mag * mh;
    let q: u128 = prod / scaled;
    proof {
        // the quotient is small enough for i64: the numerator magnitude is
        // below 1_000_000_002 * scaled
        lemma_mul_inequality(
            pow10(frac_digits as nat) as int,
            scaled as int,
            1_000_000_001,
        );
        assert(num < 1_000_000_001 * (scaled as int));
        assert(n_mag as int <= 1_000_000_002 * (scaled as int));
        lemma_mul_inequality(n_mag as int, 1_000_000_002 * (scaled as int), mh as int);
        assert((1_000_000_002 * (scaled as int)) * (mh as int) == (scaled as int) * (
        1_000_000_002 * (mh as int))) by (nonlinear_arith);
        lemma_div_is_ordered(
            prod as int,
            (scaled as int) * (1_000_000_002 * (mh as int)),
            scaled as int,
        );
        lemma_div_multiples_vanish_fancy(1_000_000_002 * (mh as int), 0, scaled as int);
        assert((scaled as int) * (1_000_000_002 * (mh as int)) + 0 == (scaled as int) * (
        1_000_000_002 * (mh as int)));
        assert(q as int <= 1_000_000_002 * (mh as int));
        lemma_mul_upper_bound(1_000_000_002, 1_000_000_002, mh as int, 2_147_483_648);
    }
    let qi: i64 = q as i64;
    let r = if n_neg != h_neg {
        -qi
    } else {
        qi
    };
    proof {
        let scaled_i = scaled as int;
        let p: int = if neg {
            -(num as int)
        } else {
            num as int
        };
        let ni: int = scaled_i - p;
        let hi = video_height as int;
        let a = ni * hi;
        assert(n_mag as int == (if ni >= 0 { ni } else { -ni }));
        if n_neg {
            if h_neg {
                assert(a == n_mag as int * mh as int) by (nonlinear_arith)
                    requires
                        a == ni * hi,
                        ni == -(n_mag as int),
                        hi == -(mh as int),
                ;
            } else {
                assert(a == -(n_mag as int * mh as int)) by (nonlinear_arith)
                    requires
                        a == ni * hi,
                        ni == -(n_mag as int),
                        hi == mh as int,
                ;
            }
        } else {
            if h_neg {
                assert(a == -(n_mag as int * mh as int)) by (nonlinear_arith)
                    requires
                        a == ni * hi,
                        ni == n_mag as int,
                        hi == -(mh as int),
                ;
            } else {
                assert(a == n_mag as int * mh as int) by (nonlinear_arith)
                    requires
                        a == ni * hi,
                        ni == n_mag as int,
                        hi == mh as int,
                ;
            }
        }
        assert(prod as int == a || prod as int == -a);
        if a >= 0 {
            assert(prod as int == a);
            if n_neg != h_neg {
                assert(prod == 0);
            }
        } else {
            assert(prod as int == -a);
        }
    }
    r
}

/// How one cue line is remapped: a line holding both a timestamp arrow and a
/// position marker has the text after the marker (leading whitespace and
/// trailing percent signs stripped) parsed as a percentage and the whole
/// remainder replaced by `line:<pixels>%`; other lines pass through
/// unchanged. The marker is deliberately taken as the line's last field:
/// everything after it is the percentage, so a line with further text there
/// is rejected as a malformed percentage rather than partly preserved.
/// Characters before the marker are kept exactly. A malformed percentage
/// yields the offending text.
pub open spec fn spec_remap_line(l: Seq<char>, h: int, d: int) -> Result<Seq<char>, Seq<char>> {
    if has_sub(l, "-->"@) && has_sub(l, "line:"@) {
        match find_from(l, "line:"@, 0) {
            Some(m) => {
                let cand = strip_trailing(trim_start_spec(l.skip(m + "line:"@.len())), '%');
                match parse_pct_spec(cand) {
                    Some(p) => Ok(
                        l.take(m) + "line:"@ + dec_i(
                            spec_percent_to_pixel(p.0, p.1, p.2, h, d),
                        ) + "%"@,
                    ),
                    None => Err(cand),
                }
            },
            None => Ok(l),
        }
    } else {
        Ok(l)
    }
}

/// The remapped lines: every line remapped and terminated with a line feed,
/// or the first offending percentage text.
pub open spec fn spec_remap_lines(ls: Seq<Seq<char>>, h: int, d: int) -> Result<
    Seq<char>,
    Seq<char>,
>
    decreases ls.len(),
{
    if ls.len() == 0 {
        Ok(Seq::empty())
    } else {
        match spec_remap_line(ls[0], h, d) {
            Ok(m) => match spec_remap_lines(ls.skip(1), h, d) {
                Ok(rest) => Ok(m + "\n"@ + rest),
                Err(e) => Err(e),
            },
            Err(e) => Err(e),
        }
    }
}

/// The remapped file for input `s`: its lines remapped in order, each
/// terminated with a line feed, or the first offending percentage text.
pub open spec fn spec_remap(s: Seq<char>, h: int, d: int) -> Result<Seq<char>, Seq<char>> {
    spec_remap_lines(lines_of(s), h, d)
}

/// Rewrites every positioned cue line of `content`: the percentage after its
/// position marker becomes the absolute pixel offset for `video_height`,
/// computed with the calibration `divisor`; every other line passes through
/// unchanged, with line endings normalised to a line feed. Fails with a
/// parse error naming the offending text when a percentage is malformed.
pub fn vtt_line_to_pixel(content: &str, video_height: i32, divisor: u32) -> (r: Result<
    String,
    ClipError,
>)
    requires
        1 <= divisor <= 100_000,
    ensures
        r is Ok <==> spec_remap(content@, video_height as int, divisor as int) is Ok,
        r is Ok ==> r->Ok_0@ == spec_remap(content@, video_height as int, divisor as int)->Ok_0,
        r is Err ==> r->Err_0 is ParseError,
        r is Err ==> r->Err_0.message_view() == "invalid percentage value: "@ + spec_remap(
            content@,
            video_height as int,
            divisor as int,
        )->Err_0,
{
    let ghost ls = lines_of(content@);
    let ghost hh = video_height as int;
    let ghost dd = divisor as int;
    let lines = split_lines(content);
    let mut out = String::new();
    let mut i: usize = 0;
    proof {
        assert(ls.skip(0) =~= ls);
    }
    while i < lines.len()
        invariant
            i <= lines@.len(),
            lines.deep_view() == ls,
            hh == video_height as int,
            dd == divisor as int,
            1 <= divisor <= 100_000,
            ls == lines_of(content@),
            match spec_remap_lines(ls.skip(i as int), hh, dd) {
                Ok(rest) => spec_remap(content@, hh, dd) == Ok::<Seq<char>, Seq<char>>(
                    out@ + rest,
                ),
                Err(e) => spec_remap(content@, hh, dd) == Err::<Seq<char>, Seq<char>>(e),
            },
        decreases lines@.len() - i,
    {
        proof {
            assert(ls.skip(i as int)[0] == ls[i as int]);
            assert(ls.skip(i as int).skip(1) =~= ls.skip(i as int + 1));
        }
        let line = &lines[i];
        let nl = line.as_str().unicode_len();
        let has_arrow = has_substr(line.as_str(), "-->");
        let marker = find_substr(line.as_str(), "line:");
        let ghost out0 = out@;
        if has_arrow && marker.is_some() {
            let m = marker.unwrap();
            let mlen = "line:".unicode_len();
            proof {
                lemma_find_from_some(line@, "line:"@, 0, m as int);
            }
            let tail = line.as_str().substring_char(m + mlen, nl);
            let t1 = trim_start_str(tail);
            let cand = strip_trailing_char(t1.as_str(), '%');
            proof {
                assert(tail@ =~= line@.skip(m + "line:"@.len()));
            }
            match parse_percentage(cand.as_str()) {
                Some((pneg, pnum, pk)) => {
                    let px = percent_to_pixel(pneg, pnum, pk, video_height, divisor);
                    let pre = line.as_str().substring_char(0, m);
                    out.append(pre);
                    out.append("line:");
                    let pxs = i64_to_dec(px);
                    out.append(pxs.as_str());
                    out.append("%");
                    out.append("\n");
                    proof {
                        assert(pre@ =~= line@.take(m as int));
                        let mapped = spec_remap_line(ls[i as int], hh, dd);
                        assert(mapped is Ok);
                        assert(out@ =~= out0 + mapped->Ok_0 + "\n"@);
                    }
                },
                None => {
                    let mut msg = String::from_str("invalid percentage value: ");
                    msg.append(cand.as_str());
                    proof {
                        let mapped = spec_remap_line(ls[i as int], hh, dd);
                        assert(mapped == Result::<Seq<char>, Seq<char>>::Err(cand@));
                        assert(spec_remap_lines(ls.skip(i as int), hh, dd) == Result::<
                            Seq<char>,
                            Seq<char>,
                        >::Err(cand@));
                    }
                    return Err(ClipError::ParseError(msg));
                },
            }
        } else {
            out.append(line.as_str());
            out.append("\n");
            proof {
                let mapped = spec_remap_line(ls[i as int], hh, dd);
                assert(mapped == Result::<Seq<char>, Seq<char>>::Ok(ls[i as int]));
                assert(out@ =~= out0 + ls[i as int] + "\n"@);
            }
        }
        i = i + 1;
        proof {
            let mapped = spec_remap_line(ls[i - 1], hh, dd);
            match spec_remap_lines(ls.skip(i as int), hh, dd) {
                Ok(rest) => {
                    assert(out@ + rest =~= out0 + (mapped->Ok_0 + "\n"@ + rest));
                },
                Err(_) => {},
            }
        }
    }
    proof {
        assert(ls.skip(i as int).len() == 0);
        assert(out@ + Seq::<char>::empty() =~= out@);
    }
    Ok(out)
}

/// On lines that hold no positioned-cue marker pair, remapping is the
/// identity on every line, and the result is the lines re-joined with line
/// feeds.
proof fn lemma_remap_lines_id(ls: Seq<Seq<char>>, h: int, d: int)
    requires
        forall|i: int|
            0 <= i < ls.len() ==> !(has_sub(#[trigger] ls[i], "-->"@) && has_sub(
                ls[i],
                "line:"@,
            )),
    ensures
        spec_remap_lines(ls, h, d) == Ok::<Seq<char>, Seq<char>>(unlines(ls)),
    decreases ls.len(),
{
    if ls.len() > 0 {
        assert(spec_remap_line(ls[0], h, d) == Ok::<Seq<char>, Seq<char>>(ls[0]));
        assert forall|i: int|
            0 <= i < ls.skip(1).len() implies !(has_sub(#[trigger] ls.skip(1)[i], "-->"@)
            && has_sub(ls.skip(1)[i], "line:"@)) by {
            assert(ls.skip(1)[i] == ls[i + 1]);
        };
        lemma_remap_lines_id(ls.skip(1), h, d);
    }
}

/// Law: the remapper is idempotent on marker-free content. Where no line
/// holds both a timestamp arrow and a position marker, remapping succeeds,
/// carries every line over unchanged with its ending normalised to a line
/// feed, and remapping the result again returns it verbatim. A line ending
/// in a carriage return is excluded: the first pass folds that carriage
/// return into the line ending.
pub proof fn lemma_remap_idempotent(content: Seq<char>, h: int, d: int)
    requires
        forall|i: int|
            0 <= i < lines_of(content).len() ==> !(has_sub(
                #[trigger] lines_of(content)[i],
                "-->"@,
            ) && has_sub(lines_of(content)[i], "line:"@)),
        forall|i: int|
            0 <= i < lines_of(content).len() ==> (lines_of(content)[i].len() == 0 || lines_of(
                content,
            )[i].last() != '\r'),
    ensures
        spec_remap(content, h, d) is Ok,
        spec_remap(spec_remap(content, h, d)->Ok_0, h, d) == spec_remap(content, h, d),
{
    let ls = lines_of(content);
    lemma_remap_lines_id(ls, h, d);
    crate::text::lemma_lines_of_no_nl(content);
    crate::text::lemma_lines_of_unlines(ls);
    let out = unlines(ls);
    assert(spec_remap(content, h, d) == Ok::<Seq<char>, Seq<char>>(out));
    assert(lines_of(out) == ls);
    lemma_remap_lines_id(lines_of(out), h, d);
}

} // verus!
