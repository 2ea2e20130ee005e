use vstd::prelude::*;
use vstd::string::*;
use crate::numbers::{dec_str, zero_pad, pow10, is_digit_char, u64_to_dec_pad, lemma_dec_str_digits, lemma_zero_pad_digits};

verus! {

/// The clock string for a timestamp of `ms` milliseconds: hours zero-padded
/// to at least two digits (wider only when needed), two minute digits, two
/// second digits, and three millisecond digits, each field truncated, never
/// rounded.
pub open spec fn spec_format_time(ms: nat) -> Seq<char> {
    zero_pad(dec_str(ms / 3600000), 2).add(seq![':']).add(
        zero_pad(dec_str((ms / 60000) % 60), 2),
    ).add(seq![':']).add(zero_pad(dec_str((ms / 1000) % 60), 2)).add(seq!['.']).add(
        zero_pad(dec_str(ms % 1000), 3),
    )
}

/// Formats a timestamp, given in whole milliseconds, as `HH:MM:SS.mmm`.
pub fn format_time(ms: u64) -> (r: String)
    ensures
        r@ == spec_format_time(ms as nat),
{
    let mut s = u64_to_dec_pad(ms / 3600000, 2);
    s.append(":");
    let m = u64_to_dec_pad((ms / 60000) % 60, 2);
    s.append(m.as_str());
    s.append(":");
    let sec = u64_to_dec_pad((ms / 1000) % 60, 2);
    s.append(sec.as_str());
    s.append(".");
    let f = u64_to_dec_pad(ms % 1000, 3);
    s.append(f.as_str());
    proof {
        reveal_strlit(":");
        reveal_strlit(".");
        assert((":")@ =~= seq![':']);
        assert((".")@ =~= seq!['.']);
        assert(s@ =~= spec_format_time(ms as nat));
    }
    s
}

/// A zero-padded numeral is at least as wide as asked and as the bare
/// numeral, is never empty, and consists of digit characters only.
proof fn lemma_pad_digits_min(n: nat, w: nat)
    ensures
        zero_pad(dec_str(n), w).len() >= w,
        zero_pad(dec_str(n), w).len() >= 1,
        forall|i: int|
            0 <= i < zero_pad(dec_str(n), w).len() ==> is_digit_char(
                #[trigger] zero_pad(dec_str(n), w)[i],
            ),
{
    lemma_dec_str_digits(n);
    let s = dec_str(n);
    if s.len() < w {
        let p = zero_pad(s, w);
        assert forall|i: int| 0 <= i < p.len() implies is_digit_char(#[trigger] p[i]) by {
            if i < w - s.len() {
                assert(p[i] == '0');
            } else {
                assert(p[i] == s[i - (w - s.len())]);
            }
        };
    }
}

/// Law: every formatted timestamp has the clock shape
/// `\d{2,}:\d{2}:\d{2}\.\d{3}` — at least two hour digits, a colon, two
/// minute digits, a colon, two second digits, a dot, and three millisecond
/// digits, and nothing else.
pub proof fn lemma_format_time_shape(ms: nat)
    ensures
        ({
            let t = spec_format_time(ms);
            &&& t.len() >= 12
            &&& (forall|i: int| 0 <= i < t.len() - 10 ==> is_digit_char(#[trigger] t[i]))
            &&& t[t.len() - 10] == ':'
            &&& is_digit_char(t[t.len() - 9])
            &&& is_digit_char(t[t.len() - 8])
            &&& t[t.len() - 7] == ':'
            &&& is_digit_char(t[t.len() - 6])
            &&& is_digit_char(t[t.len() - 5])
            &&& t[t.len() - 4] == '.'
            &&& is_digit_char(t[t.len() - 3])
            &&& is_digit_char(t[t.len() - 2])
            &&& is_digit_char(t[t.len() - 1])
        }),
{
    let h = zero_pad(dec_str(ms / 3600000), 2);
    let m = zero_pad(dec_str((ms / 60000) % 60), 2);
    let s2 = zero_pad(dec_str((ms / 1000) % 60), 2);
    let f = zero_pad(dec_str(ms % 1000), 3);
    lemma_pad_digits_min(ms / 3600000, 2);
    assert(pow10(0) == 1);
    assert(pow10(1) == 10);
    assert(pow10(2) == 100);
    assert(pow10(3) == 1000);
    lemma_zero_pad_digits((ms / 60000) % 60, 2);
    lemma_zero_pad_digits((ms / 1000) % 60, 2);
    lemma_zero_pad_digits(ms % 1000, 3);
    let t = spec_format_time(ms);
    assert(t.len() == h.len() + 10);
    assert forall|i: int| 0 <= i < t.len() - 10 implies is_digit_char(#[trigger] t[i]) by {
        assert(t[i] == h[i]);
    };
    assert(t[t.len() - 9] == m[0]);
    assert(t[t.len() - 8] == m[1]);
    assert(t[t.len() - 6] == s2[0]);
    assert(t[t.len() - 5] == s2[1]);
    assert(t[t.len() - 3] == f[0]);
    assert(t[t.len() - 2] == f[1]);
    assert(t[t.len() - 1] == f[2]);
}

} // verus!
