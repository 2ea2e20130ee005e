use vstd::prelude::*;
use vstd::string::*;

verus! {

/// True of the ten ASCII digit characters.
pub open spec fn is_digit_char(c: char) -> bool {
    48 <= c as u32 && c as u32 <= 57
}

/// The digit character for a value in 0..=9.
pub open spec fn digit_char(d: int) -> char {
    if d == 0 {
        '0'
    } else if d == 1 {
        '1'
    } else if d == 2 {
        '2'
    } else if d == 3 {
        '3'
    } else if d == 4 {
        '4'
    } else if d == 5 {
        '5'
    } else if d == 6 {
        '6'
    } else if d == 7 {
        '7'
    } else if d == 8 {
        '8'
    } else {
        '9'
    }
}

/// The numeric value of a digit character.
pub open spec fn digit_val(c: char) -> nat {
    (c as u32 - 48) as nat
}

/// The decimal numeral of `n`, most significant digit first, no padding.
pub open spec fn dec_str(n: nat) -> Seq<char>
    decreases n,
{
    if n < 10 {
        seq![digit_char(n as int)]
    } else {
        dec_str(n / 10).add(seq![digit_char((n % 10) as int)])
    }
}

/// The decimal numeral of a possibly negative integer.
pub open spec fn dec_i(n: int) -> Seq<char> {
    if n < 0 {
        seq!['-'].add(dec_str((-n) as nat))
    } else {
        dec_str(n as nat)
    }
}

/// `s` preceded by enough `'0'` characters to reach width `w`.
pub open spec fn zero_pad(s: Seq<char>, w: nat) -> Seq<char> {
    if s.len() >= w {
        s
    } else {
        Seq::new((w - s.len()) as nat, |k: int| '0').add(s)
    }
}

/// 10 to the power `k`.
pub open spec fn pow10(k: nat) -> nat
    decreases k,
{
    if k == 0 {
        1
    } else {
        10 * pow10((k - 1) as nat)
    }
}

/// A decimal numeral is never empty and consists of digit characters only.
pub proof fn lemma_dec_str_digits(n: nat)
    ensures
        dec_str(n).len() >= 1,
        forall|i: int| 0 <= i < dec_str(n).len() ==> is_digit_char(#[trigger] dec_str(n)[i]),
    decreases n,
{
    if n >= 10 {
        lemma_dec_str_digits(n / 10);
    }
}

/// A value below `pow10(k)` has a numeral of at most `k` digits.
pub proof fn lemma_dec_str_len(n: nat, k: nat)
    requires
        k >= 1,
        n < pow10(k),
    ensures
        dec_str(n).len() <= k,
    decreases k,
{
    if n >= 10 {
        assert(pow10(0) == 1);
        assert(pow10(1) == 10);
        if k == 1 {
            assert(false);
        }
        assert(pow10(k) == 10 * pow10((k - 1) as nat));
        assert(n / 10 < pow10((k - 1) as nat)) by {
            assert(n < 10 * pow10((k - 1) as nat));
        };
        lemma_dec_str_len(n / 10, (k - 1) as nat);
    }
}

/// Zero-padding to width `w` yields exactly width `w` when the numeral fits,
/// and keeps every character a digit.
pub proof fn lemma_zero_pad_digits(n: nat, w: nat)
    requires
        n < pow10(w),
        w >= 1,
    ensures
        zero_pad(dec_str(n), w).len() == w,
        forall|i: int|
            0 <= i < w ==> is_digit_char(#[trigger] zero_pad(dec_str(n), w)[i]),
{
    lemma_dec_str_digits(n);
    lemma_dec_str_len(n, w);
    let s = dec_str(n);
    if s.len() < w {
        let p = zero_pad(s, w);
        assert forall|i: int| 0 <= i < w implies is_digit_char(#[trigger] p[i]) by {
            if i < w - s.len() {
                assert(p[i] == '0');
            } else {
                assert(p[i] == s[i - (w - s.len())]);
            }
        };
    }
}

/// Appends the digit character for `d` to `s`.
fn push_digit(s: &mut String, d: u64)
    requires
        d < 10,
    ensures
        final(s)@ == old(s)@.add(seq![digit_char(d as int)]),
{
    proof {
        reveal_strlit("0");
        reveal_strlit("1");
        reveal_strlit("2");
        reveal_strlit("3");
        reveal_strlit("4");
        reveal_strlit("5");
        reveal_strlit("6");
        reveal_strlit("7");
        reveal_strlit("8");
        reveal_strlit("9");
    }
    match d {
        0 => {
            s.append("0");
            proof {
                assert(("0")@ =~= seq![digit_char(0)]);
            }
        },
        1 => {
            s.append("1");
            proof {
                assert(("1")@ =~= seq![digit_char(1)]);
            }
        },
        2 => {
            s.append("2");
            proof {
                assert(("2")@ =~= seq![digit_char(2)]);
            }
        },
        3 => {
            s.append("3");
            proof {
                assert(("3")@ =~= seq![digit_char(3)]);
            }
        },
        4 => {
            s.append("4");
            proof {
                assert(("4")@ =~= seq![digit_char(4)]);
            }
        },
        5 => {
            s.append("5");
            proof {
                assert(("5")@ =~= seq![digit_char(5)]);
            }
        },
        6 => {
            s.append("6");
            proof {
                assert(("6")@ =~= seq![digit_char(6)]);
            }
        },
        7 => {
            s.append("7");
            proof {
                assert(("7")@ =~= seq![digit_char(7)]);
            }
        },
        8 => {
            s.append("8");
            proof {
                assert(("8")@ =~= seq![digit_char(8)]);
            }
        },
        _ => {
            s.append("9");
            proof {
                assert(("9")@ =~= seq![digit_char(9)]);
            }
        },
    }
}

/// Renders `n` as its decimal numeral.
pub fn u64_to_dec(n: u64) -> (r: String)
    ensures
        r@ == dec_str(n as nat),
    decreases n,
{
    if n < 10 {
        let mut s = String::new();
        push_digit(&mut s, n);
        proof {
            assert(s@ =~= dec_str(n as nat));
        }
        s
    } else {
        let mut s = u64_to_dec(n / 10);
        push_digit(&mut s, n % 10);
        s
    }
}

/// Renders a possibly negative integer as its decimal numeral.
pub fn i64_to_dec(n: i64) -> (r: String)
    ensures
        r@ == dec_i(n as int),
{
    if n >= 0 {
        u64_to_dec(n as u64)
    } else {
        let mag: u64 = (-(n as i128)) as u64;
        let mut s = String::new();
        s.append("-");
        let d = u64_to_dec(mag);
        s.append(d.as_str());
        proof {
            reveal_strlit("-");
            assert(("-")@ =~= seq!['-']);
            assert(s@ =~= dec_i(n as int));
        }
        s
    }
}

/// Renders `n` zero-padded to at least `width` characters.
pub fn u64_to_dec_pad(n: u64, width: usize) -> (r: String)
    ensures
        r@ == zero_pad(dec_str(n as nat), width as nat),
{
    let d = u64_to_dec(n);
    let len = d.as_str().unicode_len();
    if len >= width {
        d
    } else {
        let pad: usize = width - len;
        let mut s = String::new();
        let mut i: usize = 0;
        proof {
            reveal_strlit("0");
        }
        while i < pad
            invariant
                i <= pad,
                s@ =~= Seq::new(i as nat, |k: int| '0'),
            decreases pad - i,
        {
            s.append("0");
            i = i + 1;
            proof {
                reveal_strlit("0");
                assert(("0")@ =~= seq!['0']);
                assert(s@ =~= Seq::new(i as nat, |k: int| '0'));
            }
        }
        s.append(d.as_str());
        proof {
            assert(s@ =~= zero_pad(dec_str(n as nat), width as nat));
        }
        s
    }
}

/// Every character of `s` is a digit.
pub open spec fn all_digits(s: Seq<char>) -> bool {
    forall|i: int| 0 <= i < s.len() ==> is_digit_char(#[trigger] s[i])
}

/// The value of a digit string, most significant digit first.
pub open spec fn digits_val(s: Seq<char>) -> nat
    decreases s.len(),
{
    if s.len() == 0 {
        0
    } else {
        digits_val(s.drop_last()) * 10 + digit_val(s.last())
    }
}

/// Evaluates the digit string `s[from..to]`. Yields its value when every
/// character is a digit and the value is at most `cap`; nothing otherwise.
pub fn digits_value(s: &str, from: usize, to: usize, cap: u64) -> (r: Option<u64>)
    requires
        from <= to <= s@.len(),
        cap <= 1_000_000_000_000_000_000,
    ensures
        ({
            let sub = s@.subrange(from as int, to as int);
            &&& (r is Some <==> all_digits(sub) && digits_val(sub) <= cap)
            &&& (r is Some ==> r->0 == digits_val(sub))
        }),
{
    let mut acc: u64 = 0;
    let mut over = false;
    let mut k = from;
    proof {
        assert(s@.subrange(from as int, from as int) =~= Seq::<char>::empty());
    }
    while k < to
        invariant
            from <= k <= to <= s@.len(),
            cap <= 1_000_000_000_000_000_000,
            forall|j: int| from <= j < k ==> is_digit_char(#[trigger] s@[j]),
            !over ==> acc == digits_val(s@.subrange(from as int, k as int)) && acc <= cap,
            over ==> digits_val(s@.subrange(from as int, k as int)) > cap,
        decreases to - k,
    {
        let c = s.get_char(k);
        let u = c as u32;
        if u < 48 || u > 57 {
            proof {
                let sub = s@.subrange(from as int, to as int);
                assert(!is_digit_char(sub[k - from]));
            }
            return None;
        }
        let d = (u - 48) as u64;
        let ghost prev = s@.subrange(from as int, k as int);
        proof {
            assert(s@.subrange(from as int, k + 1).drop_last() =~= prev);
            assert(s@.subrange(from as int, k + 1).last() == s@[k as int]);
        }
        if !over {
            let next = acc * 10 + d;
            if next > cap {
                over = true;
            } else {
                acc = next;
            }
        } else {
            proof {
                assert(digits_val(s@.subrange(from as int, k + 1)) == digits_val(prev) * 10
                    + digit_val(s@[k as int]));
                assert(digits_val(prev) * 10 >= digits_val(prev)) by (nonlinear_arith);
            }
        }
        k = k + 1;
    }
    if over {
        None
    } else {
        Some(acc)
    }
}


/// Ten to a higher power is no smaller.
pub proof fn lemma_pow10_mono(a: nat, b: nat)
    requires
        a <= b,
    ensures
        pow10(a) <= pow10(b),
    decreases b,
{
    if a < b {
        lemma_pow10_mono(a, (b - 1) as nat);
        assert(pow10((b - 1) as nat) * 10 >= pow10((b - 1) as nat)) by (nonlinear_arith);
    }
}

/// The value of ten to the eighteenth, written out.
pub proof fn lemma_pow10_18()
    ensures
        pow10(18) == 1_000_000_000_000_000_000,
{
    assert(pow10(0) == 1);
    assert(pow10(1) == 10);
    assert(pow10(2) == 100);
    assert(pow10(3) == 1000);
    assert(pow10(4) == 10000);
    assert(pow10(5) == 100000);
    assert(pow10(6) == 1000000);
    assert(pow10(7) == 10000000);
    assert(pow10(8) == 100000000);
    assert(pow10(9) == 1000000000);
    assert(pow10(10) == 10000000000);
    assert(pow10(11) == 100000000000);
    assert(pow10(12) == 1000000000000);
    assert(pow10(13) == 10000000000000);
    assert(pow10(14) == 100000000000000);
    assert(pow10(15) == 1000000000000000);
    assert(pow10(16) == 10000000000000000);
    assert(pow10(17) == 100000000000000000);
    assert(pow10(18) == 1000000000000000000);
}

/// Computes ten to the power `k`.
pub fn pow10_u64(k: usize) -> (r: u64)
    requires
        k <= 18,
    ensures
        r == pow10(k as nat),
{
    let mut r: u64 = 1;
    let mut i: usize = 0;
    while i < k
        invariant
            i <= k <= 18,
            r == pow10(i as nat),
        decreases k - i,
    {
        proof {
            lemma_pow10_mono(i as nat + 1, 18);
            lemma_pow10_18();
        }
        r = r * 10;
        i = i + 1;
    }
    r
}

} // verus!
