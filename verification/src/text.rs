use vstd::prelude::*;
use vstd::string::*;

verus! {

/// The whitespace characters recognised by this library when splitting and
/// trimming text: the characters of Unicode's `White_Space` property, as
/// `char::is_whitespace` recognises them.
pub open spec fn is_space_char(c: char) -> bool {
    c == ' ' || c == '\t' || c == '\n' || c == '\r' || c == '\u{000B}' || c == '\u{000C}'
        || c == '\u{0085}' || c == '\u{00A0}' || c == '\u{1680}' || (0x2000 <= c as u32 && c as u32
        <= 0x200A) || c == '\u{2028}' || c == '\u{2029}' || c == '\u{202F}' || c == '\u{205F}'
        || c == '\u{3000}'
}

/// `n` occurs in `h` starting at position `i`.
pub open spec fn contains_at(h: Seq<char>, n: Seq<char>, i: int) -> bool {
    0 <= i && i + n.len() <= h.len() && h.subrange(i, i + n.len() as int) == n
}

/// The first position at or after `i` where `n` occurs in `h`, if any.
pub open spec fn find_from(h: Seq<char>, n: Seq<char>, i: int) -> Option<int>
    decreases h.len() - i,
{
    if i < 0 || i + n.len() > h.len() {
        None
    } else if n.len() == 0 || contains_at(h, n, i) {
        Some(i)
    } else {
        find_from(h, n, i + 1)
    }
}

/// `n` occurs somewhere in `h`.
pub open spec fn has_sub(h: Seq<char>, n: Seq<char>) -> bool {
    find_from(h, n, 0) is Some
}

/// `p` is a prefix of `s`.
pub open spec fn is_prefix(p: Seq<char>, s: Seq<char>) -> bool {
    p.len() <= s.len() && s.subrange(0, p.len() as int) == p
}

/// A successful search yields the first occurrence at or after the start.
pub proof fn lemma_find_from_some(h: Seq<char>, n: Seq<char>, i: int, j: int)
    requires
        find_from(h, n, i) == Some(j),
    ensures
        i <= j,
        contains_at(h, n, j),
        forall|k: int| i <= k < j ==> !contains_at(h, n, k),
    decreases h.len() - i,
{
    if !(i < 0 || i + n.len() > h.len()) && n.len() == 0 {
        assert(h.subrange(i, i + n.len() as int) =~= n);
        assert(contains_at(h, n, i));
    }
    if !(i < 0 || i + n.len() > h.len()) && !(n.len() == 0 || contains_at(h, n, i)) {
        lemma_find_from_some(h, n, i + 1, j);
    }
}

/// If `n` occurs at `j` and nowhere earlier (at or after `i`), the search
/// from `i` finds exactly `j`.
pub proof fn lemma_find_from_first(h: Seq<char>, n: Seq<char>, i: int, j: int)
    requires
        0 <= i <= j,
        contains_at(h, n, j),
        forall|k: int| i <= k < j ==> !contains_at(h, n, k),
    ensures
        find_from(h, n, i) == Some(j),
    decreases j - i,
{
    if n.len() == 0 {
        assert(h.subrange(i, i + n.len() as int) =~= n);
        assert(contains_at(h, n, i));
    }
    if i < j {
        lemma_find_from_first(h, n, i + 1, j);
    } else {
        assert(find_from(h, n, j) == Some(j));
    }
}

/// If `n` occurs nowhere in `h` at or after `i`, the search fails.
pub proof fn lemma_find_from_none(h: Seq<char>, n: Seq<char>, i: int)
    requires
        forall|k: int| i <= k ==> !contains_at(h, n, k),
    ensures
        find_from(h, n, i) is None,
    decreases h.len() - i,
{
    if !(i < 0 || i + n.len() > h.len()) {
        if n.len() == 0 {
            assert(h.subrange(i, i + n.len() as int) =~= n);
            assert(contains_at(h, n, i));
            assert(false);
        }
        lemma_find_from_none(h, n, i + 1);
    }
}

/// Compares two string slices character by character.
pub fn str_equal(a: &str, b: &str) -> (r: bool)
    ensures
        r == (a@ == b@),
{
    let na = a.unicode_len();
    let nb = b.unicode_len();
    if na != nb {
        return false;
    }
    let mut i: usize = 0;
    while i < na
        invariant
            i <= na,
            na == a@.len(),
            na == b@.len(),
            forall|k: int| 0 <= k < i ==> a@[k] == b@[k],
        decreases na - i,
    {
        if a.get_char(i) != b.get_char(i) {
            return false;
        }
        i = i + 1;
    }
    proof {
        assert(a@ =~= b@);
    }
    true
}

/// Tests whether `s` starts with `p`.
pub fn starts_with_str(s: &str, p: &str) -> (r: bool)
    ensures
        r == is_prefix(p@, s@),
{
    let ns = s.unicode_len();
    let np = p.unicode_len();
    if np > ns {
        return false;
    }
    let mut i: usize = 0;
    while i < np
        invariant
            i <= np,
            np <= ns,
            ns == s@.len(),
            np == p@.len(),
            forall|k: int| 0 <= k < i ==> s@[k] == p@[k],
        decreases np - i,
    {
        if s.get_char(i) != p.get_char(i) {
            proof {
                assert(s@.subrange(0, p@.len() as int)[i as int] != p@[i as int]);
            }
            return false;
        }
        i = i + 1;
    }
    proof {
        assert(s@.subrange(0, p@.len() as int) =~= p@);
    }
    true
}

/// Finds the first occurrence of `n` in `h`, as a character position.
pub fn find_substr(h: &str, n: &str) -> (r: Option<usize>)
    ensures
        match r {
            Some(i) => find_from(h@, n@, 0) == Some(i as int),
            None => find_from(h@, n@, 0) is None,
        },
{
    let hl = h.unicode_len();
    let nl = n.unicode_len();
    if nl > hl {
        proof {
            lemma_find_from_none(h@, n@, 0);
        }
        return None;
    }
    if nl == 0 {
        proof {
            assert(h@.subrange(0, 0) =~= n@);
        }
        return Some(0);
    }
    let mut i: usize = 0;
    while i <= hl - nl
        invariant
            1 <= nl <= hl,
            hl == h@.len(),
            nl == n@.len(),
            i <= hl - nl + 1,
            forall|k: int| 0 <= k < i ==> !contains_at(h@, n@, k),
        decreases hl - nl - i + 1,
    {
        let mut j: usize = 0;
        let mut ok = true;
        while j < nl && ok
            invariant
                j <= nl,
                i + nl <= hl,
                hl == h@.len(),
                nl == n@.len(),
                ok ==> forall|k: int| 0 <= k < j ==> h@[i + k] == n@[k],
                !ok ==> h@.subrange(i as int, i + nl as int) != n@,
            decreases nl - j + (if ok { 1int } else { 0int }),
        {
            if h.get_char(i + j) != n.get_char(j) {
                proof {
                    assert(h@.subrange(i as int, i + nl as int)[j as int] != n@[j as int]);
                }
                ok = false;
            } else {
                j = j + 1;
            }
        }
        if ok {
            proof {
                assert(h@.subrange(i as int, i + nl as int) =~= n@);
                lemma_find_from_first(h@, n@, 0, i as int);
            }
            return Some(i);
        }
        i = i + 1;
    }
    proof {
        assert forall|k: int| 0 <= k implies !contains_at(h@, n@, k) by {
            if k < i {
            } else {
                assert(k + n@.len() > h@.len());
            }
        };
        lemma_find_from_none(h@, n@, 0);
    }
    None
}

/// Tests whether `n` occurs anywhere in `h`.
pub fn has_substr(h: &str, n: &str) -> (r: bool)
    ensures
        r == has_sub(h@, n@),
{
    find_substr(h, n).is_some()
}

/// `l` with one trailing carriage return removed, if present.
pub open spec fn strip_cr(l: Seq<char>) -> Seq<char> {
    if l.len() > 0 && l[l.len() - 1] == '\r' {
        l.take(l.len() - 1)
    } else {
        l
    }
}

/// Scans `s` from position `i`; `start` marks the beginning of the current
/// line. Lines are cut at each line feed, with one carriage return stripped
/// just before the cut; a final segment without a line feed is kept as it
/// stands, and a trailing line feed opens no empty final line.
pub open spec fn lines_acc(s: Seq<char>, i: int, start: int) -> Seq<Seq<char>>
    decreases s.len() - i
    when 0 <= start <= i <= s.len()
{
    if i >= s.len() {
        if start < s.len() {
            seq![s.subrange(start, s.len() as int)]
        } else {
            Seq::empty()
        }
    } else if s[i] == '\n' {
        seq![strip_cr(s.subrange(start, i))].add(lines_acc(s, i + 1, i + 1))
    } else {
        lines_acc(s, i + 1, start)
    }
}

/// The lines of `s`, in the manner of `str::lines`.
pub open spec fn lines_of(s: Seq<char>) -> Seq<Seq<char>> {
    lines_acc(s, 0, 0)
}

/// Splits `s` into its lines.
pub fn split_lines(s: &str) -> (r: Vec<String>)
    ensures
        r.deep_view() == lines_of(s@),
{
    let n = s.unicode_len();
    let mut out: Vec<String> = Vec::new();
    let mut start: usize = 0;
    let mut i: usize = 0;
    while i < n
        invariant
            start <= i <= n,
            n == s@.len(),
            lines_of(s@) == out.deep_view().add(lines_acc(s@, i as int, start as int)),
        decreases n - i,
    {
        if s.get_char(i) == '\n' {
            let end = if i > start && s.get_char(i - 1) == '\r' {
                i - 1
            } else {
                i
            };
            let line = String::from_str(s.substring_char(start, end));
            proof {
                if i > start && s@[i as int - 1] == '\r' {
                    assert(s@.subrange(start as int, i as int).take(i - 1 - start) =~= s@.subrange(
                        start as int,
                        i as int - 1,
                    ));
                }
                assert(line@ == strip_cr(s@.subrange(start as int, i as int)));
            }
            let ghost prev = out.deep_view();
            out.push(line);
            proof {
                assert(out.deep_view() =~= prev.push(line@));
                assert(prev.push(line@).add(lines_acc(s@, i + 1, i + 1)) =~= prev.add(
                    seq![strip_cr(s@.subrange(start as int, i as int))].add(
                        lines_acc(s@, i + 1, i + 1),
                    ),
                ));
            }
            start = i + 1;
        }
        i = i + 1;
    }
    if start < n {
        let line = String::from_str(s.substring_char(start, n));
        let ghost prev = out.deep_view();
        out.push(line);
        proof {
            assert(out.deep_view() =~= prev.push(line@));
            assert(prev.push(line@) =~= prev.add(seq![s@.subrange(start as int, n as int)]));
        }
    }
    out
}

/// Scans `s` from position `i`, collecting maximal runs of non-whitespace
/// characters; `cur` holds the run in progress.
pub open spec fn words_acc(s: Seq<char>, i: int, cur: Seq<char>) -> Seq<Seq<char>>
    decreases s.len() - i
    when 0 <= i <= s.len()
{
    if i >= s.len() {
        if cur.len() > 0 {
            seq![cur]
        } else {
            Seq::empty()
        }
    } else if is_space_char(s[i]) {
        if cur.len() > 0 {
            seq![cur].add(words_acc(s, i + 1, Seq::empty()))
        } else {
            words_acc(s, i + 1, Seq::empty())
        }
    } else {
        words_acc(s, i + 1, cur.push(s[i]))
    }
}

/// The whitespace-separated words of `s`.
pub open spec fn words_of(s: Seq<char>) -> Seq<Seq<char>> {
    words_acc(s, 0, Seq::empty())
}

/// Tests whether `c` is one of this library's whitespace characters.
pub fn is_space(c: char) -> (r: bool)
    ensures
        r == is_space_char(c),
{
    let u = c as u32;
    c == ' ' || c == '\t' || c == '\n' || c == '\r' || c == '\u{000B}' || c == '\u{000C}'
        || c == '\u{0085}' || c == '\u{00A0}' || c == '\u{1680}' || (0x2000 <= u && u <= 0x200A)
        || c == '\u{2028}' || c == '\u{2029}' || c == '\u{202F}' || c == '\u{205F}'
        || c == '\u{3000}'
}

/// Splits `s` into its whitespace-separated words.
pub fn split_words(s: &str) -> (r: Vec<String>)
    ensures
        r.deep_view() == words_of(s@),
{
    let n = s.unicode_len();
    let mut out: Vec<String> = Vec::new();
    let mut start: usize = 0;
    let mut i: usize = 0;
    proof {
        assert(s@.subrange(0, 0) =~= Seq::<char>::empty());
        assert(out.deep_view() =~= Seq::<Seq<char>>::empty());
        assert(Seq::<Seq<char>>::empty().add(words_acc(s@, 0, Seq::empty())) =~= words_acc(
            s@,
            0,
            Seq::empty(),
        ));
    }
    while i < n
        invariant
            start <= i <= n,
            n == s@.len(),
            words_of(s@) == out.deep_view().add(
                words_acc(s@, i as int, s@.subrange(start as int, i as int)),
            ),
            forall|k: int| start <= k < i ==> !is_space_char(s@[k]),
        decreases n - i,
    {
        if is_space(s.get_char(i)) {
            if i > start {
                let w = String::from_str(s.substring_char(start, i));
                let ghost prev = out.deep_view();
                out.push(w);
                proof {
                    assert(out.deep_view() =~= prev.push(w@));
                    assert(prev.push(w@).add(words_acc(s@, i + 1, Seq::empty())) =~= prev.add(
                        seq![s@.subrange(start as int, i as int)].add(
                            words_acc(s@, i + 1, Seq::empty()),
                        ),
                    ));
                }
            }
            start = i + 1;
            proof {
                assert(s@.subrange(i + 1, i + 1) =~= Seq::<char>::empty());
            }
        } else {
            proof {
                assert(s@.subrange(start as int, i as int).push(s@[i as int]) =~= s@.subrange(
                    start as int,
                    i + 1,
                ));
            }
        }
        i = i + 1;
    }
    if start < n {
        let w = String::from_str(s.substring_char(start, n));
        let ghost prev = out.deep_view();
        out.push(w);
        proof {
            assert(out.deep_view() =~= prev.push(w@));
            assert(prev.push(w@) =~= prev.add(seq![s@.subrange(start as int, n as int)]));
        }
    }
    out
}

/// `s` with leading whitespace removed.
pub open spec fn trim_start_spec(s: Seq<char>) -> Seq<char>
    decreases s.len(),
{
    if s.len() > 0 && is_space_char(s[0]) {
        trim_start_spec(s.skip(1))
    } else {
        s
    }
}

/// `s` with trailing whitespace removed.
pub open spec fn trim_end_spec(s: Seq<char>) -> Seq<char>
    decreases s.len(),
{
    if s.len() > 0 && is_space_char(s[s.len() - 1]) {
        trim_end_spec(s.take(s.len() - 1))
    } else {
        s
    }
}

/// `s` with whitespace removed from both ends.
pub open spec fn trim_spec(s: Seq<char>) -> Seq<char> {
    trim_end_spec(trim_start_spec(s))
}

/// Trimming the start keeps the suffix that begins at the first
/// non-whitespace character.
pub proof fn lemma_trim_start_eq(s: Seq<char>, a: int)
    requires
        0 <= a <= s.len(),
        forall|k: int| 0 <= k < a ==> is_space_char(s[k]),
        a < s.len() ==> !is_space_char(s[a]),
    ensures
        trim_start_spec(s) == s.skip(a),
    decreases a,
{
    if a == 0 {
        assert(s.skip(0) =~= s);
    } else {
        lemma_trim_start_eq(s.skip(1), a - 1);
        assert(s.skip(1).skip(a - 1) =~= s.skip(a));
    }
}

/// Trimming the end keeps the prefix that ends after the last
/// non-whitespace character.
pub proof fn lemma_trim_end_eq(s: Seq<char>, b: int)
    requires
        0 <= b <= s.len(),
        forall|k: int| b <= k < s.len() ==> is_space_char(s[k]),
        b > 0 ==> !is_space_char(s[b - 1]),
    ensures
        trim_end_spec(s) == s.take(b),
    decreases s.len(),
{
    if b < s.len() {
        lemma_trim_end_eq(s.take(s.len() - 1), b);
        assert(s.take(s.len() - 1).take(b) =~= s.take(b));
    } else {
        assert(s.take(b) =~= s);
    }
}

/// `s` with trailing whitespace removed.
pub fn trim_end_str(s: &str) -> (r: String)
    ensures
        r@ == trim_end_spec(s@),
{
    let n = s.unicode_len();
    let mut j = n;
    while j > 0 && is_space(s.get_char(j - 1))
        invariant
            j <= n,
            n == s@.len(),
            forall|k: int| j <= k < n ==> is_space_char(s@[k]),
        decreases j,
    {
        j = j - 1;
    }
    proof {
        lemma_trim_end_eq(s@, j as int);
    }
    String::from_str(s.substring_char(0, j))
}

/// `s` with whitespace removed from both ends.
pub fn trim_str(s: &str) -> (r: String)
    ensures
        r@ == trim_spec(s@),
{
    let n = s.unicode_len();
    let mut a: usize = 0;
    while a < n && is_space(s.get_char(a))
        invariant
            a <= n,
            n == s@.len(),
            forall|k: int| 0 <= k < a ==> is_space_char(s@[k]),
        decreases n - a,
    {
        a = a + 1;
    }
    proof {
        lemma_trim_start_eq(s@, a as int);
    }
    let mut j = n;
    while j > a && is_space(s.get_char(j - 1))
        invariant
            a <= j <= n,
            n == s@.len(),
            forall|k: int| j <= k < n ==> is_space_char(s@[k]),
        decreases j,
    {
        j = j - 1;
    }
    proof {
        let t = s@.skip(a as int);
        assert forall|k: int| j - a <= k < t.len() implies is_space_char(t[k]) by {
            assert(t[k] == s@[k + a]);
        };
        if j > a {
            assert(t[j - a - 1] == s@[j as int - 1]);
        }
        lemma_trim_end_eq(t, j - a as int);
        assert(t.take(j - a as int) =~= s@.subrange(a as int, j as int));
    }
    String::from_str(s.substring_char(a, j))
}

/// `s` with every trailing occurrence of `c` removed.
pub open spec fn strip_trailing(s: Seq<char>, c: char) -> Seq<char>
    decreases s.len(),
{
    if s.len() > 0 && s[s.len() - 1] == c {
        strip_trailing(s.take(s.len() - 1), c)
    } else {
        s
    }
}

/// Stripping trailing `c`s keeps the prefix that ends after the last
/// character that is not `c`.
pub proof fn lemma_strip_trailing_eq(s: Seq<char>, c: char, b: int)
    requires
        0 <= b <= s.len(),
        forall|k: int| b <= k < s.len() ==> s[k] == c,
        b > 0 ==> s[b - 1] != c,
    ensures
        strip_trailing(s, c) == s.take(b),
    decreases s.len(),
{
    if b < s.len() {
        lemma_strip_trailing_eq(s.take(s.len() - 1), c, b);
        assert(s.take(s.len() - 1).take(b) =~= s.take(b));
    } else {
        assert(s.take(b) =~= s);
    }
}

/// `s` with every trailing occurrence of `c` removed.
pub fn strip_trailing_char(s: &str, c: char) -> (r: String)
    ensures
        r@ == strip_trailing(s@, c),
{
    let n = s.unicode_len();
    let mut j = n;
    while j > 0 && s.get_char(j - 1) == c
        invariant
            j <= n,
            n == s@.len(),
            forall|k: int| j <= k < n ==> s@[k] == c,
        decreases j,
    {
        j = j - 1;
    }
    proof {
        lemma_strip_trailing_eq(s@, c, j as int);
    }
    String::from_str(s.substring_char(0, j))
}

/// A single-character needle occurs at `k` exactly where that character
/// stands.
pub proof fn lemma_contains_at_single(h: Seq<char>, c: char, k: int)
    ensures
        contains_at(h, seq![c], k) <==> 0 <= k < h.len() && h[k] == c,
{
    if 0 <= k < h.len() {
        assert(h.subrange(k, k + 1) =~= seq![h[k]]);
        if h[k] == c {
            assert(contains_at(h, seq![c], k));
        } else {
            assert(h.subrange(k, k + 1)[0] != c);
        }
    }
}

/// `s` with leading whitespace removed.
pub fn trim_start_str(s: &str) -> (r: String)
    ensures
        r@ == trim_start_spec(s@),
{
    let n = s.unicode_len();
    let mut a: usize = 0;
    while a < n && is_space(s.get_char(a))
        invariant
            a <= n,
            n == s@.len(),
            forall|k: int| 0 <= k < a ==> is_space_char(s@[k]),
        decreases n - a,
    {
        a = a + 1;
    }
    proof {
        lemma_trim_start_eq(s@, a as int);
    }
    String::from_str(s.substring_char(a, n))
}

/// Lines joined back into one text, each terminated with a line feed.
pub open spec fn unlines(ls: Seq<Seq<char>>) -> Seq<char>
    decreases ls.len(),
{
    if ls.len() == 0 {
        Seq::empty()
    } else {
        ls[0] + "\n"@ + unlines(ls.skip(1))
    }
}

/// No line produced by the line splitter contains a line feed.
proof fn lemma_lines_acc_no_nl(s: Seq<char>, i: int, start: int)
    requires
        0 <= start <= i <= s.len(),
        forall|k: int| start <= k < i ==> s[k] != '\n',
    ensures
        forall|li: int, ci: int|
            0 <= li < lines_acc(s, i, start).len() && 0 <= ci < lines_acc(s, i, start)[li].len()
                ==> lines_acc(s, i, start)[li][ci] != '\n',
    decreases s.len() - i,
{
    let r = lines_acc(s, i, start);
    if i >= s.len() {
        if start < s.len() {
            assert forall|li: int, ci: int|
                0 <= li < r.len() && 0 <= ci < r[li].len() implies r[li][ci] != '\n' by {
                assert(r[li] == s.subrange(start, s.len() as int));
                assert(r[li][ci] == s[start + ci]);
            };
        }
    } else if s[i] == '\n' {
        lemma_lines_acc_no_nl(s, i + 1, i + 1);
        let rec = lines_acc(s, i + 1, i + 1);
        assert forall|li: int, ci: int|
            0 <= li < r.len() && 0 <= ci < r[li].len() implies r[li][ci] != '\n' by {
            if li == 0 {
                let full = s.subrange(start, i);
                assert(r[0] == strip_cr(full));
                assert(r[0][ci] == full[ci]);
                assert(full[ci] == s[start + ci]);
            } else {
                assert(r[li] == rec[li - 1]);
            }
        };
    } else {
        lemma_lines_acc_no_nl(s, i + 1, start);
        let rec = lines_acc(s, i + 1, start);
        assert(r == rec);
        assert forall|li: int, ci: int|
            0 <= li < r.len() && 0 <= ci < r[li].len() implies r[li][ci] != '\n' by {
            assert(rec[li][ci] != '\n');
        };
    }
}

/// No line of `lines_of(s)` contains a line feed.
pub proof fn lemma_lines_of_no_nl(s: Seq<char>)
    ensures
        forall|li: int, ci: int|
            0 <= li < lines_of(s).len() && 0 <= ci < lines_of(s)[li].len() ==> lines_of(
                s,
            )[li][ci] != '\n',
{
    lemma_lines_acc_no_nl(s, 0, 0);
}

/// Scanning over a stretch without line feeds leaves the split unchanged.
proof fn lemma_lines_acc_skip_nonl(s: Seq<char>, i: int, j: int, start: int)
    requires
        0 <= start <= i <= j <= s.len(),
        forall|k: int| i <= k < j ==> s[k] != '\n',
    ensures
        lines_acc(s, i, start) == lines_acc(s, j, start),
    decreases j - i,
{
    if i < j {
        lemma_lines_acc_skip_nonl(s, i + 1, j, start);
    }
}

/// Splitting from an offset equals splitting the suffix from its beginning.
proof fn lemma_lines_acc_offset(s: Seq<char>, d: int, i: int, start: int)
    requires
        0 <= d,
        0 <= start <= i,
        d + i <= s.len(),
    ensures
        lines_acc(s, d + i, d + start) == lines_acc(s.skip(d), i, start),
    decreases s.len() - d - i,
{
    let t = s.skip(d);
    if d + i >= s.len() {
        if d + start < s.len() {
            assert(s.subrange(d + start, s.len() as int) =~= t.subrange(start, t.len() as int));
        }
    } else if s[d + i] == '\n' {
        assert(t[i] == s[d + i]);
        lemma_lines_acc_offset(s, d, i + 1, i + 1);
        assert(s.subrange(d + start, d + i) =~= t.subrange(start, i));
    } else {
        assert(t[i] == s[d + i]);
        lemma_lines_acc_offset(s, d, i + 1, start);
    }
}

/// Splitting the joined lines gives the lines back, provided no line holds
/// a line feed and none ends with a carriage return.
pub proof fn lemma_lines_of_unlines(ls: Seq<Seq<char>>)
    requires
        forall|li: int, ci: int|
            0 <= li < ls.len() && 0 <= ci < ls[li].len() ==> ls[li][ci] != '\n',
        forall|li: int|
            0 <= li < ls.len() ==> (ls[li].len() == 0 || ls[li].last() != '\r'),
    ensures
        lines_of(unlines(ls)) == ls,
    decreases ls.len(),
{
    reveal_strlit("\n");
    assert(("\n")@ =~= seq!['\n']);
    if ls.len() == 0 {
        assert(lines_of(unlines(ls)) =~= ls);
    } else {
        let head = ls[0];
        let rest = unlines(ls.skip(1));
        let s = unlines(ls);
        let m = head.len() as int;
        assert(s == head + "\n"@ + rest);
        assert(s.len() == m + 1 + rest.len());
        assert forall|k: int| 0 <= k < m implies s[k] != '\n' by {
            assert(s[k] == head[k]);
        };
        assert(s[m] == '\n');
        lemma_lines_acc_skip_nonl(s, 0, m, 0);
        assert(lines_acc(s, m, 0) == seq![strip_cr(s.subrange(0, m))].add(
            lines_acc(s, m + 1, m + 1),
        ));
        assert(s.subrange(0, m) =~= head);
        assert(strip_cr(head) == head);
        lemma_lines_acc_offset(s, m + 1, 0, 0);
        assert(s.skip(m + 1) =~= rest);
        assert forall|li: int, ci: int|
            0 <= li < ls.skip(1).len() && 0 <= ci < ls.skip(1)[li].len() implies ls.skip(
            1,
        )[li][ci] != '\n' by {
            assert(ls.skip(1)[li] == ls[li + 1]);
        };
        assert forall|li: int|
            0 <= li < ls.skip(1).len() implies (ls.skip(1)[li].len() == 0 || ls.skip(
            1,
        )[li].last() != '\r') by {
            assert(ls.skip(1)[li] == ls[li + 1]);
        };
        lemma_lines_of_unlines(ls.skip(1));
        assert(lines_of(s) =~= ls);
    }
}

/// A proper word: non-empty, with no whitespace character in it.
pub open spec fn no_space_word(w: Seq<char>) -> bool {
    w.len() > 0 && forall|i: int| 0 <= i < w.len() ==> !is_space_char(#[trigger] w[i])
}

/// Word-scanning from an offset equals scanning the suffix from its start.
proof fn lemma_words_acc_offset(s: Seq<char>, d: int, i: int, cur: Seq<char>)
    requires
        0 <= d,
        0 <= i,
        d + i <= s.len(),
    ensures
        words_acc(s, d + i, cur) == words_acc(s.skip(d), i, cur),
    decreases s.len() - d - i,
{
    let t = s.skip(d);
    if d + i < s.len() {
        assert(t[i] == s[d + i]);
        if is_space_char(s[d + i]) {
            lemma_words_acc_offset(s, d, i + 1, Seq::empty());
        } else {
            lemma_words_acc_offset(s, d, i + 1, cur.push(s[d + i]));
        }
    }
}

/// Scanning forward through a word accumulates exactly that word.
proof fn lemma_words_acc_through_word(s: Seq<char>, w: Seq<char>, i: int)
    requires
        w.len() <= s.len(),
        s.subrange(0, w.len() as int) == w,
        no_space_word(w),
        0 <= i <= w.len(),
    ensures
        words_acc(s, i, s.subrange(0, i)) == words_acc(s, w.len() as int, w),
    decreases w.len() - i,
{
    if i < w.len() {
        assert(s[i] == w[i]);
        assert(!is_space_char(s[i]));
        assert(s.subrange(0, i).push(s[i]) =~= s.subrange(0, i + 1));
        lemma_words_acc_through_word(s, w, i + 1);
    } else {
        assert(s.subrange(0, i) =~= w);
    }
}

/// Splitting text that starts with a word, followed by whitespace or
/// nothing, yields that word and then the words of the rest.
pub proof fn lemma_words_of_word_prefix(s: Seq<char>, w: Seq<char>, t: Seq<char>)
    requires
        s == w + t,
        no_space_word(w),
        t.len() > 0 ==> is_space_char(t[0]),
    ensures
        words_of(s) == seq![w] + words_of(t),
{
    assert(s.subrange(0, w.len() as int) =~= w);
    assert(s.subrange(0, 0) =~= Seq::<char>::empty());
    lemma_words_acc_through_word(s, w, 0);
    let m = w.len() as int;
    if t.len() == 0 {
        assert(words_acc(s, m, w) == seq![w]);
        assert(words_of(s) =~= seq![w] + words_of(t));
    } else {
        assert(s[m] == t[0]);
        assert(words_acc(s, m, w) == seq![w].add(words_acc(s, m + 1, Seq::empty())));
        lemma_words_acc_offset(s, m + 1, 0, Seq::empty());
        assert(s.skip(m + 1) =~= t.skip(1));
        if t.len() == 1 {
            assert(words_acc(t, 0, Seq::empty()) == words_acc(t, 1, Seq::empty()));
        }
        lemma_words_acc_offset(t, 1, 0, Seq::empty());
        assert(words_of(t) == words_of(t.skip(1)));
    }
}

/// Leading whitespace contributes no word.
pub proof fn lemma_words_of_space_prefix(p: Seq<char>, x: Seq<char>)
    requires
        forall|i: int| 0 <= i < p.len() ==> is_space_char(#[trigger] p[i]),
    ensures
        words_of(p + x) == words_of(x),
    decreases p.len(),
{
    let s = p + x;
    if p.len() == 0 {
        assert(s =~= x);
    } else {
        assert(s[0] == p[0]);
        assert(words_of(s) == words_acc(s, 1, Seq::empty()));
        lemma_words_acc_offset(s, 1, 0, Seq::empty());
        assert(s.skip(1) =~= p.skip(1) + x);
        assert forall|i: int| 0 <= i < p.skip(1).len() implies is_space_char(
            #[trigger] p.skip(1)[i],
        ) by {
            assert(p.skip(1)[i] == p[i + 1]);
        };
        lemma_words_of_space_prefix(p.skip(1), x);
    }
}

/// Every word the scanner collects is a proper word.
proof fn lemma_words_acc_proper(s: Seq<char>, i: int, cur: Seq<char>)
    requires
        0 <= i <= s.len(),
        forall|k: int| 0 <= k < cur.len() ==> !is_space_char(#[trigger] cur[k]),
    ensures
        forall|j: int|
            0 <= j < words_acc(s, i, cur).len() ==> no_space_word(#[trigger] words_acc(s, i, cur)[j]),
    decreases s.len() - i,
{
    let r = words_acc(s, i, cur);
    if i >= s.len() {
        if cur.len() > 0 {
            assert(r[0] == cur);
            assert(no_space_word(cur));
        }
    } else if is_space_char(s[i]) {
        lemma_words_acc_proper(s, i + 1, Seq::empty());
        let rec = words_acc(s, i + 1, Seq::empty());
        if cur.len() > 0 {
            assert forall|j: int| 0 <= j < r.len() implies no_space_word(#[trigger] r[j]) by {
                if j == 0 {
                    assert(r[0] == cur);
                } else {
                    assert(r[j] == rec[j - 1]);
                }
            };
        } else {
            assert forall|j: int| 0 <= j < r.len() implies no_space_word(#[trigger] r[j]) by {
                assert(r[j] == rec[j]);
            };
        }
    } else {
        assert forall|k: int| 0 <= k < cur.push(s[i]).len() implies !is_space_char(
            #[trigger] cur.push(s[i])[k],
        ) by {
            if k < cur.len() {
                assert(cur.push(s[i])[k] == cur[k]);
            }
        };
        lemma_words_acc_proper(s, i + 1, cur.push(s[i]));
        let rec = words_acc(s, i + 1, cur.push(s[i]));
        assert forall|j: int| 0 <= j < r.len() implies no_space_word(#[trigger] r[j]) by {
            assert(r[j] == rec[j]);
        };
    }
}

/// Every word of `words_of(s)` is non-empty and free of whitespace.
pub proof fn lemma_words_of_proper(s: Seq<char>)
    ensures
        forall|j: int| 0 <= j < words_of(s).len() ==> no_space_word(#[trigger] words_of(s)[j]),
{
    lemma_words_acc_proper(s, 0, Seq::empty());
}

/// An occurrence anywhere means the search from an earlier position
/// succeeds.
pub proof fn lemma_contains_to_found(h: Seq<char>, n: Seq<char>, i: int, p: int)
    requires
        0 <= i <= p,
        contains_at(h, n, p),
    ensures
        find_from(h, n, i) is Some,
    decreases p - i,
{
    if !(i + n.len() > h.len()) && !(n.len() == 0 || contains_at(h, n, i)) {
        lemma_contains_to_found(h, n, i + 1, p);
    }
}

/// What occurs in a suffix occurs in the whole.
pub proof fn lemma_has_sub_extend(a: Seq<char>, b: Seq<char>, n: Seq<char>)
    requires
        has_sub(b, n),
    ensures
        has_sub(a + b, n),
{
    match find_from(b, n, 0) {
        Some(j) => {
            lemma_find_from_some(b, n, 0, j);
            assert((a + b).subrange(a.len() + j, a.len() + j + n.len() as int) =~= b.subrange(
                j,
                j + n.len() as int,
            ));
            assert(contains_at(a + b, n, a.len() + j));
            lemma_contains_to_found(a + b, n, 0, a.len() + j);
        },
        None => {},
    }
}


/// Trimming the start keeps some non-whitespace character.
proof fn lemma_trim_start_nonspace(l: Seq<char>, p: int)
    requires
        0 <= p < l.len(),
        !is_space_char(l[p]),
    ensures
        exists|q: int|
            0 <= q < trim_start_spec(l).len() && !is_space_char(#[trigger] trim_start_spec(l)[q]),
    decreases l.len(),
{
    if is_space_char(l[0]) {
        assert(l.skip(1)[p - 1] == l[p]);
        lemma_trim_start_nonspace(l.skip(1), p - 1);
        let q = choose|q: int|
            0 <= q < trim_start_spec(l.skip(1)).len() && !is_space_char(
                #[trigger] trim_start_spec(l.skip(1))[q],
            );
        assert(trim_start_spec(l)[q] == trim_start_spec(l.skip(1))[q]);
        assert(!is_space_char(trim_start_spec(l)[q]));
    } else {
        assert(trim_start_spec(l) == l);
        assert(!is_space_char(trim_start_spec(l)[p]));
    }
}

/// Trimming the end keeps some non-whitespace character.
proof fn lemma_trim_end_nonspace(l: Seq<char>, p: int)
    requires
        0 <= p < l.len(),
        !is_space_char(l[p]),
    ensures
        exists|q: int|
            0 <= q < trim_end_spec(l).len() && !is_space_char(#[trigger] trim_end_spec(l)[q]),
    decreases l.len(),
{
    if is_space_char(l[l.len() - 1]) {
        assert(l.drop_last()[p] == l[p]);
        lemma_trim_end_nonspace(l.drop_last(), p);
        let q = choose|q: int|
            0 <= q < trim_end_spec(l.drop_last()).len() && !is_space_char(
                #[trigger] trim_end_spec(l.drop_last())[q],
            );
        assert(trim_end_spec(l)[q] == trim_end_spec(l.drop_last())[q]);
        assert(!is_space_char(trim_end_spec(l)[q]));
    } else {
        assert(trim_end_spec(l) == l);
        assert(!is_space_char(trim_end_spec(l)[p]));
    }
}

/// A text with a non-whitespace character does not trim to nothing.
pub proof fn lemma_trim_nonempty(l: Seq<char>, p: int)
    requires
        0 <= p < l.len(),
        !is_space_char(l[p]),
    ensures
        trim_spec(l).len() > 0,
{
    lemma_trim_start_nonspace(l, p);
    let q = choose|q: int|
        0 <= q < trim_start_spec(l).len() && !is_space_char(#[trigger] trim_start_spec(l)[q]);
    lemma_trim_end_nonspace(trim_start_spec(l), q);
}

} // verus!
