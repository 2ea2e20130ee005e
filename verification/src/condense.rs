use vstd::prelude::*;
use vstd::string::*;
use crate::text::{
    lines_of, words_of, trim_spec, split_lines, split_words, trim_str, str_equal, no_space_word,
    is_space_char, lemma_trim_nonempty,
    lemma_words_of_word_prefix, lemma_words_of_space_prefix,
};

verus! {

/// `ws` joined with single spaces.
pub open spec fn join_spaces(ws: Seq<Seq<char>>) -> Seq<char>
    decreases ws.len(),
{
    if ws.len() == 0 {
        Seq::empty()
    } else if ws.len() == 1 {
        ws[0]
    } else {
        ws[0] + " "@ + join_spaces(ws.skip(1))
    }
}

/// `ws` in chunks of `n` words, each chunk joined with spaces, the chunks
/// joined with the explicit break token (a space and a line feed).
pub open spec fn spec_insert_line_breaks(ws: Seq<Seq<char>>, n: nat) -> Seq<char>
    decreases ws.len()
    when n >= 1
{
    if ws.len() <= n {
        join_spaces(ws)
    } else {
        join_spaces(ws.take(n as int)) + " \n"@ + spec_insert_line_breaks(ws.skip(n as int), n)
    }
}

/// Appending a word extends the joined text by a space and that word.
proof fn lemma_join_spaces_push(ws: Seq<Seq<char>>, w: Seq<char>)
    ensures
        join_spaces(ws.push(w)) == (if ws.len() == 0 {
            w
        } else {
            join_spaces(ws) + " "@ + w
        }),
    decreases ws.len(),
{
    if ws.len() == 0 {
        assert(ws.push(w).len() == 1);
        assert(ws.push(w)[0] == w);
    } else {
        assert(ws.push(w).skip(1) =~= ws.skip(1).push(w));
        lemma_join_spaces_push(ws.skip(1), w);
        assert(ws.push(w)[0] == ws[0]);
        if ws.len() == 1 {
            assert(ws.skip(1).len() == 0);
        } else {
            assert(ws.skip(1)[0] == ws[1]);
        }
    }
}

/// Joins `words` into lines of `n` words each, lines separated by the
/// explicit break token.
pub fn insert_line_breaks(words: &Vec<String>, n: usize) -> (r: String)
    requires
        n >= 1,
    ensures
        r@ == spec_insert_line_breaks(words.deep_view(), n as nat),
{
    let ghost wd = words.deep_view();
    let mut out = String::new();
    let mut i: usize = 0;
    while i < words.len()
        invariant
            n >= 1,
            i <= words@.len(),
            wd == words.deep_view(),
            i == 0 ==> out@ == Seq::<char>::empty(),
            0 < i < wd.len() ==> spec_insert_line_breaks(wd, n as nat) == out@ + " \n"@
                + spec_insert_line_breaks(wd.skip(i as int), n as nat),
            i > 0 && i >= wd.len() ==> spec_insert_line_breaks(wd, n as nat) == out@,
        decreases wd.len() - i,
    {
        let remaining = words.len() - i;
        let end = if n <= remaining {
            i + n
        } else {
            words.len()
        };
        if i > 0 {
            out.append(" \n");
        }
        let ghost base = out@;
        let mut j: usize = i;
        while j < end
            invariant
                i <= j <= end <= words@.len(),
                wd == words.deep_view(),
                j == i ==> out@ == base,
                j > i ==> out@ == base + join_spaces(wd.subrange(i as int, j as int)),
            decreases end - j,
        {
            if j > i {
                out.append(" ");
            }
            out.append(words[j].as_str());
            j = j + 1;
            proof {
                let prev = wd.subrange(i as int, j - 1);
                assert(wd.subrange(i as int, j as int) =~= prev.push(wd[j - 1]));
                lemma_join_spaces_push(prev, wd[j - 1]);
            }
        }
        proof {
            let rest = wd.skip(i as int);
            assert(end > i);
            if i == 0 {
                assert(rest =~= wd);
            }
            if rest.len() <= n {
                assert(end == wd.len());
                assert(wd.subrange(i as int, end as int) =~= rest);
                if i == 0 {
                    assert(out@ =~= join_spaces(wd));
                } else {
                    assert(spec_insert_line_breaks(wd, n as nat) =~= out@);
                }
            } else {
                assert(end == i + n);
                assert(wd.subrange(i as int, end as int) =~= rest.take(n as int));
                assert(rest.skip(n as int) =~= wd.skip(end as int));
                if i == 0 {
                    assert(out@ =~= join_spaces(wd.take(n as int)));
                } else {
                    assert(spec_insert_line_breaks(wd, n as nat) =~= out@ + " \n"@
                        + spec_insert_line_breaks(wd.skip(end as int), n as nat));
                }
            }
        }
        i = end;
    }
    proof {
        if wd.len() == 0 {
            assert(spec_insert_line_breaks(wd, n as nat) == join_spaces(wd));
        }
    }
    out
}

/// A cue timestamp-range line.
pub open spec fn ts_line(st: Seq<char>, en: Seq<char>) -> Seq<char> {
    st + " --> "@ + en
}

/// One pass of the condenser over the remaining `ls`, carrying its state:
/// `cur` the words accumulated for the group being built, `st`/`en` the
/// group's time range so far, and `expect` whether the previous line was a
/// timestamp line whose cue text comes next. A timestamp line is recognised
/// by having at least three whitespace-separated fields; seeing one when
/// `cur` already holds at least `wpl` words flushes the group: its range
/// line, its words re-chunked three to a line, and a blank line. A final
/// partial group is flushed without the blank line.
pub open spec fn condense_rest(
    ls: Seq<Seq<char>>,
    wpl: nat,
    cur: Seq<Seq<char>>,
    st: Seq<char>,
    en: Seq<char>,
    expect: bool,
) -> Seq<Seq<char>>
    decreases ls.len(),
{
    if ls.len() == 0 {
        if cur.len() > 0 {
            seq![ts_line(st, en), spec_insert_line_breaks(cur, 3)]
        } else {
            Seq::empty()
        }
    } else {
        let l = ls[0];
        let rest = ls.skip(1);
        if expect {
            condense_rest(rest, wpl, cur + words_of(l), st, en, false)
        } else if trim_spec(l).len() == 0 {
            condense_rest(rest, wpl, cur, st, en, false)
        } else {
            let parts = words_of(l);
            if parts.len() >= 3 {
                if cur.len() >= wpl {
                    seq![ts_line(st, en), spec_insert_line_breaks(cur, 3), Seq::<char>::empty()]
                        + condense_rest(rest, wpl, Seq::empty(), parts[0], parts[2], true)
                } else {
                    condense_rest(
                        rest,
                        wpl,
                        cur,
                        if cur.len() == 0 {
                            parts[0]
                        } else {
                            st
                        },
                        parts[2],
                        true,
                    )
                }
            } else {
                condense_rest(rest, wpl, cur, st, en, false)
            }
        }
    }
}

/// The condensed cue file for input `s` at `wpl` words per group, as a
/// sequence of output lines. A leading `WEBVTT` header line passes through
/// unchanged, followed by one blank line, and the line after it is skipped;
/// with no header, the first line is consumed without output.
pub open spec fn spec_condense(s: Seq<char>, wpl: nat) -> Seq<Seq<char>> {
    let ls = lines_of(s);
    if ls.len() == 0 {
        Seq::empty()
    } else if trim_spec(ls[0]) == "WEBVTT"@ {
        seq![ls[0], Seq::<char>::empty()] + condense_rest(
            ls.skip(
                if ls.len() >= 2 {
                    2
                } else {
                    1
                },
            ),
            wpl,
            Seq::empty(),
            Seq::empty(),
            Seq::empty(),
            false,
        )
    } else {
        condense_rest(ls.skip(1), wpl, Seq::empty(), Seq::empty(), Seq::empty(), false)
    }
}

/// Pushes one condensed group: its time range line and its words re-chunked
/// three to a line.
fn push_group(out: &mut Vec<String>, cur: &Vec<String>, start: &str, end: &str)
    ensures
        final(out).deep_view() == old(out).deep_view() + seq![
            ts_line(start@, end@),
            spec_insert_line_breaks(cur.deep_view(), 3),
        ],
{
    let mut ts = String::from_str(start);
    ts.append(" --> ");
    ts.append(end);
    let body = insert_line_breaks(cur, 3);
    let ghost prev = out.deep_view();
    out.push(ts);
    out.push(body);
    proof {
        assert(out.deep_view() =~= prev + seq![
            ts_line(start@, end@),
            spec_insert_line_breaks(cur.deep_view(), 3),
        ]);
    }
}

/// Re-groups a word-level cue file into groups of `words_per_line` words:
/// consecutive cues' words accumulate until the next timestamp line would
/// begin a group past the threshold; each flushed group spans from the first
/// accumulated cue's start to the last one's end, its text re-chunked three
/// words to a line. A trailing partial group is flushed too; no word is
/// dropped. Returns the output file as its lines.
pub fn condense_subtitle(subtitle_text: &str, words_per_line: usize) -> (r: Vec<String>)
    ensures
        r.deep_view() == spec_condense(subtitle_text@, words_per_line as nat),
{
    let ghost ls = lines_of(subtitle_text@);
    let lines = split_lines(subtitle_text);
    let mut out: Vec<String> = Vec::new();
    let mut cur: Vec<String> = Vec::new();
    let mut start = String::new();
    let mut end = String::new();
    let mut expect = false;
    let mut i: usize;
    if lines.len() == 0 {
        proof {
            assert(out.deep_view() =~= Seq::<Seq<char>>::empty());
        }
        return out;
    }
    let first_trim = trim_str(lines[0].as_str());
    if str_equal(first_trim.as_str(), "WEBVTT") {
        out.push(lines[0].clone());
        out.push(String::new());
        i = if lines.len() >= 2 {
            2
        } else {
            1
        };
        proof {
            assert(lines.deep_view()[0] == ls[0]);
            assert(out.deep_view() =~= seq![ls[0], Seq::<char>::empty()]);
        }
    } else {
        i = 1;
        proof {
            assert(lines.deep_view()[0] == ls[0]);
            assert(out.deep_view() =~= Seq::<Seq<char>>::empty());
        }
    }
    while i < lines.len()
        invariant
            i <= lines@.len(),
            lines.deep_view() == ls,
            spec_condense(subtitle_text@, words_per_line as nat) == out.deep_view()
                + condense_rest(
                ls.skip(i as int),
                words_per_line as nat,
                cur.deep_view(),
                start@,
                end@,
                expect,
            ),
        decreases lines@.len() - i,
    {
        proof {
            assert(ls.skip(i as int)[0] == ls[i as int]);
            assert(ls.skip(i as int).skip(1) =~= ls.skip(i as int + 1));
        }
        if expect {
            let mut parts = split_words(lines[i].as_str());
            let ghost curv = cur.deep_view();
            cur.append(&mut parts);
            expect = false;
            proof {
                assert(cur.deep_view() =~= curv + words_of(ls[i as int]));
            }
        } else {
            let lt = trim_str(lines[i].as_str());
            if lt.as_str().unicode_len() == 0 {
            } else {
                let parts = split_words(lines[i].as_str());
                if parts.len() >= 3 {
                    if cur.len() >= words_per_line {
                        push_group(&mut out, &cur, start.as_str(), end.as_str());
                        let ghost outv = out.deep_view();
                        out.push(String::new());
                        proof {
                            assert(out.deep_view() =~= outv.push(Seq::<char>::empty()));
                        }
                        cur = Vec::new();
                        start = parts[0].clone();
                        end = parts[2].clone();
                        expect = true;
                        proof {
                            assert(cur.deep_view() =~= Seq::<Seq<char>>::empty());
                            assert(start@ == words_of(ls[i as int])[0]);
                            assert(end@ == words_of(ls[i as int])[2]);
                        }
                    } else {
                        if cur.len() == 0 {
                            start = parts[0].clone();
                        }
                        end = parts[2].clone();
                        expect = true;
                    }
                }
            }
        }
        i = i + 1;
    }
    proof {
        assert(ls.skip(i as int).len() == 0);
    }
    if cur.len() > 0 {
        push_group(&mut out, &cur, start.as_str(), end.as_str());
    }
    out
}

/// Splitting joined words followed by whitespace-led text yields the words
/// and then the rest's words.
proof fn lemma_words_of_join_prefix(ws: Seq<Seq<char>>, r: Seq<char>)
    requires
        forall|i: int| 0 <= i < ws.len() ==> no_space_word(#[trigger] ws[i]),
        r.len() > 0 ==> is_space_char(r[0]),
    ensures
        words_of(join_spaces(ws) + r) == ws + words_of(r),
    decreases ws.len(),
{
    reveal_strlit(" ");
    assert((" ")@ =~= seq![' ']);
    if ws.len() == 0 {
        assert(join_spaces(ws) + r =~= r);
        assert(ws + words_of(r) =~= words_of(r));
    } else if ws.len() == 1 {
        assert(join_spaces(ws) + r =~= ws[0] + r);
        lemma_words_of_word_prefix(ws[0] + r, ws[0], r);
        assert(seq![ws[0]] + words_of(r) =~= ws + words_of(r));
    } else {
        let u = join_spaces(ws.skip(1)) + r;
        let t = seq![' '] + u;
        assert(join_spaces(ws) + r =~= ws[0] + t);
        assert(t[0] == ' ');
        lemma_words_of_word_prefix(ws[0] + t, ws[0], t);
        lemma_words_of_space_prefix(seq![' '], u);
        assert forall|i: int| 0 <= i < ws.skip(1).len() implies no_space_word(
            #[trigger] ws.skip(1)[i],
        ) by {
            assert(ws.skip(1)[i] == ws[i + 1]);
        };
        lemma_words_of_join_prefix(ws.skip(1), r);
        assert(seq![ws[0]] + (ws.skip(1) + words_of(r)) =~= ws + words_of(r));
    }
}

/// Law: re-chunking proper words into lines preserves the word sequence
/// exactly: splitting the chunked text on whitespace gives back the words
/// that went in, in order, none dropped and none changed.
pub proof fn lemma_insert_line_breaks_words(ws: Seq<Seq<char>>, n: nat)
    requires
        n >= 1,
        forall|i: int| 0 <= i < ws.len() ==> no_space_word(#[trigger] ws[i]),
    ensures
        words_of(spec_insert_line_breaks(ws, n)) == ws,
    decreases ws.len(),
{
    reveal_strlit(" \n");
    assert((" \n")@ =~= seq![' ', '\n']);
    if ws.len() <= n {
        lemma_words_of_join_prefix(ws, Seq::empty());
        assert(join_spaces(ws) + Seq::<char>::empty() =~= join_spaces(ws));
        assert(ws + words_of(Seq::empty()) =~= ws);
    } else {
        let tail = spec_insert_line_breaks(ws.skip(n as int), n);
        let r = " \n"@ + tail;
        assert(r[0] == ' ');
        assert forall|i: int| 0 <= i < ws.take(n as int).len() implies no_space_word(
            #[trigger] ws.take(n as int)[i],
        ) by {
            assert(ws.take(n as int)[i] == ws[i]);
        };
        lemma_words_of_join_prefix(ws.take(n as int), r);
        assert(spec_insert_line_breaks(ws, n) == join_spaces(ws.take(n as int)) + r);
        lemma_words_of_space_prefix(seq![' ', '\n'], tail);
        assert(seq![' ', '\n'] + tail =~= r);
        assert forall|i: int| 0 <= i < ws.skip(n as int).len() implies no_space_word(
            #[trigger] ws.skip(n as int)[i],
        ) by {
            assert(ws.skip(n as int)[i] == ws[i + n]);
        };
        lemma_insert_line_breaks_words(ws.skip(n as int), n);
        assert(ws.take(n as int) + ws.skip(n as int) =~= ws);
    }
}

/// Law: the body of a condensed group carries its words through exactly:
/// for any text, chunking its words three to a line and splitting the
/// result on whitespace gives back the text's words, in order.
pub proof fn lemma_condensed_body_words(l: Seq<char>)
    ensures
        words_of(spec_insert_line_breaks(words_of(l), 3)) == words_of(l),
{
    crate::text::lemma_words_of_proper(l);
    lemma_insert_line_breaks_words(words_of(l), 3);
}


/// A proper word splits into itself alone.
proof fn lemma_single_word(w: Seq<char>)
    requires
        no_space_word(w),
    ensures
        words_of(w) == seq![w],
{
    assert(w + Seq::<char>::empty() =~= w);
    lemma_words_of_word_prefix(w + Seq::<char>::empty(), w, Seq::empty());
    assert(seq![w] + words_of(Seq::empty()) =~= seq![w]);
}

/// A timestamp-range line built from proper stamps splits into exactly
/// three fields: the start stamp, the arrow, and the end stamp.
proof fn lemma_ts_line_words(st: Seq<char>, en: Seq<char>)
    requires
        no_space_word(st),
        no_space_word(en),
    ensures
        words_of(ts_line(st, en)) == seq![st, seq!['-', '-', '>'], en],
{
    reveal_strlit(" --> ");
    assert((" --> ")@ =~= seq![' ', '-', '-', '>', ' ']);
    let arrow: Seq<char> = seq!['-', '-', '>'];
    let t2 = seq![' '] + en;
    let u1 = arrow + t2;
    let t1 = seq![' '] + u1;
    assert(ts_line(st, en) =~= st + t1);
    assert(t1[0] == ' ');
    lemma_words_of_word_prefix(st + t1, st, t1);
    assert forall|i: int| 0 <= i < 1 implies is_space_char(#[trigger] seq![' '][i]) by {
        assert(seq![' '][i] == ' ');
    };
    lemma_words_of_space_prefix(seq![' '], u1);
    assert(seq![' '] + u1 =~= t1);
    assert(!is_space_char('-'));
    assert(!is_space_char('>'));
    assert(no_space_word(arrow)) by {
        assert(arrow[0] == '-');
        assert(arrow[1] == '-');
        assert(arrow[2] == '>');
    };
    assert(t2[0] == ' ');
    lemma_words_of_word_prefix(u1, arrow, t2);
    lemma_words_of_space_prefix(seq![' '], en);
    assert(seq![' '] + en =~= t2);
    lemma_single_word(en);
    assert(words_of(ts_line(st, en)) =~= seq![st, arrow, en]);
}

/// A word-level cue: a start stamp, an end stamp, and one word of text,
/// each free of whitespace.
pub open spec fn wf_cue(c: (Seq<char>, Seq<char>, Seq<char>)) -> bool {
    no_space_word(c.0) && no_space_word(c.1) && no_space_word(c.2)
}

/// The lines of a word-level cue stream: per cue its range line, its word,
/// and a blank separator.
pub open spec fn cue_lines(cs: Seq<(Seq<char>, Seq<char>, Seq<char>)>) -> Seq<Seq<char>>
    decreases cs.len(),
{
    if cs.len() == 0 {
        Seq::empty()
    } else {
        seq![ts_line(cs[0].0, cs[0].1), cs[0].2, Seq::<char>::empty()] + cue_lines(cs.skip(1))
    }
}

/// The condenser's effect on a word-level cue stream, stated cue by cue:
/// each cue first closes the group being built when it already holds
/// `wpl` words — emitting the group's range line, spanning from its first
/// cue's start to its last cue's end, its words re-chunked three to a line,
/// and a blank line — and then joins the (possibly fresh) group; a final
/// non-empty group is emitted without the blank line.
pub open spec fn spec_condense_cues(
    cs: Seq<(Seq<char>, Seq<char>, Seq<char>)>,
    wpl: nat,
    cur: Seq<Seq<char>>,
    st: Seq<char>,
    en: Seq<char>,
) -> Seq<Seq<char>>
    decreases cs.len(),
{
    if cs.len() == 0 {
        if cur.len() > 0 {
            seq![ts_line(st, en), spec_insert_line_breaks(cur, 3)]
        } else {
            Seq::empty()
        }
    } else if cur.len() >= wpl {
        seq![ts_line(st, en), spec_insert_line_breaks(cur, 3), Seq::<char>::empty()]
            + spec_condense_cues(cs.skip(1), wpl, seq![cs[0].2], cs[0].0, cs[0].1)
    } else {
        spec_condense_cues(
            cs.skip(1),
            wpl,
            cur.push(cs[0].2),
            if cur.len() == 0 {
                cs[0].0
            } else {
                st
            },
            cs[0].1,
        )
    }
}

/// Processing one cue advances the condenser exactly one step of the
/// cue-level recursion.
proof fn lemma_cue_step(
    cs: Seq<(Seq<char>, Seq<char>, Seq<char>)>,
    wpl: nat,
    cur: Seq<Seq<char>>,
    st: Seq<char>,
    en: Seq<char>,
)
    requires
        cs.len() >= 1,
        wf_cue(cs[0]),
    ensures
        condense_rest(cue_lines(cs), wpl, cur, st, en, false) == (if cur.len() >= wpl {
            seq![ts_line(st, en), spec_insert_line_breaks(cur, 3), Seq::<char>::empty()]
                + condense_rest(cue_lines(cs.skip(1)), wpl, seq![cs[0].2], cs[0].0, cs[0].1, false)
        } else {
            condense_rest(
                cue_lines(cs.skip(1)),
                wpl,
                cur.push(cs[0].2),
                if cur.len() == 0 {
                    cs[0].0
                } else {
                    st
                },
                cs[0].1,
                false,
            )
        }),
{
    let ts = ts_line(cs[0].0, cs[0].1);
    let wd = cs[0].2;
    let rec = cue_lines(cs.skip(1));
    let ls = cue_lines(cs);
    assert(ls == seq![ts, wd, Seq::<char>::empty()] + rec);
    assert(ls[0] == ts);
    let ls1 = ls.skip(1);
    let ls2 = ls1.skip(1);
    assert(ls1 =~= seq![wd, Seq::<char>::empty()] + rec);
    assert(ls1[0] == wd);
    assert(ls2 =~= seq![Seq::<char>::empty()] + rec);
    assert(ls2[0] =~= Seq::<char>::empty());
    assert(ls2.skip(1) =~= rec);
    assert(ts[0] == cs[0].0[0]);
    lemma_trim_nonempty(ts, 0);
    lemma_ts_line_words(cs[0].0, cs[0].1);
    let parts = words_of(ts);
    assert(parts.len() == 3);
    assert(parts[0] == cs[0].0);
    assert(parts[2] == cs[0].1);
    lemma_single_word(wd);
    assert(trim_spec(Seq::<char>::empty()).len() == 0);
    if cur.len() >= wpl {
        let mid = condense_rest(ls1, wpl, Seq::empty(), cs[0].0, cs[0].1, true);
        assert(mid == condense_rest(ls2, wpl, Seq::<Seq<char>>::empty() + seq![wd], cs[0].0, cs[0].1, false));
        assert(Seq::<Seq<char>>::empty() + seq![wd] =~= seq![wd]);
        assert(mid == condense_rest(rec, wpl, seq![wd], cs[0].0, cs[0].1, false));
    } else {
        let st2 = if cur.len() == 0 {
            cs[0].0
        } else {
            st
        };
        let mid = condense_rest(ls1, wpl, cur, st2, cs[0].1, true);
        assert(mid == condense_rest(ls2, wpl, cur + seq![wd], st2, cs[0].1, false));
        assert(cur + seq![wd] =~= cur.push(wd));
        assert(mid == condense_rest(rec, wpl, cur.push(wd), st2, cs[0].1, false));
    }
}

/// Law: on a word-level cue stream the condenser works cue by cue, as
/// `spec_condense_cues` states it — a group closes exactly when the next
/// cue arrives with the threshold reached, it spans from its first cue's
/// start stamp to its last cue's end stamp, and it carries exactly its
/// cues' words, re-chunked three to a line.
pub proof fn lemma_condense_word_stream(
    cs: Seq<(Seq<char>, Seq<char>, Seq<char>)>,
    wpl: nat,
    cur: Seq<Seq<char>>,
    st: Seq<char>,
    en: Seq<char>,
)
    requires
        forall|i: int| 0 <= i < cs.len() ==> wf_cue(#[trigger] cs[i]),
    ensures
        condense_rest(cue_lines(cs), wpl, cur, st, en, false) == spec_condense_cues(
            cs,
            wpl,
            cur,
            st,
            en,
        ),
    decreases cs.len(),
{
    if cs.len() > 0 {
        lemma_cue_step(cs, wpl, cur, st, en);
        assert forall|i: int| 0 <= i < cs.skip(1).len() implies wf_cue(
            #[trigger] cs.skip(1)[i],
        ) by {
            assert(cs.skip(1)[i] == cs[i + 1]);
        };
        if cur.len() >= wpl {
            lemma_condense_word_stream(cs.skip(1), wpl, seq![cs[0].2], cs[0].0, cs[0].1);
        } else {
            lemma_condense_word_stream(
                cs.skip(1),
                wpl,
                cur.push(cs[0].2),
                if cur.len() == 0 {
                    cs[0].0
                } else {
                    st
                },
                cs[0].1,
            );
        }
    }
}


/// The words of each emitted group's text line, in order: groups stand in
/// the output as a range line, a body, and (between groups) a blank line.
pub open spec fn body_words(out: Seq<Seq<char>>) -> Seq<Seq<char>>
    decreases out.len(),
{
    if out.len() == 0 {
        Seq::empty()
    } else if out.len() <= 3 {
        if out.len() >= 2 {
            words_of(out[1])
        } else {
            Seq::empty()
        }
    } else {
        words_of(out[1]) + body_words(out.skip(3))
    }
}

/// Law: condensing a word-level cue stream loses, duplicates and reorders
/// no word: splitting the emitted group bodies back into words gives the
/// carried-over words and then every cue's word, in source order.
pub proof fn lemma_condense_no_word_lost(
    cs: Seq<(Seq<char>, Seq<char>, Seq<char>)>,
    wpl: nat,
    cur: Seq<Seq<char>>,
    st: Seq<char>,
    en: Seq<char>,
)
    requires
        forall|i: int| 0 <= i < cs.len() ==> wf_cue(#[trigger] cs[i]),
        forall|i: int| 0 <= i < cur.len() ==> no_space_word(#[trigger] cur[i]),
    ensures
        body_words(spec_condense_cues(cs, wpl, cur, st, en)) == cur + cs.map_values(
            |c: (Seq<char>, Seq<char>, Seq<char>)| c.2,
        ),
    decreases cs.len(),
{
    let f = |c: (Seq<char>, Seq<char>, Seq<char>)| c.2;
    let o = spec_condense_cues(cs, wpl, cur, st, en);
    if cs.len() == 0 {
        if cur.len() > 0 {
            lemma_insert_line_breaks_words(cur, 3);
            assert(o[1] == spec_insert_line_breaks(cur, 3));
            assert(body_words(o) =~= cur + cs.map_values(f));
        } else {
            assert(body_words(o) =~= cur + cs.map_values(f));
        }
    } else {
        assert forall|i: int| 0 <= i < cs.skip(1).len() implies wf_cue(
            #[trigger] cs.skip(1)[i],
        ) by {
            assert(cs.skip(1)[i] == cs[i + 1]);
        };
        assert(no_space_word(cs[0].2));
        if cur.len() >= wpl {
            let rec = spec_condense_cues(cs.skip(1), wpl, seq![cs[0].2], cs[0].0, cs[0].1);
            assert forall|i: int| 0 <= i < seq![cs[0].2].len() implies no_space_word(
                #[trigger] seq![cs[0].2][i],
            ) by {
                assert(seq![cs[0].2][i] == cs[0].2);
            };
            lemma_condense_no_word_lost(cs.skip(1), wpl, seq![cs[0].2], cs[0].0, cs[0].1);
            assert(body_words(rec).len() >= 1);
            assert(rec.len() >= 2);
            lemma_insert_line_breaks_words(cur, 3);
            assert(o.len() == 3 + rec.len());
            assert(o[1] == spec_insert_line_breaks(cur, 3));
            assert(o.skip(3) =~= rec);
            assert(body_words(o) == words_of(o[1]) + body_words(rec));
            assert(cur + (seq![cs[0].2] + cs.skip(1).map_values(f)) =~= cur + cs.map_values(f));
        } else {
            assert forall|i: int| 0 <= i < cur.push(cs[0].2).len() implies no_space_word(
                #[trigger] cur.push(cs[0].2)[i],
            ) by {
                if i < cur.len() {
                    assert(cur.push(cs[0].2)[i] == cur[i]);
                }
            };
            lemma_condense_no_word_lost(
                cs.skip(1),
                wpl,
                cur.push(cs[0].2),
                if cur.len() == 0 {
                    cs[0].0
                } else {
                    st
                },
                cs[0].1,
            );
            assert(cur.push(cs[0].2) + cs.skip(1).map_values(f) =~= cur + cs.map_values(f));
        }
    }
}

} // verus!
