use vstd::prelude::*;
use vstd::string::*;
use crate::text::{words_of, trim_end_spec, trim_end_str, split_words};
use crate::time::{spec_format_time, format_time};

verus! {

/// One transcript token: its text and its time range in whole milliseconds.
#[derive(Clone, Debug)]
pub struct Token {
    pub text: String,
    pub start_ms: u64,
    pub end_ms: u64,
}

/// The caption density of a built cue file: each cue carries either its
/// token's raw text (with the source's trailing space kept), or the token's
/// words wrapped with a line break after every third word, the word count
/// running across the whole token stream.
#[derive(Clone, Copy, Debug, PartialEq, Eq, Structural)]
pub enum Density {
    Plain,
    Wrapped,
}

/// The separator written after the `wc`-th word of the stream (1-based):
/// a line break after every third word, a space otherwise.
pub open spec fn sep_after(wc: nat) -> Seq<char> {
    if wc % 3 == 0 {
        seq!['\n']
    } else {
        seq![' ']
    }
}

/// The words `ws` each followed by its wrap separator, with `wc0` words of
/// the stream already counted before them.
pub open spec fn wrap_words(ws: Seq<Seq<char>>, wc0: nat) -> Seq<char>
    decreases ws.len(),
{
    if ws.len() == 0 {
        Seq::empty()
    } else {
        ws[0] + sep_after(wc0 + 1) + wrap_words(ws.skip(1), wc0 + 1)
    }
}

/// One cue block: the time range line, the cue text, and a blank line.
pub open spec fn spec_cue_block(start_ms: u64, end_ms: u64, txt: Seq<char>) -> Seq<char> {
    spec_format_time(start_ms as nat) + " --> "@ + spec_format_time(end_ms as nat) + "\n"@ + txt
        + "\n\n"@
}

/// The cue blocks for `toks`, one per token whose text holds at least one
/// word, in source order; `wc` counts the words already emitted (it advances
/// in wrapped mode only).
pub open spec fn spec_cues(toks: Seq<Token>, wc: nat, density: Density) -> Seq<char>
    decreases toks.len(),
{
    if toks.len() == 0 {
        Seq::empty()
    } else {
        let t = toks[0];
        let ws = words_of(t.text@);
        if ws.len() == 0 {
            spec_cues(toks.skip(1), wc, density)
        } else if density is Plain {
            spec_cue_block(t.start_ms, t.end_ms, t.text@ + " "@) + spec_cues(
                toks.skip(1),
                wc,
                density,
            )
        } else {
            spec_cue_block(t.start_ms, t.end_ms, trim_end_spec(wrap_words(ws, wc))) + spec_cues(
                toks.skip(1),
                wc + ws.len(),
                density,
            )
        }
    }
}

/// A whole cue file: the `WEBVTT` header, a blank line, then the cues.
pub open spec fn spec_convert_to_vtt(toks: Seq<Token>, density: Density) -> Seq<char> {
    "WEBVTT\n\n"@ + spec_cues(toks, 0, density)
}

/// Builds a cue file from transcript tokens: a `WEBVTT` header, then one cue
/// per token, in source order. A token whose text is empty or whitespace-only
/// is skipped without affecting the cues around it.
#[verifier::rlimit(50)]
pub fn convert_to_vtt(tokens: &Vec<Token>, density: Density) -> (r: String)
    ensures
        r@ == spec_convert_to_vtt(tokens@, density),
{
    let mut out = String::from_str("WEBVTT\n\n");
    let mut rem: u64 = 0;
    let ghost mut wc: nat = 0nat;
    let mut i: usize = 0;
    proof {
        assert(tokens@.skip(0) =~= tokens@);
    }
    while i < tokens.len()
        invariant
            i <= tokens@.len(),
            rem < 3,
            rem as nat == wc % 3,
            spec_convert_to_vtt(tokens@, density) == out@ + spec_cues(
                tokens@.skip(i as int),
                wc,
                density,
            ),
        decreases tokens@.len() - i,
    {
        let t = &tokens[i];
        let ws = split_words(t.text.as_str());
        proof {
            assert(tokens@.skip(i as int)[0] == tokens@[i as int]);
            assert(tokens@.skip(i as int).skip(1) =~= tokens@.skip(i as int + 1));
        }
        if ws.len() == 0 {
            proof {
                assert(ws.deep_view().len() == 0);
            }
        } else {
            let st = format_time(t.start_ms);
            let en = format_time(t.end_ms);
            let ghost out0 = out@;
            out.append(st.as_str());
            out.append(" --> ");
            out.append(en.as_str());
            out.append("\n");
            match density {
                Density::Plain => {
                    out.append(t.text.as_str());
                    out.append(" ");
                },
                Density::Wrapped => {
                    let mut txt = String::new();
                    let mut j: usize = 0;
                    proof {
                        assert(ws.deep_view().skip(0) =~= ws.deep_view());
                    }
                    while j < ws.len()
                        invariant
                            j <= ws@.len(),
                            rem < 3,
                            rem as nat == (wc + j) % 3,
                            ws.deep_view() == words_of(tokens@[i as int].text@),
                            i < tokens@.len(),
                            wrap_words(ws.deep_view(), wc) == txt@ + wrap_words(
                                ws.deep_view().skip(j as int),
                                (wc + j) as nat,
                            ),
                        decreases ws@.len() - j,
                    {
                        txt.append(ws[j].as_str());
                        if (rem + 1) % 3 == 0 {
                            txt.append("\n");
                            proof {
                                reveal_strlit("\n");
                                assert(("\n")@ =~= seq!['\n']);
                            }
                        } else {
                            txt.append(" ");
                            proof {
                                reveal_strlit(" ");
                                assert((" ")@ =~= seq![' ']);
                            }
                        }
                        rem = (rem + 1) % 3;
                        j = j + 1;
                        proof {
                            assert(ws.deep_view().skip(j - 1)[0] == ws.deep_view()[j - 1]);
                            assert(ws.deep_view().skip(j - 1).skip(1) =~= ws.deep_view().skip(
                                j as int,
                            ));
                            assert(sep_after((wc + j) as nat) == (if (wc + j) % 3 == 0 {
                                seq!['\n']
                            } else {
                                seq![' ']
                            }));
                        }
                    }
                    proof {
                        assert(wrap_words(ws.deep_view().skip(j as int), (wc + j) as nat) =~= Seq::<
                            char,
                        >::empty());
                        assert(txt@ =~= wrap_words(ws.deep_view(), wc));
                    }
                    let trimmed = trim_end_str(txt.as_str());
                    out.append(trimmed.as_str());
                    proof {
                        wc = wc + ws.deep_view().len();
                    }
                },
            }
            out.append("\n\n");
            proof {
                let tk = tokens@[i as int];
                let txts = if density is Plain {
                    tk.text@ + " "@
                } else {
                    trim_end_spec(wrap_words(words_of(tk.text@), (wc - words_of(
                        tk.text@,
                    ).len()) as nat))
                };
                assert(out@ =~= out0 + spec_cue_block(tk.start_ms, tk.end_ms, txts));
            }
        }
        i = i + 1;
    }
    proof {
        assert(tokens@.skip(i as int).len() == 0);
        assert(out@ =~= spec_convert_to_vtt(tokens@, density));
    }
    out
}

} // verus!
