//! The finite-state sentence segmenter: splits raw text into an ordered
//! sequence of sentence substrings whose concatenation reproduces the input,
//! save for one documented quirk at end of input.
use vstd::prelude::*;

verus! {

/// Character classes of the segmenter's state machine. The synthetic
/// end-of-input symbol is represented by running off the end of the text.
#[derive(Clone, Copy, PartialEq, Eq, Structural)]
pub enum CharClass {
    PunctStandard,
    PunctExtra,
    Whitespace,
    Other,
}

/// States of the segmenter. `Neutral` is the start state; the terminal
/// state is implicit (the scan simply stops at end of input).
#[derive(Clone, Copy, PartialEq, Eq, Structural)]
pub enum SegState {
    Neutral,
    AfterPunct,
    AfterPunctExtra,
    AfterSpace,
}

/// Classification of one character: sentence-ending punctuation, trailing
/// punctuation (closing quotes, apostrophes, ellipsis), whitespace, or
/// anything else.
pub open spec fn classify(c: char) -> CharClass {
    if c == '.' || c == '!' || c == '?' {
        CharClass::PunctStandard
    } else if c == '\'' || c == '"' || c == '\u{201d}' || c == '\u{2019}' || c == '\u{201c}'
        || c == '\u{2026}' {
        CharClass::PunctExtra
    } else if c == '\n' || c == '\r' || c == '\t' || c == ' ' {
        CharClass::Whitespace
    } else {
        CharClass::Other
    }
}

/// The state reached after reading one character of class `cl` in state `st`.
pub open spec fn next_state(st: SegState, cl: CharClass) -> SegState {
    match cl {
        CharClass::PunctStandard => SegState::AfterPunct,
        CharClass::PunctExtra => match st {
            SegState::AfterPunct => SegState::AfterPunctExtra,
            _ => SegState::Neutral,
        },
        CharClass::Whitespace => match st {
            SegState::Neutral => SegState::Neutral,
            _ => SegState::AfterSpace,
        },
        CharClass::Other => SegState::Neutral,
    }
}

/// A boundary is cut immediately before the current character exactly when
/// the scan stands after a punctuation-plus-whitespace run and the current
/// character is not itself whitespace.
pub open spec fn cuts_here(st: SegState, cl: CharClass) -> bool {
    st == SegState::AfterSpace && cl != CharClass::Whitespace
}

/// One full run of the segmenter over `s`, starting at position `i` in state
/// `st`, with `seg_begin` the start of the sentence being scanned and `acc`
/// the sentences already emitted. Returns the emitted sentences and whether
/// the final character was silently dropped (the documented quirk: exactly
/// one character remained past the last cut).
pub open spec fn seg_run(
    s: Seq<char>,
    i: nat,
    seg_begin: nat,
    st: SegState,
    acc: Seq<Seq<char>>,
) -> (Seq<Seq<char>>, bool)
    decreases s.len() - i,
{
    if i >= s.len() {
        if acc.len() == 0 {
            (seq![s], false)
        } else if i > seg_begin + 1 {
            (acc.push(s.subrange(seg_begin as int, i as int)), false)
        } else {
            (acc, true)
        }
    } else {
        let cl = classify(s[i as int]);
        if cuts_here(st, cl) {
            seg_run(
                s,
                (i + 1) as nat,
                i,
                next_state(st, cl),
                acc.push(s.subrange(seg_begin as int, i as int)),
            )
        } else {
            seg_run(s, (i + 1) as nat, seg_begin, next_state(st, cl), acc)
        }
    }
}

/// The sentences the segmenter yields for `s`.
pub open spec fn split_sentences_spec(s: Seq<char>) -> Seq<Seq<char>> {
    seg_run(s, 0, 0, SegState::Neutral, Seq::empty()).0
}

/// Whether the run over `s` drops its final character: at end of input, at
/// least one boundary had been cut and exactly one character followed the
/// last cut.
pub open spec fn seg_drops_last(s: Seq<char>) -> bool {
    seg_run(s, 0, 0, SegState::Neutral, Seq::empty()).1
}

/// The views of a vector of strings.
pub open spec fn seq_views(v: Seq<String>) -> Seq<Seq<char>> {
    Seq::new(v.len(), |i: int| v[i]@)
}

/// Concatenation of a sequence of character sequences.
pub open spec fn concat_all(ss: Seq<Seq<char>>) -> Seq<char>
    decreases ss.len(),
{
    if ss.len() == 0 {
        Seq::empty()
    } else {
        concat_all(ss.drop_last()) + ss.last()
    }
}

proof fn lemma_concat_all_push(ss: Seq<Seq<char>>, t: Seq<char>)
    ensures
        concat_all(ss.push(t)) == concat_all(ss) + t,
{
    assert(ss.push(t).drop_last() =~= ss);
    assert(ss.push(t).last() == t);
}

proof fn lemma_seg_run_concat(s: Seq<char>, i: nat, seg_begin: nat, st: SegState, acc: Seq<
    Seq<char>,
>)
    requires
        seg_begin <= i <= s.len(),
        concat_all(acc) == s.subrange(0, seg_begin as int),
        acc.len() == 0 ==> seg_begin == 0,
        acc.len() > 0 ==> seg_begin < i,
    ensures
        !seg_run(s, i, seg_begin, st, acc).1 ==> concat_all(seg_run(s, i, seg_begin, st, acc).0)
            == s,
        seg_run(s, i, seg_begin, st, acc).1 ==> s.len() > 0 && concat_all(
            seg_run(s, i, seg_begin, st, acc).0,
        ) == s.subrange(0, s.len() - 1),
    decreases s.len() - i,
{
    if i >= s.len() {
        if acc.len() == 0 {
            assert(concat_all(seq![s]) == concat_all(Seq::<Seq<char>>::empty()) + s) by {
                assert(seq![s].drop_last() =~= Seq::<Seq<char>>::empty());
            }
            assert(concat_all(seq![s]) =~= s);
        } else if i > seg_begin + 1 {
            lemma_concat_all_push(acc, s.subrange(seg_begin as int, i as int));
            assert(s.subrange(0, seg_begin as int) + s.subrange(seg_begin as int, i as int)
                =~= s);
        } else {
            assert(i == seg_begin + 1);
            assert(concat_all(acc) == s.subrange(0, s.len() - 1));
        }
    } else {
        let cl = classify(s[i as int]);
        if cuts_here(st, cl) {
            lemma_concat_all_push(acc, s.subrange(seg_begin as int, i as int));
            assert(s.subrange(0, seg_begin as int) + s.subrange(seg_begin as int, i as int)
                =~= s.subrange(0, i as int));
            lemma_seg_run_concat(
                s,
                (i + 1) as nat,
                i,
                next_state(st, cl),
                acc.push(s.subrange(seg_begin as int, i as int)),
            );
        } else {
            lemma_seg_run_concat(s, (i + 1) as nat, seg_begin, next_state(st, cl), acc);
        }
    }
}

/// Law: concatenating the segmenter's output reproduces its input exactly,
/// except that an input whose run ends with exactly one character past the
/// last cut boundary loses that final character.
pub proof fn lemma_reconstruction(s: Seq<char>)
    ensures
        !seg_drops_last(s) ==> concat_all(split_sentences_spec(s)) == s,
        seg_drops_last(s) ==> s.len() > 0 && concat_all(split_sentences_spec(s)) == s.subrange(
            0,
            s.len() - 1,
        ),
{
    assert(concat_all(Seq::<Seq<char>>::empty()) == s.subrange(0, 0)) by {
        assert(s.subrange(0, 0) =~= Seq::<char>::empty());
    }
    lemma_seg_run_concat(s, 0, 0, SegState::Neutral, Seq::empty());
}

proof fn lemma_seg_run_count(s: Seq<char>, i: nat, seg_begin: nat, st: SegState, acc: Seq<
    Seq<char>,
>)
    requires
        i <= s.len(),
    ensures
        seg_run(s, i, seg_begin, st, acc).0.len() <= acc.len() + (s.len() - i) + 1,
    decreases s.len() - i,
{
    if i < s.len() {
        let cl = classify(s[i as int]);
        if cuts_here(st, cl) {
            lemma_seg_run_count(
                s,
                (i + 1) as nat,
                i,
                next_state(st, cl),
                acc.push(s.subrange(seg_begin as int, i as int)),
            );
        } else {
            lemma_seg_run_count(s, (i + 1) as nat, seg_begin, next_state(st, cl), acc);
        }
    }
}

/// The segmenter never yields more sentences than characters plus one.
pub proof fn lemma_split_count(s: Seq<char>)
    ensures
        split_sentences_spec(s).len() <= s.len() + 1,
{
    lemma_seg_run_count(s, 0, 0, SegState::Neutral, Seq::empty());
}

fn classify_char(c: char) -> (r: CharClass)
    ensures
        r == classify(c),
{
    if c == '.' || c == '!' || c == '?' {
        CharClass::PunctStandard
    } else if c == '\'' || c == '"' || c == '\u{201d}' || c == '\u{2019}' || c == '\u{201c}'
        || c == '\u{2026}' {
        CharClass::PunctExtra
    } else if c == '\n' || c == '\r' || c == '\t' || c == ' ' {
        CharClass::Whitespace
    } else {
        CharClass::Other
    }
}

fn step_state(st: SegState, cl: CharClass) -> (r: SegState)
    ensures
        r == next_state(st, cl),
{
    match cl {
        CharClass::PunctStandard => SegState::AfterPunct,
        CharClass::PunctExtra => match st {
            SegState::AfterPunct => SegState::AfterPunctExtra,
            _ => SegState::Neutral,
        },
        CharClass::Whitespace => match st {
            SegState::Neutral => SegState::Neutral,
            _ => SegState::AfterSpace,
        },
        CharClass::Other => SegState::Neutral,
    }
}

/// Splits text into sentence substrings, exactly as the segmenter's state
/// machine prescribes.
pub fn split_sentences(text: &String) -> (r: Vec<String>)
    ensures
        seq_views(r@) == split_sentences_spec(text@),
{
    let s: &str = text.as_str();
    let n: usize = s.unicode_len();
    let mut sentences: Vec<String> = Vec::new();
    let mut seg_begin: usize = 0;
    let mut i: usize = 0;
    let mut st: SegState = SegState::Neutral;
    proof {
        assert(seq_views(sentences@) =~= Seq::<Seq<char>>::empty());
    }
    while i < n
        invariant
            s@ == text@,
            n == text@.len(),
            seg_begin <= i <= n,
            sentences@.len() == 0 ==> seg_begin == 0,
            sentences@.len() > 0 ==> seg_begin < i,
            seg_run(text@, i as nat, seg_begin as nat, st, seq_views(sentences@)) == seg_run(
                text@,
                0,
                0,
                SegState::Neutral,
                Seq::empty(),
            ),
        decreases n - i,
    {
        let c: char = s.get_char(i);
        let cl = classify_char(c);
        let ghost old_sents = sentences@;
        if st == SegState::AfterSpace && !(cl == CharClass::Whitespace) {
            let sent: String = s.substring_char(seg_begin, i).to_owned();
            sentences.push(sent);
            proof {
                assert(seq_views(sentences@) =~= seq_views(old_sents).push(
                    text@.subrange(seg_begin as int, i as int),
                ));
            }
            seg_begin = i;
        }
        st = step_state(st, cl);
        i = i + 1;
    }
    if sentences.len() == 0 {
        let whole: String = text.clone();
        sentences.push(whole);
        proof {
            assert(seq_views(sentences@) =~= seq![text@]);
        }
    } else if i - seg_begin > 1 {
        let ghost old_sents = sentences@;
        let rest: String = s.substring_char(seg_begin, n).to_owned();
        sentences.push(rest);
        proof {
            assert(seq_views(sentences@) =~= seq_views(old_sents).push(
                text@.subrange(seg_begin as int, n as int),
            ));
        }
    }
    sentences
}

} // verus!
