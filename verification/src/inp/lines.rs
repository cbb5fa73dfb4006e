//! Lines and words of a deck, and the folding of `+` continuation lines.

use vstd::prelude::*;

use crate::inp::{fault, Fault, ParseError, err};
use crate::text::{chars_of, is_white_space, white_space};

verus! {

/// The pieces of `t` between line feeds (at least one, possibly empty).
pub open spec fn pieces(t: Seq<char>) -> Seq<Seq<char>>
    decreases t.len(),
{
    if t.len() == 0 {
        seq![Seq::empty()]
    } else {
        let p = pieces(t.drop_last());
        if t.last() == '\n' {
            p.push(Seq::empty())
        } else {
            p.drop_last().push(p.last().push(t.last()))
        }
    }
}

/// The lines of `t`: its pieces, without an empty last one. Up to the
/// white space at their ends, these are the lines `str::lines` yields.
pub open spec fn lines_of(t: Seq<char>) -> Seq<Seq<char>> {
    let p = pieces(t);
    if p.last().len() == 0 {
        p.drop_last()
    } else {
        p
    }
}

/// The words of a line: its maximal runs of characters other than white
/// space, in order.
pub open spec fn words(t: Seq<char>) -> Seq<Seq<char>>
    decreases t.len(),
{
    if t.len() == 0 {
        Seq::empty()
    } else {
        let w = words(t.drop_last());
        let c = t.last();
        if white_space(c) {
            w
        } else if t.len() >= 2 && !white_space(t[t.len() - 2]) {
            w.drop_last().push(w.last().push(c))
        } else {
            w.push(seq![c])
        }
    }
}

/// Whether a word begins with `c`.
pub open spec fn begins_with(w: Seq<char>, c: char) -> bool {
    w.len() > 0 && w[0] == c
}

/// A logical line: the number of its first physical line, and its words.
pub type LineView = (int, Seq<Seq<char>>);

/// Folds the lines of a deck: blank lines and `*` comments drop, a line
/// whose first word begins with `+` continues the previous logical line
/// (the rest of that word, if any, then its other words), every other line
/// starts a new one numbered by its position.
pub open spec fn fold(ls: Seq<Seq<char>>) -> Result<Seq<LineView>, Fault>
    decreases ls.len(),
{
    if ls.len() == 0 {
        Ok(Seq::empty())
    } else {
        match fold(ls.drop_last()) {
            Err(f) => Err(f),
            Ok(done) => {
                let number = ls.len() as int;
                let toks = words(ls.last());
                if toks.len() == 0 || begins_with(toks[0], '*') {
                    Ok(done)
                } else if begins_with(toks[0], '+') {
                    if done.len() == 0 {
                        Err(fault(number, "deck starts with a '+' continuation line"@))
                    } else {
                        let cont = toks[0].drop_first();
                        let prev = done.last();
                        let head = if cont.len() > 0 {
                            prev.1.push(cont)
                        } else {
                            prev.1
                        };
                        Ok(done.drop_last().push((prev.0, head + toks.drop_first())))
                    }
                } else {
                    Ok(done.push((number, toks)))
                }
            },
        }
    }
}

/// A logical line of a deck.
pub struct Line {
    /// Number of the physical line it starts on, counted from 1.
    pub number: usize,
    /// Its words.
    pub tokens: Vec<Vec<char>>,
}

/// The words of a list of words.
pub open spec fn words_view(ws: Seq<Vec<char>>) -> Seq<Seq<char>> {
    ws.map_values(|w: Vec<char>| w@)
}

/// The content of a list of lines.
pub open spec fn lines_view(ls: Seq<Line>) -> Seq<LineView> {
    ls.map_values(|l: Line| (l.number as int, words_view(l.tokens@)))
}

/// The pieces of a text are never none.
proof fn lemma_pieces_nonempty(t: Seq<char>)
    ensures
        pieces(t).len() >= 1,
        pieces(t).len() <= t.len() + 1,
    decreases t.len(),
{
    if t.len() > 0 {
        lemma_pieces_nonempty(t.drop_last());
    }
}

/// A text has no more lines than characters.
proof fn lemma_lines_bound(t: Seq<char>)
    ensures
        lines_of(t).len() <= t.len(),
    decreases t.len(),
{
    lemma_pieces_nonempty(t);
    if t.len() > 0 {
        lemma_pieces_nonempty(t.drop_last());
        if t.last() != '\n' {
            assert(pieces(t).last().len() > 0);
        }
    }
}

/// The lines of a text, split at line feeds.
fn split_lines(t: &Vec<char>) -> (r: Vec<Vec<char>>)
    ensures
        words_view(r@) == lines_of(t@),
        r@.len() <= t@.len(),
{
    let mut r: Vec<Vec<char>> = Vec::new();
    r.push(Vec::new());
    let mut i: usize = 0;
    proof {
        assert(t@.take(0) =~= Seq::<char>::empty());
        assert(words_view(r@) =~= pieces(t@.take(0)));
    }
    while i < t.len()
        invariant
            i <= t@.len(),
            words_view(r@) == pieces(t@.take(i as int)),
            r@.len() >= 1,
        decreases t@.len() - i,
    {
        let c = t[i];
        let ghost before = r@;
        proof {
            assert(t@.take(i as int + 1).drop_last() =~= t@.take(i as int));
            assert(t@.take(i as int + 1).last() == c);
        }
        if c == '\n' {
            r.push(Vec::new());
            proof {
                assert(words_view(r@) =~= words_view(before).push(Seq::empty()));
            }
        } else {
            let mut last = r.pop().unwrap();
            last.push(c);
            r.push(last);
            proof {
                assert(words_view(r@) =~= words_view(before).drop_last().push(words_view(before).last().push(c)));
            }
        }
        i = i + 1;
    }
    proof {
        assert(t@.take(i as int) =~= t@);
        lemma_lines_bound(t@);
    }
    if r[r.len() - 1].len() == 0 {
        let ghost before = r@;
        let _ = r.pop();
        proof {
            assert(words_view(r@) =~= words_view(before).drop_last());
        }
    }
    r
}

/// The last word of a line that ends in a character other than white
/// space exists.
proof fn lemma_words_nonempty(t: Seq<char>)
    requires
        t.len() > 0,
        !white_space(t.last()),
    ensures
        words(t).len() > 0,
{
}

/// The words of a line.
pub fn words_of(t: &[char]) -> (r: Vec<Vec<char>>)
    ensures
        words_view(r@) == words(t@),
{
    let mut r: Vec<Vec<char>> = Vec::new();
    let mut i: usize = 0;
    proof {
        assert(t@.take(0) =~= Seq::<char>::empty());
        assert(words_view(r@) =~= words(t@.take(0)));
    }
    while i < t.len()
        invariant
            i <= t@.len(),
            words_view(r@) == words(t@.take(i as int)),
        decreases t@.len() - i,
    {
        let c = t[i];
        let ghost before = r@;
        let ghost pre = t@.take(i as int);
        let ghost now = t@.take(i as int + 1);
        proof {
            assert(now.drop_last() =~= pre);
            assert(now.last() == c);
        }
        if is_white_space(c) {
        } else if i >= 1 && !is_white_space(t[i - 1]) {
            proof {
                assert(now[now.len() - 2] == t@[i - 1]);
                assert(pre.last() == t@[i - 1]);
                lemma_words_nonempty(pre);
            }
            let mut last = r.pop().unwrap();
            last.push(c);
            r.push(last);
            proof {
                assert(words_view(r@) =~= words_view(before).drop_last().push(words_view(before).last().push(c)));
            }
        } else {
            let mut w: Vec<char> = Vec::new();
            w.push(c);
            r.push(w);
            proof {
                assert(words_view(r@) =~= words_view(before).push(seq![c]));
                if i >= 1 {
                    assert(now[now.len() - 2] == t@[i - 1]);
                }
            }
        }
        i = i + 1;
    }
    proof {
        assert(t@.take(i as int) =~= t@);
    }
    r
}

/// Folds the lines of `text` into logical lines; also returns the number
/// of its last physical line (0 for an empty text).
pub fn logical_lines(text: &str) -> (r: (usize, Result<Vec<Line>, ParseError>))
    ensures
        r.0 == lines_of(text@).len(),
        match r.1 {
            Ok(v) => fold(lines_of(text@)) == Ok::<Seq<LineView>, Fault>(lines_view(v@))
                && forall|j: int| 0 <= j < v@.len() ==> (#[trigger] v@[j]).tokens@.len() >= 1,
            Err(e) => fold(lines_of(text@)) == Err::<Seq<LineView>, Fault>(e@),
        },
{
    let t = chars_of(text);
    let ls = split_lines(&t);
    let ghost lv = words_view(ls@);
    let mut out: Vec<Line> = Vec::new();
    let mut k: usize = 0;
    proof {
        assert(lv.take(0) =~= Seq::<Seq<char>>::empty());
        assert(lines_view(out@) =~= Seq::<LineView>::empty());
    }
    while k < ls.len()
        invariant
            k <= ls@.len(),
            lv == words_view(ls@),
            lv == lines_of(text@),
            fold(lv.take(k as int)) == Ok::<Seq<LineView>, Fault>(lines_view(out@)),
            forall|j: int| 0 <= j < out@.len() ==> 1 <= (#[trigger] out@[j]).number <= k,
            forall|j: int| 0 <= j < out@.len() ==> (#[trigger] out@[j]).tokens@.len() >= 1,
        decreases ls@.len() - k,
    {
        let toks = words_of(ls[k].as_slice());
        let number = k + 1;
        let ghost upto = lv.take(k as int + 1);
        let ghost done = lines_view(out@);
        let ghost wt = words_view(toks@);
        proof {
            assert(upto.drop_last() =~= lv.take(k as int));
            assert(upto.last() == ls@[k as int]@);
            assert(upto.len() == number);
            assert(wt == words(upto.last()));
            if toks@.len() > 0 {
                assert(wt[0] == toks@[0]@);
            }
        }
        if toks.len() == 0 || toks[0].len() > 0 && toks[0][0] == '*' {
            proof {
                assert(wt.len() == 0 || begins_with(wt[0], '*'));
                assert(fold(upto) == Ok::<Seq<LineView>, Fault>(done));
            }
        } else if toks[0].len() > 0 && toks[0][0] == '+' {
            if out.len() == 0 {
                let e = err(number, "deck starts with a '+' continuation line");
                proof {
                    assert(words_view(toks@)[0] == toks@[0]@);
                    assert(fold(upto) == Err::<Seq<LineView>, Fault>(e@));
                    lemma_fold_err_extends(lv, k as int + 1);
                }
                return (ls.len(), Err(e));
            }
            let mut prev = out.pop().unwrap();
            let ghost prev_view = (prev.number as int, words_view(prev.tokens@));
            proof {
                assert(done.last() == prev_view);
                assert(lines_view(out@) =~= done.drop_last());
            }
            let first = &toks[0];
            if first.len() > 1 {
                let mut cont: Vec<char> = Vec::new();
                let mut j: usize = 1;
                while j < first.len()
                    invariant
                        1 <= j <= first@.len(),
                        cont@ == first@.subrange(1, j as int),
                    decreases first@.len() - j,
                {
                    cont.push(first[j]);
                    j = j + 1;
                    proof {
                        assert(first@.subrange(1, j as int) =~= first@.subrange(1, j as int - 1).push(first@[j as int - 1]));
                    }
                }
                proof {
                    assert(cont@ =~= first@.drop_first());
                }
                let ghost before = prev.tokens@;
                prev.tokens.push(cont);
                proof {
                    assert(words_view(prev.tokens@) =~= words_view(before).push(cont@));
                }
            }
            let ghost head = words_view(prev.tokens@);
            proof {
                assert(first@ == wt[0]);
                assert(head == if wt[0].drop_first().len() > 0 {
                    prev_view.1.push(wt[0].drop_first())
                } else {
                    prev_view.1
                });
            }
            let mut j: usize = 1;
            while j < toks.len()
                invariant
                    1 <= j <= toks@.len(),
                    prev.number as int == prev_view.0,
                    prev.number >= 1,
                    prev.tokens@.len() >= 1,
                    words_view(prev.tokens@) == head + words_view(toks@).subrange(1, j as int),
                decreases toks@.len() - j,
            {
                let w = toks[j].clone();
                proof {
                    assert(w@ == toks@[j as int]@);
                }
                let ghost before = prev.tokens@;
                prev.tokens.push(w);
                proof {
                    assert(words_view(prev.tokens@) =~= words_view(before).push(w@));
                    assert(words_view(toks@).subrange(1, j as int + 1) =~= words_view(toks@).subrange(1, j as int).push(toks@[j as int]@));
                }
                j = j + 1;
            }
            proof {
                assert(words_view(toks@).subrange(1, toks@.len() as int) =~= words_view(toks@).drop_first());
            }
            let ghost mid = lines_view(out@);
            out.push(prev);
            proof {
                assert(lines_view(out@) =~= mid.push((prev_view.0, words_view(prev.tokens@))));
                assert(begins_with(wt[0], '+'));
                assert(wt[0].drop_first().len() > 0 <==> first@.len() > 1);
                assert(fold(upto) == Ok::<Seq<LineView>, Fault>(lines_view(out@)));
            }
        } else {
            let ghost before = lines_view(out@);
            out.push(Line { number, tokens: toks });
            proof {
                assert(lines_view(out@) =~= before.push((number as int, words(ls@[k as int]@))));
                assert(!(wt.len() == 0 || begins_with(wt[0], '*')));
                assert(!begins_with(wt[0], '+'));
                assert(fold(upto) == Ok::<Seq<LineView>, Fault>(lines_view(out@)));
            }
        }
        k = k + 1;
    }
    proof {
        assert(lv.take(k as int) =~= lv);
    }
    (ls.len(), Ok(out))
}


/// Once folding fails on a prefix, it fails the same way on the whole.
proof fn lemma_fold_err_extends(ls: Seq<Seq<char>>, k: int)
    requires
        0 <= k <= ls.len(),
        fold(ls.take(k)) is Err,
    ensures
        fold(ls) == fold(ls.take(k)),
    decreases ls.len() - k,
{
    if k < ls.len() {
        assert(ls.take(k + 1).drop_last() =~= ls.take(k));
        lemma_fold_err_extends(ls, k + 1);
    } else {
        assert(ls.take(k) =~= ls);
    }
}

} // verus!
