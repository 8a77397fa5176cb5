//! Small verified helpers for working with strings as sequences of
//! characters: equality, splitting on a separator, and joining.

use vstd::prelude::*;

verus! {

/// Splitting `s` at every occurrence of `sep`, as a sequence of pieces.
/// An empty input yields one empty piece; a trailing separator yields a
/// trailing empty piece, as `str::split` does.
pub open spec fn split_spec(s: Seq<char>, sep: char) -> Seq<Seq<char>>
    decreases s.len(),
{
    if s.len() == 0 {
        seq![Seq::<char>::empty()]
    } else {
        let rest = split_spec(s.drop_last(), sep);
        if s.last() == sep {
            rest.push(Seq::<char>::empty())
        } else {
            rest.update(rest.len() - 1, rest.last().push(s.last()))
        }
    }
}

/// `split_spec` always yields at least one piece.
pub proof fn lemma_split_len(s: Seq<char>, sep: char)
    ensures
        split_spec(s, sep).len() >= 1,
    decreases s.len(),
{
    if s.len() > 0 {
        lemma_split_len(s.drop_last(), sep);
    }
}

/// The pieces of `split_spec`, joined back with `sep` between them.
pub open spec fn join_spec(parts: Seq<Seq<char>>, sep: Seq<char>) -> Seq<char>
    decreases parts.len(),
{
    if parts.len() == 0 {
        Seq::<char>::empty()
    } else if parts.len() == 1 {
        parts[0]
    } else {
        join_spec(parts.drop_last(), sep) + sep + parts.last()
    }
}

/// The offset in the split text at which piece `l` begins, counting one
/// separator after every earlier piece.
pub open spec fn piece_start(pieces: Seq<Seq<char>>, l: int) -> int
    decreases l when l >= 0
{
    if l <= 0 {
        0
    } else {
        piece_start(pieces, l - 1) + pieces[l - 1].len() + 1
    }
}

/// `piece_start` looks only at the pieces before `l`.
pub proof fn lemma_piece_start_agree(p1: Seq<Seq<char>>, p2: Seq<Seq<char>>, l: int)
    requires
        0 <= l,
        forall|k: int| 0 <= k < l ==> p1[k] == p2[k],
    ensures
        piece_start(p1, l) == piece_start(p2, l),
    decreases l,
{
    if l > 0 {
        lemma_piece_start_agree(p1, p2, l - 1);
    }
}

/// The piece starts partition the split text: the start of the piece
/// after the last lies one past the end of the text, and every piece with
/// its separator fits before that.
pub proof fn lemma_split_starts(s: Seq<char>, sep: char)
    ensures
        ({
            let pieces = split_spec(s, sep);
            &&& piece_start(pieces, pieces.len() as int) == s.len() + 1
            &&& forall|l: int|
                0 <= l < pieces.len() ==> 0 <= #[trigger] piece_start(pieces, l) && piece_start(
                    pieces,
                    l,
                ) + pieces[l].len() < s.len() + 1
        }),
    decreases s.len(),
{
    lemma_split_len(s, sep);
    let pieces = split_spec(s, sep);
    let n = pieces.len() as int;
    if s.len() == 0 {
        assert(pieces =~= seq![Seq::<char>::empty()]);
        assert(piece_start(pieces, 0) == 0);
        assert(piece_start(pieces, 1) == 1);
    } else {
        let s0 = s.drop_last();
        let ch = s.last();
        lemma_split_starts(s0, sep);
        lemma_split_len(s0, sep);
        let p0 = split_spec(s0, sep);
        let n0 = p0.len() as int;
        if ch == sep {
            assert(pieces == p0.push(Seq::<char>::empty()));
            assert(forall|k: int| 0 <= k < n0 ==> pieces[k] == p0[k]);
            assert forall|l: int| 0 <= l <= n0 implies #[trigger] piece_start(pieces, l)
                == piece_start(p0, l) by {
                lemma_piece_start_agree(pieces, p0, l);
            }
            assert(piece_start(pieces, n) == piece_start(pieces, n - 1) + pieces[n - 1].len() + 1);
        } else {
            assert(pieces == p0.update(n0 - 1, p0[n0 - 1].push(ch)));
            assert(forall|k: int| 0 <= k < n0 - 1 ==> pieces[k] == p0[k]);
            assert forall|l: int| 0 <= l <= n0 - 1 implies #[trigger] piece_start(pieces, l)
                == piece_start(p0, l) by {
                lemma_piece_start_agree(pieces, p0, l);
            }
            assert(piece_start(p0, n0) == piece_start(p0, n0 - 1) + p0[n0 - 1].len() + 1);
            assert(piece_start(pieces, n) == piece_start(pieces, n - 1) + pieces[n - 1].len() + 1);
        }
    }
}

/// Each piece of `split_spec` is the subrange of the split text that
/// begins at its `piece_start`.
pub proof fn lemma_split_content(s: Seq<char>, sep: char)
    ensures
        forall|l: int|
            0 <= l < split_spec(s, sep).len() ==> #[trigger] split_spec(s, sep)[l] == s.subrange(
                piece_start(split_spec(s, sep), l),
                piece_start(split_spec(s, sep), l) + split_spec(s, sep)[l].len(),
            ),
    decreases s.len(),
{
    lemma_split_len(s, sep);
    lemma_split_starts(s, sep);
    let pieces = split_spec(s, sep);
    let n = pieces.len() as int;
    if s.len() == 0 {
        assert(pieces =~= seq![Seq::<char>::empty()]);
        assert(pieces[0] =~= s.subrange(0, 0));
    } else {
        let s0 = s.drop_last();
        let ch = s.last();
        lemma_split_content(s0, sep);
        lemma_split_len(s0, sep);
        lemma_split_starts(s0, sep);
        let p0 = split_spec(s0, sep);
        let n0 = p0.len() as int;
        assert forall|l: int| 0 <= l < n implies #[trigger] pieces[l] == s.subrange(
            piece_start(pieces, l),
            piece_start(pieces, l) + pieces[l].len(),
        ) by {
            if ch == sep {
                assert(pieces == p0.push(Seq::<char>::empty()));
                assert(forall|k: int| 0 <= k < n0 ==> pieces[k] == p0[k]);
                lemma_piece_start_agree(pieces, p0, l);
                if l < n0 {
                    let a = piece_start(p0, l);
                    let b = a + p0[l].len();
                    assert(p0[l] == s0.subrange(a, b));
                    assert(s0.subrange(a, b) =~= s.subrange(a, b));
                } else {
                    lemma_piece_start_agree(pieces, p0, n0);
                    assert(piece_start(pieces, l) == piece_start(p0, n0) - 1 + p0[n0 - 1].len()
                        - pieces[n0 - 1].len() + 1);
                    assert(pieces[l] =~= s.subrange(s.len() as int, s.len() as int));
                }
            } else {
                assert(pieces == p0.update(n0 - 1, p0[n0 - 1].push(ch)));
                assert(forall|k: int| 0 <= k < n0 - 1 ==> pieces[k] == p0[k]);
                lemma_piece_start_agree(pieces, p0, l);
                let a = piece_start(p0, l);
                if l < n0 - 1 {
                    let b = a + p0[l].len();
                    assert(p0[l] == s0.subrange(a, b));
                    assert(s0.subrange(a, b) =~= s.subrange(a, b));
                } else {
                    assert(piece_start(p0, n0) == a + p0[n0 - 1].len() + 1);
                    assert(piece_start(p0, n0) == s0.len() + 1);
                    assert(p0[n0 - 1] == s0.subrange(a, s0.len() as int));
                    assert(pieces[l] =~= s.subrange(a, s.len() as int));
                }
            }
        }
    }
}

/// True iff the two string slices hold the same characters.
pub fn str_eq(a: &str, b: &str) -> (r: bool)
    ensures
        r == (a@ == b@),
{
    let alen = a.unicode_len();
    let blen = b.unicode_len();
    if alen != blen {
        return false;
    }
    let mut i: usize = 0;
    while i < alen
        invariant
            alen == a@.len(),
            blen == b@.len(),
            alen == blen,
            i <= alen,
            forall|j: int| 0 <= j < i ==> a@[j] == b@[j],
        decreases alen - i,
    {
        if a.get_char(i) != b.get_char(i) {
            return false;
        }
        i += 1;
    }
    proof {
        assert(a@ =~= b@);
    }
    true
}

/// Splits `s` at every occurrence of `sep`.
pub fn split_on(s: &str, sep: char) -> (r: Vec<String>)
    ensures
        r.deep_view() == split_spec(s@, sep),
        r.len() >= 1,
{
    let len = s.unicode_len();
    let mut out: Vec<String> = Vec::new();
    let mut start: usize = 0;
    let mut i: usize = 0;
    proof {
        assert(s@.take(0) =~= Seq::<char>::empty());
        assert(s@.subrange(0, 0) =~= Seq::<char>::empty());
        assert(out.deep_view().push(Seq::<char>::empty()) =~= seq![Seq::<char>::empty()]);
    }
    while i < len
        invariant
            len == s@.len(),
            0 <= start <= i <= len,
            split_spec(s@.take(i as int), sep) == out.deep_view().push(
                s@.subrange(start as int, i as int),
            ),
        decreases len - i,
    {
        let ghost pre = split_spec(s@.take(i as int), sep);
        let ghost old_dv = out.deep_view();
        let ghost old_start = start as int;
        let c = s.get_char(i);
        if c == sep {
            let piece = s.substring_char(start, i).to_owned();
            out.push(piece);
            proof {
                assert(out.deep_view() =~= old_dv.push(s@.subrange(old_start, i as int)));
            }
            start = i + 1;
        }
        i += 1;
        proof {
            let t = s@.take(i as int);
            assert(t.len() == i);
            assert(t.drop_last() =~= s@.take(i - 1));
            assert(t.last() == s@[i - 1]);
            assert(split_spec(t, sep) == if t.last() == sep {
                pre.push(Seq::<char>::empty())
            } else {
                pre.update(pre.len() - 1, pre.last().push(t.last()))
            });
            if c == sep {
                assert(out.deep_view() == pre);
                assert(s@.subrange(start as int, i as int) =~= Seq::<char>::empty());
                assert(split_spec(t, sep) == out.deep_view().push(
                    s@.subrange(start as int, i as int),
                ));
            } else {
                assert(pre.last() == s@.subrange(old_start, i - 1));
                assert(pre.last().push(s@[i - 1]) =~= s@.subrange(start as int, i as int));
                assert(pre.update(pre.len() - 1, pre.last().push(t.last())) =~= old_dv.push(
                    s@.subrange(start as int, i as int),
                ));
            }
        }
    }
    let ghost old_dv = out.deep_view();
    let piece = s.substring_char(start, len).to_owned();
    out.push(piece);
    proof {
        assert(s@.take(len as int) =~= s@);
        assert(out.deep_view() =~= old_dv.push(s@.subrange(start as int, len as int)));
    }
    out
}

/// Joins the pieces with `sep` between consecutive ones.
pub fn join_with(parts: &Vec<String>, sep: &str) -> (r: String)
    ensures
        r@ == join_spec(parts.deep_view(), sep@),
{
    let mut out = String::new();
    let mut i: usize = 0;
    while i < parts.len()
        invariant
            i <= parts.len(),
            out@ == join_spec(parts.deep_view().take(i as int), sep@),
        decreases parts.len() - i,
    {
        let ghost old_view = out@;
        if i > 0 {
            out.append(sep);
        }
        out.append(parts[i].as_str());
        i += 1;
        proof {
            let dv = parts.deep_view();
            let t = dv.take(i as int);
            assert(t.len() == i);
            assert(t.drop_last() =~= dv.take(i - 1));
            assert(t.last() == dv[i - 1]);
            assert(parts@[i - 1].deep_view() == parts@[i - 1]@);
            assert(dv[i - 1] == parts@[i - 1]@);
            if i == 1 {
                assert(join_spec(t, sep@) == t[0]);
                assert(out@ =~= old_view + dv[i - 1]);
                assert(old_view =~= Seq::<char>::empty());
                assert(out@ =~= t[0]);
            } else {
                assert(join_spec(t, sep@) == join_spec(t.drop_last(), sep@) + sep@ + t.last());
                assert(out@ =~= old_view + sep@ + dv[i - 1]);
            }
        }
    }
    proof {
        assert(parts.deep_view().take(parts.len() as int) =~= parts.deep_view());
    }
    out
}

} // verus!
