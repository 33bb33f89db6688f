//! Label table: the text of the labels resource split into lines, where
//! line N is the label of class N.

use vstd::prelude::*;

verus! {

/// Length of the prefix of `s` before its first line feed; `s.len()`
/// when `s` holds none.
pub open spec fn find_nl(s: Seq<u8>) -> int
    decreases s.len(),
{
    if s.len() == 0 {
        0
    } else if s[0] == 10 {
        0
    } else {
        1 + find_nl(s.drop_first())
    }
}

/// A line with one carriage return stripped from its end, so that a
/// carriage-return-line-feed terminator counts as one terminator.
pub open spec fn strip_cr(l: Seq<u8>) -> Seq<u8> {
    if l.len() > 0 && l.last() == 13 {
        l.drop_last()
    } else {
        l
    }
}

/// The lines of `s`: segments ending at each line feed, each with a
/// trailing carriage return stripped; a last segment not ended by a
/// line feed is kept as it stands, and text ending in a line feed
/// yields no empty final line.
pub open spec fn split_lines_spec(s: Seq<u8>) -> Seq<Seq<u8>>
    decreases s.len(),
{
    if s.len() == 0 {
        Seq::empty()
    } else {
        let i = find_nl(s);
        if 0 <= i < s.len() {
            seq![strip_cr(s.take(i))] + split_lines_spec(s.skip(i + 1))
        } else {
            seq![s]
        }
    }
}

proof fn lemma_find_nl_props(s: Seq<u8>)
    ensures
        0 <= find_nl(s) <= s.len(),
        find_nl(s) < s.len() ==> s[find_nl(s)] == 10,
        forall|k: int| 0 <= k < find_nl(s) ==> s[k] != 10,
    decreases s.len(),
{
    if s.len() == 0 {
    } else if s[0] == 10 {
    } else {
        lemma_find_nl_props(s.drop_first());
        if find_nl(s) < s.len() {
            assert(s.drop_first()[find_nl(s.drop_first())] == s[find_nl(s)]);
        }
        assert forall|k: int| 0 <= k < find_nl(s) implies s[k] != 10 by {
            if k > 0 {
                assert(s.drop_first()[k - 1] == s[k]);
            }
        }
    }
}

proof fn lemma_find_nl_char(s: Seq<u8>, j: int)
    requires
        0 <= j <= s.len(),
        forall|k: int| 0 <= k < j ==> s[k] != 10,
        j == s.len() || s[j] == 10,
    ensures
        find_nl(s) == j,
    decreases s.len(),
{
    if j == 0 {
    } else {
        assert(s[0] != 10);
        assert forall|k: int| 0 <= k < j - 1 implies s.drop_first()[k] != 10 by {
            assert(s.drop_first()[k] == s[k + 1]);
        }
        if j < s.len() {
            assert(s.drop_first()[j - 1] == s[j]);
        }
        lemma_find_nl_char(s.drop_first(), j - 1);
    }
}

/// The bytes of `text` from `from` (inclusive) to `to` (exclusive).
fn subvec(text: &Vec<u8>, from: usize, to: usize) -> (r: Vec<u8>)
    requires
        from <= to <= text@.len(),
    ensures
        r@ == text@.subrange(from as int, to as int),
{
    let mut r: Vec<u8> = Vec::new();
    let mut k: usize = from;
    while k < to
        invariant
            from <= k <= to <= text@.len(),
            r@ == text@.subrange(from as int, k as int),
        decreases to - k,
    {
        let b = text[k];
        r.push(b);
        proof {
            assert(text@.subrange(from as int, k + 1) =~= text@.subrange(
                from as int,
                k as int,
            ).push(text@[k as int]));
        }
        k += 1;
    }
    r
}

fn split_from(text: &Vec<u8>, from: usize) -> (r: Vec<Vec<u8>>)
    requires
        from <= text@.len(),
    ensures
        crate::postprocess::label_views(r@) == split_lines_spec(text@.skip(from as int)),
    decreases text@.len() - from,
{
    let ghost s = text@.skip(from as int);
    if from == text.len() {
        let r: Vec<Vec<u8>> = Vec::new();
        proof {
            assert(s =~= Seq::<u8>::empty());
            assert(crate::postprocess::label_views(r@) =~= Seq::<Seq<u8>>::empty());
        }
        return r;
    }
    let mut j: usize = from;
    while j < text.len() && text[j] != 10
        invariant
            from <= j <= text@.len(),
            forall|k: int| from <= k < j ==> text@[k] != 10,
        decreases text@.len() - j,
    {
        j += 1;
    }
    proof {
        assert forall|k: int| 0 <= k < j - from implies s[k] != 10 by {
            assert(s[k] == text@[from + k]);
        }
        if j < text@.len() {
            assert(s[j - from] == text@[j as int]);
        }
        lemma_find_nl_char(s, j - from);
    }
    if j == text.len() {
        // no terminator: the remaining text is the final line, as it stands
        let line = subvec(text, from, j);
        let mut r: Vec<Vec<u8>> = Vec::new();
        proof {
            assert(line@ =~= s);
            assert(find_nl(s) == s.len());
        }
        r.push(line);
        proof {
            assert(crate::postprocess::label_views(r@) =~= seq![s]);
        }
        r
    } else {
        // line feed at j: the line ends there, minus one carriage return
        let end = if j > from && text[j - 1] == 13 {
            j - 1
        } else {
            j
        };
        let line = subvec(text, from, end);
        let mut r = split_from(text, j + 1);
        proof {
            assert(s.take(j - from) =~= text@.subrange(from as int, j as int));
            if j > from && text@[j - 1] == 13 {
                assert(s.take(j - from).last() == text@[j - 1]);
                assert(line@ =~= s.take(j - from).drop_last());
                assert(strip_cr(s.take(j - from)) == s.take(j - from).drop_last());
            } else {
                if j > from {
                    assert(s.take(j - from).last() == text@[j - 1]);
                }
                assert(line@ =~= s.take(j - from));
                assert(strip_cr(s.take(j - from)) == s.take(j - from));
            }
            assert(text@.skip(j + 1) =~= s.skip(j - from + 1));
        }
        let ghost tail_views = crate::postprocess::label_views(r@);
        r.insert(0, line);
        proof {
            assert(crate::postprocess::label_views(r@) =~= seq![line@] + tail_views);
            assert(seq![line@] + tail_views =~= split_lines_spec(s));
        }
        r
    }
}

/// The label table of the labels resource: its lines in order, line N
/// being the label of class N.
pub fn parse_labels(text: &Vec<u8>) -> (r: Vec<Vec<u8>>)
    ensures
        crate::postprocess::label_views(r@) == split_lines_spec(text@),
{
    let r = split_from(text, 0);
    proof {
        assert(text@.skip(0) =~= text@);
    }
    r
}

} // verus!
