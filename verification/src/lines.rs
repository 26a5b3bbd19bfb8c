//! Line selection over document bytes. A document is split at every line
//! feed; a carriage return directly before a line feed belongs to the line
//! ending and is stripped; a final line without a trailing line feed counts,
//! a trailing line feed opens no further empty line.

use vstd::prelude::*;

verus! {

/// Line feed and carriage return.
pub open spec fn nl() -> u8 {
    10
}

pub open spec fn cr() -> u8 {
    13
}

/// The index of the first line feed in `s`, or the length if there is none.
pub open spec fn first_nl(s: Seq<u8>) -> int
    decreases s.len(),
{
    if s.len() == 0 {
        0
    } else if s[0] == nl() {
        0
    } else {
        1 + first_nl(s.skip(1))
    }
}

pub proof fn lemma_first_nl(s: Seq<u8>)
    ensures
        0 <= first_nl(s) <= s.len(),
        first_nl(s) < s.len() ==> s[first_nl(s)] == nl(),
        forall|m: int| 0 <= m < first_nl(s) ==> s[m] != nl(),
    decreases s.len(),
{
    if s.len() > 0 && s[0] != nl() {
        lemma_first_nl(s.skip(1));
        assert forall|m: int| 1 <= m < first_nl(s) implies s[m] != nl() by {
            assert(s.skip(1)[m - 1] == s[m]);
        }
    }
}

/// `first_nl` is pinned by a scan that stopped at `m`.
pub proof fn lemma_first_nl_is(s: Seq<u8>, m: int)
    requires
        0 <= m <= s.len(),
        forall|q: int| 0 <= q < m ==> s[q] != nl(),
        m < s.len() ==> s[m] == nl(),
    ensures
        first_nl(s) == m,
    decreases m,
{
    if m > 0 {
        assert forall|q: int| 0 <= q < m - 1 implies s.skip(1)[q] != nl() by {
            assert(s.skip(1)[q] == s[q + 1]);
        }
        assert(m - 1 < s.skip(1).len() ==> s.skip(1)[m - 1] == s[m]);
        lemma_first_nl_is(s.skip(1), m - 1);
    }
}

/// The lines of `s`, in order, line endings removed.
pub open spec fn spec_lines(s: Seq<u8>) -> Seq<Seq<u8>>
    decreases s.len(),
        via spec_lines_dec
{
    if s.len() == 0 {
        Seq::empty()
    } else {
        let n = first_nl(s);
        if n >= s.len() {
            seq![s]
        } else {
            let line = if n > 0 && s[n - 1] == cr() {
                s.take(n - 1)
            } else {
                s.take(n)
            };
            seq![line] + spec_lines(s.skip(n + 1))
        }
    }
}

#[via_fn]
proof fn spec_lines_dec(s: Seq<u8>) {
    lemma_first_nl(s);
}

/// Copy `text[start..end]`.
pub fn copy_range(text: &Vec<u8>, start: usize, end: usize) -> (r: Vec<u8>)
    requires
        start <= end <= text@.len(),
    ensures
        r@ == text@.subrange(start as int, end as int),
{
    let mut r: Vec<u8> = Vec::new();
    let mut i: usize = start;
    while i < end
        invariant
            start <= i <= end <= text@.len(),
            r@ == text@.subrange(start as int, i as int),
        decreases end - i,
    {
        r.push(text[i]);
        proof {
            assert(text@.subrange(start as int, i as int).push(text@[i as int])
                =~= text@.subrange(start as int, i as int + 1));
        }
        i = i + 1;
    }
    r
}

/// The line of `text` at index `line`, or nothing when there are fewer
/// lines than that.
pub fn line_at(text: &Vec<u8>, line: usize) -> (r: Option<Vec<u8>>)
    ensures
        (match r {
            Some(l) => (line as int) < spec_lines(text@).len()
                && l@ == spec_lines(text@)[line as int],
            None => (line as int) >= spec_lines(text@).len(),
        }),
{
    let n = text.len();
    let mut pos: usize = 0;
    let mut k: usize = 0;
    proof {
        assert(text@.skip(0) =~= text@);
        assert(spec_lines(text@).skip(0) =~= spec_lines(text@));
    }
    loop
        invariant
            pos <= n,
            n == text@.len(),
            k <= line,
            k as int <= spec_lines(text@).len(),
            spec_lines(text@).skip(k as int) == spec_lines(text@.skip(pos as int)),
        decreases n - pos,
    {
        let ghost whole = text@;
        let ghost rem = text@.skip(pos as int);
        if pos >= n {
            proof {
                assert(rem =~= Seq::<u8>::empty());
                assert(spec_lines(whole).len() - k as int == 0);
            }
            return None;
        }
        // Scan for the next line feed.
        let mut j: usize = pos;
        while j < n && text[j] != 10
            invariant
                pos <= j <= n,
                n == text@.len(),
                forall|m: int| pos <= m < j ==> text@[m] != nl(),
            decreases n - j,
        {
            j = j + 1;
        }
        proof {
            assert forall|q: int| 0 <= q < j - pos implies rem[q] != nl() by {
                assert(rem[q] == whole[pos + q]);
            }
            lemma_first_nl_is(rem, j - pos as int);
            assert(rem.len() > 0);
        }
        if k == line {
            let end = if j < n {
                if j > pos && text[j - 1] == 13 {
                    j - 1
                } else {
                    j
                }
            } else {
                n
            };
            let l = copy_range(text, pos, end);
            proof {
                let fnl = first_nl(rem);
                let line0 = if fnl < rem.len() {
                    if fnl > 0 && rem[fnl - 1] == cr() {
                        rem.take(fnl - 1)
                    } else {
                        rem.take(fnl)
                    }
                } else {
                    rem
                };
                if fnl < rem.len() {
                    assert(spec_lines(rem) == seq![line0] + spec_lines(rem.skip(fnl + 1)));
                } else {
                    assert(spec_lines(rem) == seq![rem]);
                }
                assert(spec_lines(rem)[0] == line0);
                assert(spec_lines(whole).skip(k as int).len()
                    == spec_lines(whole).len() - k as int);
                assert((k as int) < spec_lines(whole).len());
                if j < n {
                    assert(fnl == j - pos as int && fnl < rem.len());
                    if j > pos && whole[j - 1] == cr() {
                        assert(rem[fnl - 1] == whole[j - 1]);
                        assert(line0 =~= whole.subrange(pos as int, end as int));
                    } else {
                        if fnl > 0 {
                            assert(rem[fnl - 1] == whole[j - 1]);
                        }
                        assert(line0 =~= whole.subrange(pos as int, end as int));
                    }
                } else {
                    assert(fnl >= rem.len());
                    assert(line0 =~= whole.subrange(pos as int, end as int));
                }
                assert(spec_lines(whole)[k as int] == spec_lines(whole).skip(k as int)[0]);
            }
            return Some(l);
        }
        if j >= n {
            proof {
                assert(first_nl(rem) >= rem.len());
                assert(spec_lines(rem) == seq![rem]);
                assert(spec_lines(whole).len() - k as int == 1);
            }
            return None;
        }
        proof {
            let fnl = first_nl(rem);
            assert(fnl == j - pos as int && fnl < rem.len());
            let line0 = if fnl > 0 && rem[fnl - 1] == cr() {
                rem.take(fnl - 1)
            } else {
                rem.take(fnl)
            };
            assert(spec_lines(rem) == seq![line0] + spec_lines(rem.skip(fnl + 1)));
            assert(rem.skip(fnl + 1) =~= whole.skip(j as int + 1));
            assert(spec_lines(whole).skip(k as int + 1)
                =~= (seq![line0] + spec_lines(whole.skip(j as int + 1))).skip(1));
            assert(spec_lines(whole).skip(k as int + 1) =~= spec_lines(whole.skip(j as int + 1)));
        }
        pos = j + 1;
        k = k + 1;
    }
}

} // verus!
