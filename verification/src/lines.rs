//! Line-targeted rewriting of a text file's bytes: split into lines, drop one
//! line, join back. The whole new content is computed before any byte of the
//! original is given up, so a caller can write it out atomically.

use vstd::prelude::*;

verus! {

/// Index of the first newline byte in `s`, or `s.len()` if there is none.
pub open spec fn first_nl(s: Seq<u8>) -> int
    decreases s.len(),
{
    if s.len() == 0 {
        0
    } else if s[0] == 10u8 {
        0
    } else {
        1 + first_nl(s.drop_first())
    }
}

proof fn lemma_first_nl_bounds(s: Seq<u8>)
    ensures
        0 <= first_nl(s) <= s.len(),
        forall|j: int| 0 <= j < first_nl(s) ==> s[j] != 10u8,
        first_nl(s) < s.len() ==> s[first_nl(s)] == 10u8,
    decreases s.len(),
{
    if s.len() == 0 {
    } else if s[0] == 10u8 {
    } else {
        lemma_first_nl_bounds(s.drop_first());
        assert forall|j: int| 0 <= j < first_nl(s) implies s[j] != 10u8 by {
            if j > 0 {
                assert(s.drop_first()[j - 1] == s[j]);
            }
        }
        if first_nl(s) < s.len() {
            assert(s.drop_first()[first_nl(s) - 1] == s[first_nl(s)]);
        }
    }
}

proof fn lemma_first_nl_charac(s: Seq<u8>, d: int)
    requires
        0 <= d <= s.len(),
        forall|j: int| 0 <= j < d ==> s[j] != 10u8,
        d < s.len() ==> s[d] == 10u8,
    ensures
        first_nl(s) == d,
    decreases s.len(),
{
    if s.len() == 0 {
    } else if s[0] == 10u8 {
        assert(d == 0);
    } else {
        assert(d >= 1);
        assert forall|j: int| 0 <= j < d - 1 implies s.drop_first()[j] != 10u8 by {
            assert(s.drop_first()[j] == s[j + 1]);
        }
        if d - 1 < s.drop_first().len() {
            assert(s.drop_first()[d - 1] == s[d]);
        }
        lemma_first_nl_charac(s.drop_first(), d - 1);
    }
}

#[via_fn]
proof fn line_split_decreases(s: Seq<u8>) {
    lemma_first_nl_bounds(s);
}

/// The lines of `s`: maximal chunks each ending with a newline byte, except
/// possibly the last. Every byte of `s` belongs to exactly one line.
pub open spec fn line_split(s: Seq<u8>) -> Seq<Seq<u8>>
    decreases s.len(),
    via line_split_decreases
{
    if s.len() == 0 {
        Seq::empty()
    } else {
        let i = first_nl(s);
        let end = if i < s.len() {
            i + 1
        } else {
            i
        };
        seq![s.subrange(0, end)] + line_split(s.subrange(end, s.len() as int))
    }
}

/// Concatenation of a sequence of lines back into one byte sequence.
pub open spec fn join(ls: Seq<Seq<u8>>) -> Seq<u8>
    decreases ls.len(),
{
    if ls.len() == 0 {
        Seq::empty()
    } else {
        ls[0] + join(ls.drop_first())
    }
}

proof fn lemma_join_add(a: Seq<Seq<u8>>, b: Seq<Seq<u8>>)
    ensures
        join(a + b) == join(a) + join(b),
    decreases a.len(),
{
    if a.len() == 0 {
        assert(a + b =~= b);
        assert(join(a) + join(b) =~= join(b));
    } else {
        assert((a + b).drop_first() =~= a.drop_first() + b);
        lemma_join_add(a.drop_first(), b);
        assert((a + b)[0] == a[0]);
        assert(a[0] + (join(a.drop_first()) + join(b)) =~= (a[0] + join(a.drop_first())) + join(
            b,
        ));
        assert((a + b).len() > 0);
    }
}

proof fn lemma_join_push(a: Seq<Seq<u8>>, x: Seq<u8>)
    ensures
        join(a.push(x)) == join(a) + x,
{
    reveal_with_fuel(join, 2);
    lemma_join_add(a, seq![x]);
    assert(a.push(x) =~= a + seq![x]);
    assert(seq![x].drop_first() =~= Seq::<Seq<u8>>::empty());
    assert(join(seq![x]) =~= x);
}

/// Splitting a byte sequence into lines and joining them again reproduces
/// the original bytes exactly: no byte is lost, duplicated or reordered.
pub proof fn lemma_join_split(s: Seq<u8>)
    ensures
        join(line_split(s)) == s,
    decreases s.len(),
{
    if s.len() == 0 {
        assert(join(line_split(s)) =~= s);
    } else {
        lemma_first_nl_bounds(s);
        let i = first_nl(s);
        let end = if i < s.len() {
            i + 1
        } else {
            i
        };
        let chunk = s.subrange(0, end);
        let rest = s.subrange(end, s.len() as int);
        reveal_with_fuel(join, 2);
        lemma_join_split(rest);
        lemma_join_add(seq![chunk], line_split(rest));
        assert(seq![chunk].drop_first() =~= Seq::<Seq<u8>>::empty());
        assert(join(seq![chunk]) =~= chunk);
        assert(chunk + rest =~= s);
    }
}

/// A well-formed line: nonempty, with a newline byte only in last position,
/// if anywhere.
pub open spec fn wf_line(l: Seq<u8>) -> bool {
    l.len() > 0 && forall|j: int| 0 <= j < l.len() - 1 ==> l[j] != 10u8
}

/// A well-formed line list: each entry a line, and every entry but the last
/// newline-terminated.
pub open spec fn wf_lines(ls: Seq<Seq<u8>>) -> bool {
    (forall|i: int| 0 <= i < ls.len() ==> wf_line(#[trigger] ls[i])) && (forall|i: int|
        0 <= i < ls.len() - 1 ==> (#[trigger] ls[i]).last() == 10u8)
}

/// `line_split` yields only well-formed lines.
pub proof fn lemma_split_wf(s: Seq<u8>)
    ensures
        wf_lines(line_split(s)),
    decreases s.len(),
{
    if s.len() == 0 {
    } else {
        lemma_first_nl_bounds(s);
        let i = first_nl(s);
        let end = if i < s.len() {
            i + 1
        } else {
            i
        };
        let chunk = s.subrange(0, end);
        let rest = s.subrange(end, s.len() as int);
        lemma_split_wf(rest);
        let tail = line_split(rest);
        let ls = line_split(s);
        assert(ls =~= seq![chunk] + tail);
        assert(wf_line(chunk));
        assert forall|k: int| 0 <= k < ls.len() implies wf_line(#[trigger] ls[k]) by {
            if k > 0 {
                assert(ls[k] == tail[k - 1]);
            }
        }
        assert forall|k: int| 0 <= k < ls.len() - 1 implies (#[trigger] ls[k]).last() == 10u8 by {
            if k == 0 {
                assert(tail.len() > 0);
                assert(rest.len() > 0);
                assert(i < s.len());
                assert(chunk.last() == s[i]);
            } else {
                assert(ls[k] == tail[k - 1]);
            }
        }
    }
}

/// Splitting the join of well-formed lines gives those lines back unchanged.
pub proof fn lemma_split_of_join(ls: Seq<Seq<u8>>)
    requires
        wf_lines(ls),
    ensures
        line_split(join(ls)) == ls,
    decreases ls.len(),
{
    if ls.len() == 0 {
        assert(join(ls) =~= Seq::<u8>::empty());
        assert(line_split(join(ls)) =~= ls);
    } else {
        let l0 = ls[0];
        let rest = ls.drop_first();
        let s = join(ls);
        assert(s == l0 + join(rest));
        assert forall|k: int| 0 <= k < rest.len() implies wf_line(#[trigger] rest[k]) by {
            assert(rest[k] == ls[k + 1]);
        }
        assert forall|k: int| 0 <= k < rest.len() - 1 implies (#[trigger] rest[k]).last()
            == 10u8 by {
            assert(rest[k] == ls[k + 1]);
        }
        lemma_split_of_join(rest);
        if ls.len() == 1 {
            assert(s =~= l0);
            if l0.last() == 10u8 {
                lemma_first_nl_charac(s, l0.len() - 1);
                assert(s.subrange(0, s.len() as int) =~= l0);
                assert(s.subrange(s.len() as int, s.len() as int) =~= Seq::<u8>::empty());
                assert(line_split(s) =~= ls);
            } else {
                assert forall|j: int| 0 <= j < s.len() implies s[j] != 10u8 by {
                    if j == s.len() - 1 {
                        assert(s[j] == l0.last());
                    }
                }
                lemma_first_nl_charac(s, l0.len() as int);
                assert(s.subrange(0, s.len() as int) =~= l0);
                assert(s.subrange(s.len() as int, s.len() as int) =~= Seq::<u8>::empty());
                assert(line_split(s) =~= ls);
            }
        } else {
            assert(ls[0].last() == 10u8);
            assert(rest.len() > 0);
            assert(join(rest).len() > 0) by {
                assert(wf_line(rest[0]));
                assert(join(rest) == rest[0] + join(rest.drop_first()));
            }
            assert forall|j: int| 0 <= j < l0.len() - 1 implies s[j] != 10u8 by {
                assert(s[j] == l0[j]);
            }
            assert(s[l0.len() - 1] == l0.last());
            lemma_first_nl_charac(s, l0.len() - 1);
            assert(s.subrange(0, l0.len() as int) =~= l0);
            assert(s.subrange(l0.len() as int, s.len() as int) =~= join(rest));
            assert(line_split(s) =~= seq![l0] + rest);
            assert(seq![l0] + rest =~= ls);
        }
    }
}

/// Removing one line from a file's split and rejoining the rest yields a file
/// whose lines are exactly the original lines minus the removed one: every
/// kept line is unchanged, byte for byte, and in its original order.
pub proof fn lemma_remove_line_lines(s: Seq<u8>, t: int)
    requires
        0 <= t < line_split(s).len(),
    ensures
        line_split(join(line_split(s).remove(t))) == line_split(s).remove(t),
        line_split(join(line_split(s).remove(t))).len() == line_split(s).len() - 1,
{
    lemma_split_wf(s);
    let ls = line_split(s);
    let pruned = ls.remove(t);
    assert forall|i: int| 0 <= i < pruned.len() implies wf_line(#[trigger] pruned[i]) by {
        if i < t {
            assert(pruned[i] == ls[i]);
        } else {
            assert(pruned[i] == ls[i + 1]);
        }
    }
    assert forall|i: int| 0 <= i < pruned.len() - 1 implies (#[trigger] pruned[i]).last()
        == 10u8 by {
        if i < t {
            assert(pruned[i] == ls[i]);
            assert(i < ls.len() - 1);
        } else {
            assert(pruned[i] == ls[i + 1]);
            assert(i + 1 < ls.len() - 1);
        }
    }
    lemma_split_of_join(pruned);
}

/// Split `content` into its lines, each keeping its own terminator.
pub fn split_lines(content: &Vec<u8>) -> (r: Vec<Vec<u8>>)
    ensures
        r.deep_view() == line_split(content@),
{
    let mut lines: Vec<Vec<u8>> = Vec::new();
    let mut cur: Vec<u8> = Vec::new();
    let mut i: usize = 0;
    proof {
        assert(cur@ =~= content@.subrange(0, 0));
        assert(lines.deep_view() + line_split(content@.subrange(0, content@.len() as int))
            =~= line_split(content@)) by {
            assert(content@.subrange(0, content@.len() as int) =~= content@);
        }
    }
    while i < content.len()
        invariant
            i <= content@.len(),
            cur@.len() <= i,
            cur@ == content@.subrange(i - cur@.len(), i as int),
            forall|j: int| 0 <= j < cur@.len() ==> cur@[j] != 10u8,
            lines.deep_view() + line_split(content@.subrange(i - cur@.len(), content@.len() as int))
                == line_split(content@),
        decreases content@.len() - i,
    {
        let ghost start = i - cur@.len();
        let ghost rest = content@.subrange(start, content@.len() as int);
        let ghost lines_prev = lines.deep_view();
        let c = content[i];
        proof {
            assert(c == rest[i - start]);
        }
        cur.push(c);
        i += 1;
        if c == 10u8 {
            proof {
                assert forall|j: int| 0 <= j < i - start - 1 implies rest[j] != 10u8 by {
                    assert(rest[j] == content@[start + j]);
                    assert(content@[start + j] == cur@[j]);
                }
                lemma_first_nl_charac(rest, i - start - 1);
                assert(rest.subrange(0, i - start) =~= cur@);
                assert(rest.subrange(i - start, rest.len() as int) =~= content@.subrange(
                    i as int,
                    content@.len() as int,
                ));
                assert(line_split(rest) == seq![cur@] + line_split(
                    content@.subrange(i as int, content@.len() as int),
                ));
            }
            lines.push(cur);
            proof {
                assert(lines.deep_view() =~~= lines_prev.push(cur@));
                assert(lines.deep_view() + line_split(
                    content@.subrange(i as int, content@.len() as int),
                ) =~= lines_prev + line_split(rest));
            }
            cur = Vec::new();
            proof {
                assert(cur@ =~= content@.subrange(i as int, i as int));
            }
        } else {
            proof {
                assert(cur@ =~= content@.subrange(i - cur@.len(), i as int));
            }
        }
    }
    if cur.len() > 0 {
        let ghost start = i - cur@.len();
        let ghost rest = content@.subrange(start, content@.len() as int);
        let ghost lines_prev = lines.deep_view();
        proof {
            assert forall|j: int| 0 <= j < rest.len() implies rest[j] != 10u8 by {
                assert(rest[j] == content@[start + j]);
                assert(content@[start + j] == cur@[j]);
            }
            lemma_first_nl_charac(rest, rest.len() as int);
            assert(rest.subrange(0, rest.len() as int) =~= cur@);
            assert(rest.subrange(rest.len() as int, rest.len() as int) =~= Seq::<u8>::empty());
            assert(line_split(rest) == seq![cur@] + line_split(Seq::<u8>::empty()));
        }
        lines.push(cur);
        proof {
            assert(lines.deep_view() =~~= lines_prev.push(content@.subrange(start, i as int)));
            assert(lines.deep_view() =~= lines_prev + line_split(rest));
        }
    } else {
        proof {
            assert(content@.subrange(i as int, content@.len() as int) =~= Seq::<u8>::empty());
            assert(lines.deep_view() + line_split(Seq::<u8>::empty()) =~= lines.deep_view());
        }
    }
    lines
}

/// Whether `line` (1-indexed, as reports number lines) names a line that is
/// actually present in `s`.
pub open spec fn line_in_range(s: Seq<u8>, line: u32) -> bool {
    1 <= line && line <= line_split(s).len()
}

/// The rewritten content of a file after removing one 1-indexed line: the
/// remaining lines joined in order when `line` is in range, the original
/// bytes untouched when it is not.
pub open spec fn spec_remove_line(s: Seq<u8>, line: u32) -> Seq<u8> {
    if line_in_range(s, line) {
        join(line_split(s).remove(line - 1))
    } else {
        s
    }
}

/// Round trip of the rewrite: for an in-range 1-indexed target, the
/// rewritten content has one line fewer, and its lines are exactly the
/// original lines minus the targeted one, unchanged and in order.
pub proof fn lemma_remove_line_round_trip(s: Seq<u8>, line: u32)
    requires
        line_in_range(s, line),
    ensures
        line_split(spec_remove_line(s, line)) == line_split(s).remove(line - 1),
        line_split(spec_remove_line(s, line)).len() == line_split(s).len() - 1,
{
    lemma_remove_line_lines(s, line - 1);
}

/// Compute the full replacement content for `content` with the 1-indexed
/// `line` removed. The whole result is built in memory before the caller
/// writes anything, so a failed write can never leave a half-rewritten file.
/// A `line` outside the file reproduces the content unchanged.
pub fn remove_line(content: &Vec<u8>, line: u32) -> (r: Vec<u8>)
    ensures
        r@ == spec_remove_line(content@, line),
{
    let lines = split_lines(content);
    let ghost ls = line_split(content@);
    let mut out: Vec<u8> = Vec::new();
    let mut k: usize = 0;
    let ghost target: int = line - 1;
    proof {
        assert(out@ =~= join(kept_prefix(ls, target, 0)));
    }
    while k < lines.len()
        invariant
            lines.deep_view() == ls,
            lines@.len() == ls.len(),
            k <= lines@.len(),
            target == line - 1,
            out@ == join(kept_prefix(ls, target, k as int)),
        decreases lines@.len() - k,
    {
        proof {
            assert(lines@[k as int]@ == ls[k as int]);
        }
        if !(line >= 1 && k == (line - 1) as usize) {
            let ghost out_prev = out@;
            let chunk = &lines[k];
            let mut b: usize = 0;
            while b < chunk.len()
                invariant
                    chunk@ == ls[k as int],
                    b <= chunk@.len(),
                    out@ == out_prev + chunk@.subrange(0, b as int),
                decreases chunk@.len() - b,
            {
                out.push(chunk[b]);
                b += 1;
                proof {
                    assert(out@ =~= out_prev + chunk@.subrange(0, b as int));
                }
            }
            proof {
                assert(chunk@.subrange(0, chunk@.len() as int) =~= chunk@);
                lemma_join_push(kept_prefix(ls, target, k as int), ls[k as int]);
                assert(kept_prefix(ls, target, k + 1) =~= kept_prefix(ls, target, k as int).push(
                    ls[k as int],
                ));
            }
        } else {
            proof {
                assert(kept_prefix(ls, target, k + 1) =~= kept_prefix(ls, target, k as int));
            }
        }
        k += 1;
    }
    proof {
        lemma_kept_prefix_full(ls, target);
        if line_in_range(content@, line) {
        } else {
            lemma_join_split(content@);
        }
    }
    out
}

/// The first `k` entries of `ls`, minus the entry at `target` if it lies in
/// that prefix.
spec fn kept_prefix(ls: Seq<Seq<u8>>, target: int, k: int) -> Seq<Seq<u8>> {
    if 0 <= target < k {
        ls.subrange(0, k).remove(target)
    } else {
        ls.subrange(0, k)
    }
}

proof fn lemma_kept_prefix_full(ls: Seq<Seq<u8>>, target: int)
    ensures
        0 <= target < ls.len() ==> kept_prefix(ls, target, ls.len() as int) == ls.remove(target),
        !(0 <= target < ls.len()) ==> kept_prefix(ls, target, ls.len() as int) == ls,
{
    assert(ls.subrange(0, ls.len() as int) =~= ls);
}

} // verus!
