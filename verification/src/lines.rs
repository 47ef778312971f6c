//! Views of line sequences: every contract of this crate speaks about a
//! `Vec<String>` of lines through the sequence of its line views.

use vstd::prelude::*;
use vstd::string::StrSliceExecFns;

verus! {

/// The mathematical value of a sequence of lines: each line as its view.
pub open spec fn line_views(s: Seq<String>) -> Seq<Seq<char>> {
    Seq::new(s.len(), |i: int| s[i]@)
}

/// Appending a line appends its view.
pub broadcast proof fn lemma_line_views_push(s: Seq<String>, x: String)
    ensures
        #[trigger] line_views(s.push(x)) == line_views(s).push(x@),
{
    assert(line_views(s.push(x)) =~= line_views(s).push(x@));
}

/// Copies the lines `v[a..b]` into a fresh list.
pub(crate) fn copy_range(v: &Vec<String>, a: usize, b: usize) -> (r: Vec<String>)
    requires
        a <= b <= v@.len(),
    ensures
        line_views(r@) == line_views(v@).subrange(a as int, b as int),
        r@.len() == b - a,
{
    let mut r: Vec<String> = Vec::new();
    let mut i: usize = a;
    proof {
        assert(line_views(r@) =~= line_views(v@).subrange(a as int, a as int));
    }
    while i < b
        invariant
            a <= i <= b <= v@.len(),
            r@.len() == i - a,
            line_views(r@) == line_views(v@).subrange(a as int, i as int),
        decreases b - i,
    {
        let x = v[i].clone();
        let ghost pre = r@;
        r.push(x);
        proof {
            lemma_line_views_push(pre, x);
            assert(x@ == v@[i as int]@);
            assert(line_views(v@).subrange(a as int, i + 1) =~= line_views(v@).subrange(
                a as int,
                i as int,
            ).push(v@[i as int]@));
        }
        i = i + 1;
    }
    r
}

/// Appends the lines `src[a..b]` to `dst`.
pub(crate) fn append_range(dst: &mut Vec<String>, src: &Vec<String>, a: usize, b: usize)
    requires
        a <= b <= src@.len(),
    ensures
        line_views(final(dst)@) == line_views(old(dst)@) + line_views(src@).subrange(
            a as int,
            b as int,
        ),
        final(dst)@.len() == old(dst)@.len() + (b - a),
{
    let ghost base = dst@;
    let mut i: usize = a;
    proof {
        assert(line_views(dst@) =~= line_views(base) + line_views(src@).subrange(
            a as int,
            a as int,
        ));
    }
    while i < b
        invariant
            a <= i <= b <= src@.len(),
            dst@.len() == base.len() + (i - a),
            line_views(dst@) == line_views(base) + line_views(src@).subrange(a as int, i as int),
        decreases b - i,
    {
        let x = src[i].clone();
        let ghost pre = dst@;
        dst.push(x);
        proof {
            lemma_line_views_push(pre, x);
            assert(x@ == src@[i as int]@);
            assert(line_views(base) + line_views(src@).subrange(a as int, i + 1) =~= (line_views(
                base,
            ) + line_views(src@).subrange(a as int, i as int)).push(src@[i as int]@));
        }
        i = i + 1;
    }
}


/// The text of a sequence of lines: each line followed by one newline.
pub open spec fn join_lines(ls: Seq<Seq<char>>) -> Seq<char>
    decreases ls.len(),
{
    if ls.len() == 0 {
        Seq::empty()
    } else {
        ls[0] + seq!['\n'] + join_lines(ls.drop_first())
    }
}

/// Builds the text of a sequence of lines: each line followed by one newline.
pub(crate) fn render_lines(v: &Vec<String>) -> (s: String)
    ensures
        s@ == join_lines(line_views(v@)),
{
    let ghost lv = line_views(v@);
    let mut s = String::new();
    let mut i: usize = 0;
    proof {
        reveal_strlit("\n");
        assert(lv.skip(0) =~= lv);
        assert(s@ + join_lines(lv) =~= join_lines(lv));
    }
    while i < v.len()
        invariant
            lv == line_views(v@),
            i <= v@.len(),
            s@ + join_lines(lv.skip(i as int)) == join_lines(lv),
        decreases v@.len() - i,
    {
        proof {
            reveal_strlit("\n");
            assert(lv.skip(i as int)[0] == lv[i as int]);
            assert(lv.skip(i as int).drop_first() =~= lv.skip(i as int + 1));
        }
        s.append(v[i].as_str());
        s.append("\n");
        proof {
            assert(lv[i as int] == v@[i as int]@);
            assert("\n"@ =~= seq!['\n']);
            assert(s@ + join_lines(lv.skip(i as int + 1)) =~= join_lines(lv));
        }
        i = i + 1;
    }
    proof {
        assert(lv.skip(v@.len() as int) =~= Seq::<Seq<char>>::empty());
        assert(s@ =~= s@ + join_lines(lv.skip(v@.len() as int)));
    }
    s
}


/// Splitting text into lines: segments between newlines, with no final empty
/// segment when the text ends in a newline (or is empty).
pub open spec fn split_lines_spec(s: Seq<char>) -> Seq<Seq<char>>
    decreases s.len(),
{
    if s.len() == 0 {
        seq![]
    } else if s[0] == '\n' {
        seq![Seq::<char>::empty()] + split_lines_spec(s.drop_first())
    } else {
        let rest = split_lines_spec(s.drop_first());
        if rest.len() == 0 {
            seq![seq![s[0]]]
        } else {
            seq![seq![s[0]] + rest[0]] + rest.drop_first()
        }
    }
}

/// Splitting a header body at commas: segments between commas, keeping empty
/// ones, so the empty text is one empty segment.
pub open spec fn split_commas_spec(s: Seq<char>) -> Seq<Seq<char>>
    decreases s.len(),
{
    if s.len() == 0 {
        seq![Seq::<char>::empty()]
    } else if s[0] == ',' {
        seq![Seq::<char>::empty()] + split_commas_spec(s.drop_first())
    } else {
        let rest = split_commas_spec(s.drop_first());
        seq![seq![s[0]] + rest[0]] + rest.drop_first()
    }
}

/// Comma splitting yields at least one segment.
pub proof fn lemma_split_commas_len(s: Seq<char>)
    ensures
        split_commas_spec(s).len() >= 1,
    decreases s.len(),
{
    if s.len() > 0 {
        lemma_split_commas_len(s.drop_first());
    }
}

/// Up to the first newline, at position `k`, the text splits into that line
/// followed by the lines of what comes after the newline.
pub proof fn lemma_split_lines_chunk(s: Seq<char>, k: int)
    requires
        0 <= k < s.len(),
        s[k] == '\n',
        forall|q: int| 0 <= q < k ==> s[q] != '\n',
    ensures
        split_lines_spec(s) == seq![s.subrange(0, k)] + split_lines_spec(
            s.subrange(k + 1, s.len() as int),
        ),
    decreases k,
{
    if k == 0 {
        assert(s.subrange(0, 0) =~= Seq::<char>::empty());
        assert(s.subrange(1, s.len() as int) =~= s.drop_first());
        assert(split_lines_spec(s) =~= seq![s.subrange(0, k)] + split_lines_spec(
            s.subrange(k + 1, s.len() as int),
        ));
    } else {
        let df = s.drop_first();
        assert(df[k - 1] == '\n');
        assert forall|q: int| 0 <= q < k - 1 implies df[q] != '\n' by {
            assert(df[q] == s[q + 1]);
        }
        lemma_split_lines_chunk(df, k - 1);
        let rest = split_lines_spec(df);
        assert(rest == seq![df.subrange(0, k - 1)] + split_lines_spec(
            df.subrange(k, df.len() as int),
        ));
        assert(rest.len() >= 1);
        assert(rest[0] == df.subrange(0, k - 1));
        assert(seq![s[0]] + rest[0] =~= s.subrange(0, k));
        assert(df.subrange(k, df.len() as int) =~= s.subrange(k + 1, s.len() as int));
        assert(rest.drop_first() =~= split_lines_spec(s.subrange(k + 1, s.len() as int)));
        assert(split_lines_spec(s) =~= seq![s.subrange(0, k)] + split_lines_spec(
            s.subrange(k + 1, s.len() as int),
        ));
    }
}

/// Text without a newline is one line (or none, when empty).
pub proof fn lemma_split_lines_tail(s: Seq<char>)
    requires
        forall|q: int| 0 <= q < s.len() ==> s[q] != '\n',
    ensures
        split_lines_spec(s) == if s.len() == 0 {
            Seq::<Seq<char>>::empty()
        } else {
            seq![s]
        },
    decreases s.len(),
{
    if s.len() > 0 {
        let df = s.drop_first();
        assert forall|q: int| 0 <= q < df.len() implies df[q] != '\n' by {
            assert(df[q] == s[q + 1]);
        }
        lemma_split_lines_tail(df);
        if df.len() == 0 {
            assert(seq![s[0]] =~= s);
        } else {
            assert(seq![s[0]] + df =~= s);
            assert(seq![df].drop_first() =~= Seq::<Seq<char>>::empty());
            assert(split_lines_spec(s) =~= seq![s]);
        }
    }
}

/// Splits text into its lines.
pub(crate) fn split_lines(s: &str) -> (r: Vec<String>)
    ensures
        line_views(r@) == split_lines_spec(s@),
{
    let n = s.unicode_len();
    let mut r: Vec<String> = Vec::new();
    let mut start: usize = 0;
    let mut i: usize = 0;
    proof {
        assert(s@.skip(0) =~= s@);
        assert(line_views(r@) + split_lines_spec(s@) =~= split_lines_spec(s@));
    }
    while i < n
        invariant
            start <= i <= n,
            n == s@.len(),
            forall|q: int| start <= q < i ==> s@[q] != '\n',
            split_lines_spec(s@) == line_views(r@) + split_lines_spec(s@.skip(start as int)),
        decreases n - i,
    {
        let c = s.get_char(i);
        if c == '\n' {
            let seg = s.substring_char(start, i);
            let line = seg.to_owned();
            let ghost pre = r@;
            r.push(line);
            proof {
                let t = s@.skip(start as int);
                assert(t[i - start] == s@[i as int]);
                assert forall|q: int| 0 <= q < i - start implies t[q] != '\n' by {
                    assert(t[q] == s@[q + start]);
                }
                lemma_split_lines_chunk(t, i - start);
                assert(t.subrange(0, i - start) =~= s@.subrange(start as int, i as int));
                assert(t.subrange(i - start + 1, t.len() as int) =~= s@.skip(i + 1));
                lemma_line_views_push(pre, line);
                assert(line_views(r@) + split_lines_spec(s@.skip(i + 1)) =~= line_views(pre)
                    + (seq![s@.subrange(start as int, i as int)] + split_lines_spec(
                    s@.skip(i + 1),
                )));
            }
            start = i + 1;
        }
        i = i + 1;
    }
    if start < n {
        let seg = s.substring_char(start, n);
        let line = seg.to_owned();
        let ghost pre = r@;
        r.push(line);
        proof {
            let t = s@.skip(start as int);
            assert forall|q: int| 0 <= q < t.len() implies t[q] != '\n' by {
                assert(t[q] == s@[q + start]);
            }
            lemma_split_lines_tail(t);
            assert(t =~= s@.subrange(start as int, n as int));
            lemma_line_views_push(pre, line);
            assert(line_views(r@) =~= line_views(pre) + seq![t]);
        }
    } else {
        proof {
            let t = s@.skip(start as int);
            assert(t =~= Seq::<char>::empty());
            lemma_split_lines_tail(t);
            assert(line_views(r@) + split_lines_spec(t) =~= line_views(r@));
        }
    }
    r
}


/// Joining distributes over concatenation of line lists.
pub proof fn lemma_join_lines_append(a: Seq<Seq<char>>, b: Seq<Seq<char>>)
    ensures
        join_lines(a + b) == join_lines(a) + join_lines(b),
    decreases a.len(),
{
    if a.len() == 0 {
        assert(a + b =~= b);
        assert(join_lines(a) =~= Seq::<char>::empty());
        assert(join_lines(a) + join_lines(b) =~= join_lines(b));
    } else {
        assert((a + b)[0] == a[0]);
        assert((a + b).drop_first() =~= a.drop_first() + b);
        lemma_join_lines_append(a.drop_first(), b);
        assert(join_lines(a + b) =~= join_lines(a) + join_lines(b));
    }
}

/// Splitting the joined text of newline-free lines gives the lines back.
pub proof fn lemma_split_join(ls: Seq<Seq<char>>)
    requires
        forall|i: int, q: int| 0 <= i < ls.len() && 0 <= q < ls[i].len() ==> #[trigger] ls[i][q]
            != '\n',
    ensures
        split_lines_spec(join_lines(ls)) == ls,
    decreases ls.len(),
{
    if ls.len() == 0 {
        assert(split_lines_spec(join_lines(ls)) =~= ls);
    } else {
        let j = join_lines(ls);
        let l0 = ls[0];
        let k = l0.len() as int;
        assert(j == l0 + seq!['\n'] + join_lines(ls.drop_first()));
        assert(j[k] == '\n');
        assert forall|q: int| 0 <= q < k implies j[q] != '\n' by {
            assert(j[q] == ls[0][q]);
        }
        lemma_split_lines_chunk(j, k);
        assert(j.subrange(0, k) =~= l0);
        assert(j.subrange(k + 1, j.len() as int) =~= join_lines(ls.drop_first()));
        assert forall|i: int, q: int|
            0 <= i < ls.drop_first().len() && 0 <= q < ls.drop_first()[i].len() implies #[trigger] ls.drop_first()[i][q] != '\n' by {
            assert(ls.drop_first()[i] == ls[i + 1]);
        }
        lemma_split_join(ls.drop_first());
        assert(split_lines_spec(j) =~= ls);
    }
}

/// Up to the first comma, at position `k`, the text splits into that segment
/// followed by the segments of what comes after the comma.
pub proof fn lemma_split_commas_chunk(s: Seq<char>, k: int)
    requires
        0 <= k < s.len(),
        s[k] == ',',
        forall|q: int| 0 <= q < k ==> s[q] != ',',
    ensures
        split_commas_spec(s) == seq![s.subrange(0, k)] + split_commas_spec(
            s.subrange(k + 1, s.len() as int),
        ),
    decreases k,
{
    if k == 0 {
        assert(s.subrange(0, 0) =~= Seq::<char>::empty());
        assert(s.subrange(1, s.len() as int) =~= s.drop_first());
        assert(split_commas_spec(s) =~= seq![s.subrange(0, k)] + split_commas_spec(
            s.subrange(k + 1, s.len() as int),
        ));
    } else {
        let df = s.drop_first();
        assert(df[k - 1] == ',');
        assert forall|q: int| 0 <= q < k - 1 implies df[q] != ',' by {
            assert(df[q] == s[q + 1]);
        }
        lemma_split_commas_chunk(df, k - 1);
        let rest = split_commas_spec(df);
        lemma_split_commas_len(df.subrange(k, df.len() as int));
        assert(rest[0] == df.subrange(0, k - 1));
        assert(seq![s[0]] + rest[0] =~= s.subrange(0, k));
        assert(df.subrange(k, df.len() as int) =~= s.subrange(k + 1, s.len() as int));
        assert(rest.drop_first() =~= split_commas_spec(s.subrange(k + 1, s.len() as int)));
        assert(split_commas_spec(s) =~= seq![s.subrange(0, k)] + split_commas_spec(
            s.subrange(k + 1, s.len() as int),
        ));
    }
}

/// Text without a comma is a single segment.
pub proof fn lemma_split_commas_whole(s: Seq<char>)
    requires
        forall|q: int| 0 <= q < s.len() ==> s[q] != ',',
    ensures
        split_commas_spec(s) == seq![s],
    decreases s.len(),
{
    if s.len() == 0 {
        assert(split_commas_spec(s) =~~= seq![s]);
    } else {
        let df = s.drop_first();
        assert forall|q: int| 0 <= q < df.len() implies df[q] != ',' by {
            assert(df[q] == s[q + 1]);
        }
        lemma_split_commas_whole(df);
        assert(seq![s[0]] + df =~= s);
        assert(split_commas_spec(s) =~~= seq![s]);
    }
}

} // verus!
