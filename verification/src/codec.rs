//! The textual patch format. Each change is serialized as a header line —
//! a reserved NUL delimiter, then `old_start,removed_count,added_count` —
//! followed by the literal removed lines and then the literal added lines,
//! each newline-terminated. Parsing reads that format back.

use vstd::prelude::*;
use vstd::string::StrSliceExecFns;

use crate::errors::PatchParseError;
use crate::lines::{
    join_lines, line_views, lemma_join_lines_append, lemma_split_join, lemma_split_commas_chunk,
    lemma_split_commas_whole, split_commas_spec, split_lines, split_lines_spec,
};
use crate::numerals::{
    dec_digits, format_usize, is_digit, is_numeral, lemma_dec_digits, numeral_value, parse_numeral,
};

verus! {

/// One record of a textual patch: where the edit starts in the old sequence,
/// how many lines it removes and adds, and those lines literally. The removed
/// lines are carried for auditability; replay consumes only the counts and
/// the added lines.
pub struct Patch {
    /// First line of the edit in the old sequence.
    pub old_start: usize,
    /// Number of lines removed from the old sequence.
    pub removed_count: usize,
    /// Number of lines added in the new sequence.
    pub added_count: usize,
    /// The removed lines.
    pub removed_lines: Vec<String>,
    /// The added lines.
    pub added_lines: Vec<String>,
}

/// The mathematical value of a patch record.
pub struct PatchModel {
    pub old_start: nat,
    pub removed_count: nat,
    pub added_count: nat,
    pub removed_lines: Seq<Seq<char>>,
    pub added_lines: Seq<Seq<char>>,
}

impl View for Patch {
    type V = PatchModel;

    open spec fn view(&self) -> PatchModel {
        PatchModel {
            old_start: self.old_start as nat,
            removed_count: self.removed_count as nat,
            added_count: self.added_count as nat,
            removed_lines: line_views(self.removed_lines@),
            added_lines: line_views(self.added_lines@),
        }
    }
}

/// The values of a list of patch records.
pub open spec fn patch_models(ps: Seq<Patch>) -> Seq<PatchModel> {
    ps.map_values(|p: Patch| p@)
}

/// A record whose counts match its payloads and which is not empty; the
/// parser reconstructs exactly such records.
pub open spec fn patch_model_wf(r: PatchModel) -> bool {
    &&& r.removed_count == r.removed_lines.len()
    &&& r.added_count == r.added_lines.len()
    &&& r.removed_count + r.added_count > 0
}

/// The header line of a record: the NUL delimiter, then the three counts in
/// decimal, separated by commas.
pub open spec fn header_line(r: PatchModel) -> Seq<char> {
    seq!['\u{0}'] + dec_digits(r.old_start) + seq![','] + dec_digits(r.removed_count) + seq![
        ','
    ] + dec_digits(r.added_count)
}

/// The lines a record serializes to.
pub open spec fn rec_lines(r: PatchModel) -> Seq<Seq<char>> {
    seq![header_line(r)] + r.removed_lines + r.added_lines
}

/// The lines a whole patch serializes to.
pub open spec fn patch_lines(rs: Seq<PatchModel>) -> Seq<Seq<char>>
    decreases rs.len(),
{
    if rs.len() == 0 {
        seq![]
    } else {
        rec_lines(rs[0]) + patch_lines(rs.drop_first())
    }
}

/// The text of a whole patch.
pub open spec fn serialize_spec(rs: Seq<PatchModel>) -> Seq<char> {
    join_lines(patch_lines(rs))
}

/// A line that opens a record: it starts with the NUL delimiter, which never
/// begins a content line of a well-formed patch.
pub open spec fn is_header_line(l: Seq<char>) -> bool {
    l.len() > 0 && l[0] == '\u{0}'
}

/// What a header line holds: after the delimiter, exactly three decimal
/// numerals separated by commas, each fitting the machine's word.
pub open spec fn parse_header_spec(l: Seq<char>) -> Option<(nat, nat, nat)> {
    let segs = split_commas_spec(l.subrange(1, l.len() as int));
    if segs.len() == 3 && is_numeral(segs[0]) && numeral_value(segs[0]) <= usize::MAX && is_numeral(
        segs[1],
    ) && numeral_value(segs[1]) <= usize::MAX && is_numeral(segs[2]) && numeral_value(segs[2])
        <= usize::MAX {
        Some(
            (
                numeral_value(segs[0]) as nat,
                numeral_value(segs[1]) as nat,
                numeral_value(segs[2]) as nat,
            ),
        )
    } else {
        None
    }
}

/// The parser's accumulation state: the header values of the open record and
/// the payload lines gathered for it so far.
pub struct ParseState {
    pub old_start: nat,
    pub rem: nat,
    pub add: nat,
    pub removed: Seq<Seq<char>>,
    pub added: Seq<Seq<char>>,
}

/// The state before any line has been read.
pub open spec fn init_state() -> ParseState {
    ParseState {
        old_start: 0,
        rem: 0,
        add: 0,
        removed: Seq::empty(),
        added: Seq::empty(),
    }
}

/// Finalizes the open record, if it gathered any payload line. The counts of
/// the finalized record are the gathered payload lengths.
pub open spec fn flush(st: ParseState) -> Seq<PatchModel> {
    if st.removed.len() + st.added.len() > 0 {
        seq![
            PatchModel {
                old_start: st.old_start,
                removed_count: st.removed.len(),
                added_count: st.added.len(),
                removed_lines: st.removed,
                added_lines: st.added,
            },
        ]
    } else {
        seq![]
    }
}

/// Outcome of parsing a patch text.
pub enum ParseOutcome {
    /// The records, in order.
    Parsed(Seq<PatchModel>),
    /// A header line did not hold exactly three unsigned integers.
    BadHeader,
    /// A content line appeared although both payload counts were satisfied.
    BadLine,
}

/// The parser, one line at a time: a header line finalizes the open record
/// and starts a new one; other lines fill the removed payload until its count
/// is satisfied, then the added payload; a line beyond both is an error. The
/// end of the input finalizes the open record.
pub open spec fn parse_run(ls: Seq<Seq<char>>, st: ParseState, out: Seq<PatchModel>) -> ParseOutcome
    decreases ls.len(),
{
    if ls.len() == 0 {
        ParseOutcome::Parsed(out + flush(st))
    } else {
        let l = ls[0];
        if is_header_line(l) {
            match parse_header_spec(l) {
                Some(h) => parse_run(
                    ls.drop_first(),
                    ParseState {
                        old_start: h.0,
                        rem: h.1,
                        add: h.2,
                        removed: Seq::empty(),
                        added: Seq::empty(),
                    },
                    out + flush(st),
                ),
                None => ParseOutcome::BadHeader,
            }
        } else if st.rem > 0 {
            parse_run(
                ls.drop_first(),
                ParseState { rem: (st.rem - 1) as nat, removed: st.removed.push(l), ..st },
                out,
            )
        } else if st.add > 0 {
            parse_run(
                ls.drop_first(),
                ParseState { add: (st.add - 1) as nat, added: st.added.push(l), ..st },
                out,
            )
        } else {
            ParseOutcome::BadLine
        }
    }
}

/// Appends a record's header line and its newline to the text.
fn push_header(s: &mut String, p: &Patch)
    ensures
        final(s)@ == old(s)@ + header_line(p@) + seq!['\n'],
{
    s.append("\u{0}");
    let a = format_usize(p.old_start);
    s.append(a.as_str());
    s.append(",");
    let b = format_usize(p.removed_count);
    s.append(b.as_str());
    s.append(",");
    let c = format_usize(p.added_count);
    s.append(c.as_str());
    s.append("\n");
    proof {
        reveal_strlit("\u{0}");
        reveal_strlit(",");
        reveal_strlit("\n");
        assert("\u{0}"@ =~= seq!['\u{0}']);
        assert(","@ =~= seq![',']);
        assert("\n"@ =~= seq!['\n']);
        assert(s@ =~= old(s)@ + header_line(p@) + seq!['\n']);
    }
}

/// Appends lines to the text, each followed by a newline.
fn push_lines(s: &mut String, v: &Vec<String>)
    ensures
        final(s)@ == old(s)@ + join_lines(line_views(v@)),
{
    let ghost lv = line_views(v@);
    let mut i: usize = 0;
    proof {
        reveal_strlit("\n");
        assert(lv.skip(0) =~= lv);
        assert(s@ + join_lines(lv.skip(0)) =~= old(s)@ + join_lines(lv));
    }
    while i < v.len()
        invariant
            lv == line_views(v@),
            i <= v@.len(),
            s@ + join_lines(lv.skip(i as int)) == old(s)@ + join_lines(lv),
        decreases v@.len() - i,
    {
        proof {
            assert(lv.skip(i as int)[0] == lv[i as int]);
            assert(lv.skip(i as int).drop_first() =~= lv.skip(i as int + 1));
        }
        s.append(v[i].as_str());
        s.append("\n");
        proof {
            reveal_strlit("\n");
            assert(lv[i as int] == v@[i as int]@);
            assert("\n"@ =~= seq!['\n']);
            assert(s@ + join_lines(lv.skip(i as int + 1)) =~= old(s)@ + join_lines(lv));
        }
        i = i + 1;
    }
    proof {
        assert(lv.skip(v@.len() as int) =~= Seq::<Seq<char>>::empty());
        assert(s@ =~= s@ + join_lines(lv.skip(v@.len() as int)));
    }
}

/// Serializes the records to the textual patch format.
pub(crate) fn serialize_patches(ps: &Vec<Patch>) -> (s: String)
    ensures
        s@ == serialize_spec(patch_models(ps@)),
{
    let ghost models = patch_models(ps@);
    let mut s = String::new();
    let mut i: usize = 0;
    proof {
        assert(models.skip(0) =~= models);
        assert(s@ + serialize_spec(models) =~= serialize_spec(models));
    }
    while i < ps.len()
        invariant
            models == patch_models(ps@),
            i <= ps@.len(),
            s@ + serialize_spec(models.skip(i as int)) == serialize_spec(models),
        decreases ps@.len() - i,
    {
        proof {
            assert(models.skip(i as int)[0] == models[i as int]);
            assert(models[i as int] == ps@[i as int]@);
            assert(models.skip(i as int).drop_first() =~= models.skip(i as int + 1));
        }
        let ghost s_pre = s@;
        let ghost r = ps@[i as int]@;
        push_header(&mut s, &ps[i]);
        push_lines(&mut s, &ps[i].removed_lines);
        push_lines(&mut s, &ps[i].added_lines);
        proof {
            let tail = patch_lines(models.skip(i as int + 1));
            lemma_join_lines_append(rec_lines(r), tail);
            lemma_join_lines_append(seq![header_line(r)] + r.removed_lines, r.added_lines);
            lemma_join_lines_append(seq![header_line(r)], r.removed_lines);
            assert(seq![header_line(r)].drop_first() =~= Seq::<Seq<char>>::empty());
            assert(join_lines(Seq::<Seq<char>>::empty()) =~= Seq::<char>::empty());
            assert(join_lines(seq![header_line(r)]) =~= header_line(r) + seq!['\n']);
            assert((seq![header_line(r)] + r.removed_lines) + r.added_lines =~= rec_lines(r));
            assert(s@ =~= s_pre + (header_line(r) + seq!['\n']) + join_lines(r.removed_lines)
                + join_lines(r.added_lines));
            assert(s@ + join_lines(tail) =~= s_pre + join_lines(rec_lines(r) + tail));
            assert(s@ + serialize_spec(models.skip(i as int + 1)) =~= serialize_spec(models));
        }
        i = i + 1;
    }
    proof {
        assert(models.skip(ps@.len() as int) =~= Seq::<PatchModel>::empty());
        assert(patch_lines(Seq::<PatchModel>::empty()) =~= Seq::<Seq<char>>::empty());
        assert(s@ =~= s@ + serialize_spec(models.skip(ps@.len() as int)));
    }
    s
}


/// Commas in a text.
pub open spec fn count_commas(t: Seq<char>) -> int
    decreases t.len(),
{
    if t.len() == 0 {
        0
    } else {
        count_commas(t.drop_last()) + if t.last() == ',' {
            1int
        } else {
            0int
        }
    }
}

proof fn lemma_count_commas_head(t: Seq<char>)
    requires
        t.len() > 0,
    ensures
        count_commas(t) == (if t[0] == ',' {
            1int
        } else {
            0int
        }) + count_commas(t.drop_first()),
    decreases t.len(),
{
    if t.len() == 1 {
        assert(t.drop_last() =~= Seq::<char>::empty());
        assert(t.drop_first() =~= Seq::<char>::empty());
        assert(t.last() == t[0]);
    } else {
        lemma_count_commas_head(t.drop_last());
        assert(t.drop_last().drop_first() =~= t.drop_first().drop_last());
        assert(t.drop_last()[0] == t[0]);
        assert(t.drop_first().last() == t.last());
    }
}

/// Splitting at commas yields one segment more than there are commas.
proof fn lemma_split_commas_count(t: Seq<char>)
    ensures
        split_commas_spec(t).len() == 1 + count_commas(t),
    decreases t.len(),
{
    if t.len() > 0 {
        lemma_count_commas_head(t);
        lemma_split_commas_count(t.drop_first());
        if t[0] == ',' {
        } else {
            crate::lines::lemma_split_commas_len(t.drop_first());
        }
    }
}

/// Parses a header line: the text after the delimiter must be exactly three
/// comma-separated decimal numerals that fit the machine's word.
fn parse_header(line: &String) -> (h: Option<(usize, usize, usize)>)
    requires
        is_header_line(line@),
    ensures
        (h is Some) == (parse_header_spec(line@) is Some),
        h matches Some(v) ==> parse_header_spec(line@) == Some(
            (v.0 as nat, v.1 as nat, v.2 as nat),
        ),
{
    let s = line.as_str();
    let n = s.unicode_len();
    let ghost t = line@.subrange(1, n as int);
    let mut count: usize = 0;
    let mut p1: usize = 0;
    let mut p2: usize = 0;
    let mut i: usize = 1;
    proof {
        assert(line@.subrange(1, 1) =~= Seq::<char>::empty());
    }
    while i < n
        invariant
            s@ == line@,
            1 <= i <= n,
            n == line@.len(),
            t == line@.subrange(1, n as int),
            count <= i,
            count as int == count_commas(line@.subrange(1, i as int)),
            count >= 1 ==> 1 <= p1 < i && line@[p1 as int] == ',',
            count >= 1 ==> forall|q: int| 1 <= q < p1 ==> line@[q] != ',',
            count >= 2 ==> p1 < p2 < i && line@[p2 as int] == ',',
            count >= 2 ==> forall|q: int| p1 < q < p2 ==> line@[q] != ',',
            count == 1 ==> forall|q: int| p1 < q < i ==> line@[q] != ',',
            count == 2 ==> forall|q: int| p2 < q < i ==> line@[q] != ',',
            count == 0 ==> forall|q: int| 1 <= q < i ==> line@[q] != ',',
        decreases n - i,
    {
        let c = s.get_char(i);
        proof {
            assert(line@.subrange(1, i + 1).drop_last() =~= line@.subrange(1, i as int));
            assert(line@.subrange(1, i + 1).last() == line@[i as int]);
        }
        if c == ',' {
            if count == 0 {
                p1 = i;
            } else if count == 1 {
                p2 = i;
            }
            count = count + 1;
        }
        i = i + 1;
    }
    proof {
        lemma_split_commas_count(t);
    }
    if count != 2 {
        return None;
    }
    proof {
        // decompose the three segments at the two comma positions
        assert(t[p1 - 1] == ',') by {
            assert(t[p1 - 1] == line@[p1 as int]);
        }
        assert forall|q: int| 0 <= q < p1 - 1 implies t[q] != ',' by {
            assert(t[q] == line@[q + 1]);
        }
        lemma_split_commas_chunk(t, p1 - 1);
        let t2 = t.subrange(p1 as int, t.len() as int);
        assert(t2[p2 - p1 - 1] == ',') by {
            assert(t2[p2 - p1 - 1] == line@[p2 as int]);
        }
        assert forall|q: int| 0 <= q < p2 - p1 - 1 implies t2[q] != ',' by {
            assert(t2[q] == line@[q + p1 + 1]);
        }
        lemma_split_commas_chunk(t2, p2 - p1 - 1);
        let t3 = t2.subrange(p2 - p1, t2.len() as int);
        assert forall|q: int| 0 <= q < t3.len() implies t3[q] != ',' by {
            assert(t3[q] == line@[q + p2 + 1]);
        }
        lemma_split_commas_whole(t3);
        let segs = split_commas_spec(t);
        assert(t2.subrange(0, p2 - p1 - 1) =~= t.subrange(p1 as int, p2 - 1));
        assert(segs =~~= seq![t.subrange(0, p1 - 1), t.subrange(p1 as int, p2 - 1), t3]);
        assert(segs[0] =~= line@.subrange(1, p1 as int));
        assert(segs[1] =~= line@.subrange(p1 + 1, p2 as int));
        assert(segs[2] =~= line@.subrange(p2 + 1, n as int));
    }
    let seg0 = s.substring_char(1, p1);
    let seg1 = s.substring_char(p1 + 1, p2);
    let seg2 = s.substring_char(p2 + 1, n);
    let v0 = parse_numeral(seg0);
    let v1 = parse_numeral(seg1);
    let v2 = parse_numeral(seg2);
    match (v0, v1, v2) {
        (Some(a), Some(b), Some(c)) => Some((a, b, c)),
        _ => None,
    }
}

/// Parses a textual patch into its records. Fails on a header line that does
/// not hold exactly three unsigned integers, and on a content line that
/// appears although both payload counts are satisfied.
pub(crate) fn parse_patch_text(s: &str) -> (r: Result<Vec<Patch>, PatchParseError>)
    ensures
        (r is Ok) == (parse_run(split_lines_spec(s@), init_state(), Seq::empty()) is Parsed),
        r matches Ok(v) ==> parse_run(split_lines_spec(s@), init_state(), Seq::empty())
            == ParseOutcome::Parsed(patch_models(v@)),
        (r == Result::<Vec<Patch>, PatchParseError>::Err(PatchParseError::MalformedHeader)) == (
        parse_run(split_lines_spec(s@), init_state(), Seq::empty()) is BadHeader),
        (r == Result::<Vec<Patch>, PatchParseError>::Err(PatchParseError::UnrecognizedLine)) == (
        parse_run(split_lines_spec(s@), init_state(), Seq::empty()) is BadLine),
{
    let lines = split_lines(s);
    let ghost all = split_lines_spec(s@);
    let mut out: Vec<Patch> = Vec::new();
    let mut cur_start: usize = 0;
    let mut rem: usize = 0;
    let mut add: usize = 0;
    let mut removed_buf: Vec<String> = Vec::new();
    let mut added_buf: Vec<String> = Vec::new();
    let mut i: usize = 0;
    proof {
        assert(all.skip(0) =~= all);
        assert(line_views(removed_buf@) =~= Seq::<Seq<char>>::empty());
        assert(line_views(added_buf@) =~= Seq::<Seq<char>>::empty());
        assert(patch_models(out@) =~= Seq::<PatchModel>::empty());
    }
    while i < lines.len()
        invariant
            all == split_lines_spec(s@),
            line_views(lines@) == all,
            i <= lines@.len(),
            parse_run(all, init_state(), Seq::empty()) == parse_run(
                all.skip(i as int),
                ParseState {
                    old_start: cur_start as nat,
                    rem: rem as nat,
                    add: add as nat,
                    removed: line_views(removed_buf@),
                    added: line_views(added_buf@),
                },
                patch_models(out@),
            ),
        decreases lines@.len() - i,
    {
        let ghost st = ParseState {
            old_start: cur_start as nat,
            rem: rem as nat,
            add: add as nat,
            removed: line_views(removed_buf@),
            added: line_views(added_buf@),
        };
        proof {
            assert(all.skip(i as int)[0] == all[i as int]);
            assert(all[i as int] == lines@[i as int]@);
            assert(all.skip(i as int).drop_first() =~= all.skip(i as int + 1));
        }
        let line_len = lines[i].as_str().unicode_len();
        let head = line_len > 0 && lines[i].as_str().get_char(0) == '\u{0}';
        proof {
            assert(head == is_header_line(lines@[i as int]@));
        }
        if head {
            match parse_header(&lines[i]) {
                Some((a, b, c)) => {
                    let rl = removed_buf;
                    let al = added_buf;
                    removed_buf = Vec::new();
                    added_buf = Vec::new();
                    flush_records(&mut out, cur_start, rl, al);
                    proof {
                        assert(flush(st) =~= patch_models(out@).skip(
                            patch_models(out@).len() - flush(st).len(),
                        ));
                    }
                    cur_start = a;
                    rem = b;
                    add = c;
                    proof {
                        assert(line_views(removed_buf@) =~= Seq::<Seq<char>>::empty());
                        assert(line_views(added_buf@) =~= Seq::<Seq<char>>::empty());
                    }
                },
                None => {
                    proof {
                        assert(parse_run(all, init_state(), Seq::empty())
                            == ParseOutcome::BadHeader);
                    }
                    return Err(PatchParseError::MalformedHeader);
                },
            }
        } else if rem > 0 {
            let ghost pre = removed_buf@;
            removed_buf.push(lines[i].clone());
            rem = rem - 1;
            proof {
                crate::lines::lemma_line_views_push(pre, lines@[i as int]);
            }
        } else if add > 0 {
            let ghost pre = added_buf@;
            added_buf.push(lines[i].clone());
            add = add - 1;
            proof {
                crate::lines::lemma_line_views_push(pre, lines@[i as int]);
            }
        } else {
            proof {
                assert(parse_run(all, init_state(), Seq::empty()) == ParseOutcome::BadLine);
            }
            return Err(PatchParseError::UnrecognizedLine);
        }
        i = i + 1;
    }
    proof {
        assert(all.skip(lines@.len() as int) =~= Seq::<Seq<char>>::empty());
    }
    flush_records(&mut out, cur_start, removed_buf, added_buf);
    Ok(out)
}

/// Finalizes the open record into the output, if it gathered any payload.
fn flush_records(
    out: &mut Vec<Patch>,
    start: usize,
    removed_buf: Vec<String>,
    added_buf: Vec<String>,
)
    ensures
        patch_models(final(out)@) == patch_models(old(out)@) + flush(
            ParseState {
                old_start: start as nat,
                rem: 0,
                add: 0,
                removed: line_views(removed_buf@),
                added: line_views(added_buf@),
            },
        ),
{
    let ghost st = ParseState {
        old_start: start as nat,
        rem: 0,
        add: 0,
        removed: line_views(removed_buf@),
        added: line_views(added_buf@),
    };
    if removed_buf.len() > 0 || added_buf.len() > 0 {
        let rc = removed_buf.len();
        let ac = added_buf.len();
        let ghost pre = out@;
        out.push(
            Patch {
                old_start: start,
                removed_count: rc,
                added_count: ac,
                removed_lines: removed_buf,
                added_lines: added_buf,
            },
        );
        proof {
            assert(patch_models(out@) =~~= patch_models(pre) + flush(st));
        }
    } else {
        proof {
            assert(flush(st) =~= Seq::<PatchModel>::empty());
            assert(patch_models(out@) =~= patch_models(out@) + flush(st));
        }
    }
}


/// No line of the list holds the patch delimiter or a newline.
pub open spec fn lines_clean(ls: Seq<Seq<char>>) -> bool {
    forall|i: int, q: int|
        0 <= i < ls.len() && 0 <= q < ls[i].len() ==> #[trigger] ls[i][q] != '\u{0}' && ls[i][q]
            != '\n'
}

/// A record the codec round-trips: counts match the payloads, the record is
/// not empty, the counts fit the machine's word, and no payload line holds
/// the delimiter or a newline.
pub open spec fn codec_safe(r: PatchModel) -> bool {
    &&& patch_model_wf(r)
    &&& lines_clean(r.removed_lines)
    &&& lines_clean(r.added_lines)
    &&& r.old_start <= usize::MAX
    &&& r.removed_count <= usize::MAX
    &&& r.added_count <= usize::MAX
}

/// A header line starts with the delimiter and holds no newline and no
/// delimiter after its first character.
proof fn lemma_header_line_shape(r: PatchModel)
    ensures
        is_header_line(header_line(r)),
        forall|q: int| 0 <= q < header_line(r).len() ==> #[trigger] header_line(r)[q] != '\n',
{
    lemma_dec_digits(r.old_start);
    lemma_dec_digits(r.removed_count);
    lemma_dec_digits(r.added_count);
    let h = header_line(r);
    assert(h[0] == '\u{0}');
    let a = dec_digits(r.old_start);
    let b = dec_digits(r.removed_count);
    let c = dec_digits(r.added_count);
    assert forall|q: int| 0 <= q < h.len() implies #[trigger] h[q] != '\n' by {
        if q == 0 {
        } else if q < 1 + a.len() {
            assert(h[q] == a[q - 1]);
            assert(is_digit(a[q - 1]));
        } else if q == 1 + a.len() {
            assert(h[q] == ',');
        } else if q < 2 + a.len() + b.len() {
            assert(h[q] == b[q - 2 - a.len()]);
            assert(is_digit(b[q - 2 - a.len()]));
        } else if q == 2 + a.len() + b.len() {
            assert(h[q] == ',');
        } else {
            assert(h[q] == c[q - 3 - a.len() - b.len()]);
            assert(is_digit(c[q - 3 - a.len() - b.len()]));
        }
    }
}

/// Parsing the header line written for a record gives its three counts back.
#[verifier::rlimit(60)]
proof fn lemma_parse_header_roundtrip(r: PatchModel)
    requires
        r.old_start <= usize::MAX,
        r.removed_count <= usize::MAX,
        r.added_count <= usize::MAX,
    ensures
        parse_header_spec(header_line(r)) == Some((r.old_start, r.removed_count, r.added_count)),
{
    lemma_dec_digits(r.old_start);
    lemma_dec_digits(r.removed_count);
    lemma_dec_digits(r.added_count);
    let h = header_line(r);
    let a = dec_digits(r.old_start);
    let b = dec_digits(r.removed_count);
    let c = dec_digits(r.added_count);
    let t = h.subrange(1, h.len() as int);
    assert(t =~= a + seq![','] + b + seq![','] + c);
    let p1 = a.len() as int;
    assert(t[p1] == ',');
    assert forall|q: int| 0 <= q < p1 implies t[q] != ',' by {
        assert(t[q] == a[q]);
        assert(is_digit(a[q]));
    }
    lemma_split_commas_chunk(t, p1);
    assert(t.subrange(0, p1) =~= a);
    let t2 = t.subrange(p1 + 1, t.len() as int);
    assert(t2 =~= b + seq![','] + c);
    let p2 = b.len() as int;
    assert(t2[p2] == ',');
    assert forall|q: int| 0 <= q < p2 implies t2[q] != ',' by {
        assert(t2[q] == b[q]);
        assert(is_digit(b[q]));
    }
    lemma_split_commas_chunk(t2, p2);
    assert(t2.subrange(0, p2) =~= b);
    let t3 = t2.subrange(p2 + 1, t2.len() as int);
    assert(t3 =~= c);
    assert forall|q: int| 0 <= q < t3.len() implies t3[q] != ',' by {
        assert(t3[q] == c[q]);
        assert(is_digit(c[q]));
    }
    lemma_split_commas_whole(t3);
    let segs = split_commas_spec(t);
    assert(segs =~~= seq![a, b, c]);
    assert(numeral_value(segs[0]) == r.old_start);
    assert(numeral_value(segs[1]) == r.removed_count);
    assert(numeral_value(segs[2]) == r.added_count);
}

/// Every line a well-formed patch serializes to is free of newlines.
proof fn lemma_patch_lines_clean(rs: Seq<PatchModel>)
    requires
        forall|i: int| 0 <= i < rs.len() ==> codec_safe(#[trigger] rs[i]),
    ensures
        forall|i: int, q: int|
            0 <= i < patch_lines(rs).len() && 0 <= q < patch_lines(rs)[i].len()
                ==> #[trigger] patch_lines(rs)[i][q] != '\n',
    decreases rs.len(),
{
    if rs.len() > 0 {
        let r = rs[0];
        assert(codec_safe(rs[0]));
        lemma_header_line_shape(r);
        assert(forall|i: int| 0 <= i < rs.drop_first().len() ==> codec_safe(
            #[trigger] rs.drop_first()[i],
        ));
        lemma_patch_lines_clean(rs.drop_first());
        let pl = patch_lines(rs);
        let rl = rec_lines(r);
        assert forall|i: int, q: int|
            0 <= i < pl.len() && 0 <= q < pl[i].len() implies #[trigger] pl[i][q] != '\n' by {
            if i < rl.len() {
                assert(pl[i] == rl[i]);
                if i == 0 {
                    assert(rl[i] == header_line(r));
                } else if i < 1 + r.removed_lines.len() {
                    assert(rl[i] == r.removed_lines[i - 1]);
                    assert(r.removed_lines[i - 1][q] != '\n');
                } else {
                    assert(rl[i] == r.added_lines[i - 1 - r.removed_lines.len()]);
                    assert(r.added_lines[i - 1 - r.removed_lines.len()][q] != '\n');
                }
            } else {
                assert(pl[i] == patch_lines(rs.drop_first())[i - rl.len()]);
            }
        }
    }
}

/// Consuming payload lines into the removed buffer.
proof fn lemma_consume_removed(
    pl: Seq<Seq<char>>,
    rest: Seq<Seq<char>>,
    st: ParseState,
    out: Seq<PatchModel>,
)
    requires
        st.rem == pl.len(),
        lines_clean(pl),
    ensures
        parse_run(pl + rest, st, out) == parse_run(
            rest,
            ParseState { rem: 0, removed: st.removed + pl, ..st },
            out,
        ),
    decreases pl.len(),
{
    if pl.len() == 0 {
        assert(pl + rest =~= rest);
        assert(st.removed + pl =~= st.removed);
        assert(ParseState { rem: 0, removed: st.removed + pl, ..st } == st);
    } else {
        let l = pl[0];
        assert((pl + rest)[0] == l);
        assert(!is_header_line(l)) by {
            if l.len() > 0 {
                assert(pl[0][0] != '\u{0}');
            }
        }
        assert((pl + rest).drop_first() =~= pl.drop_first() + rest);
        let st2 = ParseState { rem: (st.rem - 1) as nat, removed: st.removed.push(l), ..st };
        assert forall|i: int, q: int|
            0 <= i < pl.drop_first().len() && 0 <= q < pl.drop_first()[i].len() implies #[trigger] pl.drop_first()[i][q] != '\u{0}' && pl.drop_first()[i][q] != '\n' by {
            assert(pl[i + 1][q] != '\u{0}' && pl[i + 1][q] != '\n');
        }
        lemma_consume_removed(pl.drop_first(), rest, st2, out);
        assert(st.removed.push(l) + pl.drop_first() =~= st.removed + pl);
        assert(ParseState { rem: 0, removed: st2.removed + pl.drop_first(), ..st2 } == ParseState {
            rem: 0,
            removed: st.removed + pl,
            ..st
        });
    }
}

/// Consuming payload lines into the added buffer.
proof fn lemma_consume_added(
    pl: Seq<Seq<char>>,
    rest: Seq<Seq<char>>,
    st: ParseState,
    out: Seq<PatchModel>,
)
    requires
        st.rem == 0,
        st.add == pl.len(),
        lines_clean(pl),
    ensures
        parse_run(pl + rest, st, out) == parse_run(
            rest,
            ParseState { add: 0, added: st.added + pl, ..st },
            out,
        ),
    decreases pl.len(),
{
    if pl.len() == 0 {
        assert(pl + rest =~= rest);
        assert(st.added + pl =~= st.added);
        assert(ParseState { add: 0, added: st.added + pl, ..st } == st);
    } else {
        let l = pl[0];
        assert((pl + rest)[0] == l);
        assert(!is_header_line(l)) by {
            if l.len() > 0 {
                assert(pl[0][0] != '\u{0}');
            }
        }
        assert((pl + rest).drop_first() =~= pl.drop_first() + rest);
        let st2 = ParseState { add: (st.add - 1) as nat, added: st.added.push(l), ..st };
        assert forall|i: int, q: int|
            0 <= i < pl.drop_first().len() && 0 <= q < pl.drop_first()[i].len() implies #[trigger] pl.drop_first()[i][q] != '\u{0}' && pl.drop_first()[i][q] != '\n' by {
            assert(pl[i + 1][q] != '\u{0}' && pl[i + 1][q] != '\n');
        }
        lemma_consume_added(pl.drop_first(), rest, st2, out);
        assert(st.added.push(l) + pl.drop_first() =~= st.added + pl);
        assert(ParseState { add: 0, added: st2.added + pl.drop_first(), ..st2 } == ParseState {
            add: 0,
            added: st.added + pl,
            ..st
        });
    }
}

/// The parser consumes the lines of each record in turn, finalizing the one
/// before it, and ends with all records read back.
proof fn lemma_parse_patch_lines(rs: Seq<PatchModel>, st: ParseState, out: Seq<PatchModel>)
    requires
        st.rem == 0,
        st.add == 0,
        forall|i: int| 0 <= i < rs.len() ==> codec_safe(#[trigger] rs[i]),
    ensures
        parse_run(patch_lines(rs), st, out) == ParseOutcome::Parsed(out + flush(st) + rs),
    decreases rs.len(),
{
    if rs.len() == 0 {
        assert(patch_lines(rs) =~= Seq::<Seq<char>>::empty());
        assert(out + flush(st) + rs =~= out + flush(st));
    } else {
        let r = rs[0];
        assert(codec_safe(rs[0]));
        let pl = patch_lines(rs);
        let tail1 = r.removed_lines + (r.added_lines + patch_lines(rs.drop_first()));
        lemma_header_line_shape(r);
        lemma_parse_header_roundtrip(r);
        assert(pl =~= seq![header_line(r)] + tail1);
        assert(pl[0] == header_line(r));
        assert(pl.drop_first() =~= tail1);
        let st1 = ParseState {
            old_start: r.old_start,
            rem: r.removed_count,
            add: r.added_count,
            removed: Seq::empty(),
            added: Seq::empty(),
        };
        assert(parse_run(pl, st, out) == parse_run(tail1, st1, out + flush(st)));
        let tail2 = r.added_lines + patch_lines(rs.drop_first());
        lemma_consume_removed(r.removed_lines, tail2, st1, out + flush(st));
        let st2 = ParseState { rem: 0, removed: Seq::empty() + r.removed_lines, ..st1 };
        lemma_consume_added(r.added_lines, patch_lines(rs.drop_first()), st2, out + flush(st));
        let st3 = ParseState { add: 0, added: Seq::empty() + r.added_lines, ..st2 };
        assert(forall|i: int| 0 <= i < rs.drop_first().len() ==> codec_safe(
            #[trigger] rs.drop_first()[i],
        ));
        lemma_parse_patch_lines(rs.drop_first(), st3, out + flush(st));
        assert(st3.removed =~= r.removed_lines);
        assert(st3.added =~= r.added_lines);
        assert(flush(st3) =~~= seq![r]) by {
            assert(st3.removed.len() + st3.added.len() > 0);
            assert(flush(st3)[0] =~~= r);
        }
        assert((out + flush(st)) + flush(st3) + rs.drop_first() =~= out + flush(st) + rs);
    }
}

/// The codec round trip: parsing the serialized text of well-formed records —
/// counts matching payloads, at least one payload line each, no delimiter and
/// no newline in any payload line — yields exactly those records.
pub proof fn lemma_codec_round_trip(rs: Seq<PatchModel>)
    requires
        forall|i: int| 0 <= i < rs.len() ==> codec_safe(#[trigger] rs[i]),
    ensures
        parse_run(split_lines_spec(serialize_spec(rs)), init_state(), Seq::empty())
            == ParseOutcome::Parsed(rs),
{
    lemma_patch_lines_clean(rs);
    lemma_split_join(patch_lines(rs));
    lemma_parse_patch_lines(rs, init_state(), Seq::empty());
    assert(flush(init_state()) =~= Seq::<PatchModel>::empty());
    assert(Seq::<PatchModel>::empty() + flush(init_state()) + rs =~= rs);
}

} // verus!
