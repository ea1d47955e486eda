//! Lyric synchronizer: parses a line-timestamped lyric file and answers
//! "which line is current" for a given playback position.
//!
//! Each input line is matched against the shape `[minutes:seconds.fraction]text`
//! (the tag may start anywhere in the line; the earliest occurrence wins, and
//! lines without a tag are skipped). Timestamps are kept as whole milliseconds:
//! `minutes * 60_000 + seconds * 1_000 + fraction`, the fraction read to
//! millisecond resolution (further fractional digits are dropped). A tagged
//! line whose minute or second field does not fit a 32-bit value is malformed,
//! and makes the whole parse fail.

use vstd::prelude::*;

use crate::text::{
    digit_run, dec_val, is_ascii_digit, trim, digit_run_from, parse_dec_capped, trimmed_range,
    lemma_digit_run_bounds, lemma_dec_val_nonneg, views,
};

verus! {

/// One timestamped lyric line: a millisecond timestamp plus the line's text
/// bytes (possibly empty, used as a spacing line).
pub struct LyricLine {
    pub timestamp_ms: u64,
    pub text: Vec<u8>,
}

/// An ordered lyric track: lines sorted ascending by timestamp, ties kept in
/// original file order.
pub struct LRCParser {
    pub lines: Vec<LyricLine>,
}

/// A timestamp tag `[digits:digits.digits]` starts at position `i`.
pub open spec fn match_at(s: Seq<u8>, i: int) -> bool {
    let colon = i + 1 + digit_run(s, i + 1);
    let dot = colon + 1 + digit_run(s, colon + 1);
    let close = dot + 1 + digit_run(s, dot + 1);
    &&& 0 <= i < s.len()
    &&& s[i] == 91  // '['
    &&& digit_run(s, i + 1) > 0
    &&& colon < s.len() && s[colon] == 58  // ':'
    &&& digit_run(s, colon + 1) > 0
    &&& dot < s.len() && s[dot] == 46  // '.'
    &&& digit_run(s, dot + 1) > 0
    &&& close < s.len() && s[close] == 93  // ']'
}

/// Position of the first timestamp tag at or after `i`, or `s.len()` if none.
pub open spec fn first_tag_from(s: Seq<u8>, i: int) -> int
    decreases s.len() - i when 0 <= i <= s.len()
{
    if i >= s.len() {
        i
    } else if match_at(s, i) {
        i
    } else {
        first_tag_from(s, i + 1)
    }
}

/// Position of the first timestamp tag, or `s.len()` if the line has none.
pub open spec fn first_tag(s: Seq<u8>) -> int {
    first_tag_from(s, 0)
}

/// The line carries a timestamp tag.
pub open spec fn line_matches(s: Seq<u8>) -> bool {
    first_tag(s) < s.len()
}

/// Position of the tag's `:` (meaningful on a matched line).
pub open spec fn tag_colon(s: Seq<u8>) -> int {
    first_tag(s) + 1 + digit_run(s, first_tag(s) + 1)
}

/// Position of the tag's `.`.
pub open spec fn tag_dot(s: Seq<u8>) -> int {
    tag_colon(s) + 1 + digit_run(s, tag_colon(s) + 1)
}

/// Position of the tag's `]`.
pub open spec fn tag_close(s: Seq<u8>) -> int {
    tag_dot(s) + 1 + digit_run(s, tag_dot(s) + 1)
}

/// The tag's minute digits.
pub open spec fn minute_digits(s: Seq<u8>) -> Seq<u8> {
    s.subrange(first_tag(s) + 1, tag_colon(s))
}

/// The tag's whole-second digits.
pub open spec fn second_digits(s: Seq<u8>) -> Seq<u8> {
    s.subrange(tag_colon(s) + 1, tag_dot(s))
}

/// The tag's fractional-second digits.
pub open spec fn frac_digits(s: Seq<u8>) -> Seq<u8> {
    s.subrange(tag_dot(s) + 1, tag_close(s))
}

/// The matched numeric fields are representable: both the minute and the
/// whole-second value fit 32 bits.
pub open spec fn line_ok(s: Seq<u8>) -> bool {
    dec_val(minute_digits(s)) <= 0xFFFF_FFFF && dec_val(second_digits(s)) <= 0xFFFF_FFFF
}

/// Milliseconds denoted by the fractional digits, read to three places.
pub open spec fn frac_ms_val(f: Seq<u8>) -> int {
    if f.len() >= 3 {
        dec_val(f.take(3))
    } else if f.len() == 2 {
        dec_val(f) * 10
    } else {
        dec_val(f) * 100
    }
}

/// The line's timestamp in milliseconds.
pub open spec fn line_ts(s: Seq<u8>) -> int {
    dec_val(minute_digits(s)) * 60000 + dec_val(second_digits(s)) * 1000 + frac_ms_val(
        frac_digits(s),
    )
}

/// The line's text: everything after the tag, whitespace-trimmed.
pub open spec fn line_text(s: Seq<u8>) -> Seq<u8> {
    trim(s.skip(tag_close(s) + 1))
}

/// Outcome of reading one lyric file line.
pub enum ParsedLine {
    /// The line carries no timestamp tag and is skipped.
    NoTag,
    /// The line carries a tag whose numeric fields are unrepresentable;
    /// the whole file fails to parse.
    Malformed,
    /// A well-formed timestamped line.
    Entry(LyricLine),
}

/// Finds the earliest timestamp tag of `line`, if any, and returns the
/// positions of its `:`, `.` and `]` bytes.
fn find_tag(line: &Vec<u8>) -> (r: Option<(usize, usize, usize, usize)>)
    ensures
        r is Some <==> line_matches(line@),
        r matches Some((i, colon, dot, close)) ==> {
            &&& i == first_tag(line@)
            &&& colon == tag_colon(line@)
            &&& dot == tag_dot(line@)
            &&& close == tag_close(line@)
            &&& i < colon < dot < close < line@.len()
            &&& match_at(line@, i as int)
        },
{
    let n = line.len();
    let mut i: usize = 0;
    while i < n
        invariant
            0 <= i <= n,
            n == line@.len(),
            first_tag_from(line@, 0) == first_tag_from(line@, i as int),
        decreases n - i,
    {
        if line[i] == 91 {
            let a = digit_run_from(line, i + 1);
            let colon = i + 1 + a;
            if a > 0 && colon < n && line[colon] == 58 {
                let b = digit_run_from(line, colon + 1);
                let dot = colon + 1 + b;
                if b > 0 && dot < n && line[dot] == 46 {
                    let c = digit_run_from(line, dot + 1);
                    let close = dot + 1 + c;
                    if c > 0 && close < n && line[close] == 93 {
                        assert(match_at(line@, i as int));
                        assert(first_tag_from(line@, i as int) == i);
                        assert(first_tag_from(line@, 0) == i);
                        return Some((i, colon, dot, close));
                    }
                }
            }
        }
        assert(!match_at(line@, i as int));
        i = i + 1;
    }
    assert(first_tag_from(line@, i as int) == n);
    None
}

/// Parses one line of a lyric file.
pub fn parse_line(line: &Vec<u8>) -> (r: ParsedLine)
    ensures
        r matches ParsedLine::NoTag <==> !line_matches(line@),
        r matches ParsedLine::Malformed <==> line_matches(line@) && !line_ok(line@),
        r matches ParsedLine::Entry(l) ==> {
            &&& line_matches(line@) && line_ok(line@)
            &&& l.timestamp_ms == line_ts(line@)
            &&& l.text@ == line_text(line@)
        },
        line_matches(line@) && line_ok(line@) ==> r matches ParsedLine::Entry(_),
{
    let n = line.len();
    let tag = find_tag(line);
    let (i, colon, dot, close) = match tag {
        None => { return ParsedLine::NoTag },
        Some(t) => t,
    };
    proof {
        lemma_digit_run_bounds(line@, i + 1);
        lemma_digit_run_bounds(line@, colon + 1);
        lemma_digit_run_bounds(line@, dot + 1);
    }
    let minutes = match parse_dec_capped(line, i + 1, colon, 0xFFFF_FFFF) {
        None => { return ParsedLine::Malformed },
        Some(v) => v,
    };
    let seconds = match parse_dec_capped(line, colon + 1, dot, 0xFFFF_FFFF) {
        None => { return ParsedLine::Malformed },
        Some(v) => v,
    };
    let fr_len = close - (dot + 1);
    let fr_end = if fr_len >= 3 {
        dot + 4
    } else {
        close
    };
    proof {
        // at most three fractional digits are read, so their value fits
        let f = line@.subrange(dot + 1, fr_end as int);
        assert(forall|p: int| 0 <= p < f.len() ==> is_ascii_digit(#[trigger] f[p]));
        lemma_dec_val_small(f);
    }
    let fr_raw = parse_dec_capped(line, dot + 1, fr_end, 0xFFFF_FFFF).unwrap();
    let frac: u64 = if fr_len >= 3 {
        fr_raw
    } else if fr_len == 2 {
        fr_raw * 10
    } else {
        fr_raw * 100
    };
    proof {
        let f = frac_digits(line@);
        assert(line@.subrange(dot + 1, fr_end as int) =~= if f.len() >= 3 {
            f.take(3)
        } else {
            f
        });
        let fd = line@.subrange(dot + 1, fr_end as int);
        assert(forall|p: int| 0 <= p < fd.len() ==> is_ascii_digit(#[trigger] fd[p]));
        lemma_dec_val_small(fd);
        lemma_dec_val_nonneg(minute_digits(line@));
        lemma_dec_val_nonneg(second_digits(line@));
    }
    let ts: u64 = minutes * 60000 + seconds * 1000 + frac;
    let text = trimmed_range(line, close + 1, n);
    assert(line@.subrange(close + 1, n as int) =~= line@.skip(close + 1));
    ParsedLine::Entry(LyricLine { timestamp_ms: ts, text })
}

/// A digit sequence of at most three digits denotes less than 1000.
proof fn lemma_dec_val_small(f: Seq<u8>)
    requires
        f.len() <= 3,
        forall|p: int| 0 <= p < f.len() ==> is_ascii_digit(#[trigger] f[p]),
    ensures
        0 <= dec_val(f),
        f.len() <= 1 ==> dec_val(f) <= 9,
        f.len() <= 2 ==> dec_val(f) <= 99,
        dec_val(f) <= 999,
    decreases f.len(),
{
    if f.len() > 0 {
        assert(forall|p: int| 0 <= p < f.drop_last().len() ==> is_ascii_digit(
            #[trigger] f.drop_last()[p],
        ));
        lemma_dec_val_small(f.drop_last());
    }
}

/// Models of the lines of a track, in track order.
pub open spec fn models(s: Seq<LyricLine>) -> Seq<(int, Seq<u8>)> {
    s.map_values(|l: LyricLine| lyric_model(l))
}

/// Ghost model of a lyric line: timestamp and text.
pub open spec fn lyric_model(l: LyricLine) -> (int, Seq<u8>) {
    (l.timestamp_ms as int, l.text@)
}

/// Models of the tagged lines of a file, in file order.
pub open spec fn parsed_models(ls: Seq<Seq<u8>>) -> Seq<(int, Seq<u8>)>
    decreases ls.len(),
{
    if ls.len() == 0 {
        Seq::empty()
    } else {
        let rest = parsed_models(ls.drop_last());
        if line_matches(ls.last()) {
            rest.push((line_ts(ls.last()), line_text(ls.last())))
        } else {
            rest
        }
    }
}

/// Every tagged line has representable numeric fields.
pub open spec fn all_ok(ls: Seq<Seq<u8>>) -> bool {
    forall|i: int|
        0 <= i < ls.len() ==> (line_matches(#[trigger] ls[i]) ==> line_ok(ls[i]))
}

/// Insertion of `x` into a timestamp-sorted sequence, after every entry whose
/// timestamp is not greater: a stable insertion.
pub open spec fn insert_by_ts(s: Seq<(int, Seq<u8>)>, x: (int, Seq<u8>)) -> Seq<(int, Seq<u8>)>
    decreases s.len(),
{
    if s.len() == 0 {
        seq![x]
    } else if s.last().0 <= x.0 {
        s.push(x)
    } else {
        insert_by_ts(s.drop_last(), x).push(s.last())
    }
}

/// Stable sort by timestamp: entries ascending by timestamp, ties kept in
/// original order.
pub open spec fn sort_by_ts(s: Seq<(int, Seq<u8>)>) -> Seq<(int, Seq<u8>)>
    decreases s.len(),
{
    if s.len() == 0 {
        Seq::empty()
    } else {
        insert_by_ts(sort_by_ts(s.drop_last()), s.last())
    }
}

/// Non-decreasing timestamps.
pub open spec fn ts_sorted(s: Seq<(int, Seq<u8>)>) -> bool {
    forall|i: int, j: int| 0 <= i <= j < s.len() ==> (#[trigger] s[i]).0 <= (#[trigger] s[j]).0
}

pub proof fn lemma_insert_by_ts_sorted(s: Seq<(int, Seq<u8>)>, x: (int, Seq<u8>))
    requires
        ts_sorted(s),
    ensures
        ts_sorted(insert_by_ts(s, x)),
        insert_by_ts(s, x).len() == s.len() + 1,
    decreases s.len(),
{
    if s.len() == 0 {
    } else if s.last().0 <= x.0 {
    } else {
        assert(forall|i: int, j: int|
            0 <= i <= j < s.drop_last().len() ==> (#[trigger] s.drop_last()[i]).0
                <= (#[trigger] s.drop_last()[j]).0);
        lemma_insert_by_ts_sorted(s.drop_last(), x);
        let t = insert_by_ts(s.drop_last(), x);
        // every entry of t is either x or an entry of s.drop_last(), so it is
        // at most s.last().0
        lemma_insert_by_ts_entries(s.drop_last(), x);
        assert forall|i: int, j: int| 0 <= i <= j < t.push(s.last()).len() implies (#[trigger] t.push(
            s.last(),
        )[i]).0 <= (#[trigger] t.push(s.last())[j]).0 by {
            if j < t.len() {
            } else {
                if i < t.len() {
                    assert(t[i] == x || exists|p: int|
                        0 <= p < s.drop_last().len() && t[i] == s.drop_last()[p]);
                    if t[i] != x {
                        let p = choose|p: int|
                            0 <= p < s.drop_last().len() && t[i] == s.drop_last()[p];
                        assert(s.drop_last()[p] == s[p]);
                    }
                }
            }
        }
    }
}

/// Every entry of an insertion result is the inserted entry or one of the
/// original entries.
pub proof fn lemma_insert_by_ts_entries(s: Seq<(int, Seq<u8>)>, x: (int, Seq<u8>))
    ensures
        forall|i: int|
            0 <= i < insert_by_ts(s, x).len() ==> (#[trigger] insert_by_ts(s, x)[i] == x || exists|
                p: int,
            | 0 <= p < s.len() && insert_by_ts(s, x)[i] == s[p]),
    decreases s.len(),
{
    if s.len() == 0 {
    } else if s.last().0 <= x.0 {
    } else {
        lemma_insert_by_ts_entries(s.drop_last(), x);
        let t = insert_by_ts(s.drop_last(), x);
        assert forall|i: int| 0 <= i < t.push(s.last()).len() implies (#[trigger] t.push(s.last())[i]
            == x || exists|p: int| 0 <= p < s.len() && t.push(s.last())[i] == s[p]) by {
            if i < t.len() {
                if t[i] != x {
                    let p = choose|p: int| 0 <= p < s.drop_last().len() && t[i] == s.drop_last()[p];
                    assert(t.push(s.last())[i] == s[p]);
                }
            } else {
                assert(t.push(s.last())[i] == s[s.len() - 1]);
            }
        }
    }
}

/// In a sorted sequence, inserting `x` at the position found by scanning back
/// over strictly greater timestamps yields exactly the stable insertion.
pub proof fn lemma_insert_by_ts_characterize(s: Seq<(int, Seq<u8>)>, x: (int, Seq<u8>), pos: int)
    requires
        ts_sorted(s),
        0 <= pos <= s.len(),
        pos > 0 ==> s[pos - 1].0 <= x.0,
        forall|q: int| pos <= q < s.len() ==> (#[trigger] s[q]).0 > x.0,
    ensures
        insert_by_ts(s, x) =~= s.take(pos) + seq![x] + s.skip(pos),
    decreases s.len(),
{
    if s.len() == 0 {
        assert(insert_by_ts(s, x) =~= seq![x]);
    } else if s.last().0 <= x.0 {
        assert(pos == s.len());
        assert(s.take(pos) =~= s);
        assert(s.skip(pos) =~= Seq::empty());
    } else {
        let d = s.drop_last();
        assert(pos <= d.len());
        assert(forall|i: int, j: int|
            0 <= i <= j < d.len() ==> (#[trigger] d[i]).0 <= (#[trigger] d[j]).0);
        assert(forall|q: int| pos <= q < d.len() ==> (#[trigger] d[q]).0 > x.0);
        lemma_insert_by_ts_characterize(d, x, pos);
        assert(d.take(pos) =~= s.take(pos));
        assert((d.take(pos) + seq![x] + d.skip(pos)).push(s.last()) =~= s.take(pos) + seq![x]
            + s.skip(pos));
    }
}

/// A lyric track is well-formed when its lines are sorted ascending by
/// timestamp.
pub open spec fn track_sorted(lines: Seq<LyricLine>) -> bool {
    forall|i: int, j: int|
        0 <= i <= j < lines.len() ==> (#[trigger] lines[i]).timestamp_ms
            <= (#[trigger] lines[j]).timestamp_ms
}

impl LRCParser {
    /// The track's model: timestamp/text pairs in track order.
    pub open spec fn model(self) -> Seq<(int, Seq<u8>)> {
        models(self.lines@)
    }

    /// Well-formed: sorted ascending by timestamp.
    pub open spec fn wf(self) -> bool {
        track_sorted(self.lines@)
    }

    /// Builds a track from the lines of a lyric file. Lines without a
    /// timestamp tag are skipped; the result is stably sorted ascending by
    /// timestamp. Returns `None` exactly when some tagged line has an
    /// unrepresentable numeric field.
    pub fn from_lines(file_lines: &Vec<Vec<u8>>) -> (r: Option<LRCParser>)
        ensures
            r is Some <==> all_ok(views(file_lines@)),
            r matches Some(p) ==> {
                &&& p.model() == sort_by_ts(parsed_models(views(file_lines@)))
                &&& p.wf()
            },
    {
        let ghost vs = views(file_lines@);
        let n = file_lines.len();
        let mut parsed: Vec<LyricLine> = Vec::new();
        let mut idx: usize = 0;
        while idx < n
            invariant
                0 <= idx <= n,
                n == file_lines@.len(),
                vs == views(file_lines@),
                models(parsed@) =~= parsed_models(
                    vs.take(idx as int),
                ),
                forall|i: int| 0 <= i < idx ==> (line_matches(#[trigger] vs[i]) ==> line_ok(vs[i])),
            decreases n - idx,
        {
            let ghost pre = parsed@;
            assert(vs[idx as int] == file_lines@[idx as int]@);
            match parse_line(&file_lines[idx]) {
                ParsedLine::NoTag => {
                    proof {
                        assert(vs.take(idx + 1).drop_last() =~= vs.take(idx as int));
                        assert(vs.take(idx + 1).last() == vs[idx as int]);
                    }
                },
                ParsedLine::Malformed => {
                    return None;
                },
                ParsedLine::Entry(l) => {
                    let ghost lm = lyric_model(l);
                    parsed.push(l);
                    proof {
                        assert(vs.take(idx + 1).drop_last() =~= vs.take(idx as int));
                        assert(vs.take(idx + 1).last() == vs[idx as int]);
                        assert(models(parsed@) =~= models(pre).push(lm));
                    }
                },
            }
            idx = idx + 1;
        }
        assert(vs.take(n as int) =~= vs);
        // Stable insertion sort ascending by timestamp.
        let ghost all = models(parsed@);
        let mut out: Vec<LyricLine> = Vec::new();
        let mut done: usize = 0;
        let total = parsed.len();
        while parsed.len() > 0
            invariant
                done + parsed@.len() == total,
                total == all.len(),
                models(out@) =~= sort_by_ts(all.take(done as int)),
                models(parsed@) =~= all.skip(done as int),
                ts_sorted(models(out@)),
            decreases parsed@.len(),
        {
            let ghost out_pre = models(out@);
            let ghost pv_pre = parsed@;
            let x = parsed.remove(0);
            let ghost xm = lyric_model(x);
            proof {
                assert(models(pv_pre)[0] == lyric_model(pv_pre[0]));
                assert(all.skip(done as int)[0] == xm);
                assert(parsed@ =~= pv_pre.skip(1));
                assert forall|q: int| 0 <= q < parsed@.len() implies models(parsed@)[q] == all.skip(
                    done + 1,
                )[q] by {
                    assert(parsed@[q] == pv_pre[q + 1]);
                    assert(models(pv_pre)[q + 1] == lyric_model(pv_pre[q + 1]));
                    assert(all.skip(done as int)[q + 1] == all[done + 1 + q]);
                }
                assert(models(parsed@) =~= all.skip(done + 1));
            }
            let mut pos = out.len();
            while pos > 0 && out[pos - 1].timestamp_ms > x.timestamp_ms
                invariant
                    0 <= pos <= out@.len(),
                    out_pre == models(out@),
                    xm == lyric_model(x),
                    forall|q: int|
                        pos <= q < out@.len() ==> (#[trigger] out_pre[q]).0 > xm.0,
                decreases pos,
            {
                let ghost q = pos - 1;
                assert(out_pre[q] == lyric_model(out@[q]));
                assert(out_pre[q].0 > xm.0);
                pos = pos - 1;
            }
            proof {
                if pos > 0 {
                    assert(out_pre[pos - 1] == lyric_model(out@[pos - 1]));
                }
                lemma_insert_by_ts_characterize(out_pre, xm, pos as int);
            }
            let ghost out_vec_pre = out@;
            out.insert(pos, x);
            proof {
                assert(out@ =~= out_vec_pre.take(pos as int) + seq![x] + out_vec_pre.skip(
                    pos as int,
                ));
                assert forall|q: int| 0 <= q < out@.len() implies models(out@)[q] == (
                out_pre.take(pos as int) + seq![xm] + out_pre.skip(pos as int))[q] by {
                    if q < pos {
                        assert(out@[q] == out_vec_pre[q]);
                        assert(models(out_vec_pre)[q] == lyric_model(out_vec_pre[q]));
                    } else if q == pos {
                        assert(out@[q] == x);
                    } else {
                        assert(out@[q] == out_vec_pre[q - 1]);
                        assert(models(out_vec_pre)[q - 1] == lyric_model(out_vec_pre[q - 1]));
                    }
                }
                assert(models(out@) =~= out_pre.take(pos as int) + seq![xm] + out_pre.skip(
                    pos as int,
                ));
                assert(models(out@) =~= insert_by_ts(out_pre, xm));
                assert(all.take(done + 1).drop_last() =~= all.take(done as int));
                assert(all.take(done + 1).last() == all[done as int]);
                lemma_insert_by_ts_sorted(out_pre, xm);
            }
            done = done + 1;
        }
        assert(all.take(done as int) =~= all);
        let p = LRCParser { lines: out };
        proof {
            assert(p.model() == sort_by_ts(parsed_models(vs)));
            assert forall|i: int, j: int|
                0 <= i <= j < p.lines@.len() implies (#[trigger] p.lines@[i]).timestamp_ms
                <= (#[trigger] p.lines@[j]).timestamp_ms by {
                assert(p.model()[i] == lyric_model(p.lines@[i]));
                assert(p.model()[j] == lyric_model(p.lines@[j]));
            }
        }
        Some(p)
    }

    /// The current line for playback position `t_ms`: the greatest index `i`
    /// with `lines[i].timestamp_ms <= t_ms`, together with a copy of that
    /// line's text. `None` when the track is empty or `t_ms` precedes the
    /// first timestamp.
    pub fn get_current_line(&self, t_ms: u64) -> (r: Option<(usize, Vec<u8>)>)
        requires
            self.wf(),
        ensures
            r is None <==> (self.lines@.len() == 0 || t_ms < self.lines@[0].timestamp_ms),
            r matches Some((i, text)) ==> {
                &&& i < self.lines@.len()
                &&& self.lines@[i as int].timestamp_ms <= t_ms
                &&& forall|j: int|
                    i < j < self.lines@.len() ==> (#[trigger] self.lines@[j]).timestamp_ms > t_ms
                &&& text@ == self.lines@[i as int].text@
            },
    {
        let n = self.lines.len();
        let mut i = n;
        while i > 0
            invariant
                0 <= i <= n,
                n == self.lines@.len(),
                self.wf(),
                forall|j: int| i <= j < n ==> (#[trigger] self.lines@[j]).timestamp_ms > t_ms,
            decreases i,
        {
            i = i - 1;
            if self.lines[i].timestamp_ms <= t_ms {
                let text = copy_bytes(&self.lines[i].text);
                return Some((i, text));
            }
        }
        assert(self.lines@.len() > 0 ==> self.lines@[0].timestamp_ms > t_ms);
        None
    }
}

/// Byte-for-byte copy of a vector.
pub fn copy_bytes(v: &Vec<u8>) -> (r: Vec<u8>)
    ensures
        r@ == v@,
{
    let mut r: Vec<u8> = Vec::new();
    let mut i: usize = 0;
    while i < v.len()
        invariant
            0 <= i <= v@.len(),
            r@ =~= v@.take(i as int),
        decreases v@.len() - i,
    {
        r.push(v[i]);
        i = i + 1;
    }
    assert(r@ =~= v@);
    r
}

} // verus!
