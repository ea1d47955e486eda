//! Spectrum stream supervisor support: the live amplitude buffer written by
//! the analyzer's background reader, and the generated analyzer configuration.
//!
//! The configuration is built from the user's own analyzer configuration by
//! dropping its `[output]` section and any `bars =` setting, then appending an
//! override block that forces the bar count, raw binary output on standard
//! output, 8-bit unsigned samples, and mono-summed channels.

use vstd::prelude::*;

use crate::text::{
    append_bytes, bytes_eq, copy_range, dec_digits, format_dec, is_ascii_digit, is_ascii_space,
    trim, trim_end, trim_start, trimmed_range, views,
};

verus! {

/// The live spectrum buffer: one unsigned byte amplitude per bar. Created
/// with a fixed bar count and never resized; every complete analyzer frame
/// replaces its contents wholesale, so readers never see a partial frame.
pub struct SpectrumBuffer {
    bars: Vec<u8>,
}

impl SpectrumBuffer {
    /// The buffer's contents, one amplitude per bar.
    pub closed spec fn contents(self) -> Seq<u8> {
        self.bars@
    }

    /// A fresh all-zero buffer of `num_bars` bars.
    pub fn new(num_bars: usize) -> (r: SpectrumBuffer)
        ensures
            r.contents().len() == num_bars,
            forall|i: int| 0 <= i < num_bars ==> r.contents()[i] == 0,
    {
        let mut bars: Vec<u8> = Vec::new();
        let mut i: usize = 0;
        while i < num_bars
            invariant
                i <= num_bars,
                bars@.len() == i,
                forall|p: int| 0 <= p < i ==> bars@[p] == 0,
            decreases num_bars - i,
        {
            bars.push(0);
            i = i + 1;
        }
        SpectrumBuffer { bars }
    }

    /// The bar count the buffer was created with.
    pub fn num_bars(&self) -> (n: usize)
        ensures
            n == self.contents().len(),
    {
        self.bars.len()
    }

    /// Replaces the whole buffer with one complete frame.
    pub fn update(&mut self, frame: &Vec<u8>)
        requires
            frame@.len() == old(self).contents().len(),
        ensures
            final(self).contents() == frame@,
    {
        let copy = copy_range(frame, 0, frame.len());
        assert(copy@ =~= frame@);
        self.bars = copy;
    }

    /// A snapshot copy of the current bar values.
    pub fn get_bars(&self) -> (r: Vec<u8>)
        ensures
            r@ == self.contents(),
    {
        let r = copy_range(&self.bars, 0, self.bars.len());
        assert(r@ =~= self.bars@);
        r
    }
}

/// Position of the first line feed at or after `i`, or `s.len()` if none.
pub open spec fn break_from(s: Seq<u8>, i: int) -> int
    decreases s.len() - i when 0 <= i <= s.len()
{
    if i >= s.len() {
        i
    } else if s[i] == 10 {
        i
    } else {
        break_from(s, i + 1)
    }
}

pub proof fn lemma_break_from(s: Seq<u8>, i: int)
    requires
        0 <= i <= s.len(),
    ensures
        i <= break_from(s, i) <= s.len(),
        break_from(s, i) < s.len() ==> s[break_from(s, i)] == 10,
        forall|p: int| i <= p < break_from(s, i) ==> s[p] != 10,
    decreases s.len() - i,
{
    if i < s.len() && s[i] != 10 {
        lemma_break_from(s, i + 1);
    }
}

/// One line's bytes with a single trailing carriage return removed.
pub open spec fn strip_cr(t: Seq<u8>) -> Seq<u8> {
    if t.len() > 0 && t.last() == 13 {
        t.drop_last()
    } else {
        t
    }
}

/// The lines of `s` from position `pos` on, split at line feeds, each with a
/// trailing carriage return removed; a final line feed ends the last line.
pub open spec fn split_from(s: Seq<u8>, pos: int) -> Seq<Seq<u8>>
    decreases s.len() - pos when 0 <= pos <= s.len() via split_from_decreases
{
    if pos >= s.len() {
        Seq::empty()
    } else {
        let nb = break_from(s, pos);
        let piece = strip_cr(s.subrange(pos, nb));
        if nb >= s.len() {
            seq![piece]
        } else {
            seq![piece] + split_from(s, nb + 1)
        }
    }
}

#[via_fn]
proof fn split_from_decreases(s: Seq<u8>, pos: int) {
    lemma_break_from(s, pos);
}

/// The lines of a configuration file.
pub open spec fn split_lines(s: Seq<u8>) -> Seq<Seq<u8>> {
    split_from(s, 0)
}

/// Exec counterpart of `break_from`.
fn find_break(v: &Vec<u8>, i: usize) -> (r: usize)
    requires
        i <= v@.len(),
    ensures
        r == break_from(v@, i as int),
        i <= r <= v@.len(),
{
    let n = v.len();
    let mut j = i;
    while j < n && v[j] != 10
        invariant
            i <= j <= n,
            n == v@.len(),
            break_from(v@, i as int) == break_from(v@, j as int),
        decreases n - j,
    {
        j = j + 1;
    }
    proof {
        lemma_break_from(v@, i as int);
    }
    j
}

/// Splits a configuration file into lines.
pub fn split_config_lines(s: &Vec<u8>) -> (r: Vec<Vec<u8>>)
    ensures
        views(r@) == split_lines(s@),
{
    let n = s.len();
    let mut acc: Vec<Vec<u8>> = Vec::new();
    let mut pos: usize = 0;
    while pos < n
        invariant
            pos <= n,
            n == s@.len(),
            views(acc@) + split_from(s@, pos as int) =~= split_lines(s@),
        decreases n - pos,
    {
        let ghost acc_pre = acc@;
        let nb = find_break(s, pos);
        let end = if nb > pos && s[nb - 1] == 13 {
            nb - 1
        } else {
            nb
        };
        let piece = copy_range(s, pos, end);
        assert(piece@ =~= strip_cr(s@.subrange(pos as int, nb as int)));
        acc.push(piece);
        proof {
            assert(acc@.drop_last() =~= acc_pre);
            assert forall|q: int| 0 <= q < acc@.len() implies views(acc@)[q] == (views(acc_pre)
                + seq![strip_cr(s@.subrange(pos as int, nb as int))])[q] by {
                if q < acc_pre.len() {
                    assert(acc@[q] == acc_pre[q]);
                }
            }
            assert(views(acc@) =~= views(acc_pre) + seq![
                strip_cr(s@.subrange(pos as int, nb as int)),
            ]);
        }
        if nb == n {
            pos = n;
        } else {
            pos = nb + 1;
        }
    }
    assert(split_from(s@, pos as int) =~= Seq::<Seq<u8>>::empty());
    assert(views(acc@) =~= views(acc@) + split_from(s@, pos as int));
    acc
}

/// The bytes of `[output]`.
pub open spec fn lit_output_header() -> Seq<u8> {
    seq![91u8, 111u8, 117u8, 116u8, 112u8, 117u8, 116u8, 93u8]
}

/// The bytes of `[general]`.
pub open spec fn lit_general_header() -> Seq<u8> {
    seq![91u8, 103u8, 101u8, 110u8, 101u8, 114u8, 97u8, 108u8, 93u8]
}

/// The bytes of `bars = `.
pub open spec fn lit_bars_prefix() -> Seq<u8> {
    seq![98u8, 97u8, 114u8, 115u8, 32u8, 61u8, 32u8]
}

/// The bytes of `method = raw`.
pub open spec fn lit_method_line() -> Seq<u8> {
    seq![109u8, 101u8, 116u8, 104u8, 111u8, 100u8, 32u8, 61u8, 32u8, 114u8, 97u8, 119u8]
}

/// The bytes of `raw_target = /dev/stdout`.
pub open spec fn lit_raw_target_line() -> Seq<u8> {
    seq![114u8, 97u8, 119u8, 95u8, 116u8, 97u8, 114u8, 103u8, 101u8, 116u8, 32u8, 61u8, 32u8, 47u8, 100u8, 101u8, 118u8, 47u8, 115u8, 116u8, 100u8, 111u8, 117u8, 116u8]
}

/// The bytes of `data_format = binary`.
pub open spec fn lit_data_format_line() -> Seq<u8> {
    seq![100u8, 97u8, 116u8, 97u8, 95u8, 102u8, 111u8, 114u8, 109u8, 97u8, 116u8, 32u8, 61u8, 32u8, 98u8, 105u8, 110u8, 97u8, 114u8, 121u8]
}

/// The bytes of `bit_format = 8bit`.
pub open spec fn lit_bit_format_line() -> Seq<u8> {
    seq![98u8, 105u8, 116u8, 95u8, 102u8, 111u8, 114u8, 109u8, 97u8, 116u8, 32u8, 61u8, 32u8, 56u8, 98u8, 105u8, 116u8]
}

/// The bytes of `channels = mono`.
pub open spec fn lit_channels_line() -> Seq<u8> {
    seq![99u8, 104u8, 97u8, 110u8, 110u8, 101u8, 108u8, 115u8, 32u8, 61u8, 32u8, 109u8, 111u8, 110u8, 111u8]
}

/// Builds the bytes of `[output]`.
fn output_header_vec() -> (r: Vec<u8>)
    ensures
        r@ == lit_output_header(),
{
    let mut v: Vec<u8> = Vec::new();
    v.push(91);
    v.push(111);
    v.push(117);
    v.push(116);
    v.push(112);
    v.push(117);
    v.push(116);
    v.push(93);
    assert(v@ =~= lit_output_header());
    v
}

/// Builds the bytes of `[general]`.
fn general_header_vec() -> (r: Vec<u8>)
    ensures
        r@ == lit_general_header(),
{
    let mut v: Vec<u8> = Vec::new();
    v.push(91);
    v.push(103);
    v.push(101);
    v.push(110);
    v.push(101);
    v.push(114);
    v.push(97);
    v.push(108);
    v.push(93);
    assert(v@ =~= lit_general_header());
    v
}

/// Builds the bytes of `bars = `.
fn bars_prefix_vec() -> (r: Vec<u8>)
    ensures
        r@ == lit_bars_prefix(),
{
    let mut v: Vec<u8> = Vec::new();
    v.push(98);
    v.push(97);
    v.push(114);
    v.push(115);
    v.push(32);
    v.push(61);
    v.push(32);
    assert(v@ =~= lit_bars_prefix());
    v
}

/// Builds the bytes of `method = raw`.
fn method_line_vec() -> (r: Vec<u8>)
    ensures
        r@ == lit_method_line(),
{
    let mut v: Vec<u8> = Vec::new();
    v.push(109);
    v.push(101);
    v.push(116);
    v.push(104);
    v.push(111);
    v.push(100);
    v.push(32);
    v.push(61);
    v.push(32);
    v.push(114);
    v.push(97);
    v.push(119);
    assert(v@ =~= lit_method_line());
    v
}

/// Builds the bytes of `raw_target = /dev/stdout`.
fn raw_target_line_vec() -> (r: Vec<u8>)
    ensures
        r@ == lit_raw_target_line(),
{
    let mut v: Vec<u8> = Vec::new();
    v.push(114);
    v.push(97);
    v.push(119);
    v.push(95);
    v.push(116);
    v.push(97);
    v.push(114);
    v.push(103);
    v.push(101);
    v.push(116);
    v.push(32);
    v.push(61);
    v.push(32);
    v.push(47);
    v.push(100);
    v.push(101);
    v.push(118);
    v.push(47);
    v.push(115);
    v.push(116);
    v.push(100);
    v.push(111);
    v.push(117);
    v.push(116);
    assert(v@ =~= lit_raw_target_line());
    v
}

/// Builds the bytes of `data_format = binary`.
fn data_format_line_vec() -> (r: Vec<u8>)
    ensures
        r@ == lit_data_format_line(),
{
    let mut v: Vec<u8> = Vec::new();
    v.push(100);
    v.push(97);
    v.push(116);
    v.push(97);
    v.push(95);
    v.push(102);
    v.push(111);
    v.push(114);
    v.push(109);
    v.push(97);
    v.push(116);
    v.push(32);
    v.push(61);
    v.push(32);
    v.push(98);
    v.push(105);
    v.push(110);
    v.push(97);
    v.push(114);
    v.push(121);
    assert(v@ =~= lit_data_format_line());
    v
}

/// Builds the bytes of `bit_format = 8bit`.
fn bit_format_line_vec() -> (r: Vec<u8>)
    ensures
        r@ == lit_bit_format_line(),
{
    let mut v: Vec<u8> = Vec::new();
    v.push(98);
    v.push(105);
    v.push(116);
    v.push(95);
    v.push(102);
    v.push(111);
    v.push(114);
    v.push(109);
    v.push(97);
    v.push(116);
    v.push(32);
    v.push(61);
    v.push(32);
    v.push(56);
    v.push(98);
    v.push(105);
    v.push(116);
    assert(v@ =~= lit_bit_format_line());
    v
}

/// Builds the bytes of `channels = mono`.
fn channels_line_vec() -> (r: Vec<u8>)
    ensures
        r@ == lit_channels_line(),
{
    let mut v: Vec<u8> = Vec::new();
    v.push(99);
    v.push(104);
    v.push(97);
    v.push(110);
    v.push(110);
    v.push(101);
    v.push(108);
    v.push(115);
    v.push(32);
    v.push(61);
    v.push(32);
    v.push(109);
    v.push(111);
    v.push(110);
    v.push(111);
    assert(v@ =~= lit_channels_line());
    v
}

/// A section header line: the trimmed line starts with `[`.
pub open spec fn is_header(t: Seq<u8>) -> bool {
    t.len() > 0 && t[0] == 91
}

/// A bar-count setting: the trimmed line starts with `bars` and holds `=`.
pub open spec fn is_bars_setting(t: Seq<u8>) -> bool {
    &&& t.len() >= 4
    &&& t[0] == 98 && t[1] == 97 && t[2] == 114 && t[3] == 115
    &&& exists|p: int| 0 <= p < t.len() && t[p] == 61
}

/// The user lines kept by the configuration builder, threading the
/// skip-section state: an `[output]` header starts a dropped section, any
/// other header starts a kept one; inside a kept section, `bars =` settings
/// are dropped.
pub open spec fn filter_from(ls: Seq<Seq<u8>>, skip: bool) -> Seq<Seq<u8>>
    decreases ls.len(),
{
    if ls.len() == 0 {
        Seq::empty()
    } else {
        let l = ls.first();
        let t = trim(l);
        if is_header(t) {
            if t == lit_output_header() {
                filter_from(ls.drop_first(), true)
            } else {
                seq![l] + filter_from(ls.drop_first(), false)
            }
        } else if skip {
            filter_from(ls.drop_first(), true)
        } else if is_bars_setting(t) {
            filter_from(ls.drop_first(), false)
        } else {
            seq![l] + filter_from(ls.drop_first(), false)
        }
    }
}

/// Whether line `j`'s predecessors leave the builder inside an `[output]`
/// section.
pub open spec fn in_output_section(ls: Seq<Seq<u8>>, j: int) -> bool
    decreases j when 0 <= j <= ls.len()
{
    if j <= 0 {
        false
    } else {
        let t = trim(ls[j - 1]);
        if is_header(t) {
            t == lit_output_header()
        } else {
            in_output_section(ls, j - 1)
        }
    }
}

/// Whether the builder keeps line `j` of the user configuration.
pub open spec fn keeps(ls: Seq<Seq<u8>>, j: int) -> bool {
    let t = trim(ls[j]);
    if is_header(t) {
        t != lit_output_header()
    } else {
        !in_output_section(ls, j) && !is_bars_setting(t)
    }
}

/// The user lines at positions `j..` that the builder keeps.
pub open spec fn keep_filter(ls: Seq<Seq<u8>>, j: int) -> Seq<Seq<u8>>
    decreases ls.len() - j when 0 <= j <= ls.len()
{
    if j >= ls.len() {
        Seq::empty()
    } else if keeps(ls, j) {
        seq![ls[j]] + keep_filter(ls, j + 1)
    } else {
        keep_filter(ls, j + 1)
    }
}

/// The kept lines are exactly those outside any `[output]` section that are
/// neither the `[output]` header itself nor a `bars =` setting.
pub proof fn lemma_filter_keeps(ls: Seq<Seq<u8>>, j: int)
    requires
        0 <= j <= ls.len(),
    ensures
        filter_from(ls.skip(j), in_output_section(ls, j)) == keep_filter(ls, j),
    decreases ls.len() - j,
{
    if j < ls.len() {
        lemma_filter_keeps(ls, j + 1);
        let rest = ls.skip(j);
        assert(rest.first() == ls[j]);
        assert(rest.drop_first() =~= ls.skip(j + 1));
        let t = trim(ls[j]);
        if is_header(t) {
            assert(in_output_section(ls, j + 1) == (t == lit_output_header()));
        } else {
            assert(in_output_section(ls, j + 1) == in_output_section(ls, j));
        }
    } else {
        assert(ls.skip(j) =~= Seq::<Seq<u8>>::empty());
    }
}

/// The override block appended to every generated configuration, as lines.
pub open spec fn override_lines(n: int) -> Seq<Seq<u8>> {
    seq![
        Seq::<u8>::empty(),
        lit_general_header(),
        lit_bars_prefix() + dec_digits(n),
        Seq::<u8>::empty(),
        lit_output_header(),
        lit_method_line(),
        lit_raw_target_line(),
        lit_data_format_line(),
        lit_bit_format_line(),
        lit_channels_line(),
    ]
}

/// All lines of the generated configuration: the kept user lines followed by
/// the override block.
pub open spec fn config_lines(user: Seq<u8>, n: int) -> Seq<Seq<u8>> {
    filter_from(split_lines(user), false) + override_lines(n)
}

/// Lines joined with a line feed after each.
pub open spec fn join_nl(ls: Seq<Seq<u8>>) -> Seq<u8>
    decreases ls.len(),
{
    if ls.len() == 0 {
        Seq::empty()
    } else {
        join_nl(ls.drop_last()) + ls.last() + seq![10u8]
    }
}

/// Tests whether `t` holds an `=` byte.
fn contains_eq_byte(t: &Vec<u8>) -> (r: bool)
    ensures
        r == exists|p: int| 0 <= p < t@.len() && t@[p] == 61,
{
    let mut i: usize = 0;
    while i < t.len()
        invariant
            i <= t@.len(),
            forall|p: int| 0 <= p < i ==> t@[p] != 61,
        decreases t@.len() - i,
    {
        if t[i] == 61 {
            return true;
        }
        i = i + 1;
    }
    false
}

/// Applies the section filter to the user configuration's lines.
fn filter_user_lines(lines: &Vec<Vec<u8>>) -> (kept: Vec<Vec<u8>>)
    ensures
        views(kept@) == filter_from(views(lines@), false),
{
    let ghost all = views(lines@);
    let n = lines.len();
    let mut kept: Vec<Vec<u8>> = Vec::new();
    let mut skip = false;
    let mut i: usize = 0;
    assert(all.skip(0) =~= all);
    while i < n
        invariant
            i <= n,
            n == lines@.len(),
            all == views(lines@),
            views(kept@) + filter_from(all.skip(i as int), skip) =~= filter_from(all, false),
        decreases n - i,
    {
        let ghost kept_pre = kept@;
        let ghost rest = all.skip(i as int);
        proof {
            assert(rest.first() == lines@[i as int]@);
            assert(rest.drop_first() =~= all.skip(i + 1));
        }
        let line = &lines[i];
        let t = trimmed_range(line, 0, line.len());
        assert(line@.subrange(0, line@.len() as int) =~= line@);
        assert(t@ == trim(rest.first()));
        let mut keep_line = false;
        if t.len() > 0 && t[0] == 91 {
            let out_hdr = output_header_vec();
            let is_out = bytes_eq(&t, &out_hdr);
            skip = is_out;
            keep_line = !is_out;
        } else if skip {
            keep_line = false;
        } else if t.len() >= 4 && t[0] == 98 && t[1] == 97 && t[2] == 114 && t[3] == 115
            && contains_eq_byte(&t) {
            assert(is_bars_setting(trim(rest.first())));
            keep_line = false;
        } else {
            keep_line = true;
        }
        if keep_line {
            let copy = copy_range(line, 0, line.len());
            assert(copy@ =~= line@);
            kept.push(copy);
            proof {
                assert(kept@.drop_last() =~= kept_pre);
                assert forall|q: int| 0 <= q < kept@.len() implies views(kept@)[q] == (views(
                    kept_pre,
                ) + seq![rest.first()])[q] by {
                    if q < kept_pre.len() {
                        assert(kept@[q] == kept_pre[q]);
                    }
                }
                assert(views(kept@) =~= views(kept_pre) + seq![rest.first()]);
            }
        }
        i = i + 1;
    }
    assert(all.skip(n as int) =~= Seq::<Seq<u8>>::empty());
    assert(views(kept@) =~= views(kept@) + filter_from(all.skip(n as int), skip));
    kept
}

/// Builds the analyzer configuration handed to the spawned process: the
/// user's configuration with its `[output]` section and any `bars =` setting
/// dropped, followed by the override block that forces `num_bars` bars and
/// raw 8-bit mono binary output on standard output.
pub fn build_config(user: &Vec<u8>, num_bars: usize) -> (cfg: Vec<u8>)
    ensures
        cfg@ == join_nl(config_lines(user@, num_bars as int)),
{
    let lines = split_config_lines(user);
    let mut all: Vec<Vec<u8>> = filter_user_lines(&lines);
    let ghost filtered = views(all@);
    all.push(Vec::new());
    all.push(general_header_vec());
    let mut bars_line = bars_prefix_vec();
    let digits = format_dec(num_bars as u64);
    append_bytes(&mut bars_line, &digits);
    all.push(bars_line);
    all.push(Vec::new());
    all.push(output_header_vec());
    all.push(method_line_vec());
    all.push(raw_target_line_vec());
    all.push(data_format_line_vec());
    all.push(bit_format_line_vec());
    all.push(channels_line_vec());
    proof {
        let want = config_lines(user@, num_bars as int);
        assert forall|q: int| 0 <= q < all@.len() implies views(all@)[q] == want[q] by {
            if q < filtered.len() {
                assert(views(all@)[q] == all@[q]@);
                assert(filtered[q] == all@[q]@);
            }
        }
        assert(views(all@) =~= want);
    }
    let mut cfg: Vec<u8> = Vec::new();
    let mut i: usize = 0;
    while i < all.len()
        invariant
            i <= all@.len(),
            views(all@) == config_lines(user@, num_bars as int),
            cfg@ == join_nl(views(all@).take(i as int)),
        decreases all@.len() - i,
    {
        let ghost done = views(all@).take(i as int);
        append_bytes(&mut cfg, &all[i]);
        cfg.push(10);
        proof {
            let now = views(all@).take(i + 1);
            assert(now.drop_last() =~= done);
            assert(now.last() == all@[i as int]@);
            assert(cfg@ =~= join_nl(done) + all@[i as int]@ + seq![10u8]);
            assert(cfg@ =~= join_nl(now));
        }
        i = i + 1;
    }
    assert(views(all@).take(all@.len() as int) =~= views(all@));
    cfg
}

/// The digits of a decimal rendering.
pub proof fn lemma_dec_digits_are_digits(n: int)
    ensures
        dec_digits(n).len() > 0,
        forall|p: int| 0 <= p < dec_digits(n).len() ==> is_ascii_digit(#[trigger] dec_digits(n)[p]),
    decreases n,
{
    if n > 0 && n >= 10 {
        lemma_dec_digits_are_digits(n / 10);
        assert forall|p: int| 0 <= p < dec_digits(n).len() implies is_ascii_digit(
            #[trigger] dec_digits(n)[p],
        ) by {
            if p < dec_digits(n / 10).len() {
                assert(dec_digits(n)[p] == dec_digits(n / 10)[p]);
            }
        }
    }
}

/// A line with no ASCII whitespace at either end trims to itself.
proof fn lemma_trim_id(t: Seq<u8>)
    requires
        t.len() > 0,
        !is_ascii_space(t[0]),
        !is_ascii_space(t.last()),
    ensures
        trim(t) == t,
{
    assert(trim_start(t) == t);
    assert(trim_end(t) == t);
}

/// Every line the filter keeps trims to something other than the `[output]`
/// header.
pub proof fn lemma_filter_no_output_header(ls: Seq<Seq<u8>>, skip: bool)
    ensures
        forall|q: int|
            0 <= q < filter_from(ls, skip).len() ==> trim(#[trigger] filter_from(ls, skip)[q])
                != lit_output_header(),
    decreases ls.len(),
{
    if ls.len() > 0 {
        let l = ls.first();
        let t = trim(l);
        lemma_filter_no_output_header(ls.drop_first(), true);
        lemma_filter_no_output_header(ls.drop_first(), false);
        let res = filter_from(ls, skip);
        if is_header(t) && t == lit_output_header() {
            assert forall|q: int| 0 <= q < res.len() implies trim(#[trigger] res[q])
                != lit_output_header() by {
                assert(res[q] == filter_from(ls.drop_first(), true)[q]);
            }
        } else if !is_header(t) && skip {
            assert forall|q: int| 0 <= q < res.len() implies trim(#[trigger] res[q])
                != lit_output_header() by {
                assert(res[q] == filter_from(ls.drop_first(), true)[q]);
            }
        } else if !is_header(t) && is_bars_setting(t) {
            assert forall|q: int| 0 <= q < res.len() implies trim(#[trigger] res[q])
                != lit_output_header() by {
                assert(res[q] == filter_from(ls.drop_first(), false)[q]);
            }
        } else if is_header(t) && t != lit_output_header() {
            assert forall|q: int| 0 <= q < res.len() implies trim(#[trigger] res[q])
                != lit_output_header() by {
                if q == 0 {
                    assert(res[0] == l);
                } else {
                    assert(res[q] == filter_from(ls.drop_first(), false)[q - 1]);
                }
            }
        } else if !is_header(t) && !skip && !is_bars_setting(t) {
            assert(t != lit_output_header()) by {
                if t == lit_output_header() {
                    assert(is_header(t));
                }
            }
            assert forall|q: int| 0 <= q < res.len() implies trim(#[trigger] res[q])
                != lit_output_header() by {
                if q == 0 {
                    assert(res[0] == l);
                } else {
                    assert(res[q] == filter_from(ls.drop_first(), false)[q - 1]);
                }
            }
        }
    }
}


/// The generated configuration holds exactly one `[output]` section header:
/// the one of the appended override block, and the five lines after it are
/// exactly the forced raw-output settings.
pub proof fn lemma_one_output_section(user: Seq<u8>, n: int)
    ensures
        ({
            let cl = config_lines(user, n);
            let k: int = filter_from(split_lines(user), false).len() as int + 4;
            &&& cl.len() == k + 6
            &&& trim(cl[k]) == lit_output_header()
            &&& forall|q: int| 0 <= q < cl.len() && q != k ==> trim(#[trigger] cl[q]) != lit_output_header()
            &&& cl[k + 1] == lit_method_line()
            &&& cl[k + 2] == lit_raw_target_line()
            &&& cl[k + 3] == lit_data_format_line()
            &&& cl[k + 4] == lit_bit_format_line()
            &&& cl[k + 5] == lit_channels_line()
        }),
{
    let cl = config_lines(user, n);
    let fl = filter_from(split_lines(user), false);
    let k: int = fl.len() as int + 4;
    let ov = override_lines(n);
    lemma_filter_no_output_header(split_lines(user), false);
    lemma_trim_id(lit_output_header());
    lemma_trim_id(lit_general_header());
    lemma_trim_id(lit_method_line());
    lemma_trim_id(lit_raw_target_line());
    lemma_trim_id(lit_data_format_line());
    lemma_trim_id(lit_bit_format_line());
    lemma_trim_id(lit_channels_line());
    lemma_dec_digits_are_digits(n);
    let bars_line = lit_bars_prefix() + dec_digits(n);
    assert(bars_line[0] == 98);
    assert(bars_line.last() == dec_digits(n).last());
    assert(is_ascii_digit(dec_digits(n).last()));
    lemma_trim_id(bars_line);
    assert(trim(Seq::<u8>::empty()) == Seq::<u8>::empty());
    assert forall|q: int| 0 <= q < cl.len() && q != k implies trim(#[trigger] cl[q])
        != lit_output_header() by {
        if q < fl.len() {
            assert(cl[q] == fl[q]);
        } else {
            assert(cl[q] == ov[q - fl.len()]);
        }
    }
    assert(cl[k] == ov[4]);
}


} // verus!
