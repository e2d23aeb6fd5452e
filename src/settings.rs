use vstd::prelude::*;
use vstd::string::StringSliceAdditionalSpecFns;

use crate::color::{Attribute, Fraction};
use crate::engine::SortSettings;
use crate::grid::SortDirection;

verus! {

/// A settings file, read: seven lines, each holding one value and an
/// optional `//` comment.
pub struct Settings {
    /// The directory that holds the images, as written (lower-cased).
    pub input_path: Vec<u8>,
    pub sort: SortSettings,
    pub debug: bool,
}

/// Why a settings file was refused; each names the first line found wrong.
#[derive(Clone, Copy, Debug, PartialEq, Eq, Structural)]
pub enum SettingsError {
    LineCount,
    Direction,
    SortBy,
    LowerBound,
    UpperBound,
    ContrastType,
    Debug,
}

/// The text split at every newline: one more piece than there are newlines.
pub open spec fn pieces(t: Seq<u8>) -> Seq<Seq<u8>>
    decreases t.len(),
{
    if t.len() == 0 {
        seq![Seq::<u8>::empty()]
    } else {
        let p = pieces(t.drop_last());
        if t.last() == 10 {
            p.push(Seq::<u8>::empty())
        } else {
            p.update(p.len() - 1, p.last().push(t.last()))
        }
    }
}

/// The lines of a text: its pieces, without the empty one that follows a
/// final newline.
pub open spec fn text_lines(t: Seq<u8>) -> Seq<Seq<u8>> {
    if t.len() == 0 || t.last() == 10 {
        pieces(t).drop_last()
    } else {
        pieces(t)
    }
}

pub open spec fn is_space(b: u8) -> bool {
    b == 32 || (9 <= b && b <= 13)
}

pub open spec fn to_lower(b: u8) -> u8 {
    if 65 <= b && b <= 90 {
        (b + 32) as u8
    } else {
        b
    }
}

/// Where the first `//` at or after `i` starts, or the length of `l`.
pub open spec fn comment_from(l: Seq<u8>, i: int) -> int
    decreases l.len() - i,
{
    if i < 0 || i + 1 >= l.len() {
        l.len() as int
    } else if l[i] == 47 && l[i + 1] == 47 {
        i
    } else {
        comment_from(l, i + 1)
    }
}

/// The first index in `[i, e)` that holds no white space, or `e`.
pub open spec fn skip_space(l: Seq<u8>, i: int, e: int) -> int
    decreases e - i,
{
    if i >= e {
        e
    } else if is_space(l[i]) {
        skip_space(l, i + 1, e)
    } else {
        i
    }
}

/// The end of `[s, j)` once white space at its end is dropped.
pub open spec fn back_space(l: Seq<u8>, s: int, j: int) -> int
    decreases j - s,
{
    if j <= s {
        s
    } else if is_space(l[j - 1]) {
        back_space(l, s, j - 1)
    } else {
        j
    }
}

/// The value of a line: what stands before its first `//`, trimmed of white
/// space and lower-cased.
pub open spec fn clean(l: Seq<u8>) -> Seq<u8> {
    let e0 = comment_from(l, 0);
    let s = skip_space(l, 0, e0);
    let e = back_space(l, s, e0);
    l.subrange(s, e).map_values(|b: u8| to_lower(b))
}

/// The values of the lines of a settings text.
pub open spec fn setting_lines(t: Seq<u8>) -> Seq<Seq<u8>> {
    cleaned(text_lines(t))
}

pub open spec fn cleaned(ls: Seq<Seq<u8>>) -> Seq<Seq<u8>> {
    Seq::new(ls.len(), |i: int| clean(ls[i]))
}

/// What a sequence of byte vectors holds.
pub open spec fn views(r: Seq<Vec<u8>>) -> Seq<Seq<u8>> {
    Seq::new(r.len(), |i: int| r[i]@)
}

fn byte_is_space(b: u8) -> (r: bool)
    ensures
        r == is_space(b),
{
    b == 32 || (9 <= b && b <= 13)
}

fn byte_to_lower(b: u8) -> (r: u8)
    ensures
        r == to_lower(b),
{
    if 65 <= b && b <= 90 {
        b + 32
    } else {
        b
    }
}

/// The value of the line `t[start..end]`.
fn clean_line(t: &[u8], start: usize, end: usize) -> (r: Vec<u8>)
    requires
        start <= end <= t@.len(),
    ensures
        r@ == clean(t@.subrange(start as int, end as int)),
{
    let ghost l = t@.subrange(start as int, end as int);
    let n = end - start;
    let mut i: usize = 0;
    while i < n && i + 1 < n && !(t[start + i] == 47 && t[start + i + 1] == 47)
        invariant
            l == t@.subrange(start as int, end as int),
            start <= end <= t@.len(),
            n == end - start,
            i <= n,
            comment_from(l, 0) == comment_from(l, i as int),
        decreases n - i,
    {
        i += 1;
    }
    let e0: usize = if i < n && i + 1 < n {
        i
    } else {
        n
    };
    let mut s: usize = 0;
    while s < e0 && byte_is_space(t[start + s])
        invariant
            l == t@.subrange(start as int, end as int),
            start <= end <= t@.len(),
            e0 <= n == end - start,
            e0 == comment_from(l, 0),
            s <= e0,
            skip_space(l, 0, e0 as int) == skip_space(l, s as int, e0 as int),
        decreases e0 - s,
    {
        s += 1;
    }
    let mut e: usize = e0;
    while e > s && byte_is_space(t[start + e - 1])
        invariant
            l == t@.subrange(start as int, end as int),
            start <= end <= t@.len(),
            e0 <= n == end - start,
            e0 == comment_from(l, 0),
            s == skip_space(l, 0, e0 as int),
            s <= e <= e0,
            back_space(l, s as int, e0 as int) == back_space(l, s as int, e as int),
        decreases e,
    {
        e -= 1;
    }
    let mut r: Vec<u8> = Vec::with_capacity(e - s);
    let mut k: usize = s;
    while k < e
        invariant
            l == t@.subrange(start as int, end as int),
            start <= end <= t@.len(),
            s <= k <= e <= n == end - start,
            r@ == l.subrange(s as int, k as int).map_values(|b: u8| to_lower(b)),
        decreases e - k,
    {
        r.push(byte_to_lower(t[start + k]));
        k += 1;
        assert(r@ =~= l.subrange(s as int, k as int).map_values(|b: u8| to_lower(b)));
    }
    r
}

proof fn lemma_push_line(r: Seq<Vec<u8>>, done: Seq<Seq<u8>>, line: Vec<u8>, piece: Seq<u8>)
    requires
        views(r) == cleaned(done),
        line@ == clean(piece),
    ensures
        views(r.push(line)) == cleaned(done.push(piece)),
{
    assert(views(r).len() == r.len());
    assert(cleaned(done).len() == done.len());
    assert(r.len() == done.len());
    let a = views(r.push(line));
    let b = cleaned(done.push(piece));
    assert forall|k: int| 0 <= k < r.len() + 1 implies #[trigger] a[k] == b[k] by {
        if k < r.len() {
            assert(views(r)[k] == cleaned(done)[k]);
        }
    }
    assert(a =~= b);
}

proof fn lemma_pieces_step(t: Seq<u8>, done: Seq<Seq<u8>>, start: int, i: int)
    requires
        0 <= start <= i < t.len(),
        pieces(t.take(i)) == done.push(t.subrange(start, i)),
    ensures
        t[i] == 10 ==> pieces(t.take(i + 1)) == done.push(t.subrange(start, i)).push(t.subrange(i + 1, i + 1)),
        t[i] != 10 ==> pieces(t.take(i + 1)) == done.push(t.subrange(start, i + 1)),
{
    assert(t.take(i + 1).drop_last() =~= t.take(i));
    if t[i] == 10 {
        assert(t.subrange(i + 1, i + 1) =~= Seq::<u8>::empty());
    } else {
        assert(t.subrange(start, i + 1) =~= t.subrange(start, i).push(t[i]));
        assert(pieces(t.take(i + 1)) =~= done.push(t.subrange(start, i + 1)));
    }
}

/// The values of the lines of a settings text.
pub fn setting_values(t: &[u8]) -> (r: Vec<Vec<u8>>)
    ensures
        views(r@) == setting_lines(t@),
{
    let n = t.len();
    let mut r: Vec<Vec<u8>> = Vec::new();
    let ghost mut done: Seq<Seq<u8>> = Seq::empty();
    let mut start: usize = 0;
    let mut i: usize = 0;
    assert(t@.take(0) =~= Seq::<u8>::empty());
    assert(done.push(t@.subrange(0, 0)) =~= seq![Seq::<u8>::empty()]);
    assert(views(r@) =~= cleaned(done));
    while i < n
        invariant
            n == t@.len(),
            start <= i <= n,
            pieces(t@.take(i as int)) == done.push(t@.subrange(start as int, i as int)),
            views(r@) == cleaned(done),
            start == 0 || t@[start - 1] == 10,
            forall|k: int| start <= k < i ==> t@[k] != 10,
        decreases n - i,
    {
        proof {
            lemma_pieces_step(t@, done, start as int, i as int);
        }
        if t[i] == 10 {
            let line = clean_line(t, start, i);
            proof {
                lemma_push_line(r@, done, line, t@.subrange(start as int, i as int));
                done = done.push(t@.subrange(start as int, i as int));
            }
            r.push(line);
            start = i + 1;
        }
        i += 1;
    }
    assert(t@.take(n as int) =~= t@);
    if start < n {
        let line = clean_line(t, start, n);
        proof {
            lemma_push_line(r@, done, line, t@.subrange(start as int, n as int));
            done = done.push(t@.subrange(start as int, n as int));
        }
        r.push(line);
    } else {
        assert(pieces(t@).drop_last() =~= done);
    }
    r
}

pub open spec fn direction_word(w: Seq<u8>) -> Option<SortDirection> {
    if w == seq![108u8, 101, 102, 116] {
        Some(SortDirection::Left)
    } else if w == seq![114u8, 105, 103, 104, 116] {
        Some(SortDirection::Right)
    } else if w == seq![100u8, 111, 119, 110] {
        Some(SortDirection::Down)
    } else if w == seq![117u8, 112] {
        Some(SortDirection::Up)
    } else {
        None
    }
}

fn bytes_equal(a: &Vec<u8>, b: &[u8]) -> (r: bool)
    ensures
        r == (a@ == b@),
{
    if a.len() != b.len() {
        return false;
    }
    let mut i: usize = 0;
    while i < a.len()
        invariant
            a@.len() == b@.len(),
            i <= a@.len(),
            forall|k: int| 0 <= k < i ==> a@[k] == b@[k],
        decreases a.len() - i,
    {
        if a[i] != b[i] {
            return false;
        }
        i += 1;
    }
    assert(a@ =~= b@);
    true
}

/// The direction that a settings value names.
pub fn direction_of(w: &Vec<u8>) -> (r: Option<SortDirection>)
    ensures
        r == direction_word(w@),
{
    let left: [u8; 4] = [108, 101, 102, 116];
    let right: [u8; 5] = [114, 105, 103, 104, 116];
    let down: [u8; 4] = [100, 111, 119, 110];
    let up: [u8; 2] = [117, 112];
    assert(left@ =~= seq![108u8, 101, 102, 116]);
    assert(right@ =~= seq![114u8, 105, 103, 104, 116]);
    assert(down@ =~= seq![100u8, 111, 119, 110]);
    assert(up@ =~= seq![117u8, 112]);
    if bytes_equal(w, &left) {
        Some(SortDirection::Left)
    } else if bytes_equal(w, &right) {
        Some(SortDirection::Right)
    } else if bytes_equal(w, &down) {
        Some(SortDirection::Down)
    } else if bytes_equal(w, &up) {
        Some(SortDirection::Up)
    } else {
        None
    }
}

pub open spec fn attribute_word(w: Seq<u8>) -> Option<Attribute> {
    if w == seq![114u8, 101, 100] {
        Some(Attribute::Red)
    } else if w == seq![103u8, 114, 101, 101, 110] {
        Some(Attribute::Green)
    } else if w == seq![98u8, 108, 117, 101] {
        Some(Attribute::Blue)
    } else if w == seq![104u8, 117, 101] {
        Some(Attribute::Hue)
    } else if w == seq![115u8, 97, 116, 117, 114, 97, 116, 105, 111, 110] {
        Some(Attribute::Saturation)
    } else if w == seq![118u8, 97, 108, 117, 101] {
        Some(Attribute::Value)
    } else {
        None
    }
}

/// The attribute that a settings value names.
pub fn attribute_of(w: &Vec<u8>) -> (r: Option<Attribute>)
    ensures
        r == attribute_word(w@),
{
    let red: [u8; 3] = [114, 101, 100];
    let green: [u8; 5] = [103, 114, 101, 101, 110];
    let blue: [u8; 4] = [98, 108, 117, 101];
    let hue: [u8; 3] = [104, 117, 101];
    let saturation: [u8; 10] = [115, 97, 116, 117, 114, 97, 116, 105, 111, 110];
    let value: [u8; 5] = [118, 97, 108, 117, 101];
    assert(red@ =~= seq![114u8, 101, 100]);
    assert(green@ =~= seq![103u8, 114, 101, 101, 110]);
    assert(blue@ =~= seq![98u8, 108, 117, 101]);
    assert(hue@ =~= seq![104u8, 117, 101]);
    assert(saturation@ =~= seq![115u8, 97, 116, 117, 114, 97, 116, 105, 111, 110]);
    assert(value@ =~= seq![118u8, 97, 108, 117, 101]);
    if bytes_equal(w, &red) {
        Some(Attribute::Red)
    } else if bytes_equal(w, &green) {
        Some(Attribute::Green)
    } else if bytes_equal(w, &blue) {
        Some(Attribute::Blue)
    } else if bytes_equal(w, &hue) {
        Some(Attribute::Hue)
    } else if bytes_equal(w, &saturation) {
        Some(Attribute::Saturation)
    } else if bytes_equal(w, &value) {
        Some(Attribute::Value)
    } else {
        None
    }
}

pub open spec fn bool_word(w: Seq<u8>) -> Option<bool> {
    if w == seq![116u8, 114, 117, 101] {
        Some(true)
    } else if w == seq![102u8, 97, 108, 115, 101] {
        Some(false)
    } else {
        None
    }
}

/// The flag that a settings value names.
pub fn bool_of(w: &Vec<u8>) -> (r: Option<bool>)
    ensures
        r == bool_word(w@),
{
    let yes: [u8; 4] = [116, 114, 117, 101];
    let no: [u8; 5] = [102, 97, 108, 115, 101];
    assert(yes@ =~= seq![116u8, 114, 117, 101]);
    assert(no@ =~= seq![102u8, 97, 108, 115, 101]);
    if bytes_equal(w, &yes) {
        Some(true)
    } else if bytes_equal(w, &no) {
        Some(false)
    } else {
        None
    }
}

pub open spec fn is_digit(b: u8) -> bool {
    48 <= b && b <= 57
}

pub open spec fn all_digits(s: Seq<u8>) -> bool {
    forall|i: int| 0 <= i < s.len() ==> is_digit(#[trigger] s[i])
}

/// The number that the decimal digits `s` write.
pub open spec fn digits_value(s: Seq<u8>) -> int
    decreases s.len(),
{
    if s.len() == 0 {
        0
    } else {
        digits_value(s.drop_last()) * 10 + (s.last() - 48)
    }
}

pub open spec fn pow10(k: nat) -> int
    decreases k,
{
    if k == 0 {
        1
    } else {
        10 * pow10((k - 1) as nat)
    }
}

/// The first `.` at or after `i`, or the length of `w`.
pub open spec fn dot_from(w: Seq<u8>, i: int) -> int
    decreases w.len() - i,
{
    if i >= w.len() {
        w.len() as int
    } else if w[i] == 46 {
        i
    } else {
        dot_from(w, i + 1)
    }
}

/// The most decimal places a bound may have.
pub const MAX_PLACES: usize = 9;

/// A bound of the contrast band: an optional `+`, decimal digits, and an
/// optional `.` followed by at most nine more digits, with at least one digit
/// in all, writing a number in [0, 1]. Gives (numerator, 10 ^ places).
pub open spec fn unit_decimal(w: Seq<u8>) -> Option<(int, int)> {
    let off: int = if w.len() > 0 && w[0] == 43 { 1 } else { 0 };
    let dot = dot_from(w, off);
    let whole = w.subrange(off, dot);
    let frac = if dot < w.len() { w.subrange(dot + 1, w.len() as int) } else { Seq::<u8>::empty() };
    let den = pow10(frac.len());
    let num = digits_value(whole) * den + digits_value(frac);
    if all_digits(whole) && all_digits(frac) && whole.len() + frac.len() > 0 && frac.len() <= MAX_PLACES && num
        <= den {
        Some((num, den))
    } else {
        None
    }
}

/// The first thing wrong with the values of a settings file, if any.
pub open spec fn settings_error(ls: Seq<Seq<u8>>) -> Option<SettingsError> {
    if ls.len() != 7 {
        Some(SettingsError::LineCount)
    } else if direction_word(ls[1]) is None {
        Some(SettingsError::Direction)
    } else if attribute_word(ls[2]) is None {
        Some(SettingsError::SortBy)
    } else if unit_decimal(ls[3]) is None {
        Some(SettingsError::LowerBound)
    } else if unit_decimal(ls[4]) is None {
        Some(SettingsError::UpperBound)
    } else if attribute_word(ls[5]) is None {
        Some(SettingsError::ContrastType)
    } else if bool_word(ls[6]) is None {
        Some(SettingsError::Debug)
    } else {
        None
    }
}

proof fn lemma_pow10_small(k: nat)
    requires
        k <= 9,
    ensures
        1 <= pow10(k) <= 1_000_000_000,
{
    reveal_with_fuel(pow10, 10);
    assert(k == 0 || k == 1 || k == 2 || k == 3 || k == 4 || k == 5 || k == 6 || k == 7 || k == 8 || k == 9);
}

/// Reads a bound of the contrast band, exactly.
pub fn unit_fraction_of(w: &Vec<u8>) -> (r: Option<Fraction>)
    ensures
        match r {
            Some(f) => unit_decimal(w@) == Some(f.pair()) && f.wf(),
            None => unit_decimal(w@) is None,
        },
{
    let n = w.len();
    let off: usize = if n > 0 && w[0] == 43 {
        1
    } else {
        0
    };
    let mut dot: usize = off;
    while dot < n && w[dot] != 46
        invariant
            off <= dot <= n == w@.len(),
            dot_from(w@, off as int) == dot_from(w@, dot as int),
        decreases n - dot,
    {
        dot += 1;
    }
    assert(dot == dot_from(w@, off as int));
    let ghost whole_s = w@.subrange(off as int, dot as int);
    // The whole part, held as min(value, 2): anything above 1 is refused.
    let mut whole: u64 = 0;
    let mut i: usize = off;
    while i < dot
        invariant
            off <= i <= dot <= n == w@.len(),
            whole_s == w@.subrange(off as int, dot as int),
            off == (if n > 0 && w@[0] == 43 { 1usize } else { 0 }),
            dot == dot_from(w@, off as int),
            all_digits(w@.subrange(off as int, i as int)),
            digits_value(w@.subrange(off as int, i as int)) >= 0,
            whole as int == if digits_value(w@.subrange(off as int, i as int)) < 2 {
                digits_value(w@.subrange(off as int, i as int))
            } else {
                2
            },
        decreases dot - i,
    {
        let b = w[i];
        if !(48 <= b && b <= 57) {
            assert(!is_digit(whole_s[i - off]));
            return None;
        }
        assert(w@.subrange(off as int, i + 1).drop_last() =~= w@.subrange(off as int, i as int));
        let d = (b - 48) as u64;
        whole = if whole * 10 + d >= 2 {
            2
        } else {
            whole * 10 + d
        };
        i += 1;
    }
    assert(w@.subrange(off as int, i as int) =~= whole_s);
    let fstart: usize = if dot < n {
        dot + 1
    } else {
        n
    };
    let ghost frac_s = if dot < n {
        w@.subrange(dot + 1, n as int)
    } else {
        Seq::<u8>::empty()
    };
    assert(frac_s =~= w@.subrange(fstart as int, n as int));
    if n - fstart > MAX_PLACES {
        return None;
    }
    let mut frac: u64 = 0;
    let mut den: u64 = 1;
    let mut j: usize = fstart;
    while j < n
        invariant
            fstart <= j <= n == w@.len(),
            frac_s == w@.subrange(fstart as int, n as int),
            off <= dot <= n,
            off == (if n > 0 && w@[0] == 43 { 1usize } else { 0 }),
            dot == dot_from(w@, off as int),
            fstart == (if dot < n { dot + 1 } else { n as int }),
            all_digits(whole_s),
            digits_value(whole_s) >= 0,
            whole as int == if digits_value(whole_s) < 2 { digits_value(whole_s) } else { 2 },
            n - fstart <= MAX_PLACES,
            all_digits(w@.subrange(fstart as int, j as int)),
            frac as int == digits_value(w@.subrange(fstart as int, j as int)),
            den as int == pow10((j - fstart) as nat),
            frac < den,
            den <= 1_000_000_000,
        decreases n - j,
    {
        let b = w[j];
        if !(48 <= b && b <= 57) {
            assert(!is_digit(frac_s[j - fstart]));
            return None;
        }
        assert(w@.subrange(fstart as int, j + 1).drop_last() =~= w@.subrange(fstart as int, j as int));
        proof {
            lemma_pow10_small((j + 1 - fstart) as nat);
        }
        frac = frac * 10 + (b - 48) as u64;
        den = den * 10;
        j += 1;
    }
    assert(w@.subrange(fstart as int, j as int) =~= frac_s);
    assert(w@.subrange(off as int, dot as int) =~= whole_s);
    if (dot - off) + (n - fstart) == 0 {
        return None;
    }
    let ghost wv = digits_value(whole_s);
    assert(wv >= 2 ==> wv * den >= 2 * den) by (nonlinear_arith)
        requires
            den >= 1,
    ;
    assert(wv < 2 ==> wv == 0 || wv == 1);
    assert(whole * den <= 2 * 1_000_000_000) by (nonlinear_arith)
        requires
            whole <= 2,
            den <= 1_000_000_000,
    ;
    if whole * den + frac <= den {
        assert(wv * den == whole * den) by (nonlinear_arith)
            requires
                wv == whole,
        ;
        Some(Fraction { num: (whole * den + frac) as u32, den: den as u32 })
    } else {
        None
    }
}

/// Reads a settings file: seven lines, giving in turn the input directory,
/// the direction, the sort attribute, the lower and upper bounds of the
/// contrast band, the contrast attribute, and the debug flag.
pub fn parse_settings(text: &str) -> (r: Result<Settings, SettingsError>)
    ensures
        match r {
            Ok(s) => {
                let ls = setting_lines(text.spec_bytes());
                &&& settings_error(ls) is None
                &&& s.input_path@ == ls[0]
                &&& direction_word(ls[1]) == Some(s.sort.direction)
                &&& attribute_word(ls[2]) == Some(s.sort.sort_by)
                &&& unit_decimal(ls[3]) == Some(s.sort.lower.pair())
                &&& unit_decimal(ls[4]) == Some(s.sort.upper.pair())
                &&& attribute_word(ls[5]) == Some(s.sort.contrast_type)
                &&& bool_word(ls[6]) == Some(s.debug)
                &&& s.sort.wf()
            },
            Err(e) => settings_error(setting_lines(text.spec_bytes())) == Some(e),
        },
{
    let bytes = text.as_bytes();
    let mut lines = setting_values(bytes);
    let ghost ls = setting_lines(text.spec_bytes());
    assert(views(lines@).len() == lines@.len());
    if lines.len() != 7 {
        return Err(SettingsError::LineCount);
    }
    assert(forall|k: int| 0 <= k < 7 ==> views(lines@)[k] == lines@[k]@);
    let direction = match direction_of(&lines[1]) {
        Some(d) => d,
        None => return Err(SettingsError::Direction),
    };
    let sort_by = match attribute_of(&lines[2]) {
        Some(a) => a,
        None => return Err(SettingsError::SortBy),
    };
    let lower = match unit_fraction_of(&lines[3]) {
        Some(f) => f,
        None => return Err(SettingsError::LowerBound),
    };
    let upper = match unit_fraction_of(&lines[4]) {
        Some(f) => f,
        None => return Err(SettingsError::UpperBound),
    };
    let contrast_type = match attribute_of(&lines[5]) {
        Some(a) => a,
        None => return Err(SettingsError::ContrastType),
    };
    let debug = match bool_of(&lines[6]) {
        Some(b) => b,
        None => return Err(SettingsError::Debug),
    };
    let input_path = lines.swap_remove(0);
    Ok(Settings { input_path, sort: SortSettings { direction, sort_by, contrast_type, lower, upper }, debug })
}

} // verus!
