//! Splitting a filename into a stem, an optional zero-padded collision
//! counter, and an optional extension, and merging the parts back into a
//! filename string.

use vstd::prelude::*;
use vstd::string::StrSliceExecFns;
use vstd::string::StringExecFns;

verus! {

/// A decimal digit character.
pub open spec fn is_digit_char(c: char) -> bool {
    '0' as u32 <= c as u32 && c as u32 <= '9' as u32
}

/// The numeric value of a decimal digit character.
pub open spec fn digit_val(c: char) -> nat {
    (c as u32 - '0' as u32) as nat
}

/// The character for a decimal digit value.
pub open spec fn char_of_digit(d: nat) -> char {
    (d + '0' as u32) as char
}

/// The decimal digit string of `n`, without padding.
pub open spec fn dec_digits(n: nat) -> Seq<char>
    decreases n,
{
    if n < 10 {
        seq![char_of_digit(n)]
    } else {
        dec_digits(n / 10).push(char_of_digit(n % 10))
    }
}

/// The decimal digit string of `n`, zero-padded to at least three digits.
/// Three digits is a minimum, not a cap: larger values keep their full width.
pub open spec fn padded_num(n: nat) -> Seq<char> {
    if n < 10 {
        seq!['0', '0'] + dec_digits(n)
    } else if n < 100 {
        seq!['0'] + dec_digits(n)
    } else {
        dec_digits(n)
    }
}

/// The filename string formed from decomposed parts: the stem, then `_` and
/// the padded counter when present, then `.` and the extension when present.
pub open spec fn merged_view(stem: Seq<char>, num: Option<usize>, ext: Option<Seq<char>>) -> Seq<
    char,
> {
    let num_part = match num {
        Some(n) => seq!['_'] + padded_num(n as nat),
        None => Seq::<char>::empty(),
    };
    let ext_part = match ext {
        Some(e) => seq!['.'] + e,
        None => Seq::<char>::empty(),
    };
    stem + num_part + ext_part
}

/// The index of the last `.` in `s`, or `-1` when `s` has none.
pub open spec fn last_dot_idx(s: Seq<char>) -> int
    decreases s.len(),
{
    if s.len() == 0 {
        -1
    } else if s[s.len() - 1] == '.' {
        s.len() - 1
    } else {
        last_dot_idx(s.drop_last())
    }
}

/// Everything before the last `.`, or the whole string when there is no `.`.
pub open spec fn stem_num_region(s: Seq<char>) -> Seq<char> {
    if last_dot_idx(s) >= 0 {
        s.take(last_dot_idx(s))
    } else {
        s
    }
}

/// Everything after the last `.`, or `None` when there is no `.` at all.
pub open spec fn ext_view(s: Seq<char>) -> Option<Seq<char>> {
    if last_dot_idx(s) >= 0 {
        Some(s.skip(last_dot_idx(s) + 1))
    } else {
        None
    }
}

/// Whether the stem-counter region ends in `_` followed by exactly three
/// decimal digits.
pub open spec fn region_has_num(t: Seq<char>) -> bool {
    &&& t.len() >= 4
    &&& t[t.len() - 4] == '_'
    &&& is_digit_char(t[t.len() - 3])
    &&& is_digit_char(t[t.len() - 2])
    &&& is_digit_char(t[t.len() - 1])
}

/// The value of the three trailing counter digits of the region.
pub open spec fn region_num(t: Seq<char>) -> nat {
    digit_val(t[t.len() - 3]) * 100 + digit_val(t[t.len() - 2]) * 10 + digit_val(t[t.len() - 1])
}

/// The stem of a filename: the stem-counter region without the counter.
pub open spec fn stem_view(s: Seq<char>) -> Seq<char> {
    let t = stem_num_region(s);
    if region_has_num(t) {
        t.take(t.len() - 4)
    } else {
        t
    }
}

/// The counter of a filename, when its region carries one.
pub open spec fn num_view(s: Seq<char>) -> Option<usize> {
    let t = stem_num_region(s);
    if region_has_num(t) {
        Some(region_num(t) as usize)
    } else {
        None
    }
}

/// The view of an optional owned string.
pub open spec fn opt_str_view(o: Option<String>) -> Option<Seq<char>> {
    match o {
        Some(s) => Some(s@),
        None => None,
    }
}

/// A filename decomposed so that it can be split, modified, and merged back
/// into a filename string.
#[derive(PartialEq, Eq, Debug)]
pub struct FilenameParts {
    /// Everything before the counter and the extension.
    pub stem: String,
    /// The zero-padded collision-resolving counter.
    pub num: Option<usize>,
    /// The extension, not including its leading dot. An empty extension is
    /// distinct from an absent one: `"a."` has `Some("")`, `"a"` has `None`.
    pub ext: Option<String>,
}

impl FilenameParts {
    /// Merge the parts back into a filename string.
    pub fn merge(&self) -> (r: String)
        ensures
            r@ == merged_view(self.stem@, self.num, opt_str_view(self.ext)),
    {
        let mut r = self.stem.clone();
        match self.num {
            Some(n) => {
                r.append("_");
                append_padded_num(&mut r, n);
                proof {
                    reveal_strlit("_");
                    assert(("_")@ =~= seq!['_']);
                }
            },
            None => {},
        }
        match &self.ext {
            Some(e) => {
                r.append(".");
                r.append(e.as_str());
                proof {
                    reveal_strlit(".");
                    assert((".")@ =~= seq!['.']);
                }
            },
            None => {},
        }
        proof {
            assert(r@ =~= merged_view(self.stem@, self.num, opt_str_view(self.ext)));
        }
        r
    }

    /// Decompose a non-empty filename string: split at the last `.` into the
    /// stem-counter region and the extension, then strip a trailing `_` plus
    /// three decimal digits from the region as the counter when present.
    pub fn from_filename(filename: &str) -> (r: FilenameParts)
        requires
            filename@.len() > 0,
        ensures
            r.stem@ == stem_view(filename@),
            r.num == num_view(filename@),
            opt_str_view(r.ext) == ext_view(filename@),
    {
        proof {
            lemma_last_dot_bounds(filename@);
        }
        let n = filename.unicode_len();
        let mut i = n;
        let mut dot = n;  // `n` stands for "no dot found yet"
        while i > 0 && dot == n
            invariant
                i <= n,
                dot <= n,
                n == filename@.len(),
                dot == n ==> forall|k: int| i <= k < n ==> filename@[k] != '.',
                dot < n ==> filename@[dot as int] == '.',
                dot < n ==> forall|k: int| dot < k < n ==> filename@[k] != '.',
            decreases (if dot == n { 1int } else { 0int }), i,
        {
            let c = filename.get_char(i - 1);
            if c == '.' {
                dot = i - 1;
            } else {
                i = i - 1;
            }
        }
        proof {
            if dot == n {
                lemma_last_dot_none(filename@);
            } else {
                lemma_last_dot_at(filename@, dot as int);
            }
        }
        let (region, ext): (&str, Option<String>) = if dot < n {
            (filename.substring_char(0, dot), Some(filename.substring_char(dot + 1, n).to_owned()))
        } else {
            (filename, None)
        };
        let rl = region.unicode_len();
        let has_num = rl >= 4 && region.get_char(rl - 4) == '_' && is_digit(
            region.get_char(rl - 3),
        ) && is_digit(region.get_char(rl - 2)) && is_digit(region.get_char(rl - 1));
        let (stem, num): (String, Option<usize>) = if has_num {
            let v = digit_value(region.get_char(rl - 3)) * 100 + digit_value(
                region.get_char(rl - 2),
            ) * 10 + digit_value(region.get_char(rl - 1));
            (region.substring_char(0, rl - 4).to_owned(), Some(v))
        } else {
            (region.to_owned(), None)
        };
        FilenameParts { stem, num, ext }
    }
}

/// Whether `c` is a decimal digit.
pub fn is_digit(c: char) -> (r: bool)
    ensures
        r == is_digit_char(c),
{
    c as u32 >= '0' as u32 && c as u32 <= '9' as u32
}

/// The numeric value of a decimal digit character.
fn digit_value(c: char) -> (r: usize)
    requires
        is_digit_char(c),
    ensures
        r == digit_val(c),
        r <= 9,
{
    (c as u32 - '0' as u32) as usize
}

/// The string of a single decimal digit.
fn digit_str(d: usize) -> (s: &'static str)
    requires
        d < 10,
    ensures
        s@ == seq![char_of_digit(d as nat)],
{
    proof {
        reveal_strlit("0");
        reveal_strlit("1");
        reveal_strlit("2");
        reveal_strlit("3");
        reveal_strlit("4");
        reveal_strlit("5");
        reveal_strlit("6");
        reveal_strlit("7");
        reveal_strlit("8");
        reveal_strlit("9");
    }
    let s: &'static str = if d == 0 {
        "0"
    } else if d == 1 {
        "1"
    } else if d == 2 {
        "2"
    } else if d == 3 {
        "3"
    } else if d == 4 {
        "4"
    } else if d == 5 {
        "5"
    } else if d == 6 {
        "6"
    } else if d == 7 {
        "7"
    } else if d == 8 {
        "8"
    } else {
        "9"
    };
    proof {
        assert(s@ =~= seq![char_of_digit(d as nat)]);
    }
    s
}

/// Append the unpadded decimal digits of `n` to `r`.
fn append_dec_digits(r: &mut String, n: usize)
    ensures
        final(r)@ == old(r)@ + dec_digits(n as nat),
    decreases n,
{
    if n >= 10 {
        append_dec_digits(r, n / 10);
    }
    r.append(digit_str(n % 10));
    proof {
        assert(r@ =~= old(r)@ + dec_digits(n as nat));
    }
}

/// Append the zero-padded decimal digits of `n` to `r`.
fn append_padded_num(r: &mut String, n: usize)
    ensures
        final(r)@ == old(r)@ + padded_num(n as nat),
{
    proof {
        reveal_strlit("0");
        assert(("0")@ =~= seq!['0']);
    }
    if n < 10 {
        r.append("0");
        r.append("0");
    } else if n < 100 {
        r.append("0");
    }
    append_dec_digits(r, n);
    proof {
        assert(r@ =~= old(r)@ + padded_num(n as nat));
    }
}

/// Basic bounds of `last_dot_idx`: it is at least `-1` and below the length,
/// it points at a dot when non-negative, and nothing after it is a dot.
pub proof fn lemma_last_dot_bounds(s: Seq<char>)
    ensures
        -1 <= last_dot_idx(s) < s.len(),
        last_dot_idx(s) >= 0 ==> s[last_dot_idx(s)] == '.',
        forall|k: int| last_dot_idx(s) < k < s.len() ==> s[k] != '.',
    decreases s.len(),
{
    if s.len() > 0 && s[s.len() - 1] != '.' {
        lemma_last_dot_bounds(s.drop_last());
        assert forall|k: int| last_dot_idx(s) < k < s.len() implies s[k] != '.' by {
            if k < s.len() - 1 {
                assert(s.drop_last()[k] == s[k]);
            }
        }
    }
}

/// A string with no dot has `last_dot_idx` equal to `-1`.
pub proof fn lemma_last_dot_none(s: Seq<char>)
    requires
        forall|k: int| 0 <= k < s.len() ==> s[k] != '.',
    ensures
        last_dot_idx(s) == -1,
    decreases s.len(),
{
    if s.len() > 0 {
        lemma_last_dot_none(s.drop_last());
    }
}

/// A digit character is recovered from its numeric value.
pub proof fn lemma_digit_char_inverse(c: char)
    requires
        is_digit_char(c),
    ensures
        char_of_digit(digit_val(c)) == c,
{
}

/// The padded rendering of a three-digit combination is exactly those three
/// digit characters.
pub proof fn lemma_padded_three_digits(d1: char, d2: char, d3: char)
    requires
        is_digit_char(d1),
        is_digit_char(d2),
        is_digit_char(d3),
    ensures
        padded_num(digit_val(d1) * 100 + digit_val(d2) * 10 + digit_val(d3)) == seq![d1, d2, d3],
{
    let a = digit_val(d1);
    let b = digit_val(d2);
    let c = digit_val(d3);
    let v = a * 100 + b * 10 + c;
    lemma_digit_char_inverse(d1);
    lemma_digit_char_inverse(d2);
    lemma_digit_char_inverse(d3);
    if a == 0 && b == 0 {
        assert(padded_num(v) =~= seq![d1, d2, d3]);
    } else {
        assert(v / 10 == a * 10 + b && v % 10 == c) by (nonlinear_arith)
            requires
                c < 10,
                v == a * 100 + b * 10 + c,
        ;
        if a == 0 {
            assert(dec_digits(v) == dec_digits(b).push(d3));
            assert(padded_num(v) =~= seq![d1, d2, d3]);
        } else {
            let w = a * 10 + b;
            assert(w / 10 == a && w % 10 == b) by (nonlinear_arith)
                requires
                    b < 10,
                    w == a * 10 + b,
            ;
            assert(dec_digits(w) == dec_digits(a).push(d2));
            assert(dec_digits(v) == dec_digits(w).push(d3));
            assert(padded_num(v) =~= seq![d1, d2, d3]);
        }
    }
}

/// The character of a digit value is a digit character with that value.
pub proof fn lemma_char_of_digit(k: nat)
    requires
        k <= 9,
    ensures
        is_digit_char(char_of_digit(k)),
        digit_val(char_of_digit(k)) == k,
{
}

/// The padded rendering of `n <= 999` is exactly three digit characters whose
/// combined value is `n`.
pub proof fn lemma_padded_num_value(n: nat)
    requires
        n <= 999,
    ensures
        padded_num(n).len() == 3,
        is_digit_char(padded_num(n)[0]),
        is_digit_char(padded_num(n)[1]),
        is_digit_char(padded_num(n)[2]),
        digit_val(padded_num(n)[0]) * 100 + digit_val(padded_num(n)[1]) * 10 + digit_val(
            padded_num(n)[2],
        ) == n,
{
    if n < 10 {
        lemma_char_of_digit(n);
    } else if n < 100 {
        lemma_char_of_digit(n / 10);
        lemma_char_of_digit(n % 10);
        assert(dec_digits(n) == dec_digits(n / 10).push(char_of_digit(n % 10)));
    } else {
        let q = n / 10;
        lemma_char_of_digit(q / 10);
        lemma_char_of_digit(q % 10);
        lemma_char_of_digit(n % 10);
        assert(dec_digits(n) == dec_digits(q).push(char_of_digit(n % 10)));
        assert(dec_digits(q) == dec_digits(q / 10).push(char_of_digit(q % 10)));
        assert(digit_val(padded_num(n)[0]) * 100 + digit_val(padded_num(n)[1]) * 10 + digit_val(
            padded_num(n)[2],
        ) == n);
    }
}

/// Decomposing a merged filename recovers the parts, provided the counter is
/// at most `999` and no stray dot can displace the extension separator: the
/// extension must be dot-free, and with no extension the stem must be too.
pub proof fn lemma_merge_decompose(stem: Seq<char>, n: usize, ext: Option<Seq<char>>)
    requires
        n <= 999,
        match ext {
            Some(e) => forall|k: int| 0 <= k < e.len() ==> e[k] != '.',
            None => forall|k: int| 0 <= k < stem.len() ==> stem[k] != '.',
        },
    ensures
        stem_view(merged_view(stem, Some(n), ext)) == stem,
        num_view(merged_view(stem, Some(n), ext)) == Some(n),
        ext_view(merged_view(stem, Some(n), ext)) == ext,
{
    let m = merged_view(stem, Some(n), ext);
    lemma_padded_num_value(n as nat);
    match ext {
        Some(e) => {
            let d = stem.len() + 4;
            assert(m[d as int] == '.');
            assert(forall|k: int| d < k < m.len() ==> m[k] != '.');
            lemma_last_dot_at(m, d as int);
            assert(stem_num_region(m) =~= stem + seq!['_'] + padded_num(n as nat));
            assert(ext_view(m).unwrap() =~= e);
            let t = stem_num_region(m);
            assert(region_has_num(t));
            assert(stem_view(m) =~= stem);
            assert(region_num(t) == n);
        },
        None => {
            assert(forall|k: int| 0 <= k < m.len() ==> m[k] != '.');
            lemma_last_dot_none(m);
            let t = stem_num_region(m);
            assert(t == m);
            assert(region_has_num(t));
            assert(stem_view(m) =~= stem);
            assert(region_num(t) == n);
        },
    }
}

/// Round trip: merging the decomposed parts of any non-empty filename gives
/// back exactly that filename.
pub proof fn lemma_round_trip(s: Seq<char>)
    requires
        s.len() > 0,
    ensures
        merged_view(stem_view(s), num_view(s), ext_view(s)) == s,
{
    lemma_last_dot_bounds(s);
    let t = stem_num_region(s);
    let i = last_dot_idx(s);
    if region_has_num(t) {
        let l = t.len() as int;
        lemma_padded_three_digits(t[l - 3], t[l - 2], t[l - 1]);
        assert(region_num(t) <= 999);
        assert(t.take(l - 4) + (seq!['_'] + padded_num(region_num(t))) =~= t);
    }
    if i >= 0 {
        assert(merged_view(stem_view(s), num_view(s), ext_view(s)) =~= s);
    } else {
        assert(merged_view(stem_view(s), num_view(s), ext_view(s)) =~= s);
    }
}

/// A dot at `i` with no dot after it pins `last_dot_idx` to `i`.
pub proof fn lemma_last_dot_at(s: Seq<char>, i: int)
    requires
        0 <= i < s.len(),
        s[i] == '.',
        forall|k: int| i < k < s.len() ==> s[k] != '.',
    ensures
        last_dot_idx(s) == i,
    decreases s.len(),
{
    if i < s.len() - 1 {
        lemma_last_dot_at(s.drop_last(), i);
    }
}

} // verus!
