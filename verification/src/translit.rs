//! Transliteration of an arbitrary filename into a "unix-friendly" form:
//! non-ASCII characters are transcribed to ASCII, remaining unsafe characters
//! become underscores, underscore runs are collapsed, underscores before dots
//! are dropped, and leading or trailing underscores and hyphens are trimmed.

use vstd::prelude::*;
use vstd::string::StrSliceExecFns;

verus! {

/// A character that may appear in a unix-friendly filename.
pub open spec fn is_safe_char(c: char) -> bool {
    ||| 'a' as u32 <= c as u32 && c as u32 <= 'z' as u32
    ||| 'A' as u32 <= c as u32 && c as u32 <= 'Z' as u32
    ||| '0' as u32 <= c as u32 && c as u32 <= '9' as u32
    ||| c == '.'
    ||| c == '_'
    ||| c == '-'
}

/// A sequence of characters all strictly below the ASCII DEL character.
/// Transcription is only guaranteed to be the identity on these: DEL and
/// everything above it may be transcribed to other text or dropped.
pub open spec fn is_low_ascii_seq(s: Seq<char>) -> bool {
    forall|i: int| 0 <= i < s.len() ==> (s[i] as u32) < 127
}

/// Every unsafe character replaced by an underscore.
pub open spec fn replace_unsafe(s: Seq<char>) -> Seq<char> {
    s.map_values(
        |c: char|
            if is_safe_char(c) {
                c
            } else {
                '_'
            },
    )
}

/// Every run of consecutive underscores collapsed to a single underscore.
pub open spec fn collapse_underscores(s: Seq<char>) -> Seq<char>
    decreases s.len(),
{
    if s.len() == 0 {
        s
    } else {
        let p = collapse_underscores(s.drop_last());
        if s.last() == '_' && p.len() > 0 && p.last() == '_' {
            p
        } else {
            p.push(s.last())
        }
    }
}

/// Every underscore standing immediately before a dot removed.
pub open spec fn drop_underscore_before_dot(s: Seq<char>) -> Seq<char>
    decreases s.len(),
{
    if s.len() == 0 {
        s
    } else {
        let p = drop_underscore_before_dot(s.drop_last());
        if s.last() == '.' && p.len() > 0 && p.last() == '_' {
            p.drop_last().push('.')
        } else {
            p.push(s.last())
        }
    }
}

/// A character trimmed from the edges of a transliterated name.
pub open spec fn is_trim_char(c: char) -> bool {
    c == '_' || c == '-'
}

/// Trailing underscores and hyphens removed.
pub open spec fn trim_back(s: Seq<char>) -> Seq<char>
    decreases s.len(),
{
    if s.len() > 0 && is_trim_char(s.last()) {
        trim_back(s.drop_last())
    } else {
        s
    }
}

/// Leading underscores and hyphens removed.
pub open spec fn trim_front(s: Seq<char>) -> Seq<char>
    decreases s.len(),
{
    if s.len() > 0 && is_trim_char(s.first()) {
        trim_front(s.drop_first())
    } else {
        s
    }
}

/// Leading and trailing underscores and hyphens removed.
pub open spec fn trim_edges(s: Seq<char>) -> Seq<char> {
    trim_front(trim_back(s))
}

/// The ASCII cleanup pipeline applied after transcription: replace unsafe
/// characters, collapse underscore runs, drop underscores before dots, trim
/// the edges.
pub open spec fn sanitize(s: Seq<char>) -> Seq<char> {
    trim_edges(drop_underscore_before_dot(collapse_underscores(replace_unsafe(s))))
}

/// The ASCII transcription that `deunicode::deunicode` computes for a
/// character sequence. It is a function of the characters alone.
pub uninterp spec fn deunicode_of(s: Seq<char>) -> Seq<char>;

/// The unix-friendly form of a filename: ASCII transcription followed by the
/// cleanup pipeline.
pub open spec fn unixized(s: Seq<char>) -> Seq<char> {
    sanitize(deunicode_of(s))
}

/// Relies on `deunicode::deunicode`: the transcription depends on the input
/// characters alone, and a string whose characters all lie strictly below
/// `0x7F` comes back unchanged (its fast path hands such input through
/// verbatim; DEL and the code points above it may be transcribed or dropped).
#[verifier::external_body]
fn deunicode_str(s: &str) -> (r: String)
    ensures
        r@ == deunicode_of(s@),
        is_low_ascii_seq(s@) ==> r@ == s@,
{
    deunicode::deunicode(s)
}

/// Relies on `String`'s `FromIterator<char>` implementation: collecting
/// characters yields the string of exactly those characters in order.
#[verifier::external_body]
fn chars_to_string(v: &Vec<char>) -> (r: String)
    ensures
        r@ == v@,
{
    v.iter().collect()
}

/// The characters of a string, as a vector.
fn string_to_chars(s: &str) -> (v: Vec<char>)
    ensures
        v@ == s@,
{
    let n = s.unicode_len();
    let mut v: Vec<char> = Vec::new();
    let mut i: usize = 0;
    while i < n
        invariant
            i <= n,
            n == s@.len(),
            v@ =~= s@.take(i as int),
        decreases n - i,
    {
        v.push(s.get_char(i));
        i = i + 1;
    }
    proof {
        assert(v@ =~= s@);
    }
    v
}

/// Whether `c` may appear in a unix-friendly filename.
pub fn is_safe(c: char) -> (r: bool)
    ensures
        r == is_safe_char(c),
{
    let u = c as u32;
    ('a' as u32 <= u && u <= 'z' as u32) || ('A' as u32 <= u && u <= 'Z' as u32) || ('0' as u32
        <= u && u <= '9' as u32) || c == '.' || c == '_' || c == '-'
}

/// Replace every unsafe character with an underscore.
fn replace_unsafe_chars(v: &Vec<char>) -> (r: Vec<char>)
    ensures
        r@ == replace_unsafe(v@),
{
    let mut r: Vec<char> = Vec::new();
    let mut i: usize = 0;
    while i < v.len()
        invariant
            i <= v@.len(),
            r@ =~= replace_unsafe(v@.take(i as int)),
        decreases v@.len() - i,
    {
        let c = v[i];
        if is_safe(c) {
            r.push(c);
        } else {
            r.push('_');
        }
        proof {
            assert(v@.take(i + 1).drop_last() =~= v@.take(i as int));
            assert(r@ =~= replace_unsafe(v@.take(i + 1)));
        }
        i = i + 1;
    }
    proof {
        assert(v@.take(v@.len() as int) =~= v@);
    }
    r
}

/// Collapse every run of consecutive underscores to a single underscore.
fn collapse_underscore_runs(v: &Vec<char>) -> (r: Vec<char>)
    ensures
        r@ == collapse_underscores(v@),
{
    let mut r: Vec<char> = Vec::new();
    let mut i: usize = 0;
    while i < v.len()
        invariant
            i <= v@.len(),
            r@ =~= collapse_underscores(v@.take(i as int)),
        decreases v@.len() - i,
    {
        let c = v[i];
        let skip = c == '_' && r.len() > 0 && r[r.len() - 1] == '_';
        if !skip {
            r.push(c);
        }
        proof {
            assert(v@.take(i + 1).drop_last() =~= v@.take(i as int));
            assert(r@ =~= collapse_underscores(v@.take(i + 1)));
        }
        i = i + 1;
    }
    proof {
        assert(v@.take(v@.len() as int) =~= v@);
    }
    r
}

/// Remove every underscore standing immediately before a dot.
fn drop_underscores_before_dots(v: &Vec<char>) -> (r: Vec<char>)
    ensures
        r@ == drop_underscore_before_dot(v@),
{
    let mut r: Vec<char> = Vec::new();
    let mut i: usize = 0;
    while i < v.len()
        invariant
            i <= v@.len(),
            r@ =~= drop_underscore_before_dot(v@.take(i as int)),
        decreases v@.len() - i,
    {
        let c = v[i];
        if c == '.' && r.len() > 0 && r[r.len() - 1] == '_' {
            let _ = r.pop();
            r.push('.');
        } else {
            r.push(c);
        }
        proof {
            assert(v@.take(i + 1).drop_last() =~= v@.take(i as int));
            assert(r@ =~= drop_underscore_before_dot(v@.take(i + 1)));
        }
        i = i + 1;
    }
    proof {
        assert(v@.take(v@.len() as int) =~= v@);
    }
    r
}

/// Whether `c` is trimmed from the edges of a transliterated name.
pub fn is_trim(c: char) -> (r: bool)
    ensures
        r == is_trim_char(c),
{
    c == '_' || c == '-'
}

/// `trim_back` keeps exactly the prefix before the trailing run of trim
/// characters.
proof fn lemma_trim_back_idx(s: Seq<char>, e: int)
    requires
        0 <= e <= s.len(),
        forall|k: int| e <= k < s.len() ==> is_trim_char(s[k]),
        e > 0 ==> !is_trim_char(s[e - 1]),
    ensures
        trim_back(s) == s.take(e),
    decreases s.len(),
{
    if s.len() > e {
        assert(forall|k: int| e <= k < s.drop_last().len() ==> is_trim_char(s.drop_last()[k]));
        if e > 0 {
            assert(s.drop_last()[e - 1] == s[e - 1]);
        }
        lemma_trim_back_idx(s.drop_last(), e);
        assert(s.drop_last().take(e) =~= s.take(e));
    } else {
        assert(s.take(e) =~= s);
    }
}

/// `trim_front` keeps exactly the suffix after the leading run of trim
/// characters.
proof fn lemma_trim_front_idx(s: Seq<char>, b: int)
    requires
        0 <= b <= s.len(),
        forall|k: int| 0 <= k < b ==> is_trim_char(s[k]),
        b < s.len() ==> !is_trim_char(s[b]),
    ensures
        trim_front(s) == s.skip(b),
    decreases s.len(),
{
    if b > 0 {
        assert(forall|k: int| 0 <= k < b - 1 ==> is_trim_char(s.drop_first()[k]));
        lemma_trim_front_idx(s.drop_first(), b - 1);
        assert(s.drop_first().skip(b - 1) =~= s.skip(b));
    } else {
        assert(s.skip(0) =~= s);
    }
}

/// Trim leading and trailing underscores and hyphens.
fn trim_edge_chars(v: &Vec<char>) -> (r: Vec<char>)
    ensures
        r@ == trim_edges(v@),
{
    let mut e: usize = v.len();
    while e > 0 && is_trim(v[e - 1])
        invariant
            e <= v@.len(),
            forall|k: int| e <= k < v@.len() ==> is_trim_char(v@[k]),
        decreases e,
    {
        e = e - 1;
    }
    let mut b: usize = 0;
    while b < e && is_trim(v[b])
        invariant
            b <= e <= v@.len(),
            forall|k: int| 0 <= k < b ==> is_trim_char(v@[k]),
        decreases e - b,
    {
        b = b + 1;
    }
    proof {
        lemma_trim_back_idx(v@, e as int);
        lemma_trim_front_idx(v@.take(e as int), b as int);
    }
    let mut r: Vec<char> = Vec::new();
    let mut i: usize = b;
    while i < e
        invariant
            b <= i <= e <= v@.len(),
            r@ =~= v@.subrange(b as int, i as int),
        decreases e - i,
    {
        r.push(v[i]);
        i = i + 1;
    }
    proof {
        assert(r@ =~= v@.take(e as int).skip(b as int));
    }
    r
}

/// Every character of `s` is safe.
pub open spec fn all_safe(s: Seq<char>) -> bool {
    forall|i: int| 0 <= i < s.len() ==> is_safe_char(s[i])
}

/// No two consecutive underscores anywhere in `s`.
pub open spec fn no_underscore_run(s: Seq<char>) -> bool {
    forall|i: int| 0 <= i && i + 1 < s.len() ==> !(#[trigger] s[i] == '_' && s[i + 1] == '_')
}

/// No underscore immediately before a dot anywhere in `s`.
pub open spec fn no_underscore_dot(s: Seq<char>) -> bool {
    forall|i: int| 0 <= i && i + 1 < s.len() ==> !(#[trigger] s[i] == '_' && s[i + 1] == '.')
}

/// No trim character at either edge of `s`.
pub open spec fn trimmed(s: Seq<char>) -> bool {
    s.len() > 0 ==> !is_trim_char(s.first()) && !is_trim_char(s.last())
}

/// A name already in unix-friendly form: only safe characters, no underscore
/// runs, no underscore before a dot, and clean edges.
pub open spec fn is_sanitized(s: Seq<char>) -> bool {
    all_safe(s) && no_underscore_run(s) && no_underscore_dot(s) && trimmed(s)
}

proof fn lemma_collapse_props(s: Seq<char>)
    ensures
        all_safe(s) ==> all_safe(collapse_underscores(s)),
        no_underscore_run(collapse_underscores(s)),
        s.len() > 0 ==> collapse_underscores(s).len() > 0 && collapse_underscores(s).last()
            == s.last(),
    decreases s.len(),
{
    if s.len() > 0 {
        lemma_collapse_props(s.drop_last());
        assert(all_safe(s) ==> all_safe(s.drop_last()));
        let p = collapse_underscores(s.drop_last());
        if !(s.last() == '_' && p.len() > 0 && p.last() == '_') {
            let out = p.push(s.last());
            assert(forall|i: int|
                0 <= i && i + 1 < out.len() ==> !(#[trigger] out[i] == '_' && out[i + 1] == '_'));
        }
    }
}

proof fn lemma_dropdot_props(s: Seq<char>)
    requires
        no_underscore_run(s),
    ensures
        all_safe(s) ==> all_safe(drop_underscore_before_dot(s)),
        no_underscore_run(drop_underscore_before_dot(s)),
        no_underscore_dot(drop_underscore_before_dot(s)),
        s.len() > 0 ==> drop_underscore_before_dot(s).len() > 0 && drop_underscore_before_dot(
            s,
        ).last() == s.last(),
    decreases s.len(),
{
    if s.len() > 0 {
        assert(no_underscore_run(s.drop_last()));
        lemma_dropdot_props(s.drop_last());
        let p = drop_underscore_before_dot(s.drop_last());
        if s.len() >= 2 {
            assert(p.last() == s[s.len() - 2]);
        }
        if s.last() == '.' && p.len() > 0 && p.last() == '_' {
            let q = p.drop_last();
            let out = q.push('.');
            if q.len() > 0 {
                // a trim character before the dropped underscore would be a run
                assert(!(q.last() == '_')) by {
                    if q.last() == '_' {
                        assert(p[p.len() - 2] == '_' && p[p.len() - 1] == '_');
                    }
                }
            }
            assert(forall|i: int|
                0 <= i && i + 1 < out.len() ==> !(#[trigger] out[i] == '_' && out[i + 1] == '_'));
            assert(forall|i: int|
                0 <= i && i + 1 < out.len() ==> !(#[trigger] out[i] == '_' && out[i + 1] == '.'));
        } else {
            let out = p.push(s.last());
            if s.last() == '_' && p.len() > 0 && p.last() == '_' {
                assert(s[s.len() - 2] == '_' && s[s.len() - 1] == '_');
            }
            assert(forall|i: int|
                0 <= i && i + 1 < out.len() ==> !(#[trigger] out[i] == '_' && out[i + 1] == '_'));
            assert(forall|i: int|
                0 <= i && i + 1 < out.len() ==> !(#[trigger] out[i] == '_' && out[i + 1] == '.'));
        }
    }
}

proof fn lemma_trim_back_props(s: Seq<char>)
    ensures
        all_safe(s) ==> all_safe(trim_back(s)),
        no_underscore_run(s) ==> no_underscore_run(trim_back(s)),
        no_underscore_dot(s) ==> no_underscore_dot(trim_back(s)),
        trim_back(s).len() > 0 ==> !is_trim_char(trim_back(s).last()),
        trim_back(s).len() > 0 ==> trim_back(s).first() == s.first(),
    decreases s.len(),
{
    if s.len() > 0 && is_trim_char(s.last()) {
        lemma_trim_back_props(s.drop_last());
    }
}

proof fn lemma_trim_front_props(s: Seq<char>)
    ensures
        all_safe(s) ==> all_safe(trim_front(s)),
        no_underscore_run(s) ==> no_underscore_run(trim_front(s)),
        no_underscore_dot(s) ==> no_underscore_dot(trim_front(s)),
        trim_front(s).len() > 0 ==> !is_trim_char(trim_front(s).first()),
        trim_front(s).len() > 0 ==> trim_front(s).last() == s.last(),
    decreases s.len(),
{
    if s.len() > 0 && is_trim_char(s.first()) {
        lemma_trim_front_props(s.drop_first());
    }
}

/// The cleanup pipeline always produces a name in unix-friendly form.
pub proof fn lemma_sanitize_is_sanitized(x: Seq<char>)
    ensures
        is_sanitized(sanitize(x)),
{
    let a = replace_unsafe(x);
    assert(all_safe(a));
    lemma_collapse_props(a);
    lemma_dropdot_props(collapse_underscores(a));
    lemma_trim_back_props(drop_underscore_before_dot(collapse_underscores(a)));
    lemma_trim_front_props(trim_back(drop_underscore_before_dot(collapse_underscores(a))));
}

proof fn lemma_collapse_id(s: Seq<char>)
    requires
        no_underscore_run(s),
    ensures
        collapse_underscores(s) == s,
    decreases s.len(),
{
    if s.len() > 0 {
        assert(no_underscore_run(s.drop_last()));
        lemma_collapse_id(s.drop_last());
        if s.len() >= 2 && s.last() == '_' && s[s.len() - 2] == '_' {
            assert(false);
        }
        assert(s.drop_last().push(s.last()) =~= s);
    }
}

proof fn lemma_dropdot_id(s: Seq<char>)
    requires
        no_underscore_dot(s),
    ensures
        drop_underscore_before_dot(s) == s,
    decreases s.len(),
{
    if s.len() > 0 {
        assert(no_underscore_dot(s.drop_last()));
        lemma_dropdot_id(s.drop_last());
        if s.len() >= 2 && s.last() == '.' && s[s.len() - 2] == '_' {
            assert(false);
        }
        assert(s.drop_last().push(s.last()) =~= s);
    }
}

/// A name already in unix-friendly form passes through the cleanup pipeline
/// unchanged.
pub proof fn lemma_sanitize_fixed(y: Seq<char>)
    requires
        is_sanitized(y),
    ensures
        sanitize(y) == y,
{
    assert(replace_unsafe(y) =~= y);
    lemma_collapse_id(y);
    lemma_dropdot_id(y);
}

/// Every safe character lies strictly below the ASCII DEL character.
pub proof fn lemma_safe_is_low_ascii(s: Seq<char>)
    requires
        all_safe(s),
    ensures
        is_low_ascii_seq(s),
{
}

/// Idempotence of transliteration: the unix-friendly form of a name is
/// already in unix-friendly form (and all below the ASCII DEL character, so
/// transcription passes it through), so cleaning it up again
/// changes nothing. Together with the contract of `unixize_filename_str`,
/// transliterating a filename twice equals transliterating it once.
pub proof fn lemma_unixize_idempotent(s: Seq<char>)
    ensures
        is_sanitized(unixized(s)),
        is_low_ascii_seq(unixized(s)),
        sanitize(unixized(s)) == unixized(s),
{
    lemma_sanitize_is_sanitized(deunicode_of(s));
    lemma_safe_is_low_ascii(unixized(s));
    lemma_sanitize_fixed(unixized(s));
}

/// Clean up a filename string, transcribing non-ASCII characters and
/// replacing unix-unfriendly characters such as spaces and parentheses.
/// The result may be empty when nothing safe is left of the name.
pub fn unixize_filename_str(fname: &str) -> (r: String)
    ensures
        r@ == unixized(fname@),
        is_low_ascii_seq(fname@) ==> r@ == sanitize(fname@),
{
    let du = deunicode_str(fname);
    let v = string_to_chars(du.as_str());
    let v = replace_unsafe_chars(&v);
    let v = collapse_underscore_runs(&v);
    let v = drop_underscores_before_dots(&v);
    let v = trim_edge_chars(&v);
    chars_to_string(&v)
}

} // verus!
