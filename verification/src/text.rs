//! Verified text utilities: lexicographic ordering, equality and substring
//! tests on strings, file-name splitting (extension, base name), and decimal
//! rendering of integers.  These are the building blocks for entry
//! classification, sorting and report rendering.

use vstd::prelude::*;

verus! {

/// What `str::to_lowercase` returns; the mapping depends on the characters alone.
pub uninterp spec fn lower_of(s: Seq<char>) -> Seq<char>;

/// What `str::to_uppercase` returns; the mapping depends on the characters alone.
pub uninterp spec fn upper_of(s: Seq<char>) -> Seq<char>;

/// Relies on str::to_lowercase: the Unicode lowercase mapping of the
/// characters, independent of locale or environment.
#[verifier::external_body]
pub fn to_lowercase(s: &str) -> (r: String)
    ensures
        r@ == lower_of(s@),
{
    s.to_lowercase()
}

/// Relies on str::to_uppercase: the Unicode uppercase mapping of the
/// characters, independent of locale or environment.
#[verifier::external_body]
pub fn to_uppercase(s: &str) -> (r: String)
    ensures
        r@ == upper_of(s@),
{
    s.to_uppercase()
}

/// Relies on String::push: appends one character at the end.
#[verifier::external_body]
pub fn push_char(s: &mut String, c: char)
    ensures
        final(s)@ == old(s)@.push(c),
{
    s.push(c)
}

/// Lexicographic order on character sequences, comparing by Unicode scalar
/// value.  This is the order `Ord` on `str` induces.
pub open spec fn lex_le(a: Seq<char>, b: Seq<char>) -> bool
    decreases a.len(),
{
    if a.len() == 0 {
        true
    } else if b.len() == 0 {
        false
    } else if (a[0] as u32) < (b[0] as u32) {
        true
    } else if (b[0] as u32) < (a[0] as u32) {
        false
    } else {
        lex_le(a.drop_first(), b.drop_first())
    }
}

/// `lex_le` is total: any two sequences are comparable.
pub proof fn lemma_lex_le_total(a: Seq<char>, b: Seq<char>)
    ensures
        lex_le(a, b) || lex_le(b, a),
    decreases a.len(),
{
    if a.len() == 0 || b.len() == 0 {
    } else if (a[0] as u32) < (b[0] as u32) || (b[0] as u32) < (a[0] as u32) {
    } else {
        lemma_lex_le_total(a.drop_first(), b.drop_first());
    }
}

/// `lex_le` is reflexive.
pub proof fn lemma_lex_le_refl(a: Seq<char>)
    ensures
        lex_le(a, a),
    decreases a.len(),
{
    if a.len() > 0 {
        lemma_lex_le_refl(a.drop_first());
    }
}

/// `lex_le` is transitive.
pub proof fn lemma_lex_le_trans(a: Seq<char>, b: Seq<char>, c: Seq<char>)
    requires
        lex_le(a, b),
        lex_le(b, c),
    ensures
        lex_le(a, c),
    decreases a.len(),
{
    if a.len() == 0 {
    } else if b.len() == 0 {
    } else if c.len() == 0 {
    } else {
        if (a[0] as u32) < (b[0] as u32) {
            if (b[0] as u32) < (c[0] as u32) {
            } else {
            }
        } else if (a[0] as u32) == (b[0] as u32) {
            if (b[0] as u32) < (c[0] as u32) {
            } else {
                lemma_lex_le_trans(a.drop_first(), b.drop_first(), c.drop_first());
            }
        }
    }
}

/// Skipping a common prefix does not change the comparison.
proof fn lemma_lex_le_skip(a: Seq<char>, b: Seq<char>, i: int)
    requires
        0 <= i <= a.len(),
        i <= b.len(),
        forall|k: int| 0 <= k < i ==> a[k] == b[k],
    ensures
        lex_le(a, b) == lex_le(a.skip(i), b.skip(i)),
    decreases i,
{
    if i == 0 {
        assert(a.skip(0) =~= a);
        assert(b.skip(0) =~= b);
    } else {
        assert(a[0] == b[0]);
        assert(a.len() > 0 && b.len() > 0);
        lemma_lex_le_skip(a.drop_first(), b.drop_first(), i - 1);
        assert(a.drop_first().skip(i - 1) =~= a.skip(i));
        assert(b.drop_first().skip(i - 1) =~= b.skip(i));
    }
}

/// Decides the lexicographic order on two strings.
pub fn str_le(a: &str, b: &str) -> (r: bool)
    ensures
        r == lex_le(a@, b@),
{
    let alen: usize = a.unicode_len();
    let blen: usize = b.unicode_len();
    let mut i: usize = 0;
    loop
        invariant
            alen == a@.len(),
            blen == b@.len(),
            i <= alen,
            i <= blen,
            forall|k: int| 0 <= k < i ==> a@[k] == b@[k],
        decreases alen - i,
    {
        proof {
            lemma_lex_le_skip(a@, b@, i as int);
        }
        if i == alen {
            assert(a@.skip(i as int).len() == 0);
            return true;
        }
        if i == blen {
            assert(b@.skip(i as int).len() == 0);
            assert(a@.skip(i as int).len() > 0);
            return false;
        }
        let ca = a.get_char(i);
        let cb = b.get_char(i);
        assert(a@.skip(i as int)[0] == ca);
        assert(b@.skip(i as int)[0] == cb);
        if ca == cb {
            i = i + 1;
        } else if (ca as u32) < (cb as u32) {
            return true;
        } else {
            assert((cb as u32) < (ca as u32));
            return false;
        }
    }
}

/// Decides equality of two strings (equality of their character sequences).
pub fn str_eq(a: &str, b: &str) -> (r: bool)
    ensures
        r == (a@ == b@),
{
    let alen: usize = a.unicode_len();
    let blen: usize = b.unicode_len();
    if alen != blen {
        return false;
    }
    let mut i: usize = 0;
    while i < alen
        invariant
            alen == a@.len(),
            blen == b@.len(),
            alen == blen,
            i <= alen,
            forall|k: int| 0 <= k < i ==> a@[k] == b@[k],
        decreases alen - i,
    {
        let ca = a.get_char(i);
        let cb = b.get_char(i);
        if ca != cb {
            assert(a@[i as int] != b@[i as int]);
            return false;
        }
        i = i + 1;
    }
    assert(a@ =~= b@);
    true
}

/// `needle` occurs as a contiguous run inside `hay`.
pub open spec fn contains_seq(hay: Seq<char>, needle: Seq<char>) -> bool {
    exists|i: int|
        0 <= i && i + needle.len() <= hay.len() && #[trigger] hay.subrange(i, i + needle.len())
            == needle
}

/// Whether `hay` matches `needle` starting at character position `at`.
fn matches_at(hay: &str, needle: &str, at: usize) -> (r: bool)
    requires
        at + needle@.len() <= hay@.len(),
    ensures
        r == (hay@.subrange(at as int, at + needle@.len()) == needle@),
{
    let hlen: usize = hay.unicode_len();
    let nlen: usize = needle.unicode_len();
    let mut k: usize = 0;
    while k < nlen
        invariant
            hlen == hay@.len(),
            nlen == needle@.len(),
            at + nlen <= hlen,
            k <= nlen,
            forall|m: int| 0 <= m < k ==> hay@[at + m] == needle@[m],
        decreases nlen - k,
    {
        let hc = hay.get_char(at + k);
        let nc = needle.get_char(k);
        if hc != nc {
            assert(hay@.subrange(at as int, at + needle@.len())[k as int] != needle@[k as int]);
            return false;
        }
        k = k + 1;
    }
    assert(hay@.subrange(at as int, at + needle@.len()) =~= needle@);
    true
}

/// Decides whether `needle` occurs inside `hay`.
pub fn str_contains(hay: &str, needle: &str) -> (r: bool)
    ensures
        r == contains_seq(hay@, needle@),
{
    let hlen: usize = hay.unicode_len();
    let nlen: usize = needle.unicode_len();
    if nlen > hlen {
        assert(!contains_seq(hay@, needle@));
        return false;
    }
    if nlen == 0 {
        assert(contains_seq(hay@, needle@)) by {
            assert(hay@.subrange(0, 0 + needle@.len() as int) =~= needle@);
        };
        return true;
    }
    let mut i: usize = 0;
    while i <= hlen - nlen
        invariant
            hlen == hay@.len(),
            nlen == needle@.len(),
            1 <= nlen <= hlen,
            i <= hlen - nlen + 1,
            forall|j: int|
                0 <= j < i ==> #[trigger] hay@.subrange(j, j + needle@.len()) != needle@,
        decreases hlen - i,
    {
        if matches_at(hay, needle, i) {
            return true;
        }
        i = i + 1;
    }
    assert(!contains_seq(hay@, needle@));
    false
}

/// Index of the last `.` in `s`, or `-1` when there is none.
pub open spec fn last_dot_at(s: Seq<char>) -> int
    decreases s.len(),
{
    if s.len() == 0 {
        -1
    } else if s[s.len() - 1] == '.' {
        s.len() - 1
    } else {
        last_dot_at(s.drop_last())
    }
}

proof fn lemma_last_dot_at(s: Seq<char>)
    ensures
        -1 <= last_dot_at(s) < s.len(),
        last_dot_at(s) == -1 ==> forall|k: int| 0 <= k < s.len() ==> (#[trigger] s[k]) != '.',
        last_dot_at(s) >= 0 ==> 0 <= last_dot_at(s) < s.len() && s[last_dot_at(s)] == '.'
            && forall|k: int| last_dot_at(s) < k < s.len() ==> (#[trigger] s[k]) != '.',
    decreases s.len(),
{
    if s.len() == 0 {
    } else if s[s.len() - 1] == '.' {
    } else {
        lemma_last_dot_at(s.drop_last());
        assert forall|k: int| 0 <= k < s.len() - 1 implies s.drop_last()[k] == s[k] by {}
    }
}

/// The extension of a file name: the part after the last `.`, absent when the
/// name has no `.` or when the only `.` is the leading one of a dotfile.
pub open spec fn ext_of(name: Seq<char>) -> Option<Seq<char>> {
    let d = last_dot_at(name);
    if d >= 1 {
        Some(name.subrange(d + 1, name.len() as int))
    } else {
        None
    }
}

/// Extracts the raw (not yet lowercased) extension of a file name.
pub fn extension_of(name: &str) -> (r: Option<String>)
    ensures
        (match r {
            Some(e) => ext_of(name@) == Some(e@),
            None => ext_of(name@) is None,
        }),
{
    let len: usize = name.unicode_len();
    let mut j: usize = len;
    while j > 0
        invariant
            len == name@.len(),
            j <= len,
            forall|k: int| j <= k < len ==> name@[k] != '.',
        decreases j,
    {
        j = j - 1;
        if name.get_char(j) == '.' {
            assert(last_dot_at(name@) == j as int) by {
                lemma_last_dot_at(name@);
                let d = last_dot_at(name@);
                if d == -1 {
                    assert(name@[j as int] != '.');
                } else if d < j as int {
                    assert(name@[j as int] != '.');
                } else if d > j as int {
                    assert(name@[d] != '.');
                }
            };
            if j >= 1 {
                let e = name.substring_char(j + 1, len);
                return Some(String::from_str(e));
            } else {
                return None;
            }
        }
    }
    assert(last_dot_at(name@) == -1) by {
        lemma_last_dot_at(name@);
        let d = last_dot_at(name@);
        if d >= 0 {
            assert(name@[d] != '.');
        }
    };
    None
}

/// Index of the last `/` in `s`, or `-1` when there is none.
pub open spec fn last_slash_at(s: Seq<char>) -> int
    decreases s.len(),
{
    if s.len() == 0 {
        -1
    } else if s[s.len() - 1] == '/' {
        s.len() - 1
    } else {
        last_slash_at(s.drop_last())
    }
}

proof fn lemma_last_slash_at(s: Seq<char>)
    ensures
        -1 <= last_slash_at(s) < s.len(),
        last_slash_at(s) == -1 ==> forall|k: int| 0 <= k < s.len() ==> (#[trigger] s[k]) != '/',
        last_slash_at(s) >= 0 ==> 0 <= last_slash_at(s) < s.len() && s[last_slash_at(s)] == '/'
            && forall|k: int| last_slash_at(s) < k < s.len() ==> (#[trigger] s[k]) != '/',
    decreases s.len(),
{
    if s.len() == 0 {
    } else if s[s.len() - 1] == '/' {
    } else {
        lemma_last_slash_at(s.drop_last());
        assert forall|k: int| 0 <= k < s.len() - 1 implies s.drop_last()[k] == s[k] by {}
    }
}

/// The base name of a path: everything after the last `/`, or the whole path
/// when it has no `/`.
pub open spec fn base_of(path: Seq<char>) -> Seq<char> {
    path.subrange(last_slash_at(path) + 1, path.len() as int)
}

/// Extracts the base name of a slash-separated path.
pub fn base_name(path: &str) -> (r: String)
    ensures
        r@ == base_of(path@),
{
    let len: usize = path.unicode_len();
    let mut j: usize = len;
    while j > 0
        invariant
            len == path@.len(),
            j <= len,
            forall|k: int| j <= k < len ==> path@[k] != '/',
        decreases j,
    {
        j = j - 1;
        if path.get_char(j) == '/' {
            assert(last_slash_at(path@) == j as int) by {
                lemma_last_slash_at(path@);
                let d = last_slash_at(path@);
                if d == -1 {
                    assert(path@[j as int] != '/');
                } else if d < j as int {
                    assert(path@[j as int] != '/');
                } else if d > j as int {
                    assert(path@[d] != '/');
                }
            };
            let e = path.substring_char(j + 1, len);
            return String::from_str(e);
        }
    }
    assert(last_slash_at(path@) == -1) by {
        lemma_last_slash_at(path@);
        let d = last_slash_at(path@);
        if d >= 0 {
            assert(path@[d] != '/');
        }
    };
    assert(path@.subrange(0, path@.len() as int) =~= path@);
    String::from_str(path.substring_char(0, len))
}

/// Joins a directory path and a child name with a `/` separator.
pub fn join_path(dir: &str, name: &str) -> (r: String)
    ensures
        r@ == dir@ + "/"@ + name@,
{
    let mut s = String::from_str(dir);
    s.append("/");
    s.append(name);
    s
}

/// The decimal digit character for `d`.
pub open spec fn digit_char(d: int) -> char {
    ((48 + d) as u8) as char
}

/// The decimal rendering of a nonnegative integer, without leading zeros.
pub open spec fn dec_str(n: nat) -> Seq<char>
    decreases n,
{
    if n < 10 {
        seq![digit_char(n as int)]
    } else {
        dec_str(n / 10).push(digit_char((n % 10) as int))
    }
}

/// Renders `n` in decimal.
pub fn u64_to_string(n: u64) -> (r: String)
    ensures
        r@ == dec_str(n as nat),
{
    // Phase one: collect the digits of `n`, least significant first.
    let mut digits: Vec<char> = Vec::new();
    let mut m: u64 = n;
    proof {
        assert(dec_str(m as nat) + digits@.reverse() =~= dec_str(n as nat));
    }
    while m >= 10
        invariant
            dec_str(n as nat) == dec_str(m as nat) + digits@.reverse(),
        decreases m,
    {
        let d: u64 = m % 10;
        let c: char = ((48 + d) as u8) as char;
        let ghost old_digits = digits@;
        digits.push(c);
        proof {
            assert(c == digit_char(((m as nat) % 10) as int));
            assert(digits@.reverse() =~= seq![c] + old_digits.reverse());
            assert(dec_str(m as nat) == dec_str((m as nat) / 10).push(c));
            assert(dec_str((m as nat) / 10) + digits@.reverse() =~= dec_str((m as nat) / 10).push(
                c,
            ) + old_digits.reverse());
            assert((m / 10) as nat == (m as nat) / 10);
        }
        m = m / 10;
    }
    // Phase two: emit the leading digit, then the collected ones in reverse.
    let lead: char = ((48 + m) as u8) as char;
    let mut out = String::new();
    push_char(&mut out, lead);
    proof {
        assert(lead == digit_char(m as int));
        assert(dec_str(m as nat) =~= seq![digit_char(m as int)]);
        assert(out@ =~= dec_str(m as nat) + digits@.reverse().take(0));
    }
    let ghost total = digits@.len() as int;
    let mut k: usize = digits.len();
    while k > 0
        invariant
            k <= digits@.len(),
            total == digits@.len() as int,
            out@ == dec_str(m as nat) + digits@.reverse().take(total - k),
            dec_str(n as nat) == dec_str(m as nat) + digits@.reverse(),
        decreases k,
    {
        k = k - 1;
        push_char(&mut out, digits[k]);
        proof {
            assert(digits@.reverse()[total - k - 1] == digits@[k as int]);
            assert(digits@.reverse().take(total - k) =~= digits@.reverse().take(total - k - 1).push(
                digits@[k as int],
            ));
            assert(dec_str(m as nat) + digits@.reverse().take(total - k - 1) + seq![digits@[k as int]]
                =~= dec_str(m as nat) + digits@.reverse().take(total - k));
        }
    }
    proof {
        assert(digits@.reverse().take(total - 0) =~= digits@.reverse());
    }
    out
}

/// The unit label for scale step `k`: bytes, kibibytes, and so on.
pub open spec fn unit_name(k: nat) -> Seq<char> {
    if k == 0 {
        "B"@
    } else if k == 1 {
        "KB"@
    } else if k == 2 {
        "MB"@
    } else if k == 3 {
        "GB"@
    } else {
        "TB"@
    }
}

/// 1024 to the power `k`, for the scale steps used here.
pub open spec fn pow1024(k: nat) -> nat {
    if k == 0 {
        1
    } else if k == 1 {
        1024
    } else if k == 2 {
        1048576
    } else if k == 3 {
        1073741824
    } else {
        1099511627776
    }
}

/// The scale step for `size`: the largest `k` with `size >= 1024^k`, clamped
/// to `cap`.
pub open spec fn unit_index(size: u64, cap: nat) -> nat {
    let raw: nat = if size < 1024 {
        0
    } else if size < 1048576 {
        1
    } else if size < 1073741824 {
        2
    } else if size < 1099511627776 {
        3
    } else {
        4
    };
    if raw <= cap {
        raw
    } else {
        cap
    }
}

/// A byte count rendered at its scale step: a plain count below one
/// kibibyte, otherwise the scaled value with two decimal places (truncated)
/// and the unit label.
pub open spec fn size_str(size: u64, cap: nat) -> Seq<char> {
    let k = unit_index(size, cap);
    if k == 0 {
        dec_str(size as nat) + " B"@
    } else {
        let scaled = (size as nat * 100) / pow1024(k);
        dec_str(scaled / 100) + seq![
            '.',
            digit_char(((scaled / 10) % 10) as int),
            digit_char((scaled % 10) as int),
        ] + " "@ + unit_name(k)
    }
}

/// Renders a byte count with at most `cap` scale steps (3 caps at GB,
/// 4 at TB).
pub fn format_size(size: u64, cap: usize) -> (r: String)
    requires
        3 <= cap <= 4,
    ensures
        r@ == size_str(size, cap as nat),
{
    let raw: usize = if size < 1024 {
        0
    } else if size < 1048576 {
        1
    } else if size < 1073741824 {
        2
    } else if size < 1099511627776 {
        3
    } else {
        4
    };
    let k: usize = if raw <= cap {
        raw
    } else {
        cap
    };
    assert(k as nat == unit_index(size, cap as nat));
    if k == 0 {
        let mut s = u64_to_string(size);
        s.append(" B");
        return s;
    }
    let divisor: u64 = if k == 1 {
        1024
    } else if k == 2 {
        1048576
    } else if k == 3 {
        1073741824
    } else {
        1099511627776
    };
    assert(divisor as nat == pow1024(k as nat));
    let wide: u128 = (size as u128) * 100 / (divisor as u128);
    proof {
        vstd::arithmetic::div_mod::lemma_div_is_ordered(
            size as int * 100,
            u64::MAX as int * 100,
            divisor as int,
        );
        vstd::arithmetic::div_mod::lemma_div_is_ordered_by_denominator(
            u64::MAX as int * 100,
            1024,
            divisor as int,
        );
        assert(u64::MAX as int * 100 / 1024 < u64::MAX as int);
    }
    let scaled: u64 = wide as u64;
    assert(scaled as nat == (size as nat * 100) / pow1024(k as nat));
    let mut s = u64_to_string(scaled / 100);
    let d1: char = ((48 + (scaled / 10) % 10) as u8) as char;
    let d2: char = ((48 + scaled % 10) as u8) as char;
    push_char(&mut s, '.');
    push_char(&mut s, d1);
    push_char(&mut s, d2);
    s.append(" ");
    if k == 1 {
        s.append("KB");
    } else if k == 2 {
        s.append("MB");
    } else if k == 3 {
        s.append("GB");
    } else {
        s.append("TB");
    }
    proof {
        assert(s@ =~= size_str(size, cap as nat));
    }
    s
}

} // verus!
