use vstd::prelude::*;

verus! {

/// Whether `p` is a prefix of `s`, at the level of character sequences.
pub fn str_has_prefix(s: &str, p: &str) -> (r: bool)
    ensures
        r == p@.is_prefix_of(s@),
{
    let sl = s.unicode_len();
    let pl = p.unicode_len();
    if pl > sl {
        return false;
    }
    let mut i: usize = 0;
    while i < pl
        invariant
            0 <= i <= pl,
            pl <= sl,
            pl == p@.len(),
            sl == s@.len(),
            forall|j: int| 0 <= j < i ==> p@[j] == s@[j],
        decreases pl - i,
    {
        if s.get_char(i) != p.get_char(i) {
            proof {
                assert(p@.is_prefix_of(s@) ==> p@[i as int] == s@.subrange(0, p@.len() as int)[i as int]);
            }
            return false;
        }
        i = i + 1;
    }
    proof {
        assert(p@ =~= s@.subrange(0, p@.len() as int));
    }
    true
}

/// The last index at which `c` occurs in `s`, if any.
pub fn find_last_char(s: &str, c: char) -> (r: Option<usize>)
    ensures
        match r {
            Some(i) => s@.index_of_last(c) == Some(i as int),
            None => s@.index_of_last(c) == None::<int>,
        },
{
    let n = s.unicode_len();
    let mut i: usize = n;
    while i > 0
        invariant
            0 <= i <= n,
            n == s@.len(),
            forall|j: int| i <= j < n ==> s@[j] != c,
        decreases i,
    {
        i = i - 1;
        if s.get_char(i) == c {
            proof {
                s@.index_of_last_ensures(c);
                assert(s@.contains(c)) by {
                    assert(s@[i as int] == c);
                }
                let idx = s@.index_of_last(c).unwrap();
                assert(idx == i as int) by {
                    if idx < i as int {
                        assert(s@[i as int] != c);
                    }
                }
            }
            return Some(i);
        }
    }
    proof {
        s@.index_of_last_ensures(c);
        if s@.contains(c) {
            let j = choose|j: int| 0 <= j < s@.len() && s@[j] == c;
            assert(s@[j] != c);
        }
    }
    None
}

/// The portion of a path after its last separator; the whole path when it
/// has none.
pub open spec fn spec_file_name(p: Seq<char>) -> Seq<char> {
    match p.index_of_last('/') {
        Some(i) => p.skip(i + 1),
        None => p,
    }
}

/// The portion of `path` after the last `/`.
pub fn file_name_part(path: &str) -> (r: String)
    ensures
        r@ == spec_file_name(path@),
{
    match find_last_char(path, '/') {
        Some(i) => {
            proof {
                path@.index_of_last_ensures('/');
            }
            let n = path.unicode_len();
            let sub = path.substring_char(i + 1, n);
            proof {
                assert(sub@ =~= path@.skip(i as int + 1));
            }
            sub.to_owned()
        },
        None => path.to_owned(),
    }
}

/// The stem of a file name: everything before the last dot, unless the dot
/// leads the name (as in a hidden file) or there is none.
pub open spec fn spec_stem(nm: Seq<char>) -> Seq<char> {
    match nm.index_of_last('.') {
        Some(i) => if i >= 1 {
            nm.take(i)
        } else {
            nm
        },
        None => nm,
    }
}

/// The part of `nm` before its last dot, unless that dot leads.
pub fn stem_part(nm: &str) -> (r: String)
    ensures
        r@ == spec_stem(nm@),
{
    match find_last_char(nm, '.') {
        Some(i) => {
            proof {
                nm@.index_of_last_ensures('.');
            }
            if i >= 1 {
                let sub = nm.substring_char(0, i);
                proof {
                    assert(sub@ =~= nm@.take(i as int));
                }
                sub.to_owned()
            } else {
                nm.to_owned()
            }
        },
        None => nm.to_owned(),
    }
}

/// A copy of a vector of positions.
pub fn copy_positions(v: &Vec<usize>) -> (r: Vec<usize>)
    ensures
        r@ == v@,
{
    let mut r: Vec<usize> = Vec::new();
    let n = v.len();
    let mut i: usize = 0;
    while i < n
        invariant
            0 <= i <= n,
            n == v@.len(),
            r@ == v@.take(i as int),
        decreases n - i,
    {
        r.push(v[i]);
        proof {
            assert(v@.take(i as int).push(v@[i as int]) =~= v@.take(i as int + 1));
        }
        i = i + 1;
    }
    proof {
        assert(v@.take(n as int) =~= v@);
    }
    r
}

// ---------------------------------------------------------------------------
// Splitting on a separator character.
// ---------------------------------------------------------------------------

/// The segments of `s` between occurrences of `sep`: always one more segment
/// than separators, so a trailing separator yields a final empty segment.
pub open spec fn split_all(s: Seq<char>, sep: char) -> Seq<Seq<char>>
    decreases s.len(),
{
    if s.len() == 0 {
        seq![Seq::empty()]
    } else if s.last() == sep {
        split_all(s.drop_last(), sep).push(Seq::empty())
    } else {
        let r = split_all(s.drop_last(), sep);
        r.update(r.len() - 1, r.last().push(s.last()))
    }
}

/// A split has at least one segment.
pub proof fn lemma_split_all_nonempty(s: Seq<char>, sep: char)
    ensures
        split_all(s, sep).len() >= 1,
    decreases s.len(),
{
    if s.len() > 0 {
        lemma_split_all_nonempty(s.drop_last(), sep);
    }
}

/// The lines of a text, in the manner of a line reader: segments between
/// newlines, except that a final empty segment after a trailing newline is
/// not a line.
pub open spec fn split_lines(s: Seq<char>) -> Seq<Seq<char>> {
    if s.len() == 0 {
        Seq::empty()
    } else if split_all(s, '\n').last().len() == 0 {
        split_all(s, '\n').drop_last()
    } else {
        split_all(s, '\n')
    }
}

/// The views of a vector of strings.
pub open spec fn str_views(v: Seq<String>) -> Seq<Seq<char>> {
    v.map_values(|x: String| x@)
}

/// Splits `s` at every occurrence of `sep`, keeping empty segments,
/// including a final one after a trailing separator.
pub fn split_string(s: &str, sep: char) -> (r: Vec<String>)
    ensures
        str_views(r@) == split_all(s@, sep),
{
    let n = s.unicode_len();
    let mut r: Vec<String> = Vec::new();
    let mut start: usize = 0;
    let mut i: usize = 0;
    proof {
        assert(s@.subrange(0, 0) =~= Seq::<char>::empty());
        assert(s@.take(0) =~= Seq::<char>::empty());
        assert(split_all(Seq::<char>::empty(), sep) == seq![Seq::<char>::empty()]);
        assert(str_views(r@).push(s@.subrange(0, 0)) =~= split_all(s@.take(0), sep));
    }
    while i < n
        invariant
            0 <= start <= i <= n,
            n == s@.len(),
            str_views(r@).push(s@.subrange(start as int, i as int)) == split_all(s@.take(i as int), sep),
        decreases n - i,
    {
        let ghost pre = str_views(r@);
        let ghost seg = s@.subrange(start as int, i as int);
        let c = s.get_char(i);
        proof {
            assert(s@.take(i as int + 1).drop_last() =~= s@.take(i as int));
            assert(s@.take(i as int + 1).last() == s@[i as int]);
        }
        if c == sep {
            let piece = s.substring_char(start, i);
            r.push(piece.to_owned());
            start = i + 1;
            proof {
                assert(piece@ =~= seg);
                assert(str_views(r@) =~= pre.push(seg));
                assert(split_all(s@.take(i as int + 1), sep)
                    == split_all(s@.take(i as int), sep).push(Seq::empty()));
                assert(s@.subrange(i as int + 1, i as int + 1) =~= Seq::<char>::empty());
                assert(str_views(r@).push(s@.subrange(i as int + 1, i as int + 1))
                    =~= pre.push(seg).push(Seq::empty()));
            }
        } else {
            proof {
                let r0 = split_all(s@.take(i as int), sep);
                lemma_split_all_nonempty(s@.take(i as int), sep);
                assert(split_all(s@.take(i as int + 1), sep)
                    == r0.update(r0.len() - 1, r0.last().push(s@[i as int])));
                assert(r0 == pre.push(seg));
                assert(r0.last() == seg);
                assert(seg.push(s@[i as int]) =~= s@.subrange(start as int, i as int + 1));
                assert(r0.update(r0.len() - 1, seg.push(s@[i as int]))
                    =~= pre.push(s@.subrange(start as int, i as int + 1)));
            }
        }
        i = i + 1;
    }
    let ghost pre = str_views(r@);
    let piece = s.substring_char(start, n);
    r.push(piece.to_owned());
    proof {
        assert(s@.take(n as int) =~= s@);
        assert(piece@ =~= s@.subrange(start as int, n as int));
        assert(str_views(r@) =~= pre.push(piece@));
    }
    r
}

/// Splits a text into its lines: a final empty segment after a trailing
/// newline is not a line.
pub fn split_lines_vec(s: &str) -> (r: Vec<String>)
    ensures
        str_views(r@) == split_lines(s@),
{
    if s.unicode_len() == 0 {
        let r: Vec<String> = Vec::new();
        proof {
            assert(str_views(r@) =~= split_lines(s@));
        }
        return r;
    }
    let mut r = split_string(s, '\n');
    proof {
        lemma_split_all_nonempty(s@, '\n');
    }
    let last_len = r[r.len() - 1].as_str().unicode_len();
    if last_len == 0 {
        let _ = r.pop();
        proof {
            assert(str_views(r@) =~= split_all(s@, '\n').drop_last());
        }
    }
    r
}

// ---------------------------------------------------------------------------
// Decimal digits.
// ---------------------------------------------------------------------------

/// Whether `c` is a decimal digit.
pub open spec fn is_digit(c: char) -> bool {
    48 <= c as int <= 57
}

/// The value of a digit character.
pub open spec fn digit_val(c: char) -> int {
    c as int - 48
}

/// Whether every character of `s` is a decimal digit.
pub open spec fn all_digits(s: Seq<char>) -> bool {
    forall|i: int| 0 <= i < s.len() ==> is_digit(#[trigger] s[i])
}

/// The number that a sequence of digit characters denotes.
pub open spec fn digits_val(s: Seq<char>) -> int
    decreases s.len(),
{
    if s.len() == 0 {
        0
    } else {
        digits_val(s.drop_last()) * 10 + digit_val(s.last())
    }
}

/// A digit string denotes a non-negative number.
pub proof fn lemma_digits_val_nonneg(s: Seq<char>)
    requires
        all_digits(s),
    ensures
        digits_val(s) >= 0,
    decreases s.len(),
{
    if s.len() > 0 {
        assert(all_digits(s.drop_last()));
        lemma_digits_val_nonneg(s.drop_last());
    }
}

/// Extending a digit string never shrinks its value.
pub proof fn lemma_digits_val_prefix(s: Seq<char>, i: int)
    requires
        all_digits(s),
        0 <= i <= s.len(),
    ensures
        digits_val(s.take(i)) <= digits_val(s),
    decreases s.len() - i,
{
    if i < s.len() {
        lemma_digits_val_prefix(s, i + 1);
        assert(s.take(i + 1).drop_last() =~= s.take(i));
        assert(all_digits(s.take(i + 1)));
        assert(all_digits(s.take(i)));
        lemma_digits_val_nonneg(s.take(i));
        assert(digits_val(s.take(i + 1))
            == digits_val(s.take(i)) * 10 + digit_val(s.take(i + 1).last()));
        assert(digits_val(s.take(i)) <= digits_val(s.take(i + 1)));
    } else {
        assert(s.take(i) =~= s);
    }
}

/// The character of one digit.
pub open spec fn digit_char(d: int) -> char {
    if d == 0 { '0' } else if d == 1 { '1' } else if d == 2 { '2' } else if d == 3 { '3' }
    else if d == 4 { '4' } else if d == 5 { '5' } else if d == 6 { '6' } else if d == 7 { '7' }
    else if d == 8 { '8' } else { '9' }
}

/// The decimal digits of a non-negative number, most significant first.
pub open spec fn dec_digits(n: int) -> Seq<char>
    decreases n,
{
    if n < 10 {
        seq![digit_char(n)]
    } else {
        dec_digits(n / 10).push(digit_char(n % 10))
    }
}

/// Decimal digits are digits, and the denoted value is the number itself.
pub proof fn lemma_dec_digits(n: int)
    requires
        n >= 0,
    ensures
        all_digits(dec_digits(n)),
        digits_val(dec_digits(n)) == n,
        dec_digits(n).len() >= 1,
    decreases n,
{
    if n < 10 {
        assert(dec_digits(n) =~= seq![digit_char(n)]);
        assert(seq![digit_char(n)].drop_last() =~= Seq::<char>::empty());
        assert(digits_val(Seq::<char>::empty()) == 0);
        assert(digits_val(seq![digit_char(n)]) == digit_val(digit_char(n)));
        assert(is_digit(digit_char(n))) by {
            assert('0' as int == 48 && '1' as int == 49 && '2' as int == 50 && '3' as int == 51
                && '4' as int == 52 && '5' as int == 53 && '6' as int == 54 && '7' as int == 55
                && '8' as int == 56 && '9' as int == 57);
        }
        assert(digit_val(digit_char(n)) == n) by {
            assert('0' as int == 48 && '1' as int == 49 && '2' as int == 50 && '3' as int == 51
                && '4' as int == 52 && '5' as int == 53 && '6' as int == 54 && '7' as int == 55
                && '8' as int == 56 && '9' as int == 57);
        }
    } else {
        lemma_dec_digits(n / 10);
        assert(is_digit(digit_char(n % 10)) && digit_val(digit_char(n % 10)) == n % 10) by {
            assert('0' as int == 48 && '1' as int == 49 && '2' as int == 50 && '3' as int == 51
                && '4' as int == 52 && '5' as int == 53 && '6' as int == 54 && '7' as int == 55
                && '8' as int == 56 && '9' as int == 57);
        }
        let d = dec_digits(n);
        assert(d.drop_last() =~= dec_digits(n / 10));
        assert(all_digits(d)) by {
            assert(forall|i: int| 0 <= i < d.len() - 1
                ==> #[trigger] d[i] == dec_digits(n / 10)[i]);
        }
    }
}

/// The string of one digit.
fn digit_str(d: u64) -> (r: &'static str)
    requires
        d < 10,
    ensures
        r@ == seq![digit_char(d as int)],
{
    proof {
        reveal_strlit("0");
        reveal_strlit("1");
        reveal_strlit("2");
        reveal_strlit("3");
        reveal_strlit("4");
        reveal_strlit("5");
        reveal_strlit("6");
        reveal_strlit("7");
        reveal_strlit("8");
        reveal_strlit("9");
    }
    let r: &'static str = match d {
        0 => "0",
        1 => "1",
        2 => "2",
        3 => "3",
        4 => "4",
        5 => "5",
        6 => "6",
        7 => "7",
        8 => "8",
        _ => "9",
    };
    proof {
        assert(r@ =~= seq![digit_char(d as int)]);
    }
    r
}

/// Writes a number in decimal.
pub fn format_u64(n: u64) -> (r: String)
    ensures
        r@ == dec_digits(n as int),
    decreases n,
{
    if n < 10 {
        digit_str(n).to_owned()
    } else {
        let mut s = format_u64(n / 10);
        s.append(digit_str(n % 10));
        proof {
            assert(s@ =~= dec_digits(n as int));
        }
        s
    }
}

/// Reads a number written in decimal; nothing unless the whole string is
/// digits and the value fits.
pub fn parse_u64(s: &str) -> (r: Option<u64>)
    ensures
        match r {
            Some(v) => s@.len() > 0 && all_digits(s@) && digits_val(s@) == v as int,
            None => s@.len() == 0 || !all_digits(s@) || digits_val(s@) > u64::MAX,
        },
{
    let n = s.unicode_len();
    if n == 0 {
        return None;
    }
    let mut acc: u64 = 0;
    let mut i: usize = 0;
    proof {
        assert(s@.take(0) =~= Seq::<char>::empty());
    }
    while i < n
        invariant
            0 <= i <= n,
            n == s@.len(),
            all_digits(s@.take(i as int)),
            acc as int == digits_val(s@.take(i as int)),
        decreases n - i,
    {
        let c = s.get_char(i);
        let u = c as u32;
        proof {
            assert(s@.take(i as int + 1).drop_last() =~= s@.take(i as int));
            assert(s@.take(i as int + 1).last() == s@[i as int]);
        }
        if u < 48 || u > 57 {
            proof {
                assert(!is_digit(s@[i as int]));
            }
            return None;
        }
        let d = (u - 48) as u64;
        let wide: u128 = acc as u128 * 10 + d as u128;
        if wide > u64::MAX as u128 {
            proof {
                assert(all_digits(s@.take(i as int + 1)));
                assert(digits_val(s@.take(i as int + 1)) == acc as int * 10 + d as int);
                if all_digits(s@) {
                    lemma_digits_val_prefix(s@, i as int + 1);
                    assert(s@.take(n as int) =~= s@);
                }
            }
            return None;
        }
        acc = wide as u64;
        i = i + 1;
    }
    proof {
        assert(s@.take(n as int) =~= s@);
    }
    Some(acc)
}

/// Ten to the `n`.
pub open spec fn pow10(n: nat) -> int
    decreases n,
{
    if n == 0 {
        1
    } else {
        10 * pow10((n - 1) as nat)
    }
}

/// A digit string of length `n` denotes less than ten to the `n`.
pub proof fn lemma_digits_val_bound(s: Seq<char>)
    requires
        all_digits(s),
    ensures
        0 <= digits_val(s) < pow10(s.len()),
    decreases s.len(),
{
    if s.len() > 0 {
        assert(all_digits(s.drop_last()));
        lemma_digits_val_bound(s.drop_last());
        assert(digit_val(s.last()) <= 9);
    }
}

/// Splitting a string free of the separator yields that one segment.
pub proof fn lemma_split_all_no_sep(s: Seq<char>, sep: char)
    requires
        forall|i: int| 0 <= i < s.len() ==> s[i] != sep,
    ensures
        split_all(s, sep) == seq![s],
    decreases s.len(),
{
    if s.len() == 0 {
        assert(split_all(s, sep) =~~= seq![s]);
    } else {
        assert(forall|i: int| 0 <= i < s.drop_last().len() ==> s.drop_last()[i] != sep);
        lemma_split_all_no_sep(s.drop_last(), sep);
        assert(s[s.len() - 1] != sep);
        assert(split_all(s, sep)
            == seq![s.drop_last()].update(0, s.drop_last().push(s.last())));
        assert(split_all(s, sep) =~~= seq![s]);
    }
}

/// Appending separator-free text extends the final segment.
pub proof fn lemma_split_all_append_free(s: Seq<char>, t: Seq<char>, sep: char)
    requires
        forall|i: int| 0 <= i < t.len() ==> t[i] != sep,
    ensures
        split_all(s + t, sep) == split_all(s, sep).update(
            split_all(s, sep).len() - 1,
            split_all(s, sep).last() + t,
        ),
    decreases t.len(),
{
    let base = split_all(s, sep);
    lemma_split_all_nonempty(s, sep);
    if t.len() == 0 {
        assert(s + t =~= s);
        assert(base.last() + t =~= base.last());
        assert(base.update(base.len() - 1, base.last()) =~= base);
    } else {
        assert(forall|i: int| 0 <= i < t.drop_last().len() ==> t.drop_last()[i] != sep);
        lemma_split_all_append_free(s, t.drop_last(), sep);
        let mid = split_all(s + t.drop_last(), sep);
        assert((s + t).drop_last() =~= s + t.drop_last());
        assert((s + t).last() == t.last());
        assert(t[t.len() - 1] != sep);
        assert(split_all(s + t, sep)
            == mid.update(mid.len() - 1, mid.last().push(t.last())));
        assert(mid.len() == base.len()) by {
            assert(mid == base.update(base.len() - 1, base.last() + t.drop_last()));
        }
        assert(mid.last() == base.last() + t.drop_last());
        assert(mid.last().push(t.last()) =~= base.last() + t);
        assert(mid.update(mid.len() - 1, base.last() + t)
            =~= base.update(base.len() - 1, base.last() + t));
    }
}

/// Splitting the concatenation of two separator-free parts around one
/// separator yields exactly those two segments.
pub proof fn lemma_split_all_pair(a: Seq<char>, b: Seq<char>, sep: char)
    requires
        forall|i: int| 0 <= i < a.len() ==> a[i] != sep,
        forall|i: int| 0 <= i < b.len() ==> b[i] != sep,
    ensures
        split_all(a + seq![sep] + b, sep) == seq![a, b],
    decreases b.len(),
{
    lemma_split_all_no_sep(a, sep);
    assert((a + seq![sep]).last() == sep);
    assert((a + seq![sep]).drop_last() =~= a);
    assert(split_all(a + seq![sep], sep) == seq![a].push(Seq::empty()));
    lemma_split_all_append_free(a + seq![sep], b, sep);
    let base = seq![a].push(Seq::<char>::empty());
    assert(a + seq![sep] + b =~= (a + seq![sep]) + b);
    assert(split_all((a + seq![sep]) + b, sep)
        == base.update(base.len() - 1, base.last() + b));
    assert(Seq::<char>::empty() + b =~= b);
    assert(base.update(1, base.last() + b) =~= seq![a, b]);
}

// ---------------------------------------------------------------------------
// Durations as decimal seconds.
// ---------------------------------------------------------------------------

/// The fraction written after the decimal point for `f` milliseconds
/// (`0 < f < 1000`): up to three digits, trailing zeros trimmed.
pub open spec fn frac_digits(f: int) -> Seq<char> {
    seq![digit_char(f / 100)] + if f % 100 == 0 {
        Seq::empty()
    } else if f % 10 == 0 {
        seq![digit_char((f / 10) % 10)]
    } else {
        seq![digit_char((f / 10) % 10), digit_char(f % 10)]
    }
}

/// A duration in milliseconds written as decimal seconds: the whole seconds,
/// then the trimmed millisecond fraction when there is one.
pub open spec fn render_ms(ms: int) -> Seq<char> {
    if ms % 1000 == 0 {
        dec_digits(ms / 1000)
    } else {
        dec_digits(ms / 1000) + seq!['.'] + frac_digits(ms % 1000)
    }
}

/// Writes a duration in milliseconds as decimal seconds.
pub fn format_ms(ms: u64) -> (r: String)
    ensures
        r@ == render_ms(ms as int),
{
    let secs = ms / 1000;
    let f = ms % 1000;
    let mut out = format_u64(secs);
    if f != 0 {
        proof {
            reveal_strlit(".");
        }
        out.append(".");
        out.append(digit_str(f / 100));
        if f % 100 != 0 {
            if f % 10 == 0 {
                out.append(digit_str((f / 10) % 10));
            } else {
                out.append(digit_str((f / 10) % 10));
                out.append(digit_str(f % 10));
            }
        }
        proof {
            assert(out@ =~= render_ms(ms as int));
        }
    }
    out
}

/// The milliseconds denoted by a fraction of one to three digits.
pub open spec fn frac_val(fp: Seq<char>) -> int {
    digits_val(fp) * if fp.len() == 1 {
        100int
    } else if fp.len() == 2 {
        10int
    } else {
        1int
    }
}

/// What a decimal-seconds string denotes, in milliseconds: whole seconds in
/// digits, optionally followed by a point and one to three fraction digits.
pub open spec fn parse_ms(s: Seq<char>) -> Option<int> {
    let parts = split_all(s, '.');
    if parts.len() == 1 {
        let ip = parts[0];
        if ip.len() > 0 && all_digits(ip) && digits_val(ip) * 1000 <= u64::MAX {
            Some(digits_val(ip) * 1000)
        } else {
            None
        }
    } else if parts.len() == 2 {
        let ip = parts[0];
        let fp = parts[1];
        if ip.len() > 0 && all_digits(ip) && 1 <= fp.len() <= 3 && all_digits(fp)
            && digits_val(ip) * 1000 + frac_val(fp) <= u64::MAX {
            Some(digits_val(ip) * 1000 + frac_val(fp))
        } else {
            None
        }
    } else {
        None
    }
}

/// Reads a duration written as decimal seconds, in milliseconds.
pub fn parse_ms_str(s: &str) -> (r: Option<u64>)
    ensures
        match r {
            Some(v) => parse_ms(s@) == Some(v as int),
            None => parse_ms(s@) == None::<int>,
        },
{
    let parts = split_string(s, '.');
    if parts.len() == 1 {
        let ipv = match parse_u64(parts[0].as_str()) {
            Some(v) => v,
            None => {
                proof {
                    if all_digits(parts@[0]@) {
                        lemma_digits_val_nonneg(parts@[0]@);
                    }
                }
                return None;
            },
        };
        let wide: u128 = ipv as u128 * 1000;
        if wide > u64::MAX as u128 {
            return None;
        }
        Some(wide as u64)
    } else if parts.len() == 2 {
        let ipv = match parse_u64(parts[0].as_str()) {
            Some(v) => v,
            None => {
                proof {
                    if all_digits(parts@[0]@) {
                        lemma_digits_val_nonneg(parts@[0]@);
                    }
                    if all_digits(parts@[1]@) {
                        lemma_digits_val_nonneg(parts@[1]@);
                    }
                }
                return None;
            },
        };
        let flen = parts[1].as_str().unicode_len();
        if flen < 1 || flen > 3 {
            return None;
        }
        let fv = match parse_u64(parts[1].as_str()) {
            Some(v) => v,
            None => {
                proof {
                    if all_digits(parts@[1]@) {
                        lemma_digits_val_bound(parts@[1]@);
                        assert(pow10(0) == 1);
                        assert(pow10(1) == 10 * pow10(0));
                        assert(pow10(2) == 10 * pow10(1));
                        assert(pow10(3) == 10 * pow10(2));
                    }
                }
                return None;
            },
        };
        proof {
            lemma_digits_val_bound(parts@[1]@);
            assert(pow10(0) == 1);
            assert(pow10(1) == 10 * pow10(0));
            assert(pow10(2) == 10 * pow10(1));
            assert(pow10(3) == 10 * pow10(2));
        }
        let fms: u64 = if flen == 1 {
            fv * 100
        } else if flen == 2 {
            fv * 10
        } else {
            fv
        };
        let wide: u128 = ipv as u128 * 1000 + fms as u128;
        if wide > u64::MAX as u128 {
            return None;
        }
        Some(wide as u64)
    } else {
        None
    }
}

/// Whether the two string slices hold the same characters.
pub fn str_eq(s: &str, t: &str) -> (r: bool)
    ensures
        r == (s@ == t@),
{
    let r = s.unicode_len() == t.unicode_len() && str_has_prefix(s, t);
    proof {
        if s@.len() == t@.len() && t@.is_prefix_of(s@) {
            assert(s@ =~= t@);
        }
        if s@ == t@ {
            assert(t@.is_prefix_of(s@)) by {
                assert(t@ =~= s@.subrange(0, t@.len() as int));
            }
        }
    }
    r
}

} // verus!
