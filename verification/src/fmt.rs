//! Textual building blocks of the scale file format: character classes,
//! decimal numbers, comma/newline splitting with field trimming, and the
//! `Percent` token.
//!
//! The input format is line-oriented: one record per line, fields separated
//! by commas, each field trimmed of surrounding spaces and tabs, empty lines
//! ignored.  Everything here is stated over `Seq<char>` views.
use vstd::prelude::*;

verus! {

// ---------------------------------------------------------------------------
// Character classes
// ---------------------------------------------------------------------------
/// A decimal digit.
pub open spec fn is_digit(c: char) -> bool {
    '0' <= c && c <= '9'
}

/// Numeric value of a decimal digit.
pub open spec fn digit_val(c: char) -> int {
    c as int - '0' as int
}

/// Field-level whitespace: what trimming removes around a field.
pub open spec fn is_space(c: char) -> bool {
    c == ' ' || c == '\t'
}

/// Digit of a character, if it is one.
pub fn digit_of(c: char) -> (r: Option<u8>)
    ensures
        r is Some <==> is_digit(c),
        r is Some ==> r->0 == digit_val(c),
{
    if c == '0' {
        Some(0)
    } else if c == '1' {
        Some(1)
    } else if c == '2' {
        Some(2)
    } else if c == '3' {
        Some(3)
    } else if c == '4' {
        Some(4)
    } else if c == '5' {
        Some(5)
    } else if c == '6' {
        Some(6)
    } else if c == '7' {
        Some(7)
    } else if c == '8' {
        Some(8)
    } else if c == '9' {
        Some(9)
    } else {
        None
    }
}

// ---------------------------------------------------------------------------
// Decimal numbers
// ---------------------------------------------------------------------------
/// Every character of `s` is a decimal digit.
pub open spec fn all_digits(s: Seq<char>) -> bool {
    forall|i: int| 0 <= i < s.len() ==> is_digit(#[trigger] s[i])
}

/// Value of a digit string read as a decimal number (0 for the empty string).
pub open spec fn dec_val(s: Seq<char>) -> int
    decreases s.len(),
{
    if s.len() == 0 {
        0
    } else {
        dec_val(s.drop_last()) * 10 + digit_val(s.last())
    }
}

/// A digit string never has a negative value.
pub proof fn lemma_dec_val_nonneg(s: Seq<char>)
    requires
        all_digits(s),
    ensures
        dec_val(s) >= 0,
    decreases s.len(),
{
    if s.len() > 0 {
        assert(all_digits(s.drop_last()));
        lemma_dec_val_nonneg(s.drop_last());
    }
}

/// The value of a digit string never drops as the string grows to the right.
pub proof fn lemma_dec_val_prefix(s: Seq<char>, i: int)
    requires
        all_digits(s),
        0 <= i <= s.len(),
    ensures
        dec_val(s.take(i)) <= dec_val(s),
    decreases s.len() - i,
{
    assert(all_digits(s.take(i)));
    lemma_dec_val_nonneg(s.take(i));
    if i < s.len() {
        assert(s.take(i + 1).drop_last() =~= s.take(i));
        assert(dec_val(s.take(i + 1)) == dec_val(s.take(i)) * 10 + digit_val(s[i]));
        lemma_dec_val_prefix(s, i + 1);
    } else {
        assert(s.take(i) =~= s);
    }
}

/// Parse a digit string as an unsigned byte: defined exactly when the string
/// is non-empty, all digits, and its value is at most 255.
pub open spec fn spec_parse_u8(s: Seq<char>) -> Option<u8> {
    if s.len() > 0 && all_digits(s) && dec_val(s) <= 255 {
        Some(dec_val(s) as u8)
    } else {
        None
    }
}

/// Parse the characters of a field as an unsigned byte.
pub fn parse_u8_chars(s: &Vec<char>) -> (r: Option<u8>)
    ensures
        r == spec_parse_u8(s@),
{
    match parse_uint_chars(s, 255) {
        Some(v) => {
            proof {
                lemma_dec_val_nonneg(s@);
            }
            Some(v as u8)
        },
        None => None,
    }
}

// ---------------------------------------------------------------------------
// Splitting on a separator character
// ---------------------------------------------------------------------------
/// Split `s` on every occurrence of `sep`.  The empty string splits into one
/// empty piece; each separator starts a new piece.
pub open spec fn split_on(s: Seq<char>, sep: char) -> Seq<Seq<char>>
    decreases s.len(),
{
    if s.len() == 0 {
        seq![Seq::<char>::empty()]
    } else {
        let prev = split_on(s.drop_last(), sep);
        if s.last() == sep {
            prev.push(Seq::<char>::empty())
        } else {
            prev.update(prev.len() - 1, prev.last().push(s.last()))
        }
    }
}

pub proof fn lemma_split_on_len(s: Seq<char>, sep: char)
    ensures
        split_on(s, sep).len() >= 1,
    decreases s.len(),
{
    if s.len() > 0 {
        lemma_split_on_len(s.drop_last(), sep);
    }
}

/// A string without the separator splits into itself alone.
pub proof fn lemma_split_on_no_sep(s: Seq<char>, sep: char)
    requires
        forall|i: int| 0 <= i < s.len() ==> s[i] != sep,
    ensures
        split_on(s, sep) == seq![s],
    decreases s.len(),
{
    if s.len() == 0 {
        assert(split_on(s, sep) =~~= seq![s]);
    } else {
        assert(forall|i: int|
            0 <= i < s.drop_last().len() ==> #[trigger] s.drop_last()[i] != sep);
        lemma_split_on_no_sep(s.drop_last(), sep);
        assert(split_on(s.drop_last(), sep) == seq![s.drop_last()]);
        assert(s.last() != sep);
        assert(s.drop_last().push(s.last()) =~= s);
        assert(split_on(s, sep) =~~= seq![s]);
    }
}

/// Splitting distributes over a separator: the pieces of `a + sep + b` are
/// the pieces of `a` followed by the pieces of `b`.
pub proof fn lemma_split_on_append(a: Seq<char>, b: Seq<char>, sep: char)
    ensures
        split_on(a + seq![sep] + b, sep) == split_on(a, sep) + split_on(b, sep),
    decreases b.len(),
{
    lemma_split_on_len(a, sep);
    lemma_split_on_len(b, sep);
    let w = a + seq![sep] + b;
    if b.len() == 0 {
        assert(w.drop_last() =~= a);
        assert(w.last() == sep);
        assert(split_on(b, sep) == seq![Seq::<char>::empty()]);
        assert(split_on(w, sep) == split_on(a, sep).push(Seq::<char>::empty()));
        assert(split_on(w, sep) =~~= split_on(a, sep) + split_on(b, sep));
    } else {
        lemma_split_on_append(a, b.drop_last(), sep);
        lemma_split_on_len(b.drop_last(), sep);
        assert(w.drop_last() =~= a + seq![sep] + b.drop_last());
        assert(w.last() == b.last());
        let u = split_on(a, sep);
        let v = split_on(b.drop_last(), sep);
        assert(split_on(w.drop_last(), sep) == u + v);
        if b.last() == sep {
            assert(split_on(w, sep) == (u + v).push(Seq::<char>::empty()));
            assert(split_on(b, sep) == v.push(Seq::<char>::empty()));
            assert(split_on(w, sep) =~~= u + split_on(b, sep));
        } else {
            assert((u + v).last() == v.last());
            assert(split_on(w, sep) == (u + v).update(
                u.len() + v.len() - 1,
                v.last().push(b.last()),
            ));
            assert(split_on(b, sep) == v.update(v.len() - 1, v.last().push(b.last())));
            assert(split_on(w, sep) =~~= u + split_on(b, sep));
        }
    }
}

/// The pieces of a split are free of the separator, and hold no character
/// that the split string did not hold.
pub proof fn lemma_split_pieces_clean(s: Seq<char>, sep: char)
    ensures
        forall|k: int|
            0 <= k < split_on(s, sep).len() ==> !(#[trigger] split_on(s, sep)[k]).contains(sep),
        forall|k: int, c: char|
            0 <= k < split_on(s, sep).len() && #[trigger] split_on(s, sep)[k].contains(c)
                ==> s.contains(c),
    decreases s.len(),
{
    if s.len() == 0 {
        assert(forall|c: char| !Seq::<char>::empty().contains(c));
    } else {
        lemma_split_pieces_clean(s.drop_last(), sep);
        lemma_split_on_len(s.drop_last(), sep);
        let prev = split_on(s.drop_last(), sep);
        let cur = split_on(s, sep);
        assert forall|c: char| s.drop_last().contains(c) implies s.contains(c) by {
            let i = choose|i: int| 0 <= i < s.drop_last().len() && s.drop_last()[i] == c;
            assert(s[i] == c);
        }
        if s.last() == sep {
            assert(cur == prev.push(Seq::<char>::empty()));
            assert(forall|c: char| !Seq::<char>::empty().contains(c));
            assert(forall|k: int| 0 <= k < cur.len() - 1 ==> cur[k] == prev[k]);
        } else {
            let ext = prev.last().push(s.last());
            assert(cur == prev.update(prev.len() - 1, ext));
            assert forall|c: char| ext.contains(c) implies prev.last().contains(c) || c
                == s.last() by {
                let i = choose|i: int| 0 <= i < ext.len() && ext[i] == c;
                if i < ext.len() - 1 {
                    assert(prev.last()[i] == c);
                }
            }
            assert(s.contains(s.last())) by {
                assert(s[s.len() - 1] == s.last());
            }
            assert(forall|k: int| 0 <= k < cur.len() - 1 ==> cur[k] == prev[k]);
            assert(cur[cur.len() - 1] == ext);
        }
    }
}

/// Dropping leading spaces keeps a suffix: the result starts with a
/// non-space character (unless empty) and holds only characters of `s`.
pub proof fn lemma_trim_start_props(s: Seq<char>)
    ensures
        trim_start_spec(s).len() > 0 ==> !is_space(trim_start_spec(s)[0]),
        forall|c: char| trim_start_spec(s).contains(c) ==> s.contains(c),
    decreases s.len(),
{
    if s.len() > 0 && is_space(s[0]) {
        lemma_trim_start_props(s.drop_first());
        assert forall|c: char| s.drop_first().contains(c) implies s.contains(c) by {
            let i = choose|i: int| 0 <= i < s.drop_first().len() && s.drop_first()[i] == c;
            assert(s[i + 1] == c);
        }
    }
}

/// Dropping trailing spaces keeps a prefix: the first character stays, the
/// result ends with a non-space character (unless empty), and it holds only
/// characters of `s`.
pub proof fn lemma_trim_end_props(s: Seq<char>)
    ensures
        trim_end_spec(s).len() > 0 ==> !is_space(trim_end_spec(s).last()),
        trim_end_spec(s).len() > 0 ==> trim_end_spec(s)[0] == s[0],
        forall|c: char| trim_end_spec(s).contains(c) ==> s.contains(c),
    decreases s.len(),
{
    if s.len() > 0 && is_space(s.last()) {
        lemma_trim_end_props(s.drop_last());
        assert forall|c: char| s.drop_last().contains(c) implies s.contains(c) by {
            let i = choose|i: int| 0 <= i < s.drop_last().len() && s.drop_last()[i] == c;
            assert(s[i] == c);
        }
    }
}

/// A trimmed field starts and ends with non-space characters, holds only
/// characters of the untrimmed field, and trims to itself.
pub proof fn lemma_trim_props(s: Seq<char>)
    ensures
        forall|c: char| trim_spec(s).contains(c) ==> s.contains(c),
        trim_spec(trim_spec(s)) == trim_spec(s),
{
    lemma_trim_start_props(s);
    lemma_trim_end_props(trim_start_spec(s));
    let t = trim_spec(s);
    if t.len() > 0 {
        assert(trim_start_spec(t) == t);
        assert(trim_end_spec(t) == t);
    }
}

/// Keeping non-empty lines keeps no character that no line held.
pub proof fn lemma_keep_nonempty_clean(ls: Seq<Seq<char>>, c: char)
    requires
        forall|j: int| 0 <= j < ls.len() ==> !(#[trigger] ls[j]).contains(c),
    ensures
        forall|k: int|
            0 <= k < keep_nonempty(ls).len() ==> !(#[trigger] keep_nonempty(ls)[k]).contains(c),
    decreases ls.len(),
{
    if ls.len() > 0 {
        assert(forall|j: int| 0 <= j < ls.drop_last().len() ==> ls.drop_last()[j] == ls[j]);
        lemma_keep_nonempty_clean(ls.drop_last(), c);
        let l = strip_cr(ls.last());
        assert(!ls.last().contains(c));
        assert(!l.contains(c)) by {
            if l.contains(c) {
                let i = choose|i: int| 0 <= i < l.len() && l[i] == c;
                assert(ls.last()[i] == c);
            }
        }
        let prev = keep_nonempty(ls.drop_last());
        if l.len() > 0 {
            assert(keep_nonempty(ls) == prev.push(l));
            assert(forall|k: int| 0 <= k < prev.len() ==> keep_nonempty(ls)[k] == prev[k]);
        }
    }
}

/// The views of a sequence of character vectors.
pub open spec fn views_of(s: Seq<Vec<char>>) -> Seq<Seq<char>> {
    s.map_values(|v: Vec<char>| v@)
}

/// Split a character vector on a separator, keeping every piece.
pub fn split_chars(s: &Vec<char>, sep: char) -> (out: Vec<Vec<char>>)
    ensures
        views_of(out@) == split_on(s@, sep),
{
    let ghost full = s@;
    let mut out: Vec<Vec<char>> = Vec::new();
    let mut cur: Vec<char> = Vec::new();
    let mut i: usize = 0;
    while i < s.len()
        invariant
            0 <= i <= s.len(),
            s@ == full,
            split_on(full.take(i as int), sep) == views_of(out@).push(cur@),
        decreases s.len() - i,
    {
        proof {
            assert(full.take(i + 1).drop_last() =~= full.take(i as int));
        }
        let c = s[i];
        if c == sep {
            let ghost prev_out = out@;
            let ghost prev_cur = cur@;
            out.push(cur);
            cur = Vec::new();
            proof {
                assert(views_of(out@) =~= views_of(prev_out).push(prev_cur));
                assert(split_on(full.take(i + 1), sep) =~~= views_of(out@).push(cur@));
            }
        } else {
            let ghost prev = views_of(out@).push(cur@);
            cur.push(c);
            proof {
                assert(prev.len() >= 1);
                assert(split_on(full.take(i + 1), sep) =~~= views_of(out@).push(cur@)) by {
                    assert(prev.update(prev.len() - 1, prev.last().push(c)) =~= views_of(
                        out@,
                    ).push(cur@));
                }
            }
        }
        i += 1;
    }
    proof {
        assert(full.take(i as int) =~= full);
    }
    let ghost prev_out = out@;
    let ghost prev_cur = cur@;
    out.push(cur);
    proof {
        assert(views_of(out@) =~= views_of(prev_out).push(prev_cur));
    }
    out
}

// ---------------------------------------------------------------------------
// Trimming
// ---------------------------------------------------------------------------
/// Drop leading spaces and tabs.
pub open spec fn trim_start_spec(s: Seq<char>) -> Seq<char>
    decreases s.len(),
{
    if s.len() > 0 && is_space(s[0]) {
        trim_start_spec(s.drop_first())
    } else {
        s
    }
}

/// Drop trailing spaces and tabs.
pub open spec fn trim_end_spec(s: Seq<char>) -> Seq<char>
    decreases s.len(),
{
    if s.len() > 0 && is_space(s.last()) {
        trim_end_spec(s.drop_last())
    } else {
        s
    }
}

/// Drop surrounding spaces and tabs.
pub open spec fn trim_spec(s: Seq<char>) -> Seq<char> {
    trim_end_spec(trim_start_spec(s))
}

/// A string that starts and ends with non-space characters trims to itself.
pub proof fn lemma_trim_of_trimmed(s: Seq<char>)
    requires
        s.len() > 0 ==> !is_space(s[0]),
        s.len() > 0 ==> !is_space(s.last()),
    ensures
        trim_spec(s) == s,
{
}

/// Whether `c` is a space, in executable code.
pub fn is_space_char(c: char) -> (b: bool)
    ensures
        b == is_space(c),
{
    c == ' ' || c == '\t'
}

/// Trim surrounding spaces and tabs from a character vector.
pub fn trim_chars(s: &Vec<char>) -> (out: Vec<char>)
    ensures
        out@ == trim_spec(s@),
{
    let ghost full = s@;
    proof {
        assert(full.skip(0) =~= full);
    }
    let mut lo: usize = 0;
    while lo < s.len() && is_space_char(s[lo])
        invariant
            0 <= lo <= s.len(),
            s@ == full,
            trim_start_spec(full) == trim_start_spec(full.skip(lo as int)),
        decreases s.len() - lo,
    {
        proof {
            assert(full.skip(lo as int).drop_first() =~= full.skip(lo + 1));
        }
        lo += 1;
    }
    proof {
        if lo < s.len() {
            assert(trim_start_spec(full.skip(lo as int)) == full.skip(lo as int));
        } else {
            assert(full.skip(lo as int) =~= Seq::<char>::empty());
        }
        assert(trim_start_spec(full) == full.skip(lo as int));
    }
    let mut hi: usize = s.len();
    while hi > lo && is_space_char(s[hi - 1])
        invariant
            lo <= hi <= s.len(),
            s@ == full,
            trim_start_spec(full) == full.skip(lo as int),
            trim_end_spec(full.skip(lo as int)) == trim_end_spec(
                full.subrange(lo as int, hi as int),
            ),
        decreases hi,
    {
        proof {
            assert(full.subrange(lo as int, hi as int).drop_last() =~= full.subrange(
                lo as int,
                hi - 1,
            ));
        }
        hi -= 1;
    }
    proof {
        if hi > lo {
            assert(trim_end_spec(full.subrange(lo as int, hi as int)) == full.subrange(
                lo as int,
                hi as int,
            ));
        } else {
            assert(full.subrange(lo as int, hi as int) =~= Seq::<char>::empty());
        }
        assert(trim_spec(full) == full.subrange(lo as int, hi as int));
    }
    let mut out: Vec<char> = Vec::new();
    let mut j: usize = lo;
    while j < hi
        invariant
            lo <= j <= hi <= s.len(),
            s@ == full,
            out@ == full.subrange(lo as int, j as int),
        decreases hi - j,
    {
        out.push(s[j]);
        proof {
            assert(full.subrange(lo as int, j + 1) =~= full.subrange(lo as int, j as int).push(
                full[j as int],
            ));
        }
        j += 1;
    }
    out
}

// ---------------------------------------------------------------------------
// Rendering decimal numbers
// ---------------------------------------------------------------------------
/// The digit character for a value in 0..9.
pub open spec fn digit_char(d: int) -> char {
    if d == 0 {
        '0'
    } else if d == 1 {
        '1'
    } else if d == 2 {
        '2'
    } else if d == 3 {
        '3'
    } else if d == 4 {
        '4'
    } else if d == 5 {
        '5'
    } else if d == 6 {
        '6'
    } else if d == 7 {
        '7'
    } else if d == 8 {
        '8'
    } else {
        '9'
    }
}

/// The decimal rendering of a non-negative number, without leading zeros.
pub open spec fn spec_dec(n: int) -> Seq<char>
    recommends
        n >= 0,
    decreases n,
{
    if n < 10 {
        seq![digit_char(n)]
    } else {
        spec_dec(n / 10).push(digit_char(n % 10))
    }
}

/// A decimal rendering consists of digits alone, and reads back as the
/// number it was made from.
pub proof fn lemma_dec_round_trip(n: int)
    requires
        n >= 0,
    ensures
        spec_dec(n).len() >= 1,
        all_digits(spec_dec(n)),
        dec_val(spec_dec(n)) == n,
    decreases n,
{
    reveal_with_fuel(dec_val, 2);
    reveal_with_fuel(spec_dec, 2);
    if n < 10 {
        let s = spec_dec(n);
        assert(s.drop_last() =~= Seq::<char>::empty());
        assert(dec_val(s) == digit_val(digit_char(n)));
    } else {
        lemma_dec_round_trip(n / 10);
        let s = spec_dec(n);
        assert(s.drop_last() =~= spec_dec(n / 10));
        assert(digit_val(digit_char(n % 10)) == n % 10);
        assert(dec_val(s) == (n / 10) * 10 + n % 10);
    }
}

/// Digits are none of the separator and marker characters of the format.
pub proof fn lemma_digit_not_marker(c: char)
    requires
        is_digit(c),
    ensures
        c != ',' && c != '\n' && c != '\r' && c != '%' && c != '.' && !is_space(c),
{
}

/// The literal for a digit value.
pub(crate) fn digit_str(d: u8) -> (r: &'static str)
    requires
        d <= 9,
    ensures
        r@ =~= seq![digit_char(d as int)],
{
    proof {
        reveal_strlit("0");
        reveal_strlit("1");
        reveal_strlit("2");
        reveal_strlit("3");
        reveal_strlit("4");
        reveal_strlit("5");
        reveal_strlit("6");
        reveal_strlit("7");
        reveal_strlit("8");
        reveal_strlit("9");
    }
    if d == 0 {
        "0"
    } else if d == 1 {
        "1"
    } else if d == 2 {
        "2"
    } else if d == 3 {
        "3"
    } else if d == 4 {
        "4"
    } else if d == 5 {
        "5"
    } else if d == 6 {
        "6"
    } else if d == 7 {
        "7"
    } else if d == 8 {
        "8"
    } else {
        "9"
    }
}

// ---------------------------------------------------------------------------
// Lines and fields
// ---------------------------------------------------------------------------
/// Drop a single trailing carriage return, left over from CRLF line endings.
pub open spec fn strip_cr(l: Seq<char>) -> Seq<char> {
    if l.len() > 0 && l.last() == '\r' {
        l.drop_last()
    } else {
        l
    }
}

/// Strip carriage returns from the given lines and drop the empty ones.
pub open spec fn keep_nonempty(ls: Seq<Seq<char>>) -> Seq<Seq<char>>
    decreases ls.len(),
{
    if ls.len() == 0 {
        Seq::<Seq<char>>::empty()
    } else {
        let prev = keep_nonempty(ls.drop_last());
        let l = strip_cr(ls.last());
        if l.len() == 0 {
            prev
        } else {
            prev.push(l)
        }
    }
}

/// The non-empty lines of a text, split on newlines.
pub open spec fn lines_spec(content: Seq<char>) -> Seq<Seq<char>> {
    keep_nonempty(split_on(content, '\n'))
}

/// Trim every field of a record.
pub open spec fn trim_all(fs: Seq<Seq<char>>) -> Seq<Seq<char>>
    decreases fs.len(),
{
    if fs.len() == 0 {
        Seq::<Seq<char>>::empty()
    } else {
        trim_all(fs.drop_last()).push(trim_spec(fs.last()))
    }
}

/// Keeping non-empty lines distributes over concatenation.
pub proof fn lemma_keep_nonempty_concat(u: Seq<Seq<char>>, v: Seq<Seq<char>>)
    ensures
        keep_nonempty(u + v) == keep_nonempty(u) + keep_nonempty(v),
    decreases v.len(),
{
    if v.len() == 0 {
        assert(u + v =~= u);
        assert(keep_nonempty(u) + keep_nonempty(v) =~= keep_nonempty(u));
    } else {
        lemma_keep_nonempty_concat(u, v.drop_last());
        assert((u + v).drop_last() =~= u + v.drop_last());
        assert((u + v).last() == v.last());
        if strip_cr(v.last()).len() == 0 {
            assert(keep_nonempty(u + v) =~= keep_nonempty(u) + keep_nonempty(v));
        } else {
            assert(keep_nonempty(u + v) =~= keep_nonempty(u) + keep_nonempty(v));
        }
    }
}

/// Trimming every field acts pointwise.
pub proof fn lemma_trim_all_is_map(fs: Seq<Seq<char>>)
    ensures
        trim_all(fs).len() == fs.len(),
        forall|i: int| 0 <= i < fs.len() ==> trim_all(fs)[i] == trim_spec(#[trigger] fs[i]),
    decreases fs.len(),
{
    if fs.len() > 0 {
        lemma_trim_all_is_map(fs.drop_last());
        assert(forall|i: int| 0 <= i < fs.len() - 1 ==> fs.drop_last()[i] == #[trigger] fs[i]);
    }
}

/// A single leading space trims away, leaving a field that starts and ends
/// with non-space characters unchanged.
pub proof fn lemma_trim_space_prefix(x: Seq<char>)
    requires
        x.len() > 0,
        !is_space(x[0]),
        !is_space(x.last()),
    ensures
        trim_spec(seq![' '] + x) == x,
{
    let s = seq![' '] + x;
    assert(is_space(s[0]));
    assert(s.drop_first() =~= x);
    assert(trim_start_spec(s) == trim_start_spec(x));
    assert(trim_start_spec(x) == x);
    assert(trim_end_spec(x) == x);
}

/// The digit character of a value reads back as that value.
pub proof fn lemma_digit_char_val(d: int)
    requires
        0 <= d <= 9,
    ensures
        is_digit(digit_char(d)),
        digit_val(digit_char(d)) == d,
{
}

/// The trimmed fields of one record line, split on commas.
pub open spec fn fields_spec(line: Seq<char>) -> Seq<Seq<char>> {
    trim_all(split_on(line, ','))
}

/// Split a text into its non-empty lines.
pub fn split_lines(content: &Vec<char>) -> (out: Vec<Vec<char>>)
    ensures
        views_of(out@) == lines_spec(content@),
{
    let raw = split_chars(content, '\n');
    let ghost rs = views_of(raw@);
    let mut out: Vec<Vec<char>> = Vec::new();
    let mut i: usize = 0;
    while i < raw.len()
        invariant
            0 <= i <= raw.len(),
            views_of(raw@) == rs,
            views_of(out@) == keep_nonempty(rs.take(i as int)),
        decreases raw.len() - i,
    {
        proof {
            assert(rs.take(i + 1).drop_last() =~= rs.take(i as int));
            assert(rs.take(i + 1).last() == raw[i as int]@);
        }
        let line = &raw[i];
        let end: usize = if line.len() > 0 && line[line.len() - 1] == '\r' {
            line.len() - 1
        } else {
            line.len()
        };
        proof {
            assert(strip_cr(line@) =~= line@.subrange(0, end as int));
        }
        let mut stripped: Vec<char> = Vec::new();
        let mut j: usize = 0;
        while j < end
            invariant
                0 <= j <= end <= line@.len(),
                stripped@ == line@.subrange(0, j as int),
            decreases end - j,
        {
            stripped.push(line[j]);
            proof {
                assert(line@.subrange(0, j + 1) =~= line@.subrange(0, j as int).push(
                    line@[j as int],
                ));
            }
            j += 1;
        }
        if stripped.len() > 0 {
            let ghost prev_out = out@;
            out.push(stripped);
            proof {
                assert(views_of(out@) =~= views_of(prev_out).push(strip_cr(line@)));
            }
        }
        i += 1;
    }
    proof {
        assert(rs.take(raw@.len() as int) =~= rs);
    }
    out
}

/// Split one record line into its trimmed fields.
pub fn split_fields(line: &Vec<char>) -> (out: Vec<Vec<char>>)
    ensures
        views_of(out@) == fields_spec(line@),
{
    let raw = split_chars(line, ',');
    let ghost rs = views_of(raw@);
    let mut out: Vec<Vec<char>> = Vec::new();
    let mut i: usize = 0;
    while i < raw.len()
        invariant
            0 <= i <= raw.len(),
            views_of(raw@) == rs,
            views_of(out@) == trim_all(rs.take(i as int)),
        decreases raw.len() - i,
    {
        proof {
            assert(rs.take(i + 1).drop_last() =~= rs.take(i as int));
            assert(rs.take(i + 1).last() == raw[i as int]@);
        }
        let ghost prev_out = out@;
        let trimmed = trim_chars(&raw[i]);
        out.push(trimmed);
        proof {
            assert(views_of(out@) =~= views_of(prev_out).push(trim_spec(raw[i as int]@)));
        }
        i += 1;
    }
    proof {
        assert(rs.take(raw@.len() as int) =~= rs);
    }
    out
}

/// Render a number in decimal, without leading zeros.
pub fn uint_to_string(n: u16) -> (r: String)
    ensures
        r@ == spec_dec(n as int),
    decreases n,
{
    if n < 10 {
        digit_str(n as u8).to_owned()
    } else {
        let r = uint_to_string(n / 10);
        r.concat(digit_str((n % 10) as u8))
    }
}

// ---------------------------------------------------------------------------
// Strings and character vectors
// ---------------------------------------------------------------------------
/// The characters of a string slice.
pub fn chars_of(s: &str) -> (v: Vec<char>)
    ensures
        v@ == s@,
{
    let n = s.unicode_len();
    let mut v: Vec<char> = Vec::new();
    let mut i: usize = 0;
    while i < n
        invariant
            0 <= i <= n,
            n == s@.len(),
            v@ == s@.take(i as int),
        decreases n - i,
    {
        v.push(s.get_char(i));
        proof {
            assert(s@.take(i + 1) =~= s@.take(i as int).push(s@[i as int]));
        }
        i += 1;
    }
    proof {
        assert(s@.take(n as int) =~= s@);
    }
    v
}

/// Relies on `String: FromIterator<char>`: collecting an iterator of
/// characters yields the string of exactly those characters, in order.
#[verifier::external_body]
pub fn chars_to_string(v: &Vec<char>) -> (r: String)
    ensures
        r@ == v@,
{
    v.iter().collect()
}

// ---------------------------------------------------------------------------
// Grade points in hundredths
// ---------------------------------------------------------------------------
/// Value in hundredths of a fraction field of at most two digits.
pub open spec fn frac_centi(fp: Seq<char>) -> int {
    if fp.len() == 0 {
        0
    } else if fp.len() == 1 {
        dec_val(fp) * 10
    } else {
        dec_val(fp)
    }
}

/// Parse a non-negative number with at most two decimal places as a count of
/// hundredths: `"4.33"` is 433, `"4"` is 400.  Defined exactly when the
/// integer part is a non-empty digit string, the fraction (if a point is
/// present) has at most two digits, and the value fits in sixteen bits.
pub open spec fn spec_parse_centi(s: Seq<char>) -> Option<u16> {
    let ps = split_on(s, '.');
    if ps.len() == 1 && ps[0].len() > 0 && all_digits(ps[0]) && dec_val(ps[0]) * 100 <= u16::MAX {
        Some((dec_val(ps[0]) * 100) as u16)
    } else if ps.len() == 2 && ps[0].len() > 0 && all_digits(ps[0]) && all_digits(ps[1])
        && ps[1].len() <= 2 && dec_val(ps[0]) * 100 + frac_centi(ps[1]) <= u16::MAX {
        Some((dec_val(ps[0]) * 100 + frac_centi(ps[1])) as u16)
    } else {
        None
    }
}

/// Parse the characters of a field as hundredths.
pub fn parse_centi_chars(s: &Vec<char>) -> (r: Option<u16>)
    ensures
        r == spec_parse_centi(s@),
{
    let pieces = split_chars(s, '.');
    let ghost ps = split_on(s@, '.');
    proof {
        lemma_split_on_len(s@, '.');
        assert(views_of(pieces@) == ps);
        assert(views_of(pieces@)[0] == pieces@[0]@);
    }
    if pieces.len() == 1 {
        match parse_uint_chars(&pieces[0], 655) {
            Some(v) => Some(v * 100),
            None => {
                proof {
                    if ps[0].len() > 0 && all_digits(ps[0]) {
                        lemma_dec_val_nonneg(ps[0]);
                    }
                }
                None
            },
        }
    } else if pieces.len() == 2 {
        proof {
            assert(views_of(pieces@)[1] == pieces@[1]@);
        }
        let ip = match parse_uint_chars(&pieces[0], 655) {
            Some(v) => v,
            None => {
                proof {
                    if ps[0].len() > 0 && all_digits(ps[0]) && all_digits(ps[1]) && ps[1].len()
                        <= 2 {
                        lemma_dec_val_nonneg(ps[0]);
                        lemma_frac_centi_bound(ps[1]);
                    }
                }
                return None;
            },
        };
        let fp = &pieces[1];
        if fp.len() > 2 {
            return None;
        }
        let frac: u16 = if fp.len() == 0 {
            0
        } else if fp.len() == 1 {
            match digit_of(fp[0]) {
                Some(d) => {
                    proof {
                        reveal_with_fuel(dec_val, 2);
                        assert(ps[1].drop_last() =~= Seq::<char>::empty());
                    }
                    d as u16 * 10
                },
                None => {
                    return None;
                },
            }
        } else {
            let d0 = match digit_of(fp[0]) {
                Some(d) => d,
                None => {
                    return None;
                },
            };
            let d1 = match digit_of(fp[1]) {
                Some(d) => d,
                None => {
                    proof {
                        assert(!all_digits(ps[1]));
                    }
                    return None;
                },
            };
            proof {
                reveal_with_fuel(dec_val, 3);
                assert(ps[1].drop_last() =~= seq![ps[1][0]]);
                assert(seq![ps[1][0]].drop_last() =~= Seq::<char>::empty());
                assert(all_digits(ps[1]));
            }
            d0 as u16 * 10 + d1 as u16
        };
        let total: u32 = ip as u32 * 100 + frac as u32;
        if total > u16::MAX as u32 {
            return None;
        }
        Some(total as u16)
    } else {
        None
    }
}

proof fn lemma_frac_centi_bound(fp: Seq<char>)
    requires
        all_digits(fp),
        fp.len() <= 2,
    ensures
        0 <= frac_centi(fp) <= 99,
{
    reveal_with_fuel(dec_val, 3);
    if fp.len() == 1 {
        assert(fp.drop_last() =~= Seq::<char>::empty());
    } else if fp.len() == 2 {
        assert(fp.drop_last() =~= seq![fp[0]]);
        assert(seq![fp[0]].drop_last() =~= Seq::<char>::empty());
    }
}

/// Parse a digit string as a number of at most `max`.
pub fn parse_uint_chars(s: &Vec<char>, max: u16) -> (r: Option<u16>)
    ensures
        r is Some <==> s@.len() > 0 && all_digits(s@) && dec_val(s@) <= max,
        r is Some ==> r->0 == dec_val(s@),
{
    if s.len() == 0 {
        return None;
    }
    let ghost full = s@;
    let mut acc: u16 = 0;
    let mut i: usize = 0;
    while i < s.len()
        invariant
            0 <= i <= s.len(),
            s@ == full,
            all_digits(full.take(i as int)),
            acc == dec_val(full.take(i as int)),
            acc <= max,
        decreases s.len() - i,
    {
        proof {
            assert(full.take(i + 1).drop_last() =~= full.take(i as int));
        }
        match digit_of(s[i]) {
            None => {
                assert(!all_digits(full)) by {
                    assert(!is_digit(full[i as int]));
                }
                return None;
            },
            Some(d) => {
                let next: u32 = acc as u32 * 10 + d as u32;
                assert(next == dec_val(full.take(i + 1)));
                if next > max as u32 {
                    proof {
                        if all_digits(full) {
                            lemma_dec_val_prefix(full, i + 1);
                        }
                    }
                    return None;
                }
                acc = next as u16;
            },
        }
        i += 1;
    }
    proof {
        assert(full.take(i as int) =~= full);
    }
    Some(acc)
}

// ---------------------------------------------------------------------------
// Percent tokens
// ---------------------------------------------------------------------------
/// Error raised when a token cannot be parsed.
#[derive(Debug, Clone, Copy, PartialEq, Eq, Structural)]
pub struct ParseError;

/// A percentage: the raw text token it was read from, and its whole-number
/// value.  The value is derivable from the token by removing every `%` sign
/// and reading the rest as an unsigned byte; values above 100 are not
/// rejected here.
#[derive(Debug, Clone, PartialEq, Eq)]
pub struct Percent {
    pub percent: String,
    pub value: u8,
}

/// Mathematical model of a `Percent`.
pub ghost struct PercentV {
    pub percent: Seq<char>,
    pub value: u8,
}

impl View for Percent {
    type V = PercentV;

    open spec fn view(&self) -> PercentV {
        PercentV { percent: self.percent@, value: self.value }
    }
}

impl DeepView for Percent {
    type V = PercentV;

    open spec fn deep_view(&self) -> PercentV {
        self@
    }
}

/// Remove every percent sign from a token.
pub open spec fn strip_pct(s: Seq<char>) -> Seq<char>
    decreases s.len(),
{
    if s.len() == 0 {
        s
    } else if s.last() == '%' {
        strip_pct(s.drop_last())
    } else {
        strip_pct(s.drop_last()).push(s.last())
    }
}

/// Parse a percent token: remove every `%` sign, read the rest as an
/// unsigned byte, and keep the raw token beside the value.
pub open spec fn spec_parse_percent(s: Seq<char>) -> Option<PercentV> {
    match spec_parse_u8(strip_pct(s)) {
        Some(v) => Some(PercentV { percent: s, value: v }),
        None => None,
    }
}

/// Stripping percent signs from a string without any leaves it unchanged.
pub proof fn lemma_strip_pct_no_pct(s: Seq<char>)
    requires
        forall|i: int| 0 <= i < s.len() ==> #[trigger] s[i] != '%',
    ensures
        strip_pct(s) == s,
    decreases s.len(),
{
    if s.len() > 0 {
        assert(forall|i: int|
            0 <= i < s.drop_last().len() ==> #[trigger] s.drop_last()[i] != '%');
        lemma_strip_pct_no_pct(s.drop_last());
        assert(s.last() != '%');
        assert(s.drop_last().push(s.last()) =~= s);
    }
}

/// A token that parses as a percent consists of digits and percent signs
/// alone: everything else would survive the stripping and fail the digit
/// check.
pub proof fn lemma_token_chars(token: Seq<char>)
    requires
        spec_parse_percent(token) is Some,
    ensures
        token.len() > 0,
        forall|i: int|
            0 <= i < token.len() ==> is_digit(#[trigger] token[i]) || token[i] == '%',
{
    lemma_stripped_digits(token);
    if token.len() == 0 {
        assert(strip_pct(token).len() == 0);
    }
}

/// If what survives percent stripping is all digits, the string held only
/// digits and percent signs.
proof fn lemma_stripped_digits(s: Seq<char>)
    requires
        all_digits(strip_pct(s)),
    ensures
        forall|i: int| 0 <= i < s.len() ==> is_digit(#[trigger] s[i]) || s[i] == '%',
        s.len() > 0 && s.last() != '%' ==> strip_pct(s).len() > 0,
    decreases s.len(),
{
    if s.len() > 0 {
        let prev = strip_pct(s.drop_last());
        if s.last() == '%' {
            lemma_stripped_digits(s.drop_last());
        } else {
            assert(strip_pct(s) == prev.push(s.last()));
            assert(all_digits(prev)) by {
                assert(forall|i: int|
                    0 <= i < prev.len() ==> prev.push(s.last())[i] == #[trigger] prev[i]);
            }
            lemma_stripped_digits(s.drop_last());
            assert(is_digit(strip_pct(s).last()));
        }
        assert(forall|i: int| 0 <= i < s.len() - 1 ==> s.drop_last()[i] == #[trigger] s[i]);
    }
}

/// Percent round trip: a value rendered as a decimal token with a trailing
/// percent sign parses back to exactly that value, with the token kept.
pub proof fn lemma_percent_round_trip(v: u8)
    ensures
        spec_parse_percent(spec_dec(v as int).push('%')) == Some(
            PercentV { percent: spec_dec(v as int).push('%'), value: v },
        ),
{
    lemma_dec_round_trip(v as int);
    let d = spec_dec(v as int);
    assert(forall|i: int| 0 <= i < d.len() ==> #[trigger] d[i] != '%') by {
        assert(forall|i: int| 0 <= i < d.len() ==> is_digit(#[trigger] d[i]));
        assert forall|i: int| 0 <= i < d.len() implies #[trigger] d[i] != '%' by {
            lemma_digit_not_marker(d[i]);
        }
    }
    lemma_strip_pct_no_pct(d);
    let t = d.push('%');
    assert(t.drop_last() =~= d);
    assert(strip_pct(t) == d);
    assert(spec_parse_u8(d) == Some(v));
}

impl Percent {
    /// Parse a percent token such as `"20%"`.  Returns the token's value
    /// exactly when the token without its `%` signs is a non-empty digit
    /// string whose value fits in a byte.
    pub fn parse(s: &str) -> (r: Result<Percent, ParseError>)
        ensures
            match r {
                Ok(p) => spec_parse_percent(s@) == Some(p@),
                Err(_) => spec_parse_percent(s@) is None,
            },
    {
        let cs = chars_of(s);
        let ghost full = s@;
        let mut stripped: Vec<char> = Vec::new();
        let mut i: usize = 0;
        while i < cs.len()
            invariant
                0 <= i <= cs.len(),
                cs@ == full,
                stripped@ == strip_pct(full.take(i as int)),
            decreases cs.len() - i,
        {
            proof {
                assert(full.take(i + 1).drop_last() =~= full.take(i as int));
            }
            let c = cs[i];
            if c != '%' {
                stripped.push(c);
            }
            i += 1;
        }
        proof {
            assert(full.take(i as int) =~= full);
        }
        match parse_u8_chars(&stripped) {
            Some(v) => Ok(Percent { percent: s.to_owned(), value: v }),
            None => Err(ParseError),
        }
    }
}

} // verus!
