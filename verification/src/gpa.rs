//! The grade-point scale: an ordered list of letter-grade buckets, each with
//! a grade-point value and an inclusive score range, looked up by first
//! match.
//!
//! Grade-point values are kept in hundredths (433 stands for 4.33), so that
//! the arithmetic stays exact.
use vstd::prelude::*;

use crate::fmt::{
    chars_of, chars_to_string, dec_val, digit_char, digit_str, fields_spec,
    frac_centi, is_digit, is_space, keep_nonempty, lemma_dec_round_trip, lemma_digit_char_val,
    lemma_digit_not_marker, lemma_keep_nonempty_concat, lemma_split_on_append, lemma_split_on_len,
    lemma_split_on_no_sep, lemma_split_pieces_clean, lemma_keep_nonempty_clean, lemma_trim_all_is_map, lemma_trim_of_trimmed, lemma_trim_props,
    lemma_trim_space_prefix, lines_spec, parse_centi_chars, parse_u8_chars, spec_dec,
    spec_parse_centi, spec_parse_u8, split_fields, split_lines, split_on, strip_cr, trim_spec,
    uint_to_string, views_of,
};

verus! {

/// One bucket of a grade-point scale: a letter label, a grade-point value in
/// hundredths, and the inclusive score range `lo..=hi` it covers.
#[derive(Debug, Clone, PartialEq)]
pub struct GradePoint {
    letter: String,
    grade_point: u16,
    lo: u8,
    hi: u8,
}

/// Mathematical model of a `GradePoint`.
pub ghost struct GradePointV {
    pub letter: Seq<char>,
    pub grade_point: u16,
    pub lo: u8,
    pub hi: u8,
}

impl View for GradePoint {
    type V = GradePointV;

    closed spec fn view(&self) -> GradePointV {
        GradePointV {
            letter: self.letter@,
            grade_point: self.grade_point,
            lo: self.lo,
            hi: self.hi,
        }
    }
}

impl DeepView for GradePoint {
    type V = GradePointV;

    open spec fn deep_view(&self) -> GradePointV {
        self@
    }
}

/// Whether a score falls in a bucket's inclusive range.
pub open spec fn in_range(e: GradePointV, value: u8) -> bool {
    e.lo <= value && value <= e.hi
}

impl GradePoint {
    /// Build a bucket from its parts; `grade_point` counts hundredths.
    pub fn new(letter: String, grade_point: u16, lo: u8, hi: u8) -> (r: GradePoint)
        ensures
            r@ == (GradePointV { letter: letter@, grade_point, lo, hi }),
    {
        GradePoint { letter, grade_point, lo, hi }
    }

    /// The letter label.
    pub fn letter(&self) -> (r: &str)
        ensures
            r@ == self@.letter,
    {
        self.letter.as_str()
    }

    /// The grade-point value, in hundredths.
    pub fn grade_point(&self) -> (r: u16)
        ensures
            r == self@.grade_point,
    {
        self.grade_point
    }

    /// The inclusive score range, as its two bounds.
    pub fn range(&self) -> (r: (u8, u8))
        ensures
            r.0 == self@.lo,
            r.1 == self@.hi,
    {
        (self.lo, self.hi)
    }

    /// Whether the score falls in this bucket's range.
    fn within(&self, value: &u8) -> (b: bool)
        ensures
            b == in_range(self@, *value),
    {
        self.lo <= *value && *value <= self.hi
    }

    /// A copy of this bucket.
    fn duplicate(&self) -> (r: GradePoint)
        ensures
            r@ == self@,
    {
        GradePoint {
            letter: self.letter.clone(),
            grade_point: self.grade_point,
            lo: self.lo,
            hi: self.hi,
        }
    }
}

/// The first bucket of the scale whose range contains the score, if any.
/// Declaration order breaks ties between overlapping ranges.
pub open spec fn spec_lookup(s: Seq<GradePointV>, value: u8) -> Option<GradePointV>
    decreases s.len(),
{
    if s.len() == 0 {
        None
    } else if in_range(s[0], value) {
        Some(s[0])
    } else {
        spec_lookup(s.drop_first(), value)
    }
}

/// The lookup succeeds exactly when some bucket of the scale contains the
/// score, and what it returns is the first such bucket: the one whose every
/// predecessor misses the score.
pub proof fn lemma_lookup_characterization(s: Seq<GradePointV>, value: u8)
    ensures
        (spec_lookup(s, value) is Some) <==> exists|i: int|
            0 <= i < s.len() && in_range(#[trigger] s[i], value),
        forall|k: int|
            0 <= k < s.len() && in_range(#[trigger] s[k], value) && (forall|j: int|
                0 <= j < k ==> !in_range(#[trigger] s[j], value)) ==> spec_lookup(s, value)
                == Some(s[k]),
    decreases s.len(),
{
    if s.len() > 0 {
        lemma_lookup_characterization(s.drop_first(), value);
        assert(forall|i: int|
            0 <= i < s.drop_first().len() ==> #[trigger] s.drop_first()[i] == s[i + 1]);
        if in_range(s[0], value) {
            assert(spec_lookup(s, value) == Some(s[0]));
        } else {
            assert(spec_lookup(s, value) == spec_lookup(s.drop_first(), value));
            if exists|i: int| 0 <= i < s.len() && in_range(#[trigger] s[i], value) {
                let w = choose|i: int| 0 <= i < s.len() && in_range(#[trigger] s[i], value);
                assert(w != 0);
                assert(in_range(s.drop_first()[w - 1], value));
            }
            assert forall|k: int|
                0 <= k < s.len() && in_range(#[trigger] s[k], value) && (forall|j: int|
                    0 <= j < k ==> !in_range(#[trigger] s[j], value)) implies spec_lookup(s, value)
                == Some(s[k]) by {
                assert(k != 0);
                assert(in_range(s.drop_first()[k - 1], value));
                assert(forall|j: int|
                    0 <= j < k - 1 ==> !in_range(#[trigger] s.drop_first()[j], value));
                assert(spec_lookup(s.drop_first(), value) == Some(s.drop_first()[k - 1]));
            }
        }
    }
}

/// Against a scale whose buckets all end at 100 or below, a score above 100
/// finds no bucket: an overshooting cumulative score is reported as
/// unmatched, never mapped to a made-up grade.
pub proof fn lemma_lookup_out_of_range(s: Seq<GradePointV>, value: u8)
    requires
        forall|i: int| 0 <= i < s.len() ==> (#[trigger] s[i]).hi <= 100,
        value > 100,
    ensures
        spec_lookup(s, value) is None,
    decreases s.len(),
{
    if s.len() > 0 {
        assert(!in_range(s[0], value));
        assert(forall|i: int|
            0 <= i < s.drop_first().len() ==> (#[trigger] s.drop_first()[i]).hi <= 100) by {
            assert(forall|i: int|
                0 <= i < s.drop_first().len() ==> s.drop_first()[i] == s[i + 1]);
        }
        lemma_lookup_out_of_range(s.drop_first(), value);
    }
}

/// An ordered grade-point scale.
#[derive(Debug, Clone)]
pub struct GradePointAverageScale {
    pub scale: Vec<GradePoint>,
}

pub type GPAScale = GradePointAverageScale;

impl View for GradePointAverageScale {
    type V = Seq<GradePointV>;

    open spec fn view(&self) -> Seq<GradePointV> {
        self.scale.deep_view()
    }
}

impl GradePointAverageScale {
    /// Map a score to its grade-point bucket: the first entry, in declared
    /// order, whose inclusive range contains the score, or `None` when no
    /// entry does.
    pub fn calc_gpa(&self, value: &u8) -> (r: Option<GradePoint>)
        ensures
            r.deep_view() == spec_lookup(self@, *value),
    {
        let ghost full = self@;
        proof {
            assert(full.skip(0) =~= full);
        }
        let mut i: usize = 0;
        while i < self.scale.len()
            invariant
                0 <= i <= self.scale.len(),
                self@ == full,
                full.len() == self.scale.len(),
                spec_lookup(full, *value) == spec_lookup(full.skip(i as int), *value),
            decreases self.scale.len() - i,
        {
            proof {
                assert(full.skip(i as int)[0] == full[i as int]);
                assert(full[i as int] == self.scale[i as int]@);
            }
            let grade = &self.scale[i];
            if grade.within(value) {
                return Some(grade.duplicate());
            }
            proof {
                assert(full.skip(i as int).drop_first() =~= full.skip(i + 1));
            }
            i += 1;
        }
        proof {
            assert(full.skip(i as int) =~= Seq::<GradePointV>::empty());
        }
        None
    }
}

/// The characters of a grade-point value rendered in hundredths, always with
/// two decimal places: 433 renders as `4.33`.
pub open spec fn spec_centi_chars(gp: u16) -> Seq<char> {
    spec_dec(gp as int / 100) + seq!['.'] + seq![
        digit_char((gp as int % 100) / 10),
        digit_char(gp as int % 10),
    ]
}

/// The characters of one serialized scale row, in the same comma-separated
/// format the loader reads.
pub open spec fn spec_gp_row_chars(e: GradePointV) -> Seq<char> {
    e.letter + seq![',', ' '] + spec_centi_chars(e.grade_point) + seq![',', ' '] + spec_dec(
        e.lo as int,
    ) + seq![','] + spec_dec(e.hi as int)
}

/// The characters of a whole serialized scale: one row per bucket, each
/// ended by a newline.
pub open spec fn spec_scale_chars(s: Seq<GradePointV>) -> Seq<char>
    decreases s.len(),
{
    if s.len() == 0 {
        Seq::<char>::empty()
    } else {
        spec_gp_row_chars(s[0]) + seq!['\n'] + spec_scale_chars(s.drop_first())
    }
}

/// Append one serialized scale row and a newline.
fn append_gp_row(out: &mut String, e: &GradePoint)
    ensures
        final(out)@ == old(out)@ + spec_gp_row_chars(e@) + seq!['\n'],
{
    let ghost start = out@;
    out.append(e.letter.as_str());
    out.append(", ");
    let ip = uint_to_string(e.grade_point / 100);
    out.append(ip.as_str());
    out.append(".");
    out.append(digit_str(((e.grade_point % 100) / 10) as u8));
    out.append(digit_str((e.grade_point % 10) as u8));
    out.append(", ");
    let lo = uint_to_string(e.lo as u16);
    out.append(lo.as_str());
    out.append(",");
    let hi = uint_to_string(e.hi as u16);
    out.append(hi.as_str());
    out.append("\n");
    proof {
        reveal_strlit(", ");
        reveal_strlit(".");
        reveal_strlit(",");
        reveal_strlit("\n");
        assert((e.grade_point % 10) as int == e.grade_point as int % 10);
        assert(((e.grade_point % 100) / 10) as int == (e.grade_point as int % 100) / 10);
        assert(out@ =~= start + spec_gp_row_chars(e@) + seq!['\n']);
    }
}

impl GradePointAverageScale {
    /// Serialize the scale back to the row format the loader reads: one
    /// `letter, grade_point, low,high` row per bucket, in order, with the
    /// grade-point value written with two decimal places.
    pub fn to_rows(&self) -> (r: String)
        ensures
            r@ == spec_scale_chars(self@),
    {
        let ghost full = self@;
        proof {
            assert(full.skip(0) =~= full);
        }
        let mut r = String::new();
        let mut i: usize = 0;
        while i < self.scale.len()
            invariant
                0 <= i <= self.scale.len(),
                self@ == full,
                full.len() == self.scale@.len(),
                r@ + spec_scale_chars(full.skip(i as int)) == spec_scale_chars(full),
            decreases self.scale.len() - i,
        {
            proof {
                assert(full.skip(i as int)[0] == full[i as int]);
                assert(full[i as int] == self.scale[i as int]@);
                assert(full.skip(i as int).drop_first() =~= full.skip(i + 1));
            }
            let ghost before = r@;
            append_gp_row(&mut r, &self.scale[i]);
            proof {
                assert(r@ + spec_scale_chars(full.skip(i + 1)) =~= before + spec_scale_chars(
                    full.skip(i as int),
                ));
            }
            i += 1;
        }
        proof {
            assert(full.skip(full.len() as int) =~= Seq::<GradePointV>::empty());
            assert(r@ =~= spec_scale_chars(full));
        }
        r
    }
}

/// A bucket that serialization can reproduce: its letter holds no comma and
/// no newline, and carries no surrounding whitespace.  Numeric fields need
/// nothing: they render back to themselves by construction.  Every bucket a
/// loader produced is of this shape (`lemma_loaded_scale_wf`).
pub open spec fn gp_wf(e: GradePointV) -> bool {
    &&& forall|i: int|
        0 <= i < e.letter.len() ==> (#[trigger] e.letter[i]) != ',' && e.letter[i] != '\n'
    &&& trim_spec(e.letter) == e.letter
}

/// A rendered grade-point value reads back to the value it was made from.
pub proof fn lemma_centi_round_trip(gp: u16)
    ensures
        spec_parse_centi(spec_centi_chars(gp)) == Some(gp),
{
    let ip = gp as int / 100;
    let d1 = (gp as int % 100) / 10;
    let d0 = gp as int % 10;
    let ipd = spec_dec(ip);
    let fr = seq![digit_char(d1), digit_char(d0)];
    let centi = spec_centi_chars(gp);
    lemma_dec_round_trip(ip);
    lemma_digit_char_val(d1);
    lemma_digit_char_val(d0);
    assert forall|i: int| 0 <= i < ipd.len() implies #[trigger] ipd[i] != '.' by {
        lemma_digit_not_marker(ipd[i]);
    }
    assert(forall|i: int| 0 <= i < fr.len() ==> is_digit(#[trigger] fr[i]));
    assert forall|i: int| 0 <= i < fr.len() implies #[trigger] fr[i] != '.' by {
        lemma_digit_not_marker(fr[i]);
    }
    assert(centi =~= ipd + seq!['.'] + fr);
    lemma_split_on_append(ipd, fr, '.');
    lemma_split_on_no_sep(ipd, '.');
    lemma_split_on_no_sep(fr, '.');
    let ps = split_on(centi, '.');
    assert(ps =~~= seq![ipd, fr]);
    reveal_with_fuel(dec_val, 3);
    assert(fr.drop_last() =~= seq![digit_char(d1)]);
    assert(seq![digit_char(d1)].drop_last() =~= Seq::<char>::empty());
    assert(dec_val(fr) == d1 * 10 + d0);
    assert(frac_centi(fr) == d1 * 10 + d0);
    assert(ip * 100 + (d1 * 10 + d0) == gp) by (nonlinear_arith)
        requires
            ip == gp as int / 100,
            d1 == (gp as int % 100) / 10,
            d0 == gp as int % 10,
    ;
    assert(spec_parse_centi(centi) == Some(gp));
}

/// Every character of a rendered grade-point value is a digit or the point.
proof fn lemma_centi_chars_class(gp: u16)
    ensures
        spec_centi_chars(gp).len() >= 4,
        forall|i: int|
            0 <= i < spec_centi_chars(gp).len() ==> is_digit(#[trigger] spec_centi_chars(gp)[i])
                || spec_centi_chars(gp)[i] == '.',
        is_digit(spec_centi_chars(gp)[0]),
        is_digit(spec_centi_chars(gp).last()),
{
    let ip = gp as int / 100;
    lemma_dec_round_trip(ip);
    lemma_digit_char_val((gp as int % 100) / 10);
    lemma_digit_char_val(gp as int % 10);
}

/// A serialized row splits into its four trimmed fields and parses back to
/// the bucket it was made from.
pub proof fn lemma_gp_row_parses(e: GradePointV)
    requires
        gp_wf(e),
    ensures
        spec_parse_gp_row(fields_spec(spec_gp_row_chars(e))) == Some(e),
{
    let letter = e.letter;
    let centi = spec_centi_chars(e.grade_point);
    let declo = spec_dec(e.lo as int);
    let dechi = spec_dec(e.hi as int);
    let row = spec_gp_row_chars(e);
    lemma_dec_round_trip(e.lo as int);
    lemma_dec_round_trip(e.hi as int);
    lemma_centi_chars_class(e.grade_point);
    assert forall|i: int| 0 <= i < centi.len() implies #[trigger] centi[i] != ','
        && !is_space(centi[i]) by {
        if is_digit(centi[i]) {
            lemma_digit_not_marker(centi[i]);
        }
    }
    assert forall|i: int| 0 <= i < declo.len() implies #[trigger] declo[i] != ','
        && !is_space(declo[i]) by {
        lemma_digit_not_marker(declo[i]);
    }
    assert forall|i: int| 0 <= i < dechi.len() implies #[trigger] dechi[i] != ','
        && !is_space(dechi[i]) by {
        lemma_digit_not_marker(dechi[i]);
    }
    let sp_centi = seq![' '] + centi;
    let sp_declo = seq![' '] + declo;
    let rest2 = sp_declo + seq![','] + dechi;
    let rest1 = sp_centi + seq![','] + rest2;
    assert(row =~= letter + seq![','] + rest1);
    lemma_split_on_append(letter, rest1, ',');
    lemma_split_on_append(sp_centi, rest2, ',');
    lemma_split_on_append(sp_declo, dechi, ',');
    lemma_split_on_no_sep(letter, ',');
    assert(forall|i: int| 0 <= i < sp_centi.len() ==> #[trigger] sp_centi[i] != ',');
    lemma_split_on_no_sep(sp_centi, ',');
    assert(forall|i: int| 0 <= i < sp_declo.len() ==> #[trigger] sp_declo[i] != ',');
    lemma_split_on_no_sep(sp_declo, ',');
    lemma_split_on_no_sep(dechi, ',');
    let raw = split_on(row, ',');
    assert(raw =~~= seq![letter, sp_centi, sp_declo, dechi]);
    lemma_trim_all_is_map(raw);
    lemma_trim_space_prefix(centi);
    lemma_trim_space_prefix(declo);
    lemma_trim_of_trimmed(dechi);
    let fields = fields_spec(row);
    assert(fields =~~= seq![letter, centi, declo, dechi]);
    lemma_centi_round_trip(e.grade_point);
    assert(spec_parse_u8(declo) == Some(e.lo));
    assert(spec_parse_u8(dechi) == Some(e.hi));
    assert(spec_parse_gp_row(fields) == Some(e));
}

/// Collecting the well-formed rows distributes over concatenation.
pub proof fn lemma_gp_rows_concat(u: Seq<Seq<char>>, v: Seq<Seq<char>>)
    ensures
        spec_gp_rows(u + v) == spec_gp_rows(u) + spec_gp_rows(v),
    decreases v.len(),
{
    if v.len() == 0 {
        assert(u + v =~= u);
        assert(spec_gp_rows(u) + spec_gp_rows(v) =~= spec_gp_rows(u));
    } else {
        lemma_gp_rows_concat(u, v.drop_last());
        assert((u + v).drop_last() =~= u + v.drop_last());
        assert((u + v).last() == v.last());
        assert(spec_gp_rows(u + v) =~= spec_gp_rows(u) + spec_gp_rows(v));
    }
}

/// Scale round trip: serializing a scale of well-formed buckets and loading
/// the result yields the same scale.
pub proof fn lemma_scale_round_trip(s: Seq<GradePointV>)
    requires
        forall|i: int| 0 <= i < s.len() ==> gp_wf(#[trigger] s[i]),
    ensures
        spec_read_gpa_scale(spec_scale_chars(s)) == s,
    decreases s.len(),
{
    reveal_with_fuel(keep_nonempty, 2);
    reveal_with_fuel(spec_gp_rows, 2);
    if s.len() == 0 {
        let content = spec_scale_chars(s);
        assert(split_on(content, '\n') == seq![Seq::<char>::empty()]);
        assert(seq![Seq::<char>::empty()].drop_last() =~= Seq::<Seq<char>>::empty());
        assert(lines_spec(content) =~= Seq::<Seq<char>>::empty());
        assert(spec_read_gpa_scale(content) =~= s);
    } else {
        let e = s[0];
        let row = spec_gp_row_chars(e);
        let rest = spec_scale_chars(s.drop_first());
        let content = spec_scale_chars(s);
        assert(content =~= row + seq!['\n'] + rest);
        lemma_centi_chars_class(e.grade_point);
        lemma_dec_round_trip(e.lo as int);
        lemma_dec_round_trip(e.hi as int);
        let centi = spec_centi_chars(e.grade_point);
        let declo = spec_dec(e.lo as int);
        let dechi = spec_dec(e.hi as int);
        assert forall|i: int| 0 <= i < centi.len() implies #[trigger] centi[i] != '\n' by {
            if is_digit(centi[i]) {
                lemma_digit_not_marker(centi[i]);
            }
        }
        assert forall|i: int| 0 <= i < declo.len() implies #[trigger] declo[i] != '\n' by {
            lemma_digit_not_marker(declo[i]);
        }
        assert forall|i: int| 0 <= i < dechi.len() implies #[trigger] dechi[i] != '\n' by {
            lemma_digit_not_marker(dechi[i]);
        }
        assert(forall|i: int| 0 <= i < row.len() ==> #[trigger] row[i] != '\n');
        lemma_split_on_append(row, rest, '\n');
        lemma_split_on_no_sep(row, '\n');
        assert(split_on(content, '\n') == seq![row] + split_on(rest, '\n'));
        lemma_keep_nonempty_concat(seq![row], split_on(rest, '\n'));
        assert(row.len() > 0);
        assert(strip_cr(row) == row) by {
            assert(row.last() == dechi.last());
            lemma_digit_not_marker(dechi.last());
        }
        assert(seq![row].drop_last() =~= Seq::<Seq<char>>::empty());
        assert(keep_nonempty(seq![row]) =~~= seq![row]);
        assert(lines_spec(content) == seq![row] + lines_spec(rest));
        lemma_gp_rows_concat(seq![row], lines_spec(rest));
        lemma_gp_row_parses(e);
        assert(spec_gp_rows(seq![row]) =~= seq![e]);
        assert(forall|i: int|
            0 <= i < s.drop_first().len() ==> gp_wf(#[trigger] s.drop_first()[i])) by {
            assert(forall|i: int|
                0 <= i < s.drop_first().len() ==> #[trigger] s.drop_first()[i] == s[i + 1]);
        }
        lemma_scale_round_trip(s.drop_first());
        assert(spec_read_gpa_scale(content) =~= seq![e] + s.drop_first());
        assert(seq![e] + s.drop_first() =~= s);
    }
}

/// A bucket parsed from a line without newlines is well formed: its letter
/// is a trimmed comma-free field of that line.
proof fn lemma_parsed_row_wf(line: Seq<char>)
    requires
        !line.contains('\n'),
        spec_parse_gp_row(fields_spec(line)) is Some,
    ensures
        gp_wf(spec_parse_gp_row(fields_spec(line))->0),
{
    let raw = split_on(line, ',');
    lemma_split_on_len(line, ',');
    lemma_split_pieces_clean(line, ',');
    lemma_trim_all_is_map(raw);
    let letter = fields_spec(line)[0];
    assert(letter == trim_spec(raw[0]));
    lemma_trim_props(raw[0]);
    assert(!letter.contains(',')) by {
        if letter.contains(',') {
            assert(raw[0].contains(','));
        }
    }
    assert(!letter.contains('\n')) by {
        if letter.contains('\n') {
            assert(raw[0].contains('\n'));
            assert(line.contains('\n'));
        }
    }
    assert forall|i: int| 0 <= i < letter.len() implies (#[trigger] letter[i]) != ','
        && letter[i] != '\n' by {
        if letter[i] == ',' {
            assert(letter.contains(','));
        }
        if letter[i] == '\n' {
            assert(letter.contains('\n'));
        }
    }
    assert(trim_spec(letter) == letter);
}

/// The non-empty lines of any text hold no newline.
proof fn lemma_lines_spec_no_newline(content: Seq<char>)
    ensures
        forall|j: int|
            0 <= j < lines_spec(content).len() ==> !(#[trigger] lines_spec(content)[j]).contains(
                '\n',
            ),
{
    lemma_split_pieces_clean(content, '\n');
    lemma_keep_nonempty_clean(split_on(content, '\n'), '\n');
}

/// Every bucket parsed from lines without newlines is well formed.
proof fn lemma_gp_rows_wf(lines: Seq<Seq<char>>)
    requires
        forall|j: int| 0 <= j < lines.len() ==> !(#[trigger] lines[j]).contains('\n'),
    ensures
        forall|i: int|
            0 <= i < spec_gp_rows(lines).len() ==> gp_wf(#[trigger] spec_gp_rows(lines)[i]),
    decreases lines.len(),
{
    if lines.len() > 0 {
        assert(forall|j: int|
            0 <= j < lines.drop_last().len() ==> lines.drop_last()[j] == lines[j]);
        lemma_gp_rows_wf(lines.drop_last());
        let prev = spec_gp_rows(lines.drop_last());
        match spec_parse_gp_row(fields_spec(lines.last())) {
            Some(e) => {
                assert(!lines.last().contains('\n')) by {
                    assert(lines.last() == lines[lines.len() - 1]);
                }
                lemma_parsed_row_wf(lines.last());
                assert(spec_gp_rows(lines) == prev.push(e));
                assert(forall|i: int|
                    0 <= i < prev.len() ==> spec_gp_rows(lines)[i] == prev[i]);
            },
            None => {},
        }
    }
}

/// Every bucket of a loaded scale is well formed, so serialization can
/// reproduce it.
pub proof fn lemma_loaded_scale_wf(content: Seq<char>)
    ensures
        forall|i: int|
            0 <= i < spec_read_gpa_scale(content).len() ==> gp_wf(
                #[trigger] spec_read_gpa_scale(content)[i],
            ),
{
    lemma_lines_spec_no_newline(content);
    lemma_gp_rows_wf(lines_spec(content));
}

/// Load round trip: loading a scale, serializing it back to the row format,
/// and reloading yields the same scale.
pub proof fn lemma_load_round_trip(content: Seq<char>)
    ensures
        spec_read_gpa_scale(spec_scale_chars(spec_read_gpa_scale(content)))
            == spec_read_gpa_scale(content),
{
    lemma_loaded_scale_wf(content);
    lemma_scale_round_trip(spec_read_gpa_scale(content));
}

/// Parse one record as a scale row: exactly four fields — letter,
/// grade-point value in decimal, low bound, high bound.
pub open spec fn spec_parse_gp_row(fields: Seq<Seq<char>>) -> Option<GradePointV> {
    if fields.len() == 4 {
        match (spec_parse_centi(fields[1]), spec_parse_u8(fields[2]), spec_parse_u8(fields[3])) {
            (Some(gp), Some(lo), Some(hi)) => Some(
                GradePointV { letter: fields[0], grade_point: gp, lo, hi },
            ),
            _ => None,
        }
    } else {
        None
    }
}

/// The buckets of the well-formed rows among the given lines, in order;
/// malformed rows are left out.
pub open spec fn spec_gp_rows(lines: Seq<Seq<char>>) -> Seq<GradePointV>
    decreases lines.len(),
{
    if lines.len() == 0 {
        Seq::<GradePointV>::empty()
    } else {
        let prev = spec_gp_rows(lines.drop_last());
        match spec_parse_gp_row(fields_spec(lines.last())) {
            Some(e) => prev.push(e),
            None => prev,
        }
    }
}

/// The scale described by a text: one bucket per well-formed row.
pub open spec fn spec_read_gpa_scale(content: Seq<char>) -> Seq<GradePointV> {
    spec_gp_rows(lines_spec(content))
}

/// Parse the fields of one line as a scale row.
fn parse_gp_fields(fields: &Vec<Vec<char>>) -> (r: Option<GradePoint>)
    ensures
        r.deep_view() == spec_parse_gp_row(views_of(fields@)),
{
    let ghost fs = views_of(fields@);
    if fields.len() != 4 {
        return None;
    }
    proof {
        assert(fs[0] == fields@[0]@);
        assert(fs[1] == fields@[1]@);
        assert(fs[2] == fields@[2]@);
        assert(fs[3] == fields@[3]@);
    }
    let gp = match parse_centi_chars(&fields[1]) {
        Some(gp) => gp,
        None => {
            return None;
        },
    };
    let lo = match parse_u8_chars(&fields[2]) {
        Some(lo) => lo,
        None => {
            return None;
        },
    };
    let hi = match parse_u8_chars(&fields[3]) {
        Some(hi) => hi,
        None => {
            return None;
        },
    };
    let letter = chars_to_string(&fields[0]);
    Some(GradePoint { letter, grade_point: gp, lo, hi })
}

/// Load a grade-point scale from comma-separated rows of
/// `letter, grade_point, low, high`.  Every well-formed row becomes one
/// bucket, in file order; a malformed row is skipped, never an error.
pub fn read_gpa_scale(content: &str) -> (s: GradePointAverageScale)
    ensures
        s@ == spec_read_gpa_scale(content@),
{
    let cs = chars_of(content);
    let lines = split_lines(&cs);
    let ghost ls = views_of(lines@);
    let mut scale: Vec<GradePoint> = Vec::new();
    let mut i: usize = 0;
    while i < lines.len()
        invariant
            0 <= i <= lines.len(),
            views_of(lines@) == ls,
            scale.deep_view() == spec_gp_rows(ls.take(i as int)),
        decreases lines.len() - i,
    {
        proof {
            assert(ls.take(i + 1).drop_last() =~= ls.take(i as int));
            assert(ls.take(i + 1).last() == lines@[i as int]@);
        }
        let fields = split_fields(&lines[i]);
        let ghost prev = scale.deep_view();
        match parse_gp_fields(&fields) {
            Some(e) => {
                let ghost ev = e@;
                scale.push(e);
                proof {
                    assert(scale.deep_view() =~= prev.push(ev));
                }
            },
            None => {},
        }
        i += 1;
    }
    proof {
        assert(ls.take(lines@.len() as int) =~= ls);
    }
    GradePointAverageScale { scale }
}

} // verus!
