//! The course weighting scale: an ordered list of graded components, each
//! with a title and a percent weight.
use vstd::prelude::*;

use crate::fmt::{
    chars_of, chars_to_string, fields_spec, is_digit, is_space, keep_nonempty,
    lemma_digit_not_marker, lemma_keep_nonempty_clean, lemma_keep_nonempty_concat,
    lemma_split_on_append, lemma_split_on_len, lemma_split_on_no_sep, lemma_split_pieces_clean,
    lemma_token_chars, lemma_trim_all_is_map, lemma_trim_props, lemma_trim_space_prefix,
    lines_spec, spec_parse_percent, split_fields, split_lines, split_on, strip_cr, trim_spec,
    views_of, Percent, PercentV,
};

verus! {

/// One graded component of a course: its title and its percent weight.
#[derive(Debug, Clone, PartialEq)]
pub struct CourseGrading {
    pub title: String,
    pub percent: Percent,
}

/// Mathematical model of a `CourseGrading`.
pub ghost struct CourseGradingV {
    pub title: Seq<char>,
    pub percent: PercentV,
}

impl View for CourseGrading {
    type V = CourseGradingV;

    open spec fn view(&self) -> CourseGradingV {
        CourseGradingV { title: self.title@, percent: self.percent@ }
    }
}

impl DeepView for CourseGrading {
    type V = CourseGradingV;

    open spec fn deep_view(&self) -> CourseGradingV {
        self@
    }
}

/// An ordered course weighting scale.
#[derive(Debug, Clone)]
pub struct CourseGradeWeights {
    pub weights: Vec<CourseGrading>,
}

pub type CourseScale = CourseGradeWeights;

impl View for CourseGradeWeights {
    type V = Seq<CourseGradingV>;

    open spec fn view(&self) -> Seq<CourseGradingV> {
        self.weights.deep_view()
    }
}

/// Parse one record as a course row: exactly two fields — title and percent
/// token.
pub open spec fn spec_parse_course_row(fields: Seq<Seq<char>>) -> Option<CourseGradingV> {
    if fields.len() == 2 {
        match spec_parse_percent(fields[1]) {
            Some(p) => Some(CourseGradingV { title: fields[0], percent: p }),
            None => None,
        }
    } else {
        None
    }
}

/// The components of the well-formed rows among the given lines, in order;
/// malformed rows are left out.
pub open spec fn spec_course_rows(lines: Seq<Seq<char>>) -> Seq<CourseGradingV>
    decreases lines.len(),
{
    if lines.len() == 0 {
        Seq::<CourseGradingV>::empty()
    } else {
        let prev = spec_course_rows(lines.drop_last());
        match spec_parse_course_row(fields_spec(lines.last())) {
            Some(e) => prev.push(e),
            None => prev,
        }
    }
}

/// The weighting scale described by a text: one component per well-formed
/// row.
pub open spec fn spec_read_course_weights(content: Seq<char>) -> Seq<CourseGradingV> {
    spec_course_rows(lines_spec(content))
}

/// Parse the fields of one line as a course row.
fn parse_course_fields(fields: &Vec<Vec<char>>) -> (r: Option<CourseGrading>)
    ensures
        r.deep_view() == spec_parse_course_row(views_of(fields@)),
{
    let ghost fs = views_of(fields@);
    if fields.len() != 2 {
        return None;
    }
    proof {
        assert(fs[0] == fields@[0]@);
        assert(fs[1] == fields@[1]@);
    }
    let token = chars_to_string(&fields[1]);
    let percent = match Percent::parse(token.as_str()) {
        Ok(p) => p,
        Err(_) => {
            return None;
        },
    };
    let title = chars_to_string(&fields[0]);
    Some(CourseGrading { title, percent })
}

/// Load a course weighting scale from comma-separated rows of
/// `title, percent`.  Every well-formed row becomes one component, in file
/// order; a malformed row is skipped, never an error.
pub fn read_course_weights(content: &str) -> (s: CourseGradeWeights)
    ensures
        s@ == spec_read_course_weights(content@),
{
    let cs = chars_of(content);
    let lines = split_lines(&cs);
    let ghost ls = views_of(lines@);
    let mut weights: Vec<CourseGrading> = Vec::new();
    let mut i: usize = 0;
    while i < lines.len()
        invariant
            0 <= i <= lines.len(),
            views_of(lines@) == ls,
            weights.deep_view() == spec_course_rows(ls.take(i as int)),
        decreases lines.len() - i,
    {
        proof {
            assert(ls.take(i + 1).drop_last() =~= ls.take(i as int));
            assert(ls.take(i + 1).last() == lines@[i as int]@);
        }
        let fields = split_fields(&lines[i]);
        let ghost prev = weights.deep_view();
        match parse_course_fields(&fields) {
            Some(e) => {
                let ghost ev = e@;
                weights.push(e);
                proof {
                    assert(weights.deep_view() =~= prev.push(ev));
                }
            },
            None => {},
        }
        i += 1;
    }
    proof {
        assert(ls.take(lines@.len() as int) =~= ls);
    }
    CourseGradeWeights { weights }
}

/// A component that serialization can reproduce: its title holds no comma
/// and no newline and carries no surrounding whitespace, and its percent
/// token reads back to the percent it stands beside.  Every component a
/// loader produced is of this shape (`lemma_loaded_course_wf`).
pub open spec fn cw_wf(c: CourseGradingV) -> bool {
    &&& forall|i: int|
        0 <= i < c.title.len() ==> (#[trigger] c.title[i]) != ',' && c.title[i] != '\n'
    &&& trim_spec(c.title) == c.title
    &&& spec_parse_percent(c.percent.percent) == Some(c.percent)
}

/// The characters of one serialized course row, in the same comma-separated
/// format the loader reads.
pub open spec fn spec_course_row_chars(c: CourseGradingV) -> Seq<char> {
    c.title + seq![',', ' '] + c.percent.percent
}

/// The characters of a whole serialized weighting scale: one row per
/// component, each ended by a newline.
pub open spec fn spec_course_chars(s: Seq<CourseGradingV>) -> Seq<char>
    decreases s.len(),
{
    if s.len() == 0 {
        Seq::<char>::empty()
    } else {
        spec_course_row_chars(s[0]) + seq!['\n'] + spec_course_chars(s.drop_first())
    }
}

impl CourseGradeWeights {
    /// Serialize the weighting scale back to the row format the loader
    /// reads: one `title, percent` row per component, in order, each
    /// percent written as its stored token.
    pub fn to_rows(&self) -> (r: String)
        ensures
            r@ == spec_course_chars(self@),
    {
        let ghost full = self@;
        proof {
            assert(full.skip(0) =~= full);
        }
        let mut r = String::new();
        let mut i: usize = 0;
        while i < self.weights.len()
            invariant
                0 <= i <= self.weights.len(),
                self@ == full,
                full.len() == self.weights@.len(),
                r@ + spec_course_chars(full.skip(i as int)) == spec_course_chars(full),
            decreases self.weights.len() - i,
        {
            proof {
                assert(full.skip(i as int)[0] == full[i as int]);
                assert(full[i as int] == self.weights[i as int]@);
                assert(full.skip(i as int).drop_first() =~= full.skip(i + 1));
            }
            let ghost before = r@;
            let cg = &self.weights[i];
            r.append(cg.title.as_str());
            r.append(", ");
            r.append(cg.percent.percent.as_str());
            r.append("\n");
            proof {
                reveal_strlit(", ");
                reveal_strlit("\n");
                assert(r@ =~= before + spec_course_row_chars(full[i as int]) + seq!['\n']);
                assert(r@ + spec_course_chars(full.skip(i + 1)) =~= before + spec_course_chars(
                    full.skip(i as int),
                ));
            }
            i += 1;
        }
        proof {
            assert(full.skip(full.len() as int) =~= Seq::<CourseGradingV>::empty());
            assert(r@ =~= spec_course_chars(full));
        }
        r
    }
}

/// A serialized course row splits into its two trimmed fields and parses
/// back to the component it was made from.
pub proof fn lemma_course_row_parses(c: CourseGradingV)
    requires
        cw_wf(c),
    ensures
        spec_parse_course_row(fields_spec(spec_course_row_chars(c))) == Some(c),
{
    let title = c.title;
    let token = c.percent.percent;
    let row = spec_course_row_chars(c);
    lemma_token_chars(token);
    assert forall|i: int| 0 <= i < token.len() implies #[trigger] token[i] != ','
        && !is_space(token[i]) by {
        if is_digit(token[i]) {
            lemma_digit_not_marker(token[i]);
        }
    }
    let sp_token = seq![' '] + token;
    assert(row =~= title + seq![','] + sp_token);
    lemma_split_on_append(title, sp_token, ',');
    lemma_split_on_no_sep(title, ',');
    assert(forall|i: int| 0 <= i < sp_token.len() ==> #[trigger] sp_token[i] != ',');
    lemma_split_on_no_sep(sp_token, ',');
    let raw = split_on(row, ',');
    assert(raw =~~= seq![title, sp_token]);
    lemma_trim_all_is_map(raw);
    lemma_trim_space_prefix(token);
    let fields = fields_spec(row);
    assert(fields =~~= seq![title, token]);
    assert(spec_parse_course_row(fields) == Some(c));
}

/// Collecting the well-formed rows distributes over concatenation.
pub proof fn lemma_course_rows_concat(u: Seq<Seq<char>>, v: Seq<Seq<char>>)
    ensures
        spec_course_rows(u + v) == spec_course_rows(u) + spec_course_rows(v),
    decreases v.len(),
{
    if v.len() == 0 {
        assert(u + v =~= u);
        assert(spec_course_rows(u) + spec_course_rows(v) =~= spec_course_rows(u));
    } else {
        lemma_course_rows_concat(u, v.drop_last());
        assert((u + v).drop_last() =~= u + v.drop_last());
        assert((u + v).last() == v.last());
        assert(spec_course_rows(u + v) =~= spec_course_rows(u) + spec_course_rows(v));
    }
}

/// Course-scale round trip: serializing a weighting scale of well-formed
/// components and loading the result yields the same scale.
pub proof fn lemma_course_round_trip(s: Seq<CourseGradingV>)
    requires
        forall|i: int| 0 <= i < s.len() ==> cw_wf(#[trigger] s[i]),
    ensures
        spec_read_course_weights(spec_course_chars(s)) == s,
    decreases s.len(),
{
    reveal_with_fuel(keep_nonempty, 2);
    reveal_with_fuel(spec_course_rows, 2);
    if s.len() == 0 {
        let content = spec_course_chars(s);
        assert(split_on(content, '\n') == seq![Seq::<char>::empty()]);
        assert(seq![Seq::<char>::empty()].drop_last() =~= Seq::<Seq<char>>::empty());
        assert(lines_spec(content) =~= Seq::<Seq<char>>::empty());
        assert(spec_read_course_weights(content) =~= s);
    } else {
        let c = s[0];
        let row = spec_course_row_chars(c);
        let rest = spec_course_chars(s.drop_first());
        let content = spec_course_chars(s);
        assert(content =~= row + seq!['\n'] + rest);
        let token = c.percent.percent;
        lemma_token_chars(token);
        assert forall|i: int| 0 <= i < token.len() implies #[trigger] token[i] != '\n' && token[i]
            != '\r' by {
            if is_digit(token[i]) {
                lemma_digit_not_marker(token[i]);
            }
        }
        assert(forall|i: int| 0 <= i < row.len() ==> #[trigger] row[i] != '\n');
        lemma_split_on_append(row, rest, '\n');
        lemma_split_on_no_sep(row, '\n');
        assert(split_on(content, '\n') == seq![row] + split_on(rest, '\n'));
        lemma_keep_nonempty_concat(seq![row], split_on(rest, '\n'));
        assert(row.len() > 0);
        assert(strip_cr(row) == row) by {
            assert(row.last() == token.last());
        }
        assert(seq![row].drop_last() =~= Seq::<Seq<char>>::empty());
        assert(keep_nonempty(seq![row]) =~~= seq![row]);
        assert(lines_spec(content) == seq![row] + lines_spec(rest));
        lemma_course_rows_concat(seq![row], lines_spec(rest));
        lemma_course_row_parses(c);
        assert(spec_course_rows(seq![row]) =~= seq![c]);
        assert(forall|i: int|
            0 <= i < s.drop_first().len() ==> cw_wf(#[trigger] s.drop_first()[i])) by {
            assert(forall|i: int|
                0 <= i < s.drop_first().len() ==> #[trigger] s.drop_first()[i] == s[i + 1]);
        }
        lemma_course_round_trip(s.drop_first());
        assert(spec_read_course_weights(content) =~= seq![c] + s.drop_first());
        assert(seq![c] + s.drop_first() =~= s);
    }
}

/// A component parsed from a line without newlines is well formed.
proof fn lemma_parsed_course_row_wf(line: Seq<char>)
    requires
        !line.contains('\n'),
        spec_parse_course_row(fields_spec(line)) is Some,
    ensures
        cw_wf(spec_parse_course_row(fields_spec(line))->0),
{
    let raw = split_on(line, ',');
    lemma_split_on_len(line, ',');
    lemma_split_pieces_clean(line, ',');
    lemma_trim_all_is_map(raw);
    let title = fields_spec(line)[0];
    assert(title == trim_spec(raw[0]));
    lemma_trim_props(raw[0]);
    assert(!title.contains(',')) by {
        if title.contains(',') {
            assert(raw[0].contains(','));
        }
    }
    assert(!title.contains('\n')) by {
        if title.contains('\n') {
            assert(raw[0].contains('\n'));
            assert(line.contains('\n'));
        }
    }
    assert forall|i: int| 0 <= i < title.len() implies (#[trigger] title[i]) != ',' && title[i]
        != '\n' by {
        if title[i] == ',' {
            assert(title.contains(','));
        }
        if title[i] == '\n' {
            assert(title.contains('\n'));
        }
    }
    assert(trim_spec(title) == title);
}

/// Every component parsed from lines without newlines is well formed.
proof fn lemma_course_rows_wf(lines: Seq<Seq<char>>)
    requires
        forall|j: int| 0 <= j < lines.len() ==> !(#[trigger] lines[j]).contains('\n'),
    ensures
        forall|i: int|
            0 <= i < spec_course_rows(lines).len() ==> cw_wf(
                #[trigger] spec_course_rows(lines)[i],
            ),
    decreases lines.len(),
{
    if lines.len() > 0 {
        assert(forall|j: int|
            0 <= j < lines.drop_last().len() ==> lines.drop_last()[j] == lines[j]);
        lemma_course_rows_wf(lines.drop_last());
        let prev = spec_course_rows(lines.drop_last());
        match spec_parse_course_row(fields_spec(lines.last())) {
            Some(c) => {
                assert(!lines.last().contains('\n')) by {
                    assert(lines.last() == lines[lines.len() - 1]);
                }
                lemma_parsed_course_row_wf(lines.last());
                assert(spec_course_rows(lines) == prev.push(c));
                assert(forall|i: int|
                    0 <= i < prev.len() ==> spec_course_rows(lines)[i] == prev[i]);
            },
            None => {},
        }
    }
}

/// Every component of a loaded weighting scale is well formed, so
/// serialization can reproduce it.
pub proof fn lemma_loaded_course_wf(content: Seq<char>)
    ensures
        forall|i: int|
            0 <= i < spec_read_course_weights(content).len() ==> cw_wf(
                #[trigger] spec_read_course_weights(content)[i],
            ),
{
    lemma_split_pieces_clean(content, '\n');
    lemma_keep_nonempty_clean(split_on(content, '\n'), '\n');
    lemma_course_rows_wf(lines_spec(content));
}

/// Load round trip: loading a weighting scale, serializing it back to the
/// row format, and reloading yields the same scale.
pub proof fn lemma_course_load_round_trip(content: Seq<char>)
    ensures
        spec_read_course_weights(spec_course_chars(spec_read_course_weights(content)))
            == spec_read_course_weights(content),
{
    lemma_loaded_course_wf(content);
    lemma_course_round_trip(spec_read_course_weights(content));
}

} // verus!
