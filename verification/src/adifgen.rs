//! Log ingestion and record assembly: detects input that is already in
//! ADIF format, splits a delimited log export into rows, runs each row's
//! date/time/frequency/mode fields through the normalizers, and merges the
//! results with the request context into ADIF QSO records plus an
//! aggregate batch status.
//!
//! Rows follow the logging application's delimited export: at least seven
//! comma-separated fields per line, with the date in the second field, the
//! time in the third, the frequency in the sixth and the mode in the
//! seventh.  A row that fails ingestion or normalization is dropped from
//! the record sequence and reported, with its row index, in the error
//! list; it never aborts the batch.

use vstd::prelude::*;
use vstd::string::StringExecFns;
use crate::band::{freq_parse_spec, band_of, adif_band_from_hamlog};
use crate::chars::{str_to_chars, chars_to_string};
use crate::errors::ConvError;
use crate::mode::{normalize_mode_spec, adif_mode_from_hamlog, match_at};
use crate::time::{normalize_time_spec, adif_time_from_hamlog};

verus! {

/// The marker token that identifies text already in ADIF export format.
pub open spec fn adif_marker() -> Seq<char> {
    seq!['<', 'A', 'D', 'I', 'F', '_', 'V', 'E', 'R']
}

/// Whether `pat` occurs anywhere in `s`.
pub open spec fn contains_seq(s: Seq<char>, pat: Seq<char>) -> bool {
    exists|i: int| 0 <= i <= s.len() - pat.len() && #[trigger] s.subrange(i, i + pat.len()) == pat
}

/// Splits `s` at every occurrence of `sep`, from position `i` on, with
/// `cur` the piece read so far.  Every text splits into one piece more
/// than it has separators.
pub open spec fn split_from(s: Seq<char>, sep: char, i: int, cur: Seq<char>) -> Seq<Seq<char>>
    decreases s.len() - i,
{
    if i < 0 || i >= s.len() {
        seq![cur]
    } else if s[i] == sep {
        seq![cur] + split_from(s, sep, i + 1, Seq::empty())
    } else {
        split_from(s, sep, i + 1, cur.push(s[i]))
    }
}

/// One line with a single trailing carriage return removed.
pub open spec fn strip_cr(l: Seq<char>) -> Seq<char> {
    if l.len() > 0 && l.last() == '\r' {
        l.drop_last()
    } else {
        l
    }
}

/// The raw date, time, frequency and mode texts of one row.
pub open spec fn row_of_line(line: Seq<char>) -> Result<
    (Seq<char>, Seq<char>, Seq<char>, Seq<char>),
    ConvError,
> {
    let fs = split_from(line, ',', 0, Seq::empty());
    if fs.len() >= 7 {
        Ok((fs[1], fs[2], fs[5], fs[6]))
    } else {
        Err(ConvError::FormatError)
    }
}

/// The rows of the split lines: empty lines (after carriage-return
/// stripping) are no rows; each other line is one row or one per-row
/// ingestion failure.
pub open spec fn rows_of_lines(lines: Seq<Seq<char>>) -> Seq<
    Result<(Seq<char>, Seq<char>, Seq<char>, Seq<char>), ConvError>,
>
    decreases lines.len(),
{
    if lines.len() == 0 {
        Seq::empty()
    } else {
        let l = strip_cr(lines[0]);
        let rest = rows_of_lines(lines.skip(1));
        if l.len() == 0 {
            rest
        } else {
            seq![row_of_line(l)] + rest
        }
    }
}

/// The mathematical content of one assembled ADIFRecord.
#[verifier::ext_equal]
pub ghost struct RecordModel {
    pub qso_date: Seq<char>,
    pub time_on: Seq<char>,
    pub band: Seq<char>,
    pub mode: Seq<char>,
    pub station: Seq<char>,
    pub operator: Seq<char>,
    pub my_sig: Seq<(Seq<char>, Seq<char>)>,
    pub his_sig: Option<Seq<(Seq<char>, Seq<char>)>>,
}

/// The activation-program identifier under which reference codes are
/// reported.
pub open spec fn sig_key() -> Seq<char> {
    seq!['S', 'O', 'T', 'A']
}

/// The record assembled from one row's raw fields and the request
/// context, or `None` where a normalization step rejects the row.
pub open spec fn convert_row(
    row: (Seq<char>, Seq<char>, Seq<char>, Seq<char>),
    station: Seq<char>,
    operator: Seq<char>,
    my_ref: Seq<char>,
    his_ref: Seq<char>,
) -> Option<RecordModel> {
    match normalize_time_spec(row.0, row.1) {
        None => None,
        Some((d8, t4)) => match freq_parse_spec(row.2) {
            None => None,
            Some(p) => match band_of(p.0, p.1, p.2) {
                None => None,
                Some(band) => if normalize_mode_spec(row.3).len() == 0 {
                    None
                } else {
                    Some(
                        RecordModel {
                            qso_date: d8,
                            time_on: t4,
                            band: band,
                            mode: normalize_mode_spec(row.3),
                            station: station,
                            operator: operator,
                            my_sig: seq![(sig_key(), my_ref)],
                            his_sig: if his_ref.len() > 0 {
                                Some(seq![(sig_key(), his_ref)])
                            } else {
                                None
                            },
                        },
                    )
                },
            },
        },
    }
}

/// Whether every normalization step accepts the row.  A row whose mode
/// text normalizes to the empty string yields no record: every field of a
/// normalized contact is non-empty.
pub open spec fn row_converts(row: (Seq<char>, Seq<char>, Seq<char>, Seq<char>)) -> bool {
    &&& normalize_time_spec(row.0, row.1) is Some
    &&& freq_parse_spec(row.2) is Some
    &&& ({
        let p = freq_parse_spec(row.2)->Some_0;
        band_of(p.0, p.1, p.2) is Some
    })
    &&& normalize_mode_spec(row.3).len() > 0
}

/// Which error a row that `convert_row` rejects carries: a format error
/// for a bad date, time or frequency text or an empty mode, a range error
/// for a frequency outside every band.
pub open spec fn row_conv_error(row: (Seq<char>, Seq<char>, Seq<char>, Seq<char>)) -> ConvError {
    if normalize_time_spec(row.0, row.1) is None {
        ConvError::FormatError
    } else if freq_parse_spec(row.2) is None {
        ConvError::FormatError
    } else if band_of(
        freq_parse_spec(row.2)->Some_0.0,
        freq_parse_spec(row.2)->Some_0.1,
        freq_parse_spec(row.2)->Some_0.2,
    ) is None {
        ConvError::RangeError
    } else {
        ConvError::FormatError
    }
}

/// The invariant of every assembled record: an 8-digit date, a 4-digit
/// time, a band designator drawn from the fixed table vocabulary, a
/// non-empty mode, and a non-empty sequence of "my" signature tags.
pub open spec fn record_well_formed(m: RecordModel) -> bool {
    &&& m.qso_date.len() == 8
    &&& crate::chars::all_digits(m.qso_date)
    &&& m.time_on.len() == 4
    &&& crate::chars::all_digits(m.time_on)
    &&& exists|j: int|
        0 <= j < crate::band::band_table().len() && m.band == (
        #[trigger] crate::band::band_table()[j]).2
    &&& m.mode.len() > 0
    &&& m.my_sig.len() > 0
}

/// Every record that batch assembly produces is well formed; no record
/// comes from a row that failed a normalization step.
pub proof fn lemma_assemble_records_well_formed(
    rows: Seq<Result<(Seq<char>, Seq<char>, Seq<char>, Seq<char>), ConvError>>,
    station: Seq<char>,
    operator: Seq<char>,
    my_ref: Seq<char>,
    his_ref: Seq<char>,
)
    ensures
        forall|i: int|
            0 <= i < assemble_records(rows, station, operator, my_ref, his_ref).len()
                ==> record_well_formed(
                #[trigger] assemble_records(rows, station, operator, my_ref, his_ref)[i],
            ),
    decreases rows.len(),
{
    if rows.len() > 0 {
        lemma_assemble_records_well_formed(rows.skip(1), station, operator, my_ref, his_ref);
        let all = assemble_records(rows, station, operator, my_ref, his_ref);
        let rest = assemble_records(rows.skip(1), station, operator, my_ref, his_ref);
        if rows[0] is Ok && convert_row(rows[0]->Ok_0, station, operator, my_ref, his_ref)
            is Some {
            let row = rows[0]->Ok_0;
            let m = convert_row(row, station, operator, my_ref, his_ref)->Some_0;
            crate::time::lemma_normalize_time_spec_shapes(row.0, row.1);
            let p = freq_parse_spec(row.2)->Some_0;
            crate::band::lemma_band_of_in_table(p.0, p.1, p.2);
            assert(record_well_formed(m));
            assert forall|i: int| 0 <= i < all.len() implies record_well_formed(
                #[trigger] all[i],
            ) by {
                if i == 0 {
                    assert(all[0] == m);
                } else {
                    assert(all[i] == rest[i - 1]);
                }
            }
        } else {
            assert(all == rest);
            assert forall|i: int| 0 <= i < all.len() implies record_well_formed(
                #[trigger] all[i],
            ) by {
                assert(all[i] == rest[i]);
            }
        }
    }
}

/// The records of a batch, in original row order: failing rows are left
/// out.
pub open spec fn assemble_records(
    rows: Seq<Result<(Seq<char>, Seq<char>, Seq<char>, Seq<char>), ConvError>>,
    station: Seq<char>,
    operator: Seq<char>,
    my_ref: Seq<char>,
    his_ref: Seq<char>,
) -> Seq<RecordModel>
    decreases rows.len(),
{
    if rows.len() == 0 {
        Seq::empty()
    } else {
        let rest = assemble_records(rows.skip(1), station, operator, my_ref, his_ref);
        match rows[0] {
            Err(_) => rest,
            Ok(row) => match convert_row(row, station, operator, my_ref, his_ref) {
                Some(m) => seq![m] + rest,
                None => rest,
            },
        }
    }
}

/// The per-row failures of a batch, each with its row index, in row
/// order.
pub open spec fn assemble_errors(
    rows: Seq<Result<(Seq<char>, Seq<char>, Seq<char>, Seq<char>), ConvError>>,
    idx: int,
) -> Seq<(int, ConvError)>
    decreases rows.len(),
{
    if rows.len() == 0 {
        Seq::empty()
    } else {
        let rest = assemble_errors(rows.skip(1), idx + 1);
        match rows[0] {
            Err(e) => seq![(idx, e)] + rest,
            Ok(row) => if !row_converts(row) {
                seq![(idx, row_conv_error(row))] + rest
            } else {
                rest
            },
        }
    }
}

/// One parsed row of input log text before normalization.
#[derive(Debug, Clone)]
pub struct LogRow {
    pub h_date: String,
    pub h_time: String,
    pub h_freq: String,
    pub h_mode: String,
}

impl View for LogRow {
    type V = (Seq<char>, Seq<char>, Seq<char>, Seq<char>);

    open spec fn view(&self) -> (Seq<char>, Seq<char>, Seq<char>, Seq<char>) {
        (self.h_date@, self.h_time@, self.h_freq@, self.h_mode@)
    }
}

/// One output QSO record.
#[derive(Debug, Clone)]
pub struct ADIFRecord {
    pub qso_date: String,
    pub time_on: String,
    pub band: String,
    pub mode: String,
    pub station: String,
    pub operator: String,
    pub my_sig: Vec<(String, String)>,
    pub his_sig: Option<Vec<(String, String)>>,
}

/// The views of a sequence of signature tag pairs.
pub open spec fn sig_pairs_view(v: Seq<(String, String)>) -> Seq<(Seq<char>, Seq<char>)> {
    v.map_values(|p: (String, String)| (p.0@, p.1@))
}

impl View for ADIFRecord {
    type V = RecordModel;

    open spec fn view(&self) -> RecordModel {
        RecordModel {
            qso_date: self.qso_date@,
            time_on: self.time_on@,
            band: self.band@,
            mode: self.mode@,
            station: self.station@,
            operator: self.operator@,
            my_sig: sig_pairs_view(self.my_sig@),
            his_sig: match self.his_sig {
                Some(v) => Some(sig_pairs_view(v@)),
                None => None,
            },
        }
    }
}

/// The batch result: an overall status (`OK`, or `NG` where the input is
/// out of scope), the assembled records in row order, and the per-row
/// failures with their row indices.
#[derive(Debug, Clone)]
pub struct ADIFData {
    pub status: String,
    pub records: Vec<ADIFRecord>,
    pub errors: Vec<(usize, ConvError)>,
}


/// The view of one ingested row or its per-row failure.
pub open spec fn row_result_view(x: Result<LogRow, ConvError>) -> Result<
    (Seq<char>, Seq<char>, Seq<char>, Seq<char>),
    ConvError,
> {
    match x {
        Ok(row) => Ok(row@),
        Err(e) => Err(e),
    }
}

/// Splitting distributes over concatenation of the line lists.
proof fn lemma_rows_concat(a: Seq<Seq<char>>, b: Seq<Seq<char>>)
    ensures
        rows_of_lines(a + b) == rows_of_lines(a) + rows_of_lines(b),
    decreases a.len(),
{
    if a.len() == 0 {
        assert(a + b =~= b);
        assert(Seq::<Result<(Seq<char>, Seq<char>, Seq<char>, Seq<char>), ConvError>>::empty()
            + rows_of_lines(b) =~= rows_of_lines(b));
    } else {
        assert((a + b).skip(1) =~= a.skip(1) + b);
        lemma_rows_concat(a.skip(1), b);
        assert((a + b)[0] == a[0]);
        if strip_cr(a[0]).len() != 0 {
            assert(seq![row_of_line(strip_cr(a[0]))] + (rows_of_lines(a.skip(1)) + rows_of_lines(
                b,
            )) =~= (seq![row_of_line(strip_cr(a[0]))] + rows_of_lines(a.skip(1))) + rows_of_lines(
                b,
            ));
        }
    }
}

/// Record assembly distributes over concatenation of the row lists.
proof fn lemma_assemble_records_concat(
    a: Seq<Result<(Seq<char>, Seq<char>, Seq<char>, Seq<char>), ConvError>>,
    b: Seq<Result<(Seq<char>, Seq<char>, Seq<char>, Seq<char>), ConvError>>,
    station: Seq<char>,
    operator: Seq<char>,
    my_ref: Seq<char>,
    his_ref: Seq<char>,
)
    ensures
        assemble_records(a + b, station, operator, my_ref, his_ref) == assemble_records(
            a,
            station,
            operator,
            my_ref,
            his_ref,
        ) + assemble_records(b, station, operator, my_ref, his_ref),
    decreases a.len(),
{
    if a.len() == 0 {
        assert(a + b =~= b);
        assert(Seq::<RecordModel>::empty() + assemble_records(b, station, operator, my_ref,
        his_ref) =~= assemble_records(b, station, operator, my_ref, his_ref));
    } else {
        assert((a + b).skip(1) =~= a.skip(1) + b);
        lemma_assemble_records_concat(a.skip(1), b, station, operator, my_ref, his_ref);
        assert((a + b)[0] == a[0]);
        if a[0] is Ok && convert_row(a[0]->Ok_0, station, operator, my_ref, his_ref) is Some {
            let m = convert_row(a[0]->Ok_0, station, operator, my_ref, his_ref)->Some_0;
            assert(seq![m] + (assemble_records(a.skip(1), station, operator, my_ref, his_ref)
                + assemble_records(b, station, operator, my_ref, his_ref)) =~= (seq![m]
                + assemble_records(a.skip(1), station, operator, my_ref, his_ref))
                + assemble_records(b, station, operator, my_ref, his_ref));
        }
    }
}

/// Failure collection distributes over concatenation of the row lists,
/// with the indices of the second part shifted by the first part's length.
proof fn lemma_assemble_errors_concat(
    a: Seq<Result<(Seq<char>, Seq<char>, Seq<char>, Seq<char>), ConvError>>,
    b: Seq<Result<(Seq<char>, Seq<char>, Seq<char>, Seq<char>), ConvError>>,
    idx: int,
)
    ensures
        assemble_errors(a + b, idx) == assemble_errors(a, idx) + assemble_errors(
            b,
            idx + a.len(),
        ),
    decreases a.len(),
{
    if a.len() == 0 {
        assert(a + b =~= b);
        assert(Seq::<(int, ConvError)>::empty() + assemble_errors(b, idx) =~= assemble_errors(
            b,
            idx,
        ));
    } else {
        assert((a + b).skip(1) =~= a.skip(1) + b);
        lemma_assemble_errors_concat(a.skip(1), b, idx + 1);
        assert((a + b)[0] == a[0]);
        let rest_split = assemble_errors(a.skip(1), idx + 1) + assemble_errors(
            b,
            idx + a.len(),
        );
        if a[0] is Err {
            let e = a[0]->Err_0;
            assert(seq![(idx, e)] + rest_split =~= (seq![(idx, e)] + assemble_errors(
                a.skip(1),
                idx + 1,
            )) + assemble_errors(b, idx + a.len()));
        } else if !row_converts(a[0]->Ok_0) {
            let e = row_conv_error(a[0]->Ok_0);
            assert(seq![(idx, e)] + rest_split =~= (seq![(idx, e)] + assemble_errors(
                a.skip(1),
                idx + 1,
            )) + assemble_errors(b, idx + a.len()));
        }
    }
}

/// Whether the marker occurs anywhere in the text, executably.
fn contains_seq_x(s: &Vec<char>, pat: &Vec<char>) -> (b: bool)
    requires
        pat@.len() >= 1,
    ensures
        b == contains_seq(s@, pat@),
{
    let n = s.len();
    let m = pat.len();
    if m > n {
        return false;
    }
    let mut i: usize = 0;
    while i <= n - m
        invariant
            0 <= i <= n - m + 1,
            m >= 1,
            n == s@.len(),
            m == pat@.len(),
            m <= n,
            forall|j: int| 0 <= j < i ==> #[trigger] s@.subrange(j, j + pat@.len()) != pat@,
        decreases n - i,
    {
        if match_at(s, i, pat) {
            assert(contains_seq(s@, pat@));
            return true;
        }
        i += 1;
    }
    false
}

/// Splits the characters at every occurrence of `sep`, executably.
fn split_chars(s: &Vec<char>, sep: char) -> (out: Vec<Vec<char>>)
    ensures
        out@.map_values(|v: Vec<char>| v@) == split_from(s@, sep, 0, Seq::empty()),
{
    let n = s.len();
    let mut out: Vec<Vec<char>> = Vec::new();
    let mut cur: Vec<char> = Vec::new();
    let mut i: usize = 0;
    while i < n
        invariant
            0 <= i <= n,
            n == s@.len(),
            split_from(s@, sep, 0, Seq::empty()) == out@.map_values(|v: Vec<char>| v@)
                + split_from(s@, sep, i as int, cur@),
        decreases n - i,
    {
        let c = s[i];
        if c == sep {
            let finished = cur;
            cur = Vec::new();
            proof {
                assert(out@.push(finished).map_values(|v: Vec<char>| v@) =~= out@.map_values(
                    |v: Vec<char>| v@,
                ).push(finished@));
                assert(out@.map_values(|v: Vec<char>| v@) + (seq![finished@] + split_from(
                    s@,
                    sep,
                    i + 1,
                    Seq::empty(),
                )) =~= out@.map_values(|v: Vec<char>| v@).push(finished@) + split_from(
                    s@,
                    sep,
                    i + 1,
                    Seq::empty(),
                ));
            }
            out.push(finished);
        } else {
            cur.push(c);
        }
        i += 1;
    }
    proof {
        assert(out@.push(cur).map_values(|v: Vec<char>| v@) =~= out@.map_values(
            |v: Vec<char>| v@,
        ).push(cur@));
        assert(out@.map_values(|v: Vec<char>| v@) + seq![cur@] =~= out@.map_values(
            |v: Vec<char>| v@,
        ).push(cur@));
    }
    out.push(cur);
    out
}

/// Detects out-of-scope input and splits log text into rows: one row per
/// non-empty line, at least seven comma-separated fields each, the
/// date/time/frequency/mode texts taken from their fixed columns.  Input
/// already in ADIF format is refused whole with a `ScopeMismatch`; a row
/// with too few fields is a per-row `FormatError` that aborts nothing.
pub fn ingest(log: &str) -> (r: Result<Vec<Result<LogRow, ConvError>>, ConvError>)
    ensures
        contains_seq(log@, adif_marker()) ==> (r matches Err(e) && e == ConvError::ScopeMismatch),
        !contains_seq(log@, adif_marker()) ==> (r matches Ok(rows) && rows@.map_values(
            |x: Result<LogRow, ConvError>| row_result_view(x),
        ) == rows_of_lines(split_from(log@, '\n', 0, Seq::empty()))),
{
    let chars = str_to_chars(log);
    let marker = str_to_chars("<ADIF_VER");
    proof {
        reveal_strlit("<ADIF_VER");
        assert(marker@ =~= adif_marker());
    }
    if contains_seq_x(&chars, &marker) {
        return Err(ConvError::ScopeMismatch);
    }
    let lines = split_chars(&chars, '\n');
    let ghost line_views = lines@.map_values(|v: Vec<char>| v@);
    let mut out: Vec<Result<LogRow, ConvError>> = Vec::new();
    let nl = lines.len();
    let mut i: usize = 0;
    while i < nl
        invariant
            0 <= i <= nl,
            nl == lines@.len(),
            line_views == lines@.map_values(|v: Vec<char>| v@),
            out@.map_values(|x: Result<LogRow, ConvError>| row_result_view(x)) == rows_of_lines(
                line_views.take(i as int),
            ),
        decreases nl - i,
    {
        let ghost out_views0 = out@.map_values(|x: Result<LogRow, ConvError>| row_result_view(x));
        let mut line = lines[i].clone();
        proof {
            assert(line_views.take(i + 1) =~= line_views.take(i as int) + seq![line_views[i as int]]);
            lemma_rows_concat(line_views.take(i as int), seq![line_views[i as int]]);
            assert(seq![line_views[i as int]].skip(1) =~= Seq::<Seq<char>>::empty());
            assert(rows_of_lines(Seq::<Seq<char>>::empty()) == Seq::<
                Result<(Seq<char>, Seq<char>, Seq<char>, Seq<char>), ConvError>,
            >::empty());
            assert(line@ == line_views[i as int]);
        }
        let ll = line.len();
        if ll > 0 && line[ll - 1] == '\r' {
            line.pop();
        }
        assert(line@ == strip_cr(line_views[i as int]));
        if line.len() == 0 {
            proof {
                assert(out_views0 + rows_of_lines(seq![line_views[i as int]]) =~= out_views0);
            }
        } else {
            let fields = split_chars(&line, ',');
            let ghost fs = split_from(line@, ',', 0, Seq::empty());
            let entry: Result<LogRow, ConvError> = if fields.len() >= 7 {
                let row = LogRow {
                    h_date: chars_to_string(&fields[1]),
                    h_time: chars_to_string(&fields[2]),
                    h_freq: chars_to_string(&fields[5]),
                    h_mode: chars_to_string(&fields[6]),
                };
                proof {
                    assert(fields@.map_values(|v: Vec<char>| v@)[1] == fields@[1]@);
                    assert(fields@.map_values(|v: Vec<char>| v@)[2] == fields@[2]@);
                    assert(fields@.map_values(|v: Vec<char>| v@)[5] == fields@[5]@);
                    assert(fields@.map_values(|v: Vec<char>| v@)[6] == fields@[6]@);
                }
                assert(row@ == (fs[1], fs[2], fs[5], fs[6]));
                Ok(row)
            } else {
                Err(ConvError::FormatError)
            };
            proof {
                assert(rows_of_lines(seq![line_views[i as int]]) =~= seq![row_of_line(line@)]);
                assert(row_result_view(entry) == row_of_line(line@));
                assert(out@.push(entry).map_values(
                    |x: Result<LogRow, ConvError>| row_result_view(x),
                ) =~= out_views0.push(row_result_view(entry)));
                assert(out_views0 + seq![row_of_line(line@)] =~= out_views0.push(
                    row_result_view(entry),
                ));
            }
            out.push(entry);
        }
        i += 1;
    }
    proof {
        assert(line_views.take(nl as int) =~= line_views);
    }
    Ok(out)
}


/// Merges ingested rows with the request context into ADIF records, in
/// original row order, collecting each failing row's index and error.
/// Per-row failures never abort the batch: every convertible row appears
/// in the result.  Every assembled record is well formed — an 8-digit
/// date, a 4-digit time, a band designator of the fixed vocabulary, a
/// non-empty mode and non-empty signature tags — and no record comes
/// from a row that failed a normalization step.  The status of an
/// assembled batch is always `OK`.
#[verifier::rlimit(100)]
pub fn assemble(
    rows: &Vec<Result<LogRow, ConvError>>,
    activator_call: &str,
    operator: &str,
    references: &str,
    his_qth: &str,
) -> (d: ADIFData)
    ensures
        d.status@ == seq!['O', 'K'],
        d.records@.map_values(|r: ADIFRecord| r@) == assemble_records(
            rows@.map_values(|x: Result<LogRow, ConvError>| row_result_view(x)),
            activator_call@,
            operator@,
            references@,
            his_qth@,
        ),
        d.errors@.map_values(|p: (usize, ConvError)| (p.0 as int, p.1)) == assemble_errors(
            rows@.map_values(|x: Result<LogRow, ConvError>| row_result_view(x)),
            0,
        ),
        forall|i: int| 0 <= i < d.records@.len() ==> record_well_formed((#[trigger] d.records@[i])@),
{
    let ghost row_views = rows@.map_values(|x: Result<LogRow, ConvError>| row_result_view(x));
    let mut records: Vec<ADIFRecord> = Vec::new();
    let mut errors: Vec<(usize, ConvError)> = Vec::new();
    let n = rows.len();
    let mut i: usize = 0;
    while i < n
        invariant
            0 <= i <= n,
            n == rows@.len(),
            row_views == rows@.map_values(|x: Result<LogRow, ConvError>| row_result_view(x)),
            records@.map_values(|r: ADIFRecord| r@) == assemble_records(
                row_views.take(i as int),
                activator_call@,
                operator@,
                references@,
                his_qth@,
            ),
            errors@.map_values(|p: (usize, ConvError)| (p.0 as int, p.1)) == assemble_errors(
                row_views.take(i as int),
                0,
            ),
        decreases n - i,
    {
        let ghost recs0 = records@.map_values(|r: ADIFRecord| r@);
        let ghost errs0 = errors@.map_values(|p: (usize, ConvError)| (p.0 as int, p.1));
        proof {
            assert(row_views.take(i + 1) =~= row_views.take(i as int) + seq![row_views[i as int]]);
            lemma_assemble_records_concat(
                row_views.take(i as int),
                seq![row_views[i as int]],
                activator_call@,
                operator@,
                references@,
                his_qth@,
            );
            lemma_assemble_errors_concat(row_views.take(i as int), seq![row_views[i as int]], 0);
            assert(row_views.take(i as int).len() == i);
            assert(seq![row_views[i as int]].skip(1) =~= Seq::<
                Result<(Seq<char>, Seq<char>, Seq<char>, Seq<char>), ConvError>,
            >::empty());
            assert(assemble_records(
                Seq::<Result<(Seq<char>, Seq<char>, Seq<char>, Seq<char>), ConvError>>::empty(),
                activator_call@,
                operator@,
                references@,
                his_qth@,
            ) == Seq::<RecordModel>::empty());
            assert(assemble_errors(
                Seq::<Result<(Seq<char>, Seq<char>, Seq<char>, Seq<char>), ConvError>>::empty(),
                i + 1,
            ) == Seq::<(int, ConvError)>::empty());
            assert(rows@.map_values(|x: Result<LogRow, ConvError>| row_result_view(x))[i as int]
                == row_result_view(rows@[i as int]));
        }
        match &rows[i] {
            Err(e) => {
                errors.push((i, *e));
                proof {
                    assert(errors@.map_values(|p: (usize, ConvError)| (p.0 as int, p.1))
                        =~= errs0.push((i as int, *e)));
                    assert(errs0 + seq![(i as int, *e)] =~= errs0.push((i as int, *e)));
                    assert(recs0 + Seq::<RecordModel>::empty() =~= recs0);
                }
            },
            Ok(row) => {
                let time = adif_time_from_hamlog(row.h_date.as_str(), row.h_time.as_str());
                let band = adif_band_from_hamlog(row.h_freq.as_str());
                let mode_name = match adif_mode_from_hamlog(row.h_mode.as_str()) {
                    Ok(m) => m,
                    Err(_) => {
                        proof {
                            assert(false);
                        }
                        String::new()
                    },
                };
                let mode_empty = mode_name.as_str().is_empty();
                match (time, band) {
                    (Ok(dt), Ok(band_name)) if !mode_empty => {
                        let mut my_sig: Vec<(String, String)> = Vec::new();
                        my_sig.push((String::from_str("SOTA"), String::from_str(references)));
                        let his_sig: Option<Vec<(String, String)>> = if his_qth.is_empty() {
                            None
                        } else {
                            let mut hs: Vec<(String, String)> = Vec::new();
                            hs.push((String::from_str("SOTA"), String::from_str(his_qth)));
                            Some(hs)
                        };
                        let rec = ADIFRecord {
                            qso_date: dt.0,
                            time_on: dt.1,
                            band: band_name,
                            mode: mode_name,
                            station: String::from_str(activator_call),
                            operator: String::from_str(operator),
                            my_sig: my_sig,
                            his_sig: his_sig,
                        };
                        proof {
                            reveal_strlit("SOTA");
                            assert(rec.my_sig@.len() == 1);
                            assert(sig_pairs_view(rec.my_sig@) =~~= seq![(sig_key(), references@)]);
                            if rec.his_sig is Some {
                                assert(sig_pairs_view(rec.his_sig->Some_0@) =~~= seq![
                                    (sig_key(), his_qth@),
                                ]);
                            }
                            let m = convert_row(
                                row@,
                                activator_call@,
                                operator@,
                                references@,
                                his_qth@,
                            )->Some_0;
                            assert(rec@ =~~= m);
                            assert(records@.push(rec).map_values(|r: ADIFRecord| r@) =~= recs0.push(
                                rec@,
                            ));
                            assert(recs0 + seq![m] =~= recs0.push(m));
                            assert(errs0 + Seq::<(int, ConvError)>::empty() =~= errs0);
                        }
                        records.push(rec);
                    },
                    (time_res, band_res) => {
                        let e: ConvError = match (time_res, band_res) {
                            (Err(te), _) => te,
                            (_, Err(be)) => be,
                            _ => ConvError::FormatError,
                        };
                        proof {
                            assert(!row_converts(row@));
                            assert(e == row_conv_error(row@));
                        }
                        errors.push((i, e));
                        proof {
                            assert(errors@.map_values(|p: (usize, ConvError)| (p.0 as int, p.1))
                                =~= errs0.push((i as int, e)));
                            assert(errs0 + seq![(i as int, e)] =~= errs0.push((i as int, e)));
                            assert(recs0 + Seq::<RecordModel>::empty() =~= recs0);
                        }
                    },
                }
            },
        }
        i += 1;
    }
    proof {
        assert(row_views.take(n as int) =~= row_views);
        lemma_assemble_records_well_formed(
            row_views,
            activator_call@,
            operator@,
            references@,
            his_qth@,
        );
        assert forall|i: int| 0 <= i < records@.len() implies record_well_formed(
            (#[trigger] records@[i])@,
        ) by {
            assert(records@.map_values(|r: ADIFRecord| r@)[i] == records@[i]@);
        }
    }
    ADIFData { status: status_ok(), records: records, errors: errors }
}

/// The `OK` status text.
fn status_ok() -> (s: String)
    ensures
        s@ == seq!['O', 'K'],
{
    let s = String::from_str("OK");
    proof {
        reveal_strlit("OK");
        assert(s@ =~= seq!['O', 'K']);
    }
    s
}

/// The `NG` status text.
fn status_ng() -> (s: String)
    ensures
        s@ == seq!['N', 'G'],
{
    let s = String::from_str("NG");
    proof {
        reveal_strlit("NG");
        assert(s@ =~= seq!['N', 'G']);
    }
    s
}

/// The whole conversion of one upload: input recognized as already-ADIF
/// yields status `NG` with no records whatever else it holds; any other
/// input yields status `OK` with every convertible row's record, in
/// original row order, and the index and error of every failing row.
/// Every record of the result is well formed (`record_well_formed`).
/// The locality code `my_qth` is accepted from the caller but not
/// interpreted by the conversion.
pub fn adifcheck(
    activator_call: &str,
    operator: &str,
    my_qth: &str,
    references: &str,
    his_qth: &str,
    log: &str,
) -> (d: ADIFData)
    ensures
        contains_seq(log@, adif_marker()) ==> d.status@ == seq!['N', 'G'] && d.records@.len() == 0
            && d.errors@.len() == 0,
        !contains_seq(log@, adif_marker()) ==> {
            let rows = rows_of_lines(split_from(log@, '\n', 0, Seq::empty()));
            &&& d.status@ == seq!['O', 'K']
            &&& d.records@.map_values(|r: ADIFRecord| r@) == assemble_records(
                rows,
                activator_call@,
                operator@,
                references@,
                his_qth@,
            )
            &&& d.errors@.map_values(|p: (usize, ConvError)| (p.0 as int, p.1)) == assemble_errors(
                rows,
                0,
            )
        },
        forall|i: int| 0 <= i < d.records@.len() ==> record_well_formed((#[trigger] d.records@[i])@),
{
    let _ = my_qth;
    match ingest(log) {
        Err(_) => ADIFData { status: status_ng(), records: Vec::new(), errors: Vec::new() },
        Ok(rows) => assemble(&rows, activator_call, operator, references, his_qth),
    }
}

} // verus!
