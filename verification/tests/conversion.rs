//! Tests of the time, mode and band normalizers and of batch assembly.

use adifconv::adifgen::{adifcheck, assemble, ingest, LogRow};
use adifconv::band::adif_band_from_hamlog;
use adifconv::errors::ConvError;
use adifconv::mode::adif_mode_from_hamlog;
use adifconv::time::adif_time_from_hamlog;

#[test]
fn hamlog_test() {
    let pat1 = adif_time_from_hamlog("2000/01/01", "08:00J").unwrap();
    let pat2 = adif_time_from_hamlog("00/01/01", "08:00J").unwrap();
    let pat3 = adif_time_from_hamlog("78/01/01", "08:00J").unwrap();
    let pat4 = adif_time_from_hamlog("2024/03/01", "08:00J").unwrap();
    let pat5 = adif_time_from_hamlog("2024/02/29", "23:00U").unwrap();
    let pat6 = adif_time_from_hamlog("2024/02/29", "23:00Z").unwrap();
    let _pat7 = adif_time_from_hamlog("2024/0A/29", "23:00Z").unwrap_err();
    let _pat8 = adif_time_from_hamlog("2024/09/29", "23:0AZ").unwrap_err();

    assert_eq!("19991231", pat1.0);
    assert_eq!("2300", pat1.1);
    assert_eq!("19991231", pat2.0);
    assert_eq!("2300", pat2.1);
    assert_eq!("19771231", pat3.0);
    assert_eq!("2300", pat3.1);
    assert_eq!("20240229", pat4.0);
    assert_eq!("2300", pat4.1);
    assert_eq!("20240229", pat5.0);
    assert_eq!("2300", pat5.1);
    assert_eq!("20240229", pat6.0);
    assert_eq!("2300", pat6.1);

    assert_eq!("DIGITALVOICE", adif_mode_from_hamlog("Dv").unwrap());
    assert_eq!("DIGITALVOICE", adif_mode_from_hamlog("D-STAR").unwrap());
    assert_eq!("DIGITALVOICE", adif_mode_from_hamlog("FUSIoN").unwrap());
    assert_eq!("DIGITALVOICE", adif_mode_from_hamlog("DIGITALvOICE").unwrap());
    assert_eq!("MFSK", adif_mode_from_hamlog("ft4").unwrap());
    assert_eq!("MFSK", adif_mode_from_hamlog("js8").unwrap());
    assert_eq!("DIGITALVOICE", adif_mode_from_hamlog("FREEDV").unwrap());

    assert_eq!("2190m", adif_band_from_hamlog("0.136").unwrap());
    assert_eq!("630m", adif_band_from_hamlog("0.473").unwrap());
    assert_eq!("160m", adif_band_from_hamlog("1.9125").unwrap());
    assert_eq!("80m", adif_band_from_hamlog("3.5").unwrap());
    assert_eq!("40m", adif_band_from_hamlog("7.021").unwrap());
    assert_eq!("30m", adif_band_from_hamlog("10.125").unwrap());
    assert_eq!("20m", adif_band_from_hamlog("14.010").unwrap());
    assert_eq!("17m", adif_band_from_hamlog("18.094").unwrap());
    assert_eq!("15m", adif_band_from_hamlog("21.404").unwrap());
    assert_eq!("12m", adif_band_from_hamlog("24.925").unwrap());
    assert_eq!("10m", adif_band_from_hamlog("29.120").unwrap());
    assert_eq!("6m", adif_band_from_hamlog("51.030").unwrap());
    assert_eq!("2m", adif_band_from_hamlog("144.4").unwrap());
    assert_eq!("70cm", adif_band_from_hamlog("433.2").unwrap());
    assert_eq!("23cm", adif_band_from_hamlog("1295").unwrap());
    assert_eq!("13cm", adif_band_from_hamlog("2449").unwrap());
    assert_eq!("6cm", adif_band_from_hamlog("5655.1").unwrap());
    assert_eq!("3cm", adif_band_from_hamlog("10249").unwrap());
}

#[test]
fn time_two_digit_year_pivot() {
    // 66..=99 belong to the 1900s, 0..=65 to the 2000s.
    let a = adif_time_from_hamlog("66/06/15", "12:00Z").unwrap();
    assert_eq!("19660615", a.0);
    let b = adif_time_from_hamlog("65/06/15", "12:00Z").unwrap();
    assert_eq!("20650615", b.0);
}

#[test]
fn time_midnight_and_leap_day_rolls() {
    // A local time before 09:00 rolls back one UTC day, across a leap day.
    let a = adif_time_from_hamlog("2024/03/01", "08:59J").unwrap();
    assert_eq!(("20240229".to_string(), "2359".to_string()), a);
    // A non-leap year rolls back to February 28th instead.
    let b = adif_time_from_hamlog("2023/03/01", "00:00J").unwrap();
    assert_eq!(("20230228".to_string(), "1500".to_string()), b);
    // At exactly the offset boundary the date stays.
    let c = adif_time_from_hamlog("2024/03/01", "09:00J").unwrap();
    assert_eq!(("20240301".to_string(), "0000".to_string()), c);
}

#[test]
fn time_rejects_unreal_dates_and_times() {
    assert_eq!(
        ConvError::FormatError,
        adif_time_from_hamlog("2023/02/29", "12:00Z").unwrap_err()
    );
    assert_eq!(
        ConvError::FormatError,
        adif_time_from_hamlog("2024/13/01", "12:00Z").unwrap_err()
    );
    assert_eq!(
        ConvError::FormatError,
        adif_time_from_hamlog("2024/01/01", "24:00Z").unwrap_err()
    );
    assert_eq!(
        ConvError::FormatError,
        adif_time_from_hamlog("2024/01/01", "12:60Z").unwrap_err()
    );
    assert_eq!(
        ConvError::FormatError,
        adif_time_from_hamlog("2024-01-01", "12:00Z").unwrap_err()
    );
    assert_eq!(
        ConvError::FormatError,
        adif_time_from_hamlog("2024/01/01", "12:005").unwrap_err()
    );
}

#[test]
fn mode_idempotent_on_canonical_forms() {
    let once = adif_mode_from_hamlog("FREEDV").unwrap();
    let twice = adif_mode_from_hamlog(&once).unwrap();
    assert_eq!(once, twice);
    let once = adif_mode_from_hamlog("ft4").unwrap();
    let twice = adif_mode_from_hamlog(&once).unwrap();
    assert_eq!(once, twice);
}

#[test]
fn mode_passes_unknown_text_through_uppercased() {
    assert_eq!("SSB", adif_mode_from_hamlog("ssb").unwrap());
    assert_eq!("CW", adif_mode_from_hamlog("CW").unwrap());
    assert_eq!("RTTY", adif_mode_from_hamlog("rtty").unwrap());
}

#[test]
fn mode_rewrites_tokens_inside_longer_text() {
    // Substitution is textual, not an exact-match lookup.
    assert_eq!("XDIGITALVOICEY", adif_mode_from_hamlog("xDVy").unwrap());
}

#[test]
fn band_bounds_are_inclusive() {
    let bounds = [
        ("0.1357", "0.1378", "2190m"),
        ("0.472", "0.479", "630m"),
        ("1.8", "1.9125", "160m"),
        ("3.5", "3.805", "80m"),
        ("7.0", "7.2", "40m"),
        ("10.000", "10.150", "30m"),
        ("14.0", "14.350", "20m"),
        ("18.0", "18.168", "17m"),
        ("21.0", "21.450", "15m"),
        ("24.0", "24.990", "12m"),
        ("28.0", "29.7", "10m"),
        ("50.0", "54.0", "6m"),
        ("144.0", "146.0", "2m"),
        ("430.0", "440.0", "70cm"),
        ("1200.0", "1300.0", "23cm"),
        ("2400.0", "2450.0", "13cm"),
        ("5650.0", "5850.0", "6cm"),
        ("10000.0", "10250.0", "3cm"),
        ("10450.0", "10500.0", "3cm"),
    ];
    for (lo, hi, band) in bounds.iter() {
        assert_eq!(*band, adif_band_from_hamlog(lo).unwrap());
        assert_eq!(*band, adif_band_from_hamlog(hi).unwrap());
    }
}

#[test]
fn band_unknown_frequency_is_a_range_error() {
    assert_eq!(ConvError::RangeError, adif_band_from_hamlog("99999").unwrap_err());
    assert_eq!(ConvError::RangeError, adif_band_from_hamlog("0.0001").unwrap_err());
    assert_eq!(ConvError::RangeError, adif_band_from_hamlog("7.2001").unwrap_err());
    assert_eq!(ConvError::RangeError, adif_band_from_hamlog("-7.1").unwrap_err());
}

#[test]
fn band_malformed_frequency_is_a_format_error() {
    assert_eq!(ConvError::FormatError, adif_band_from_hamlog("7.0.1").unwrap_err());
    assert_eq!(ConvError::FormatError, adif_band_from_hamlog("").unwrap_err());
    assert_eq!(ConvError::FormatError, adif_band_from_hamlog("7,1").unwrap_err());
    assert_eq!(ConvError::FormatError, adif_band_from_hamlog("MHz").unwrap_err());
}

#[test]
fn band_ignores_leading_zeros_and_deep_fractions() {
    assert_eq!("40m", adif_band_from_hamlog("007.021").unwrap());
    assert_eq!("40m", adif_band_from_hamlog("7.19990000").unwrap());
    assert_eq!(ConvError::RangeError, adif_band_from_hamlog("7.20000001").unwrap_err());
}

#[test]
fn ingest_refuses_adif_input() {
    let r = ingest("some text <ADIF_VER more text").unwrap_err();
    assert_eq!(ConvError::ScopeMismatch, r);
}

#[test]
fn ingest_splits_rows_and_flags_short_ones() {
    let rows = ingest("JA1AAA,2024/02/29,23:00U,59,59,7.021,CW,x\nshort,row\n").unwrap();
    assert_eq!(2, rows.len());
    let row: &LogRow = rows[0].as_ref().unwrap();
    assert_eq!("2024/02/29", row.h_date);
    assert_eq!("23:00U", row.h_time);
    assert_eq!("7.021", row.h_freq);
    assert_eq!("CW", row.h_mode);
    assert_eq!(ConvError::FormatError, *rows[1].as_ref().unwrap_err());
}

#[test]
fn adifcheck_flags_adif_input_as_out_of_scope() {
    let d = adifcheck("JA1AAA", "op", "PM95", "JA/TK-001", "", "<ADIF_VER:5>3.1.0\nrows");
    assert_eq!("NG", d.status);
    assert_eq!(0, d.records.len());
    assert_eq!(0, d.errors.len());
}

#[test]
fn adifcheck_assembles_valid_rows() {
    let log = "JA1AAA,2024/02/29,23:00U,59,59,7.021,CW,c\nJA2BBB,2000/01/01,08:00J,59,59,433.2,ft4,c\n";
    let d = adifcheck("JA0XXX", "JA0XXX/OP", "PM95", "JA/TK-001", "JA/NN-001", log);
    assert_eq!("OK", d.status);
    assert_eq!(2, d.records.len());
    assert_eq!(0, d.errors.len());
    let r0 = &d.records[0];
    assert_eq!("20240229", r0.qso_date);
    assert_eq!("2300", r0.time_on);
    assert_eq!("40m", r0.band);
    assert_eq!("CW", r0.mode);
    assert_eq!("JA0XXX", r0.station);
    assert_eq!("JA0XXX/OP", r0.operator);
    assert_eq!(vec![("SOTA".to_string(), "JA/TK-001".to_string())], r0.my_sig);
    assert_eq!(
        Some(vec![("SOTA".to_string(), "JA/NN-001".to_string())]),
        r0.his_sig
    );
    let r1 = &d.records[1];
    assert_eq!("19991231", r1.qso_date);
    assert_eq!("2300", r1.time_on);
    assert_eq!("70cm", r1.band);
    assert_eq!("MFSK", r1.mode);
}

#[test]
fn adifcheck_never_aborts_on_a_malformed_row() {
    // One structurally malformed row among valid ones: every valid row is
    // present, in original order, and the bad row is reported by index.
    let log = "JA1AAA,2024/02/29,23:00U,59,59,7.021,CW,c\nbroken row\nJA2BBB,2024/03/01,09:00J,59,59,14.010,ssb,c\n";
    let d = adifcheck("JA0XXX", "OP", "PM95", "JA/TK-001", "", log);
    assert_eq!("OK", d.status);
    assert_eq!(2, d.records.len());
    assert_eq!("20240229", d.records[0].qso_date);
    assert_eq!("20240301", d.records[1].qso_date);
    assert_eq!("20m", d.records[1].band);
    assert_eq!(vec![(1usize, ConvError::FormatError)], d.errors);
    assert_eq!(None, d.records[0].his_sig);
}

#[test]
fn adifcheck_reports_failing_normalizations_by_row() {
    let log = "a,2024/0A/29,23:00Z,59,59,7.021,CW,c\nb,2024/09/29,23:00Z,59,59,99999,CW,c\n";
    let d = adifcheck("JA0XXX", "OP", "PM95", "JA/TK-001", "", log);
    assert_eq!("OK", d.status);
    assert_eq!(0, d.records.len());
    assert_eq!(
        vec![(0usize, ConvError::FormatError), (1usize, ConvError::RangeError)],
        d.errors
    );
}

#[test]
fn assemble_keeps_row_order_and_indices() {
    let rows = ingest("x,2024/01/02,10:00Z,59,59,3.5,cw,c\n\n\ny,2024/01/02,10:00Z,59,59,0.9,cw,c\n").unwrap();
    assert_eq!(2, rows.len());
    let d = assemble(&rows, "CALL", "OP", "REF", "");
    assert_eq!("OK", d.status);
    assert_eq!(1, d.records.len());
    assert_eq!("80m", d.records[0].band);
    assert_eq!(vec![(1usize, ConvError::RangeError)], d.errors);
}

#[test]
fn empty_log_gives_an_empty_batch() {
    let d = adifcheck("C", "O", "Q", "R", "", "");
    assert_eq!("OK", d.status);
    assert_eq!(0, d.records.len());
    assert_eq!(0, d.errors.len());
}

#[test]
fn error_messages_name_their_kind() {
    assert_eq!("format error", ConvError::FormatError.message());
    assert_eq!("range error", ConvError::RangeError.message());
    assert_eq!("scope mismatch", ConvError::ScopeMismatch.message());
}

#[test]
fn band_oversized_whole_part_is_a_range_error() {
    assert_eq!(ConvError::RangeError, adif_band_from_hamlog("123456").unwrap_err());
    assert_eq!(ConvError::RangeError, adif_band_from_hamlog("000123456.7").unwrap_err());
}

#[test]
fn ingest_strips_carriage_returns() {
    let rows = ingest("a,2024/01/02,10:00Z,59,59,7.1,cw,c\r\n\r\n").unwrap();
    assert_eq!(1, rows.len());
    assert_eq!("7.1", rows[0].as_ref().unwrap().h_freq);
}

#[test]
fn empty_mode_field_is_a_row_failure() {
    // A row whose mode field is empty passes date/time/band normalization
    // but yields no record: every field of an assembled record is
    // non-empty.
    let d = adifcheck("C", "O", "Q", "R", "", ",1/1/1,00:00Z,,,7,\n");
    assert_eq!("OK", d.status);
    assert_eq!(0, d.records.len());
    assert_eq!(vec![(0usize, ConvError::FormatError)], d.errors);
}
