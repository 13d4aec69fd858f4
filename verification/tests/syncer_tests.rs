use subsink::offset::{read_offset_text, OffsetAmount, OffsetError};

/// The offset in milliseconds: what the library reads, with a number of seconds scaled in
/// floating point as the program does it.
fn parse_offset_string(input: &str) -> Result<i64, OffsetError> {
    match read_offset_text(input)? {
        OffsetAmount::Millis(v) => Ok(v),
        OffsetAmount::Seconds(text) => Ok((text.parse::<f64>().unwrap() * 1000.0).round() as i64),
    }
}
use subsink::shift::{shift_ass_timestamp, shift_srt_timestamp, shift_subtitle_text, subtitle_shift_is_defined};
use subsink::syncer::{
    combined_alass_output, evaluate_alass_output, first_sync_step, next_sync_step, parse_alass_offset,
    parse_alass_shift, Aligner, SubtitleSyncer, SyncResult, SyncStep,
};

#[test]
fn test_parse_offset_strings() {
    assert_eq!(parse_offset_string("500").unwrap(), 500);
    assert_eq!(parse_offset_string("+500").unwrap(), 500);
    assert_eq!(parse_offset_string("-1000").unwrap(), -1000);
    assert_eq!(parse_offset_string("250ms").unwrap(), 250);
    assert_eq!(parse_offset_string("-250ms").unwrap(), -250);
    assert_eq!(parse_offset_string("1.5").unwrap(), 1500);
    assert_eq!(parse_offset_string("+1.5s").unwrap(), 1500);
    assert_eq!(parse_offset_string("-0.8s").unwrap(), -800);
    assert_eq!(parse_offset_string("0").unwrap(), 0);
}

#[test]
fn test_shift_srt_subtitles() {
    let srt = "1\n00:00:03,100 --> 00:00:05,400\nHello\n";
    let shifted = shift_subtitle_text(srt, 500);
    assert!(shifted.contains("00:00:03,600 --> 00:00:05,900"));

    let shifted_back = shift_subtitle_text(srt, -1000);
    assert!(shifted_back.contains("00:00:02,100 --> 00:00:04,400"));
}

#[test]
fn test_shift_ass_subtitles() {
    let ass = "[Events]\nFormat: Layer, Start, End, Style, Name, MarginL, MarginR, MarginV, Effect, Text\nDialogue: 0,0:01:05.20,0:01:08.50,Default,,0,0,0,,Konichiwa\n";
    let shifted = shift_subtitle_text(ass, 1000);
    assert!(shifted.contains("Dialogue: 0,0:01:06.20,0:01:09.50,Default,,0,0,0,,Konichiwa"));
}

#[test]
fn test_evaluate_alass_output_safety() {
    let safe_out = "shifted block of 559 subtitles with length 0:23:30.617 by 0:00:00.000";
    assert_eq!(
        evaluate_alass_output(safe_out),
        SyncResult::Success("Shifted 559 subtitle lines by 0:00:00.000".to_string())
    );

    let small_shift = "shifted block of 500 subtitles with length 0:23:30.000 by 0:00:01.250";
    assert_eq!(
        evaluate_alass_output(small_shift),
        SyncResult::Success("Shifted 500 subtitle lines by 0:00:01.250".to_string())
    );

    let large_shift = "shifted block of 1064 subtitles with length 1:10:15.122 by -0:19:24.900\nwarn: some subtitles now have negative timings";
    assert_eq!(
        evaluate_alass_output(large_shift),
        SyncResult::WarningLargeShift("Shifted 1064 subtitle lines by -0:19:24.900".to_string())
    );
}

#[test]
fn offset_forms_and_rounding() {
    assert_eq!(parse_offset_string("  2s ").unwrap(), 2000);
    assert_eq!(parse_offset_string("1.2").unwrap(), 1200);
    assert_eq!(parse_offset_string("-1.2s").unwrap(), -1200);
    assert_eq!(parse_offset_string("0.0006").unwrap(), 1);
    assert_eq!(parse_offset_string("-0.0004").unwrap(), 0);
    assert_eq!(parse_offset_string("1e3s").unwrap(), 1000000);
    assert_eq!(parse_offset_string("+0ms").unwrap(), 0);
}

#[test]
fn offset_errors_by_form() {
    assert_eq!(parse_offset_string("1.5ms"), Err(OffsetError::InvalidMillisecondsOffset));
    assert_eq!(parse_offset_string("abcs"), Err(OffsetError::InvalidSecondsOffset));
    assert_eq!(parse_offset_string("1..5"), Err(OffsetError::InvalidSecondsOffset));
    assert_eq!(parse_offset_string("twelve"), Err(OffsetError::InvalidMillisecondOffset));
    assert_eq!(parse_offset_string("   "), Ok(0));
    assert_eq!(OffsetError::InvalidSecondsOffset.message(), "Invalid seconds offset");
}

#[test]
fn srt_and_ass_timestamps_clamp_at_zero() {
    assert_eq!(shift_srt_timestamp("00:00:01,000", -5000), "00:00:00,000");
    assert_eq!(shift_srt_timestamp("01:59:59,999", 1), "02:00:00,000");
    assert_eq!(shift_srt_timestamp("00:00:01.250", 0), "00:00:01,250");
    assert_eq!(shift_ass_timestamp("0:00:00.50", -10000), "0:00:00.00");
    assert_eq!(shift_ass_timestamp("9:59:59.99", 10), "10:00:00.00");
    assert_eq!(shift_ass_timestamp("0:01:05.27", 50), "0:01:05.32");
}

#[test]
fn text_without_timings_is_unchanged() {
    let text = "just words\r\nno timings here";
    assert!(subtitle_shift_is_defined(text, 1000));
    assert_eq!(shift_subtitle_text(text, 1000), "just words\nno timings here");
}

#[test]
fn several_srt_timings_on_one_line() {
    let line = "00:00:01,000-->00:00:02,000 x 00:00:03.000  -->  00:00:04,000\n";
    let shifted = shift_subtitle_text(line, 100);
    assert_eq!(shifted, "00:00:01,100 --> 00:00:02,100 x 00:00:03,100 --> 00:00:04,100\n");
}

#[test]
fn shift_that_would_overflow_is_not_defined() {
    let srt = "99:99:99,999 --> 00:00:00,000\n";
    assert!(subtitle_shift_is_defined(srt, 1000));
    assert!(!subtitle_shift_is_defined(srt, i64::MAX));
}

#[test]
fn alass_summary_without_block_line() {
    assert_eq!(parse_alass_shift("nothing useful"), "Audio voice timing aligned successfully");
    assert_eq!(
        evaluate_alass_output("nothing useful"),
        SyncResult::Success("Audio voice timing aligned successfully".to_string())
    );
}

#[test]
fn alass_offset_fields() {
    let out = "shifted block of 3 subtitles with length 0:00:10.000 by -0:19:24.900";
    let o = parse_alass_offset(out).unwrap();
    assert!(o.negative);
    assert_eq!(o.hours.as_deref(), Some("0"));
    assert_eq!(o.minutes, "19");
    assert_eq!(o.seconds, "24.900");
    assert!(parse_alass_offset("no shift").is_none());
}

#[test]
fn shift_just_over_ten_seconds_warns() {
    let out = "shifted block of 3 subtitles with length 0:00:10.000 by 0:00:10.001";
    assert!(matches!(evaluate_alass_output(out), SyncResult::WarningLargeShift(_)));
    let at_limit = "shifted block of 3 subtitles with length 0:00:10.000 by 0:00:10.000";
    assert!(matches!(evaluate_alass_output(at_limit), SyncResult::Success(_)));
}

#[test]
fn synchroniser_steps() {
    let _syncer = SubtitleSyncer::new();
    assert!(matches!(first_sync_step(), SyncStep::Run(Aligner::Alass)));
    assert!(matches!(next_sync_step(Aligner::Alass, None), SyncStep::Run(Aligner::AlassCli)));
    assert!(matches!(next_sync_step(Aligner::AlassCli, None), SyncStep::CopyUnchanged));
    let out = combined_alass_output("shifted block of 2 subtitles with length 0:00:01.000 by 0:00:00.500", "");
    assert_eq!(out, "shifted block of 2 subtitles with length 0:00:01.000 by 0:00:00.500\n");
    match next_sync_step(Aligner::AlassCli, Some(out)) {
        SyncStep::Finish(SyncResult::Success(s)) => assert_eq!(s, "Shifted 2 subtitle lines by 0:00:00.500"),
        _ => panic!("a successful run finishes"),
    }
}

#[test]
fn srt_shifts_add_up() {
    let once = shift_srt_timestamp(&shift_srt_timestamp("00:01:02,003", 1500), -700);
    assert_eq!(once, shift_srt_timestamp("00:01:02,003", 800));
    assert_eq!(once, "00:01:02,803");
    let back = shift_srt_timestamp(&shift_srt_timestamp("01:00:00,000", 90_061_001), -90_061_001);
    assert_eq!(back, "01:00:00,000");
}

#[test]
fn srt_shift_reads_back_normalised() {
    assert_eq!(shift_srt_timestamp("00:75:00,000", 0), "01:15:00,000");
    assert_eq!(shift_srt_timestamp("100:00:00,000", 1), "100:00:00,001");
}

#[test]
fn ass_shifts_add_up_in_whole_centiseconds() {
    let twice = shift_ass_timestamp(&shift_ass_timestamp("0:01:05.20", 1230), 5);
    assert_eq!(twice, shift_ass_timestamp("0:01:05.20", 1235));
    assert_eq!(shift_ass_timestamp("0:01:05.20", 1235), "0:01:06.43");
    assert_eq!(shift_ass_timestamp("0:00:00.00", 15), "0:00:00.01");
}

#[test]
fn minus_turns_offsets_around() {
    for text in ["500", "250ms", "1.5", "1.5s", "0.8S", "12 ms", "1e2s", "nan s"] {
        let plus = parse_offset_string(text).unwrap();
        let minus = parse_offset_string(&format!("-{text}")).unwrap();
        assert_eq!(minus, -plus, "{text}");
    }
    assert_eq!(parse_offset_string("infs").unwrap(), i64::MAX);
    assert_eq!(parse_offset_string("-infs").unwrap(), i64::MIN);
}

#[test]
fn unicode_white_space_is_trimmed() {
    assert_eq!(parse_offset_string("\u{3000}500\u{3000}").unwrap(), 500);
    assert_eq!(parse_offset_string("\u{2003}").unwrap(), 0);
}

#[test]
fn integer_offsets_read_back() {
    for n in [0i64, 7, -7, 500, -1000, i64::MAX, i64::MIN] {
        assert_eq!(parse_offset_string(&n.to_string()).unwrap(), n);
        assert_eq!(parse_offset_string(&format!("{}ms", n)).unwrap(), n);
        assert_eq!(parse_offset_string(&format!(" {} MS ", n)).unwrap(), n);
    }
    assert_eq!(parse_offset_string(" \t\n").unwrap(), 0);
}

#[test]
fn two_shift_calls_compose() {
    let srt = shift_srt_timestamp(&shift_srt_timestamp("00:00:05,000", -2000), 3500);
    assert_eq!(srt, shift_srt_timestamp("00:00:05,000", 1500));
    let ass = shift_ass_timestamp(&shift_ass_timestamp("0:00:05.00", -2000), 3505);
    assert_eq!(ass, shift_ass_timestamp("0:00:05.00", 1505));
    assert_eq!(ass, "0:00:06.50");
}

#[test]
fn offsets_of_seconds_are_handed_out_as_text() {
    assert_eq!(read_offset_text("1.5"), Ok(OffsetAmount::Seconds("1.5".to_string())));
    assert_eq!(read_offset_text(" +1.5s "), Ok(OffsetAmount::Seconds("+1.5".to_string())));
    assert_eq!(read_offset_text("-0.8 S"), Ok(OffsetAmount::Seconds("-0.8".to_string())));
    assert_eq!(read_offset_text("INFINITYs"), Ok(OffsetAmount::Seconds("INFINITY".to_string())));
    assert_eq!(read_offset_text("250ms"), Ok(OffsetAmount::Millis(250)));
    assert_eq!(read_offset_text("e5s"), Err(OffsetError::InvalidSecondsOffset));
    assert_eq!(parse_offset_string("0.5005s").unwrap(), 500);
}

#[test]
fn ten_second_threshold_follows_f64() {
    let at = |amount: &str| {
        evaluate_alass_output(&format!("shifted block of 3 subtitles with length 0:00:10.000 by {amount}"))
    };
    assert!(matches!(at("0:00:10.00000000000000001"), SyncResult::Success(_)));
    assert!(matches!(at("0:00:10.00000000000000088817841970012523233890533447265625"), SyncResult::Success(_)));
    assert!(matches!(at("0:00:10.000000000000000888178419700125232338905334472656251"), SyncResult::WarningLargeShift(_)));
    assert!(matches!(at("0:00:10.000000000000001"), SyncResult::WarningLargeShift(_)));
    assert!(matches!(at("-0:00:10.0000000000000009"), SyncResult::WarningLargeShift(_)));
    assert!(matches!(at("0:01:00.000"), SyncResult::WarningLargeShift(_)));
    assert!(matches!(at("0:00:09.999999999999999999"), SyncResult::Success(_)));
    for amount in ["0:00:10.00000000000000001", "0:00:10.000000000000001", "0:00:09.9999999999999999"] {
        let secs: f64 = amount[5..].parse().unwrap();
        assert_eq!(matches!(at(amount), SyncResult::WarningLargeShift(_)), secs.abs() > 10.0, "{amount}");
    }
}

#[test]
fn white_space_class_is_unicode_white_space() {
    for code in 0u32..=0x10FFFF {
        if let Some(c) = char::from_u32(code) {
            assert_eq!(subsink::text::is_white_char(c), c.is_whitespace(), "U+{code:04X}");
        }
    }
}
