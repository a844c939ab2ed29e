use run_stats::{
    median_of_ranked, median_pick, order_key, parse_line, rank, runtime_from_scan, Data, MedianPick, Outcome,
    ParseError, Record,
};

fn bits(v: &[f32]) -> Vec<u32> {
    v.iter().map(|x| x.to_bits()).collect()
}

fn rec(population_size: u32, num_generations: u32, run_number: u32, outcome: Outcome) -> Record {
    Record { population_size, num_generations, run_number, outcome }
}

#[test]
fn parses_success_line() {
    let r = parse_line(b"PS_10/NG_20/run_0.output:SUCCESS");
    assert_eq!(r, Ok(rec(10, 20, 0, Outcome::Success)));
}

#[test]
fn parses_run_time_line() {
    let r = parse_line(b"PS_10/NG_20/run_1.output: 3.5");
    assert_eq!(r, Ok(rec(10, 20, 1, Outcome::RunTime(3.5f32.to_bits()))));
}

#[test]
fn parses_run_time_without_blanks_and_with_tabs() {
    assert_eq!(
        parse_line(b"PS_50/NG_100/run_3.output:12.34"),
        Ok(rec(50, 100, 3, Outcome::RunTime(12.34f32.to_bits())))
    );
    assert_eq!(
        parse_line(b"PS_50/NG_100/run_3.output: \t 1e3"),
        Ok(rec(50, 100, 3, Outcome::RunTime(1000.0f32.to_bits())))
    );
}

#[test]
fn parses_leading_zeros_and_largest_u32() {
    assert_eq!(
        parse_line(b"PS_007/NG_4294967295/run_0.output:SUCCESS"),
        Ok(rec(7, 4294967295, 0, Outcome::Success))
    );
}

#[test]
fn rejects_unknown_outcome() {
    assert_eq!(
        parse_line(b"PS_10/NG_20/run_1.output:MAYBE"),
        Err(ParseError::InvalidOutcome { at: 25 })
    );
    assert_eq!(parse_line(b"PS_10/NG_20/run_1.output:"), Err(ParseError::InvalidOutcome { at: 25 }));
}

#[test]
fn rejects_text_after_outcome() {
    assert_eq!(
        parse_line(b"PS_10/NG_20/run_1.output:SUCCESS123"),
        Err(ParseError::TrailingInput { at: 25 })
    );
    assert_eq!(
        parse_line(b"PS_10/NG_20/run_1.output: 3.5x"),
        Err(ParseError::TrailingInput { at: 26 })
    );
}

#[test]
fn rejects_missing_or_misplaced_tokens() {
    assert_eq!(parse_line(b"PX_10/NG_20/run_1.output:SUCCESS"), Err(ParseError::ExpectedLiteral { at: 0 }));
    assert_eq!(parse_line(b"PS_10/run_1/NG_20.output:SUCCESS"), Err(ParseError::ExpectedLiteral { at: 5 }));
    assert_eq!(parse_line(b"PS_10/NG_20/run_1.out:SUCCESS"), Err(ParseError::ExpectedLiteral { at: 17 }));
    assert_eq!(parse_line(b"PS_10/NG_20/run_1.output SUCCESS"), Err(ParseError::ExpectedLiteral { at: 17 }));
    assert_eq!(parse_line(b""), Err(ParseError::ExpectedLiteral { at: 0 }));
}

#[test]
fn rejects_bad_integers() {
    assert_eq!(parse_line(b"PS_/NG_20/run_1.output:SUCCESS"), Err(ParseError::ExpectedDigits { at: 3 }));
    assert_eq!(parse_line(b"PS_-1/NG_20/run_1.output:SUCCESS"), Err(ParseError::ExpectedDigits { at: 3 }));
    assert_eq!(
        parse_line(b"PS_10/NG_4294967296/run_1.output:SUCCESS"),
        Err(ParseError::IntegerTooLarge { at: 9 })
    );
}

#[test]
fn runtime_from_scan_cases() {
    assert_eq!(runtime_from_scan(Some((0, 7)), 4), Ok(Outcome::RunTime(7)));
    assert_eq!(runtime_from_scan(Some((2, 7)), 4), Err(ParseError::TrailingInput { at: 4 }));
    assert_eq!(runtime_from_scan(None, 4), Err(ParseError::InvalidOutcome { at: 4 }));
}

#[test]
fn canonical_lines_read_back() {
    let cases = [rec(0, 0, 0, Outcome::Success), rec(4294967295, 12, 99, Outcome::RunTime(2.25f32.to_bits()))];
    for r in cases {
        let outcome = match r.outcome {
            Outcome::Success => "SUCCESS".to_string(),
            Outcome::RunTime(b) => format!("  {}", f32::from_bits(b)),
        };
        let line = format!(
            "PS_{}/NG_{}/run_{}.output:{}",
            r.population_size, r.num_generations, r.run_number, outcome
        );
        assert_eq!(parse_line(line.as_bytes()), Ok(r));
    }
}

#[test]
fn aggregation_counts_per_key() {
    let recs = vec![
        rec(10, 20, 0, Outcome::Success),
        rec(10, 20, 1, Outcome::RunTime(2.0f32.to_bits())),
        rec(5, 6, 0, Outcome::Success),
        rec(10, 20, 1, Outcome::RunTime(4.0f32.to_bits())),
        rec(10, 20, 0, Outcome::Success),
    ];
    let d = Data::from_records(&recs);
    assert_eq!(d.len(), 2);
    assert_eq!(d.key_at(0), (10, 20));
    assert_eq!(d.key_at(1), (5, 6));
    let a = d.result_at(0);
    assert_eq!(a.num_runs, 2);
    assert_eq!(a.num_successes, 2);
    assert_eq!(a.run_times, bits(&[2.0, 4.0]));
    let b = d.result_at(1);
    assert_eq!(b.num_runs, 0);
    assert_eq!(b.num_successes, 1);
    assert!(b.run_times.is_empty());
}

#[test]
fn aggregation_ignores_record_order() {
    let recs = vec![
        rec(1, 1, 0, Outcome::RunTime(1.0f32.to_bits())),
        rec(2, 2, 0, Outcome::Success),
        rec(1, 1, 1, Outcome::Success),
        rec(2, 2, 1, Outcome::RunTime(3.0f32.to_bits())),
    ];
    let mut reversed = recs.clone();
    reversed.reverse();
    let d1 = Data::from_records(&recs);
    let d2 = Data::from_records(&reversed);
    assert_eq!(d1.len(), d2.len());
    for i in 0..d1.len() {
        let key = d1.key_at(i);
        let j = (0..d2.len()).find(|&j| d2.key_at(j) == key).unwrap();
        assert_eq!(d1.result_at(i).num_runs, d2.result_at(j).num_runs);
        assert_eq!(d1.result_at(i).num_successes, d2.result_at(j).num_successes);
    }
}

#[test]
fn empty_input_gives_no_configurations() {
    let d = Data::from_records(&[]);
    assert_eq!(d.len(), 0);
}

#[test]
fn median_of_odd_and_even_lengths() {
    assert_eq!(median_pick(&bits(&[1.0, 2.0, 3.0])), MedianPick::Middle(2.0f32.to_bits()));
    assert_eq!(median_pick(&bits(&[3.0, 1.0, 2.0])), MedianPick::Middle(2.0f32.to_bits()));
    assert_eq!(
        median_pick(&bits(&[1.0, 2.0, 3.0, 4.0])),
        MedianPick::Pair(2.0f32.to_bits(), 3.0f32.to_bits())
    );
    assert_eq!(
        median_pick(&bits(&[4.0, 1.0, 3.0, 2.0])),
        MedianPick::Pair(2.0f32.to_bits(), 3.0f32.to_bits())
    );
}

#[test]
fn median_of_result_run_times() {
    assert_eq!(median_pick(&bits(&[2.0, 4.0, 6.0])), MedianPick::Middle(4.0f32.to_bits()));
}

#[test]
fn median_of_no_run_times_is_empty() {
    assert_eq!(median_pick(&Vec::new()), MedianPick::Empty);
}

#[test]
fn median_of_ranked_uses_given_order() {
    let v = bits(&[5.0, 1.0, 3.0]);
    let order = rank(&v);
    assert_eq!(order, vec![1, 2, 0]);
    assert_eq!(median_of_ranked(&v, &order), MedianPick::Middle(3.0f32.to_bits()));
}

#[test]
fn order_key_values() {
    assert_eq!(order_key(1.0f32.to_bits()), 0x3f80_0000);
    assert_eq!(order_key((-1.0f32).to_bits()), -0x3f80_0000);
    assert_eq!(order_key(0.0f32.to_bits()), 0);
    assert_eq!(order_key((-0.0f32).to_bits()), 0);
    assert_eq!(order_key(f32::INFINITY.to_bits()), 0x7f80_0000);
    assert_eq!(order_key(f32::NEG_INFINITY.to_bits()), -0x7f80_0000);
    assert_eq!(order_key(f32::NAN.to_bits()), 0x7f80_0001);
    assert_eq!(order_key((-f32::NAN).to_bits()), 0x7f80_0001);
}

#[test]
fn rank_is_ascending_and_stable() {
    let v = bits(&[2.0, 1.0, 2.0, f32::NAN, 1.0, -3.0, f32::INFINITY]);
    assert_eq!(rank(&v), vec![5, 1, 4, 0, 2, 6, 3]);
}

#[test]
fn rank_keeps_equal_metrics_in_input_order() {
    let v = bits(&[0.0, -0.0, 0.0, f32::NAN, -f32::NAN]);
    assert_eq!(rank(&v), vec![0, 1, 2, 3, 4]);
    assert_eq!(rank(&v), rank(&v));
    assert_eq!(rank(&Vec::new()), Vec::<usize>::new());
}
