use tempstats::format::render;
use tempstats::reduce::process_data;
use tempstats::reduce::process_data_strict;
use tempstats::reduce::try_process_data;
use tempstats::reduce::InputError;
use tempstats::results::ResultsMap;
use tempstats::row::RecordError;
use tempstats::stats::FinalStats;
use tempstats::summary::summarize;
use tempstats::temperature::ParseError;
use tempstats::temperature::Temperature;

fn output(results: ResultsMap) -> String {
    String::from_utf8(render(&summarize(results))).unwrap()
}

fn sample(lines: usize) -> Vec<u8> {
    let names = [
        "Hamburg",
        "Berlin",
        "Oslo",
        "St. John's",
        "Zürich",
        "Abha",
        "X",
        "Ürümqi",
        "Petropavlovsk-Kamchatsky",
        "N'Djamena",
        "Las Palmas de Gran Canaria",
    ];
    let mut state: u64 = 0x2545f4914f6cdd1d;
    let mut data = Vec::new();
    for _ in 0..lines {
        state = state
            .wrapping_mul(6364136223846793005)
            .wrapping_add(1442695040888963407);
        let name = names[((state >> 33) % names.len() as u64) as usize];
        let tenths = ((state >> 40) % 1999) as i32 - 999;
        data.extend_from_slice(name.as_bytes());
        data.push(b';');
        data.extend_from_slice(Temperature { tenths }.to_string().as_bytes());
        data.push(b'\n');
    }
    data
}

#[test]
fn two_stations_are_summarized_in_the_order_of_their_names() {
    let data = "Hamburg;12.0\nBerlin;-3.5\nHamburg;14.0\n";
    assert_eq!(
        output(process_data(data.as_bytes())),
        "{Berlin=-3.5/-3.5/-3.5, Hamburg=12.0/13.0/14.0}"
    );
    assert_eq!(
        output(process_data_strict(data.as_bytes()).unwrap()),
        "{Berlin=-3.5/-3.5/-3.5, Hamburg=12.0/13.0/14.0}"
    );
    assert_eq!(
        output(try_process_data(data.as_bytes()).unwrap()),
        "{Berlin=-3.5/-3.5/-3.5, Hamburg=12.0/13.0/14.0}"
    );
}

#[test]
fn a_single_record_is_summarized() {
    assert_eq!(output(process_data("X;0.0\n".as_bytes())), "{X=0.0/0.0/0.0}");
    assert_eq!(
        output(process_data_strict("X;0.0\n".as_bytes()).unwrap()),
        "{X=0.0/0.0/0.0}"
    );
}

#[test]
fn chunks_give_the_output_of_the_whole() {
    let data = sample(1000);
    let whole = output(process_data(&data));

    // 37 chunks, each cut behind a newline, of uneven length
    let ends: Vec<usize> = data
        .iter()
        .enumerate()
        .filter(|(_, b)| **b == b'\n')
        .map(|(i, _)| i + 1)
        .collect();
    let mut cuts = vec![0];
    for k in 1..37 {
        cuts.push(ends[(k * k * ends.len()) / (37 * 37)]);
    }
    cuts.push(data.len());
    let parts: Vec<ResultsMap> = cuts
        .windows(2)
        .map(|w| process_data(&data[w[0]..w[1]]))
        .collect();
    assert_eq!(parts.len(), 37);
    assert_eq!(output(ResultsMap::sum(parts)), whole);

    // the same chunks, merged from the last to the first
    let mut merged = ResultsMap::default();
    for w in cuts.windows(2).rev() {
        merged.merge(process_data(&data[w[0]..w[1]]));
    }
    assert_eq!(output(merged), whole);
}

#[test]
fn a_malformed_number_ends_the_strict_run() {
    assert_eq!(
        process_data_strict("Paris;abc\n".as_bytes()).err(),
        Some(InputError {
            line: 0,
            error: RecordError::Number(ParseError::InvalidCharacter)
        })
    );
    assert_eq!(
        process_data_strict("Hamburg;12.0\nBerlin;-3.5\nParis;abc\nOslo;1.0\n".as_bytes()).err(),
        Some(InputError {
            line: 2,
            error: RecordError::Number(ParseError::InvalidCharacter)
        })
    );
}

#[test]
fn the_strict_run_reports_the_first_line_that_fails() {
    let cases: [(&str, usize, RecordError); 9] = [
        ("\n", 0, RecordError::MissingSeparator),
        ("Hamburg;12.0\n\nBerlin;1.0\n", 1, RecordError::MissingSeparator),
        ("Hamburg;12.0\n\n", 1, RecordError::MissingSeparator),
        ("Hamburg\n", 0, RecordError::MissingSeparator),
        (
            "Hamburg;12.0\nBerlin;3\n",
            1,
            RecordError::Number(ParseError::TruncatedInput),
        ),
        (
            "Hamburg;12.0\nBerlin;3.55",
            1,
            RecordError::Number(ParseError::TrailingCharacters),
        ),
        (
            "Hamburg;12.0\r\n",
            0,
            RecordError::Number(ParseError::TrailingCharacters),
        ),
        (
            "a;1.0\nb;2.0\nc;9999999999.9\nd;x\n",
            2,
            RecordError::Number(ParseError::OutOfRange),
        ),
        (
            "a;214748364.7\nb;0.1\na;0.1\nb;x\n",
            2,
            RecordError::Overflow,
        ),
    ];
    for (data, line, error) in cases {
        assert_eq!(
            process_data_strict(data.as_bytes()).err(),
            Some(InputError { line, error })
        );
    }
}

#[test]
fn the_strict_run_passes_over_an_empty_last_line_only() {
    assert_eq!(output(process_data_strict("".as_bytes()).unwrap()), "{}");
    assert_eq!(
        output(process_data_strict("X;1.0".as_bytes()).unwrap()),
        "{X=1.0/1.0/1.0}"
    );
    assert_eq!(
        output(process_data_strict("X;1.0\n".as_bytes()).unwrap()),
        "{X=1.0/1.0/1.0}"
    );
    assert!(process_data_strict("X;1.0\n\n".as_bytes()).is_err());
    assert!(process_data_strict("\nX;1.0\n".as_bytes()).is_err());
}

#[test]
fn the_relaxed_run_passes_over_lines_without_separator() {
    assert_eq!(output(process_data("".as_bytes())), "{}");
    assert_eq!(output(process_data("\n\n\n".as_bytes())), "{}");
    assert_eq!(
        output(process_data("\nX;1.0\n\nno record\nX;2.0".as_bytes())),
        "{X=1.0/1.5/2.0}"
    );
}

#[test]
fn the_two_paths_agree_on_well_formed_input() {
    for lines in [0, 1, 2, 10, 500] {
        let data = sample(lines);
        let strict = process_data_strict(&data).unwrap();
        assert_eq!(output(strict), output(process_data(&data)));
        assert_eq!(
            output(try_process_data(&data).unwrap()),
            output(process_data(&data))
        );
    }
}

#[test]
fn the_tested_relaxed_run_stops_where_nothing_fits() {
    assert!(try_process_data("a;214748364.7\n".as_bytes()).is_some());
    assert!(try_process_data("a;214748364.8\n".as_bytes()).is_none());
    assert!(try_process_data("a;214748364.7\na;0.1\n".as_bytes()).is_none());
    assert!(try_process_data("a;214748364.7\nb;0.1\n".as_bytes()).is_some());
    assert!(try_process_data("a;-214748364.7\na;-0.1".as_bytes()).is_some());
    assert!(try_process_data("a;-214748364.7\na;-0.2".as_bytes()).is_none());
    assert_eq!(
        output(try_process_data("a;214748364.7\na;-0.7\n".as_bytes()).unwrap()),
        "{a=-0.7/107374182.0/214748364.7}"
    );
}

#[test]
fn lines_are_taken_in_one_by_one() {
    let mut results = ResultsMap::default();
    for line in ["Hamburg;12.0", "", "Berlin;-3.5", "junk", "Hamburg;14.0"] {
        results.ingest_line(line.as_bytes());
    }
    assert_eq!(
        output(results),
        "{Berlin=-3.5/-3.5/-3.5, Hamburg=12.0/13.0/14.0}"
    );

    let mut tested = ResultsMap::default();
    for line in ["Hamburg;12.0", "", "Berlin;-3.5", "junk", "Hamburg;14.0"] {
        assert!(tested.try_ingest_line(line.as_bytes()));
    }
    assert_eq!(
        output(tested),
        "{Berlin=-3.5/-3.5/-3.5, Hamburg=12.0/13.0/14.0}"
    );
}

#[test]
fn a_line_that_does_not_fit_changes_nothing() {
    let mut full = ResultsMap::default();
    full.ingest_line("a;214748364.7".as_bytes());
    assert!(!full.try_ingest_line("a;0.1".as_bytes()));
    assert!(!full.try_ingest_line("b;214748364.8".as_bytes()));
    assert!(!full.try_ingest_line("a;99999999999999999999.9".as_bytes()));
    assert!(full.get("b".as_bytes()).is_none());
    assert!(full.try_ingest_line("b;0.1".as_bytes()));
    assert!(full.try_ingest_line("a;-0.7".as_bytes()));
    assert_eq!(
        output(full),
        "{a=-0.7/107374182.0/214748364.7, b=0.1/0.1/0.1}"
    );
}

#[test]
fn a_line_that_the_strict_path_rejects_changes_nothing() {
    let mut results = ResultsMap::default();
    assert_eq!(results.ingest_line_strict("Hamburg;12.0".as_bytes()), Ok(()));
    assert_eq!(
        results.ingest_line_strict("Hamburg;1x.0".as_bytes()),
        Err(RecordError::Number(ParseError::InvalidCharacter))
    );
    assert_eq!(
        results.ingest_line_strict("Hamburg".as_bytes()),
        Err(RecordError::MissingSeparator)
    );
    assert_eq!(
        results.ingest_line_strict("Hamburg;214748364.7".as_bytes()),
        Err(RecordError::Overflow)
    );
    assert_eq!(results.ingest_line_strict("Hamburg;14.0".as_bytes()), Ok(()));
    assert_eq!(output(results), "{Hamburg=12.0/13.0/14.0}");
}

#[test]
fn summary_goes_up_by_the_bytes_of_the_names() {
    let data = "b;1.0\na;1.0\nB;1.0\nab;1.0\n;1.0\naa;1.0\nÄ;1.0\n~;1.0\nZ;1.0\na;3.0\n";
    let summary = summarize(process_data(data.as_bytes()));
    let names: Vec<&[u8]> = summary.iter().map(|(name, _)| name.as_slice()).collect();
    let mut sorted = names.clone();
    sorted.sort();
    sorted.dedup();
    assert_eq!(names, sorted);
    assert_eq!(
        names,
        vec![
            "".as_bytes(),
            "B".as_bytes(),
            "Z".as_bytes(),
            "a".as_bytes(),
            "aa".as_bytes(),
            "ab".as_bytes(),
            "b".as_bytes(),
            "~".as_bytes(),
            "Ä".as_bytes()
        ]
    );
    assert_eq!(
        summary[3].1,
        FinalStats {
            mean: Temperature { tenths: 20 },
            min: Temperature { tenths: 10 },
            max: Temperature { tenths: 30 }
        }
    );
}

#[test]
fn summary_of_many_stations_is_sorted() {
    let mut data = Vec::new();
    for i in 0..2000u32 {
        let name = format!("s{}", i.wrapping_mul(2654435761) % 1500);
        data.extend_from_slice(format!("{name};{}.{}\n", i % 50, i % 10).as_bytes());
    }
    let summary = summarize(process_data(&data));
    assert!(summary.len() > 500);
    for pair in summary.windows(2) {
        assert!(pair[0].0 < pair[1].0);
    }
}

#[test]
fn render_writes_names_as_they_were_read() {
    let data = [b"caf\xc3\xa9;1.0\n".as_slice(), b"\xff\xfe;2.0\n".as_slice()].concat();
    let line = render(&summarize(process_data(&data)));
    assert_eq!(
        line,
        [
            b"{caf\xc3\xa9=1.0/1.0/1.0, ".as_slice(),
            b"\xff\xfe=2.0/2.0/2.0}".as_slice()
        ]
        .concat()
    );
}

#[test]
fn render_of_nothing_is_a_pair_of_braces() {
    assert_eq!(render(&Vec::new()), "{}".as_bytes());
}
