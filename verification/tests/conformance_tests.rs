//! Runs notation rows through the parser: each row names a field, how to
//! read it, the text, and what should come back -- the canonical rendering
//! or the error's stable name.

use poker_equity::notation::{parse_board, parse_dead, parse_hand, parse_hand_up_to, HandSpec};

/// The rows: field, argument, input, `ok` or `err`, and the expected result.
const FIXTURE: &str = "\
# field\targ\tinput\texpect\tresult
hand\t2\tAhKh\tok\tAh Kh
hand\t2\tAh Kh\tok\tAh Kh
hand\t2\t  ahkh  \tok\tAh Kh
hand\t2\tAKs\tok\tAc Kc, Ad Kd, Ah Kh, As Ks
hand\t2\t22\tok\t2c 2d, 2c 2h, 2c 2s, 2d 2h, 2d 2s, 2h 2s
hand\t2\t2 c\tok\t2 c
hand\t2\tA*\tok\tA *
hand\t1\t*\tok\t*
hand\t4\tAhKh**\tok\tAh Kh * *
hand\t2\tAhKh, QsQd\tok\tAh Kh, Qs Qd
hand\t3\tA h T\tok\tA h T
hand\t1\tA*\terr\tWildcardSlotCount
hand\t2\tAhKhQh\terr\tWrongSlotCount
hand\t2\tAhXh\terr\tUnknownGlyph
hand\t2\t\terr\tEmpty
hand\t2\tAhKh,\terr\tEmpty
hand\t3\tAhKh Ah\terr\tDuplicateCard
hand\t2\tAAs\terr\tPairWithSuitedness
hand\t4\tAK+\terr\tRangesNotAllowed
hand\t2\t10%\terr\tPercentageRange
hand_up_to\t5\tAhKh\tok\tAh Kh
hand_up_to\t2\tAhKhQh\terr\tWrongSlotCount
board\t5\tKh Qh Jh\tok\tKh Qh Jh
board\t5\tKh Qh h\tok\tKh Qh h
board\t5\t\tok\t
board\t3\tKh Qh Jh Th\terr\tTooManySlots
board\t5\tKh, Qh\terr\tUnknownGlyph
dead\t-\tAh Kd\tok\tAh Kd
dead\t-\tKd Ah\tok\tAh Kd
dead\t-\t\tok\t
dead\t-\tA\terr\tDeadCardNotExact
dead\t-\t*\terr\tDeadCardNotExact
";

/// One row: what to read, how, and what should come back.
struct Row<'a> {
    line: usize,
    field: &'a str,
    arg: &'a str,
    input: &'a str,
    expect: &'a str,
    result: &'a str,
}

/// Reads the rows, skipping comments and blank lines.
fn rows() -> Vec<Row<'static>> {
    FIXTURE
        .lines()
        .enumerate()
        .filter(|(_, line)| !line.trim_start().starts_with('#') && !line.trim().is_empty())
        .map(|(i, line)| {
            let columns: Vec<&str> = line.split('\t').collect();
            assert_eq!(
                columns.len(),
                5,
                "line {} has {} columns, expected 5: {:?}",
                i + 1,
                columns.len(),
                line
            );
            Row {
                line: i + 1,
                field: columns[0],
                arg: columns[1],
                input: columns[2],
                expect: columns[3],
                result: columns[4],
            }
        })
        .collect()
}

/// Reads one row's input, returning the canonical rendering or the error's
/// stable name.
fn run(row: &Row) -> Result<String, String> {
    match row.field {
        "hand" => {
            let slots: usize = row.arg.parse().expect("hand rows carry a slot count");
            parse_hand(row.input, slots)
                .map(|spec| spec.to_string())
                .map_err(|error| error.kind.name().to_string())
        }
        "hand_up_to" => {
            let slots: usize = row.arg.parse().expect("hand_up_to rows carry a slot count");
            parse_hand_up_to(row.input, slots)
                .map(|spec| spec.to_string())
                .map_err(|error| error.kind.name().to_string())
        }
        "board" => {
            let limit: usize = row.arg.parse().expect("board rows carry a limit");
            parse_board(row.input, limit)
                .map(|slots| {
                    slots
                        .iter()
                        .map(|slot| HandSpec::from_slots(&[*slot]).to_string())
                        .collect::<Vec<_>>()
                        .join(" ")
                })
                .map_err(|error| error.kind.name().to_string())
        }
        "dead" => parse_dead(row.input)
            .map(|set| set.to_string())
            .map_err(|error| error.kind.name().to_string()),
        other => panic!("line {}: unknown field kind {:?}", row.line, other),
    }
}

#[test]
fn test_every_fixture_row() {
    let mut failures = Vec::new();

    for row in rows() {
        let outcome = run(&row);
        let matched = match (row.expect, &outcome) {
            ("ok", Ok(rendered)) => rendered == row.result,
            ("err", Err(name)) => name == row.result,
            _ => false,
        };
        if !matched {
            failures.push(format!(
                "line {}: {} {:?}\n     expected {} {:?}\n     got      {}",
                row.line,
                row.field,
                row.input,
                row.expect,
                row.result,
                match &outcome {
                    Ok(rendered) => format!("ok {:?}", rendered),
                    Err(name) => format!("err {:?}", name),
                }
            ));
        }
    }

    assert!(
        failures.is_empty(),
        "{} of the rows disagree with the parser:\n{}",
        failures.len(),
        failures.join("\n")
    );
}

/// A row that reads cleanly must render to something that reads back the
/// same way, or the canonical form is not canonical.
#[test]
fn test_canonical_output_round_trips() {
    let mut failures = Vec::new();

    for row in rows().iter().filter(|row| row.expect == "ok") {
        // Only hand rows have a rendering that is itself a hand field.
        if row.field != "hand" {
            continue;
        }
        let slots: usize = row.arg.parse().unwrap();
        let Ok(first) = parse_hand(row.input, slots) else {
            continue;
        };
        let rendered = first.to_string();
        match parse_hand(&rendered, slots) {
            Ok(second) if second == first => {}
            Ok(_) => failures.push(format!(
                "line {}: {:?} renders as {:?}, which reads back as something else",
                row.line, row.input, rendered
            )),
            Err(error) => failures.push(format!(
                "line {}: {:?} renders as {:?}, which will not read back: {}",
                row.line,
                row.input,
                rendered,
                error.to_string()
            )),
        }
    }

    assert!(failures.is_empty(), "{}", failures.join("\n"));
}
