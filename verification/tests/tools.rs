use poke_search::mcts::moves::{MoveChoice, SCORE_ONE};
use poke_search::mcts::perform::{MctsResult, MctsSideResult};
use poke_search::prof::counters::{Counters, ProfScope, ReportRow, NUM_SECTIONS, SECTION_NAMES};
use poke_search::prof::sec;
use poke_search::text::{append_decimal, append_hexadecimal, chars_of, find, lines_of, trim, words_of};
use poke_search::trajectory::features::{
    feature_row, serialized_state as state_of_row, write_vector,
};
use poke_search::trajectory::line::{apply_limit, complain, is_blank};
use poke_search::trajectory::relabel::{
    check_unlabeled, relabel, root_value, serialized_state, state_key_offset, take_line,
    value_if_over, LineStep,
};

fn chars(text: &str) -> Vec<char> {
    text.chars().collect()
}

fn strings(texts: &[&str]) -> Vec<String> {
    texts.iter().map(|t| t.to_string()).collect()
}

fn state_by_relabeling(text: &str) -> Result<String, String> {
    let line = chars(text);
    let key = state_key_offset(&line, 7)?;
    serialized_state(&line, key, 7)
}

#[test]
fn a_line_is_relabeled_before_its_state() {
    let line = chars("{\"turn\":3,\"state\":\"a,b=c\"}");
    let key = state_key_offset(&line, 1).unwrap();
    assert_eq!(10, key);
    assert_eq!("a,b=c", serialized_state(&line, key, 1).unwrap());
    let labeled = relabel(&line, key, "0.625", 1_000_000);
    assert_eq!(
        "{\"turn\":3,\"root_value\":0.625,\"teacher_iterations\":1000000,\"state\":\"a,b=c\"}",
        labeled
    );
    let again = chars(&labeled);
    assert_eq!(Ok(()), check_unlabeled(&line, 4));
    assert_eq!(
        Err("line 4: already has root_value; relabel the original dump instead".to_string()),
        check_unlabeled(&again, 4)
    );
    assert_eq!(Ok("a,b=c".to_string()), state_by_relabeling(&labeled));
    assert_eq!(Ok("a,b=c".to_string()), state_of_row(&again, 1));
}

#[test]
fn offsets_count_characters() {
    let line = chars("{\"n\u{e9}\u{1f600}\":1,\"state\" :\u{3000}\"\u{e9}\"}");
    assert_eq!("\u{e9}", serialized_state(&line, state_key_offset(&line, 1).unwrap(), 1).unwrap());
    assert_eq!("\u{e9}", state_of_row(&line, 1).unwrap());
}

#[test]
fn each_fault_of_a_line_is_named_when_relabeling() {
    let fault = |text: &str| state_by_relabeling(text).unwrap_err();
    assert_eq!("line 7: missing state field", fault("{\"stat\":\"x\"}"));
    assert_eq!("line 7: malformed state field", fault("{\"state\" \"x\"}"));
    assert_eq!("line 7: state must be a JSON string", fault("{\"state\":5}"));
    assert_eq!("line 7: state must be a JSON string", fault("{\"state\":"));
    assert_eq!("line 7: state must be the final JSON field", fault("{\"state\":\"x\",\"a\":1}"));
    assert_eq!("line 7: state must be the final JSON field", fault("{\"state\":\"}"));
    assert_eq!("", state_by_relabeling("{\"state\":\"\"}").unwrap());
}

#[test]
fn each_fault_of_a_line_is_named_when_reading_features() {
    let fault = |text: &str| state_of_row(&chars(text), 7).unwrap_err();
    assert_eq!("line 7: missing state", fault("{\"stat\":\"x\"}"));
    assert_eq!("line 7: malformed state field", fault("{\"state\" \"x\"}"));
    assert_eq!("line 7: state must be a JSON string", fault("{\"state\":5}"));
    assert_eq!("line 7: state must be the final JSON field", fault("{\"state\":\"x\",\"a\":1}"));
    assert_eq!("line 7: malformed state field", fault("{\"state\":\"}"));
    assert_eq!("", state_of_row(&chars("{\"state\":\"\"}"), 7).unwrap());
}

#[test]
fn lines_are_taken_up_to_the_limit() {
    let line = chars("{\"state\":\"x\"}");
    assert_eq!(Ok(LineStep::Skip), take_line(&chars(" \t\u{3000}"), 1, 0, 1));
    assert_eq!(Ok(LineStep::Keep), take_line(&line, 1, 0, 0));
    assert_eq!(Ok(LineStep::Keep), take_line(&line, 1, 0, 2));
    assert_eq!(Ok(LineStep::KeepLast), take_line(&line, 1, 1, 2));
    assert_eq!(
        Err("line 9: already has root_value; relabel the original dump instead".to_string()),
        take_line(&chars("{\"root_value\":1,\"state\":\"x\"}"), 9, 0, 0)
    );
    assert_eq!(5, apply_limit(5, 0));
    assert_eq!(5, apply_limit(5, 9));
    assert_eq!(2, apply_limit(5, 2));
    assert!(is_blank(&chars("")));
    assert!(!is_blank(&chars(" . ")));
    assert_eq!("line 12: odd", complain(12, "odd"));
}

#[test]
fn a_root_value_is_the_mean_score() {
    let r = |t: u128, v: u64| MctsSideResult { move_choice: MoveChoice::NoMove, total_score: t, visits: v };
    let result = MctsResult { s1: vec![r(10, 3), r(5, 2)], s2: vec![r(1, 5)], iteration_count: 5 };
    assert_eq!(Some((15, 5)), root_value(&result));
    let nothing = MctsResult { s1: vec![r(0, 0)], s2: vec![], iteration_count: 0 };
    assert_eq!(None, root_value(&nothing));
    assert_eq!(None, value_if_over(0));
    assert_eq!(Some(SCORE_ONE), value_if_over(1));
    assert_eq!(Some(0), value_if_over(-1));
}

#[test]
fn feature_rows_are_lists_of_numbers() {
    assert_eq!("[]", write_vector(&vec![]));
    assert_eq!("[1]", write_vector(&strings(&["1"])));
    assert_eq!("[1,-0.5,2]", write_vector(&strings(&["1", "-0.5", "2"])));
    assert_eq!(
        "{\"side_one\":[1,0],\"side_two\":[0.25,3]}",
        feature_row(&strings(&["1", "0"]), &strings(&["0.25", "3"]))
    );
}

#[test]
fn sections_are_counted_and_reported() {
    let mut counters = Counters::new();
    ProfScope::new(sec::CALIB, 0).finish(50, &mut counters);
    ProfScope::new(sec::ROLLOUT, 100).finish(130, &mut counters);
    // the cycle counter turns over
    ProfScope::new(sec::ROLLOUT, u64::MAX).finish(4, &mut counters);
    ProfScope::new(sec::EXPAND, 7).finish(7, &mut counters);
    assert_eq!(4, counters.total_events());
    assert_eq!(
        vec![
            ReportRow { section: sec::EXPAND, calls: 1, cycles: 0 },
            ReportRow { section: sec::ROLLOUT, calls: 2, cycles: 35 },
        ],
        counters.report()
    );
    assert_eq!(NUM_SECTIONS, SECTION_NAMES.len());
    assert_eq!("rollout (evaluate)", SECTION_NAMES[sec::ROLLOUT]);
    assert_eq!(">>> existing_status_conditions", SECTION_NAMES[sec::STATUS_CONDS]);
}

fn joined(parts: &[Vec<char>]) -> Vec<String> {
    parts.iter().map(|p| p.iter().collect::<String>()).collect()
}

#[test]
fn texts_are_cut_as_std_cuts_them() {
    for text in [
        "",
        "\n",
        "a",
        "a\nb",
        "a\r\n\r\nb\r",
        "\r\n x\ty \u{a0}z\u{85}\u{2003}w \n",
        "\u{200b}zero width\u{feff}",
    ] {
        let cs = chars_of(text);
        let expected: Vec<String> = text.lines().map(|l| l.to_string()).collect();
        assert_eq!(expected, joined(&lines_of(&cs)));
        assert_eq!(text.trim(), trim(&cs).iter().collect::<String>());
        let expected: Vec<String> = text.split_whitespace().map(|l| l.to_string()).collect();
        assert_eq!(expected, joined(&words_of(&cs)));
    }
    assert_eq!(Some(3), find(&chars("abcabd"), "abd", 0));
    assert_eq!(None, find(&chars("abcabd"), "abd", 4));
}

#[test]
fn every_white_space_character_is_known() {
    for code in 0..0x3100u32 {
        if let Some(c) = char::from_u32(code) {
            assert_eq!(c.is_whitespace(), trim(&vec![c]).is_empty(), "{:x}", code);
        }
    }
}

#[test]
fn numbers_are_written_out() {
    for n in [0u64, 7, 10, 1234567890, u64::MAX] {
        let mut s = "n=".to_string();
        append_decimal(&mut s, n);
        assert_eq!(format!("n={}", n), s);
        let mut s = "0x".to_string();
        append_hexadecimal(&mut s, n, 16);
        assert_eq!(format!("0x{:016x}", n), s);
    }
}
