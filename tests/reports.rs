use toss::report::{
    check_extract_count, choice_report, coin_report, coin_summary_line, count_line, decimal,
    dice_report, extract_report, join, outcome_line, plural, results_line,
};
use toss::tally::{choice_counts, coin_counts, dice_counts};
use toss::{Coin, CoinFace, Dice, Tossable};

fn strings(items: &[&str]) -> Vec<String> {
    items.iter().map(|s| s.to_string()).collect()
}

#[test]
fn decimal_text_of_numbers() {
    assert_eq!(decimal(0), "0");
    assert_eq!(decimal(7), "7");
    assert_eq!(decimal(10), "10");
    assert_eq!(decimal(4096), "4096");
    assert_eq!(decimal(u64::MAX), "18446744073709551615");
}

#[test]
fn plural_ending() {
    assert_eq!(plural(0), "s");
    assert_eq!(plural(1), "");
    assert_eq!(plural(2), "s");
}

#[test]
fn join_with_separator() {
    assert_eq!(join(&strings(&[]), ", "), "");
    assert_eq!(join(&strings(&["a"]), ", "), "a");
    assert_eq!(join(&strings(&["a", "b", "c"]), ", "), "a, b, c");
}

#[test]
fn single_lines() {
    assert_eq!(outcome_line("heads"), "Got heads");
    assert_eq!(results_line(&strings(&["1", "2"])), "Results: 1, 2");
    assert_eq!(count_line("3", 1), "Got 3 1 time");
    assert_eq!(count_line("b", 0), "Got b 0 times");
    assert_eq!(count_line("b", 12), "Got b 12 times");
    assert_eq!(coin_summary_line(2, 3), "Got 2 heads and 3 tails");
}

#[test]
fn coin_counts_split_the_throws() {
    let faces = vec![CoinFace::Heads, CoinFace::Tails, CoinFace::Heads, CoinFace::Heads];
    assert_eq!(coin_counts(&faces), (3, 1));
    assert_eq!(coin_counts(&vec![]), (0, 0));
}

#[test]
fn dice_counts_cover_the_whole_range() {
    let counts = dice_counts(2, 5, &vec![2, 5, 5, 3]);
    assert_eq!(counts, vec![1, 1, 0, 2]);
}

#[test]
fn dice_counts_add_up_to_the_throws() {
    let mut d = Dice::new(1, 6).unwrap();
    let faces = d.toss_many(250);
    let counts = dice_counts(1, 6, &faces);
    assert_eq!(counts.len(), 6);
    assert_eq!(counts.iter().sum::<u64>(), 250);
}

#[test]
fn choice_counts_collapse_equal_options() {
    let counts = choice_counts(&strings(&["b", "a", "b", "c", "b"]));
    assert_eq!(
        counts,
        vec![("b".to_string(), 3), ("a".to_string(), 1), ("c".to_string(), 1)]
    );
}

#[test]
fn coin_report_for_one_throw() {
    assert_eq!(coin_report(&vec![CoinFace::Heads], true), strings(&["Got heads"]));
}

#[test]
fn coin_report_without_list() {
    let faces = vec![CoinFace::Heads, CoinFace::Tails, CoinFace::Tails];
    assert_eq!(coin_report(&faces, false), strings(&["Got 1 heads and 2 tails"]));
}

#[test]
fn scenario_coin_never_heads_printed() {
    let mut coin = Coin::new(0);
    let faces = coin.toss_many(5);
    assert_eq!(
        coin_report(&faces, true),
        strings(&["Results: tails, tails, tails, tails, tails", "Got 0 heads and 5 tails"])
    );
}

#[test]
fn dice_report_exact_lines() {
    assert_eq!(
        dice_report(2, 4, &vec![4, 2, 4], true),
        strings(&["Results: 4, 2, 4", "Got 2 1 time", "Got 3 0 times", "Got 4 2 times"])
    );
    assert_eq!(dice_report(2, 4, &vec![3], false), strings(&["Got 3"]));
}

#[test]
fn scenario_dice_one_to_six_ten_throws() {
    let mut d = Dice::new(1, 6).unwrap();
    let faces = d.toss_many(10);
    let lines = dice_report(1, 6, &faces, false);
    assert_eq!(lines.len(), 6);
    let mut total = 0;
    for (idx, line) in lines.iter().enumerate() {
        let prefix = format!("Got {} ", idx + 1);
        assert!(line.starts_with(&prefix));
        let rest = &line[prefix.len()..];
        let count: u64 = rest.split(' ').next().unwrap().parse().unwrap();
        let ending = if count == 1 { "time" } else { "times" };
        assert_eq!(rest, format!("{count} {ending}"));
        total += count;
    }
    assert_eq!(total, 10);
}

#[test]
fn choice_report_lines() {
    assert_eq!(
        choice_report(&strings(&["x", "y", "x"]), true),
        strings(&["Results: x, y, x", "Got x 2 times", "Got y 1 time"])
    );
    assert_eq!(choice_report(&strings(&["y"]), true), strings(&["Got y"]));
}

#[test]
fn extract_report_line() {
    assert_eq!(extract_report(&strings(&["c", "a"])), "Got c, a");
    assert_eq!(extract_report(&strings(&["b"])), "Got b");
}

#[test]
fn scenario_extract_all_choices_is_refused() {
    assert_eq!(
        check_extract_count(3, 3),
        Err("`count` must be smaller than the amount of choices.")
    );
    assert!(check_extract_count(4, 3).is_err());
    assert_eq!(check_extract_count(2, 3), Ok(()));
}
