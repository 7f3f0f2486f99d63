use toss::{Chooser, Coin, CoinFace, Dice, Extractor, Tossable};

fn strings(items: &[&str]) -> Vec<String> {
    items.iter().map(|s| s.to_string()).collect()
}

#[test]
fn coin_faces_are_heads_or_tails() {
    let mut coin = Coin::new(50);
    for face in coin.toss_many(100) {
        assert!(matches!(face, CoinFace::Heads | CoinFace::Tails));
    }
}

#[test]
fn fair_coin_shows_both_faces() {
    let mut coin = Coin::new(50);
    let faces = coin.toss_many(300);
    assert!(faces.contains(&CoinFace::Heads));
    assert!(faces.contains(&CoinFace::Tails));
}

#[test]
fn coin_with_zero_probability_never_shows_heads() {
    let mut coin = Coin::new(0);
    let faces = coin.toss_many(500);
    assert_eq!(faces.len(), 500);
    assert!(faces.iter().all(|f| *f == CoinFace::Tails));
    assert_eq!(coin.toss(), CoinFace::Tails);
}

#[test]
fn coin_with_full_probability_never_shows_tails() {
    let mut coin = Coin::new(100);
    let faces = coin.toss_many(500);
    assert!(faces.iter().all(|f| *f == CoinFace::Heads));
    assert_eq!(coin.toss(), CoinFace::Heads);
}

#[test]
fn coin_face_for_roll() {
    let coin = Coin::new(30);
    assert_eq!(coin.face(0), CoinFace::Heads);
    assert_eq!(coin.face(29), CoinFace::Heads);
    assert_eq!(coin.face(30), CoinFace::Tails);
    assert_eq!(coin.face(99), CoinFace::Tails);
    assert_eq!(Coin::new(100).face(99), CoinFace::Heads);
    assert_eq!(Coin::new(0).face(0), CoinFace::Tails);
}

#[test]
fn coin_face_labels() {
    assert_eq!(CoinFace::Heads.label(), "heads");
    assert_eq!(CoinFace::Tails.label(), "tails");
    assert_eq!(CoinFace::Tails.as_ref(), "tails");
}

#[test]
fn dice_with_equal_bounds_is_rejected() {
    match Dice::new(5, 5) {
        Err(e) => assert_eq!(e, "Min must be > max"),
        Ok(_) => panic!("a die from 5 to 5 must be refused"),
    }
}

#[test]
fn dice_with_reversed_bounds_is_rejected() {
    assert!(Dice::new(6, 1).is_err());
}

#[test]
fn dice_keeps_its_bounds() {
    let d = Dice::new(1, 6).unwrap();
    assert_eq!((d.min, d.max), (1, 6));
}

#[test]
fn dice_throws_stay_in_range() {
    let mut d = Dice::new(3, 8).unwrap();
    let faces = d.toss_many(500);
    assert_eq!(faces.len(), 500);
    assert!(faces.iter().all(|v| (3..=8).contains(v)));
    assert!(faces.contains(&3));
    assert!(faces.contains(&8));
}

#[test]
fn dice_at_the_top_of_the_range() {
    let mut d = Dice::new(u64::MAX - 1, u64::MAX).unwrap();
    for v in d.toss_many(50) {
        assert!(v >= u64::MAX - 1);
    }
}

#[test]
fn chooser_keeps_its_pool() {
    let mut c = Chooser::new(strings(&["a", "b"]));
    let drawn = c.toss_many(200);
    assert_eq!(drawn.len(), 200);
    assert!(drawn.iter().all(|s| s == "a" || s == "b"));
    assert!(drawn.iter().any(|s| s == "a"));
    assert!(drawn.iter().any(|s| s == "b"));
    assert_eq!(c.options().len(), 2);
    let again = c.toss();
    assert!(again == "a" || again == "b");
}

#[test]
fn chooser_pick_by_index() {
    let c = Chooser::new(strings(&["x", "y", "z"]));
    assert_eq!(c.pick(0), "x");
    assert_eq!(c.pick(2), "z");
}

#[test]
fn extractor_draws_without_repeats() {
    let mut e = Extractor::new(strings(&["a", "b", "c"]));
    let first = e.toss();
    let second = e.toss();
    assert_ne!(first, second);
    let mut all = vec![first.clone(), second.clone()];
    assert_eq!(e.options().len(), 1);
    all.push(e.options()[0].clone());
    all.sort();
    assert_eq!(all, strings(&["a", "b", "c"]));
}

#[test]
fn extractor_toss_many_takes_distinct_options() {
    let mut e = Extractor::new(strings(&["a", "b", "c", "d"]));
    let mut drawn = e.toss_many(3);
    assert_eq!(e.options().len(), 1);
    drawn.push(e.options()[0].clone());
    drawn.sort();
    assert_eq!(drawn, strings(&["a", "b", "c", "d"]));
}

#[test]
fn extractor_take_fills_the_gap_with_the_last() {
    let mut e = Extractor::new(strings(&["a", "b", "c"]));
    assert_eq!(e.take(0), "a");
    assert_eq!(e.options(), &strings(&["c", "b"]));
}

#[test]
fn extractor_keeps_duplicates_apart() {
    let mut e = Extractor::new(strings(&["a", "a", "b"]));
    let mut drawn = e.toss_many(3);
    drawn.sort();
    assert_eq!(drawn, strings(&["a", "a", "b"]));
    assert!(e.options().is_empty());
}

#[test]
fn coin_face_as_ref_text() {
    assert_eq!(CoinFace::Heads.as_ref(), "heads");
    let mut coin = Coin::new(0);
    let faces = coin.toss_many(5);
    let text = faces.iter().map(|f| f.as_ref()).collect::<Vec<_>>().join(", ");
    assert_eq!(text, "tails, tails, tails, tails, tails");
}
