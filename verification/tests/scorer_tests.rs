use costaeres::scorer::{Scorer, VisitEntry, VisitPriority};

const DAY: i64 = 86_400_000_000;

fn now() -> i64 {
    chrono::Utc::now().timestamp_micros()
}

#[test]
fn frecency_alg() {
    assert_eq!(Scorer::max(), 2000);

    // Add 2 visits of normal priority with a 10 day interval.
    let mut score = Scorer::default();
    assert_eq!(score.frecency(), 0);

    let now_us = now();
    score.add(&VisitEntry::new(now_us, VisitPriority::Normal));
    assert_eq!(score.frecency(), 100);

    score.add(&VisitEntry::new(now_us - 10 * DAY, VisitPriority::Normal));
    assert_eq!(score.frecency(), 170);

    // Add 2 visits with a 10 day interval, one with high priority.
    let mut score = Scorer::default();

    let now_us = now();
    score.add(&VisitEntry::new(now_us, VisitPriority::Normal));
    assert_eq!(score.frecency(), 100);

    score.add(&VisitEntry::new(now_us - 10 * DAY, VisitPriority::High));
    assert_eq!(score.frecency(), 205);
}

#[test]
fn priorities() {
    assert_eq!(VisitPriority::Normal.bonus(), 100);
    assert_eq!(VisitPriority::High.bonus(), 150);
    assert_eq!(VisitPriority::VeryHigh.bonus(), 200);
}

#[test]
fn weights_step_with_age() {
    let now_us: i64 = 1_700_000_000_000_000;
    let cases: [(i64, u32); 11] = [
        (0, 100),
        (4, 100),
        (5, 70),
        (14, 70),
        (15, 50),
        (31, 50),
        (32, 30),
        (90, 30),
        (91, 10),
        (5000, 10),
        (-3, 100),
    ];
    for (days, weight) in cases {
        let mut score = Scorer::default();
        score.add(&VisitEntry::new(now_us - days * DAY, VisitPriority::Normal));
        assert_eq!(score.frecency_at(now_us), weight);

        let mut score = Scorer::default();
        score.add(&VisitEntry::new(now_us - days * DAY, VisitPriority::High));
        assert_eq!(score.frecency_at(now_us), weight * 3 / 2);

        let mut score = Scorer::default();
        score.add(&VisitEntry::new(now_us - days * DAY, VisitPriority::VeryHigh));
        assert_eq!(score.frecency_at(now_us), weight * 2);
    }
    // One microsecond short of five days is four days.
    let mut score = Scorer::default();
    score.add(&VisitEntry::new(now_us - 5 * DAY + 1, VisitPriority::Normal));
    assert_eq!(score.frecency_at(now_us), 100);
}

#[test]
fn the_log_is_bounded_and_the_count_is_not() {
    let now_us: i64 = 1_700_000_000_000_000;
    let mut score = Scorer::default();
    for i in 0..10 {
        assert!(score.can_add());
        score.add(&VisitEntry::new(now_us - i, VisitPriority::VeryHigh));
    }
    assert_eq!(score.frecency_at(now_us), 2000);

    // An old visit of low priority pushes the oldest visit out: the score
    // falls although the count goes up.
    score.add(&VisitEntry::new(now_us - 100 * DAY, VisitPriority::Normal));
    assert_eq!(score.visit_count(), 11);
    assert_eq!(score.entries().len(), 10);
    assert_eq!(score.entries()[0], VisitEntry::new(now_us - 1, VisitPriority::VeryHigh));
    assert_eq!(
        score.entries()[9],
        VisitEntry::new(now_us - 100 * DAY, VisitPriority::Normal)
    );
    assert_eq!(score.frecency_at(now_us), 11 * 1810 / 10);
    assert!(score.is_valid());
}

#[test]
fn binary_form() {
    let mut score = Scorer::default();
    assert_eq!(score.as_binary(), vec![0, 0, 0, 0, 0, 0, 0, 0]);

    score.add(&VisitEntry::new(1_000_000, VisitPriority::Normal));
    score.add(&VisitEntry::new(-1, VisitPriority::VeryHigh));
    let bytes = score.as_binary();
    assert_eq!(
        bytes,
        vec![
            2, 0, 0, 0, 2, 0, 0, 0, 0x40, 0x42, 0x0f, 0, 0, 0, 0, 0, 0, 0xff, 0xff, 0xff, 0xff,
            0xff, 0xff, 0xff, 0xff, 2
        ]
    );
    assert_eq!(Scorer::decode(&bytes), Some(score.clone()));
    assert_eq!(Scorer::from_binary(&bytes), score);

    score.add(&VisitEntry::new(i64::MIN, VisitPriority::High));
    score.add(&VisitEntry::new(i64::MAX, VisitPriority::High));
    assert_eq!(Scorer::decode(&score.as_binary()), Some(score));
}

#[test]
fn bytes_that_are_no_scorer() {
    // Too short.
    assert_eq!(Scorer::decode(&[]), None);
    assert_eq!(Scorer::decode(&[0, 0, 0, 0, 0, 0, 0]), None);
    // One visit is announced and none follows.
    assert_eq!(Scorer::decode(&[1, 0, 0, 0, 1, 0, 0, 0]), None);
    // A byte too many.
    assert_eq!(Scorer::decode(&[0, 0, 0, 0, 0, 0, 0, 0, 0]), None);
    // A priority that does not exist.
    assert_eq!(
        Scorer::decode(&[1, 0, 0, 0, 1, 0, 0, 0, 0, 0, 0, 0, 0, 0, 0, 0, 3]),
        None
    );
    // More visits kept than counted.
    assert_eq!(
        Scorer::decode(&[0, 0, 0, 0, 1, 0, 0, 0, 0, 0, 0, 0, 0, 0, 0, 0, 0]),
        None
    );
    // More visits counted than kept, in a log that is not full.
    assert_eq!(
        Scorer::decode(&[5, 0, 0, 0, 1, 0, 0, 0, 0, 0, 0, 0, 0, 0, 0, 0, 0]),
        None
    );
    // Eleven visits.
    let mut bytes = vec![11, 0, 0, 0, 11, 0, 0, 0];
    bytes.extend(std::iter::repeat(0).take(99));
    assert_eq!(Scorer::decode(&bytes), None);
    assert_eq!(Scorer::from_binary(&bytes), Scorer::default());
}

#[test]
fn scorers_from_parts() {
    let visit = VisitEntry::new(5, VisitPriority::Normal);
    assert!(Scorer::from_parts(0, vec![]).is_some());
    assert!(Scorer::from_parts(1, vec![visit]).is_some());
    assert!(Scorer::from_parts(1, vec![]).is_none());
    assert!(Scorer::from_parts(0, vec![visit]).is_none());
    assert!(Scorer::from_parts(50, vec![visit; 10]).is_some());
    assert!(Scorer::from_parts(50, vec![visit; 11]).is_none());
    assert!(Scorer::from_parts(21_474_836, vec![visit; 10]).is_some());
    assert!(Scorer::from_parts(21_474_837, vec![visit; 10]).is_none());

    // The largest count gives the largest score that fits.
    let full = Scorer::from_parts(21_474_836, vec![VisitEntry::new(0, VisitPriority::VeryHigh); 10])
        .unwrap();
    assert!(!full.can_add());
    assert_eq!(full.frecency_at(0), 4_294_967_200);
}

#[test]
fn visits_now() {
    let before = now();
    let visit = VisitEntry::now(VisitPriority::High);
    assert_eq!(visit.priority, VisitPriority::High);
    assert!(visit.timestamp >= before);
    assert!(visit.timestamp <= now());
}
