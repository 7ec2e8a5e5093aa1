use tempstats::stats::FinalStats;
use tempstats::stats::Stats;
use tempstats::temperature::Temperature;

fn temp(tenths: i32) -> Temperature {
    Temperature { tenths }
}

fn fields(stats: &Stats) -> (i32, u32, i32, i32) {
    (
        stats.total().tenths,
        stats.count(),
        stats.min().tenths,
        stats.max().tenths,
    )
}

#[test]
fn new_stats_hold_one_reading() {
    let stats = Stats::new(temp(-35));
    assert_eq!(fields(&stats), (-35, 1, -35, -35));
}

#[test]
fn update_row_takes_a_reading_in() {
    let mut stats = Stats::new(temp(120));
    stats.update_row(temp(140));
    assert_eq!(fields(&stats), (260, 2, 120, 140));
    stats.update_row(temp(-15));
    assert_eq!(fields(&stats), (245, 3, -15, 140));
    stats.update_row(temp(130));
    assert_eq!(fields(&stats), (375, 4, -15, 140));
}

#[test]
fn update_stats_takes_other_statistics_in() {
    let mut a = Stats::new(temp(10));
    a.update_row(temp(30));
    let mut b = Stats::new(temp(-5));
    b.update_row(temp(20));
    b.update_row(temp(45));
    a.update_stats(b);
    assert_eq!(fields(&a), (100, 5, -5, 45));
}

#[test]
fn update_stats_does_not_depend_on_the_side() {
    let mut a = Stats::new(temp(10));
    a.update_row(temp(30));
    let mut b = Stats::new(temp(-5));
    b.update_row(temp(20));
    let mut ab = a;
    ab.update_stats(b);
    let mut ba = b;
    ba.update_stats(a);
    assert_eq!(fields(&ab), fields(&ba));
    assert_eq!(fields(&ab), (55, 4, -5, 30));
}

#[test]
fn update_stats_does_not_depend_on_the_grouping() {
    let a = Stats::new(temp(7));
    let b = Stats::new(temp(-3));
    let c = Stats::new(temp(12));
    let mut left = a;
    left.update_stats(b);
    left.update_stats(c);
    let mut bc = b;
    bc.update_stats(c);
    let mut right = a;
    right.update_stats(bc);
    assert_eq!(fields(&left), fields(&right));
    assert_eq!(fields(&left), (16, 3, -3, 12));
}

#[test]
fn finalize_rounds_the_mean() {
    let mut stats = Stats::new(temp(12));
    stats.update_row(temp(13));
    // 25 tenths over 2 readings: 1.3, not 1.2
    assert_eq!(
        stats.finalize(),
        FinalStats {
            mean: temp(13),
            min: temp(12),
            max: temp(13)
        }
    );
    let mut cold = Stats::new(temp(-12));
    cold.update_row(temp(-13));
    assert_eq!(
        cold.finalize(),
        FinalStats {
            mean: temp(-13),
            min: temp(-13),
            max: temp(-12)
        }
    );
}

#[test]
fn finalize_of_one_reading_is_that_reading() {
    assert_eq!(
        Stats::new(temp(0)).finalize(),
        FinalStats {
            mean: temp(0),
            min: temp(0),
            max: temp(0)
        }
    );
}

#[test]
fn mean_lies_between_least_and_greatest() {
    let readings = [999, -999, 1, 2, 3, 500, -250, 0, 0, 17];
    let mut stats = Stats::new(temp(readings[0]));
    for tenths in &readings[1..] {
        stats.update_row(temp(*tenths));
        let f = stats.finalize();
        assert!(f.min <= f.mean && f.mean <= f.max);
    }
    assert_eq!(stats.finalize().mean, temp(27));
}

#[test]
fn can_update_row_is_the_limit_of_update_row() {
    let mut stats = Stats::new(temp(i32::MAX - 10));
    assert!(stats.can_update_row(temp(10)));
    assert!(!stats.can_update_row(temp(11)));
    stats.update_row(temp(10));
    assert_eq!(fields(&stats), (i32::MAX, 2, 10, i32::MAX - 10));
    assert!(stats.can_update_row(temp(-1)));
    assert!(!stats.can_update_row(temp(1)));
    let low = Stats::new(temp(i32::MIN + 3));
    assert!(low.can_update_row(temp(-3)));
    assert!(!low.can_update_row(temp(-4)));
}

#[test]
fn can_update_stats_is_the_limit_of_update_stats() {
    let a = Stats::new(temp(i32::MAX - 10));
    assert!(a.can_update_stats(Stats::new(temp(10))));
    assert!(!a.can_update_stats(Stats::new(temp(11))));
    let b = Stats::new(temp(i32::MIN));
    assert!(!b.can_update_stats(Stats::new(temp(-1))));
    assert!(b.can_update_stats(Stats::new(temp(0))));
}

#[test]
fn final_stats_are_written_least_mean_greatest() {
    let f = FinalStats {
        mean: temp(130),
        min: temp(120),
        max: temp(140),
    };
    assert_eq!(f.to_string(), "12.0/13.0/14.0");
    let g = FinalStats {
        mean: temp(-35),
        min: temp(-35),
        max: temp(-35),
    };
    assert_eq!(g.to_string(), "-3.5/-3.5/-3.5");
    let mut bytes = Vec::new();
    g.write_to(&mut bytes);
    assert_eq!(bytes, "-3.5/-3.5/-3.5".as_bytes());
}
