use excavation::field::Field;
use excavation::probe::{ProtocolViolation, Response};
use excavation::schedule::{commit, densify, entry, schedule, survey};

#[test]
fn every_fee_has_its_schedule() {
    let fine = vec![
        0, 15, 25, 40, 65, 95, 140, 190, 250, 330, 415, 520, 650, 840, 1075, 1300, 1500, 1750,
        2000, 2270, 2500, 2875, 3000, 3350, 3700, 4100, 4500, 5000,
    ];
    let medium = vec![
        0, 15, 25, 40, 65, 95, 140, 190, 250, 330, 415, 520, 650, 840, 1075, 1400, 1750, 2270,
        2875, 3550, 4200, 5000,
    ];
    let coarse = vec![
        0, 20, 40, 70, 120, 190, 280, 395, 540, 760, 1080, 1515, 2160, 3000, 4000, 5000,
    ];
    assert_eq!(schedule(1), fine);
    assert_eq!(schedule(2), fine);
    assert_eq!(schedule(4), medium);
    assert_eq!(schedule(8), medium);
    assert_eq!(schedule(16), coarse);
    assert_eq!(schedule(32), coarse);
    assert_eq!(
        schedule(64),
        vec![0, 30, 90, 220, 410, 730, 1170, 1700, 2200, 2700, 3500, 4000, 5000]
    );
    assert_eq!(
        schedule(128),
        vec![0, 50, 120, 220, 410, 730, 1170, 1700, 2200, 2700, 3500, 4000, 5000]
    );
    let other = vec![0, 25, 60, 120, 210, 350, 570, 960, 1600, 2800, 5000];
    assert_eq!(schedule(3), other);
    assert_eq!(schedule(0), other);
    assert_eq!(schedule(129), other);
}

#[test]
fn a_survey_stays_below_its_level() {
    let ramp = survey(&schedule(1), 500);
    assert_eq!(ramp, vec![15, 10, 15, 25, 30, 45, 50, 60, 80, 85]);
    assert_eq!(ramp.iter().sum::<i32>(), 415);
    let ramp = survey(&schedule(1), 5000);
    assert_eq!(ramp.len(), 26);
    assert_eq!(ramp.iter().sum::<i32>(), 4500);
    assert_eq!(survey(&schedule(1), 415), vec![15, 10, 15, 25, 30, 45, 50, 60, 80]);
    assert_eq!(survey(&schedule(1), 15), Vec::<i32>::new());
    assert_eq!(survey(&schedule(1), 6000).iter().sum::<i32>(), 5000);
}

#[test]
fn a_dense_schedule_has_levels_in_between() {
    assert_eq!(densify(&vec![0, 10, 20, 40]), vec![0, 10, 15, 20, 30, 40]);
    assert_eq!(densify(&vec![0, 10]), vec![0, 10]);
    assert_eq!(densify(&vec![0, 15, 25, 40]), vec![0, 15, 20, 25, 32, 40]);
    let d = densify(&schedule(1));
    assert_eq!(d.len(), 54);
    assert_eq!(&d[..13], &[0, 15, 20, 25, 32, 40, 52, 65, 80, 95, 117, 140, 165]);
    assert_eq!(d[53], 5000);
}

#[test]
fn a_schedule_is_entered_one_step_before_what_the_neighbour_took() {
    let d = densify(&schedule(1));
    assert_eq!(entry(&d, 140), 10);
    assert_eq!(entry(&d, 164), 10);
    assert_eq!(entry(&d, 165), 11);
    assert_eq!(entry(&d, 0), 1);
    assert_eq!(entry(&d, 14), 1);
    assert_eq!(entry(&d, 15), 1);
    assert_eq!(entry(&d, 20), 1);
    assert_eq!(entry(&d, 25), 2);
    assert_eq!(entry(&d, 5000), 52);
    assert_eq!(entry(&d, 9000), 52);
}

#[test]
fn a_commit_ramp_reaches_full_power() {
    let v = vec![0, 10, 30, 60];
    assert_eq!(commit(&v, None), vec![10, 20, 30]);
    assert_eq!(commit(&v, Some(35)), vec![10, 20, 30]);
    assert_eq!(commit(&v, Some(5)), vec![10, 20, 30]);
    assert_eq!(commit(&v, Some(0)), vec![10, 20, 30]);
    assert_eq!(commit(&v, Some(60)), vec![30, 30]);
    let d = densify(&schedule(1));
    let ramp = commit(&d, Some(140));
    assert_eq!(&ramp[..3], &[117, 23, 25]);
    assert_eq!(ramp.iter().sum::<i32>(), 5000);
    assert_eq!(commit(&d, None).iter().sum::<i32>(), 5000);
}

#[test]
fn a_probe_is_charged_with_fee_and_power() {
    let mut f = Field::new(4, 1, 1, 8);
    assert_eq!(f.query(1, 2, 15, 0), Ok(Response::NotBroken));
    assert_eq!(f.observed_at(1, 2), 15);
    assert_eq!(f.total_cost, 23);
    assert!(!f.is_broken_at(1, 2));
    assert_eq!(f.query(1, 2, 10, 1), Ok(Response::Broken));
    assert_eq!(f.observed_at(1, 2), 25);
    assert_eq!(f.total_cost, 41);
    assert!(f.is_broken_at(1, 2));
    assert_eq!(f.observed_at(2, 1), 0);
    assert!(!f.is_broken_at(2, 1));
}

#[test]
fn probing_a_broken_cell_again_costs_nothing() {
    let mut f = Field::new(4, 1, 1, 8);
    assert_eq!(f.query(0, 0, 100, 1), Ok(Response::Broken));
    let total = f.total_cost;
    let spent = f.observed_at(0, 0);
    for reply in [0usize, 1, 2, 7] {
        assert_eq!(f.query(0, 0, 50, reply), Ok(Response::Broken));
        assert_eq!(f.total_cost, total);
        assert_eq!(f.observed_at(0, 0), spent);
        assert!(f.is_broken_at(0, 0));
    }
}

#[test]
fn broken_cells_stay_broken() {
    let mut f = Field::new(3, 1, 1, 1);
    assert_eq!(f.query(1, 1, 30, 1), Ok(Response::Broken));
    let probes = [(0, 0, 5, 0), (1, 1, 9, 0), (0, 1, 5, 1), (1, 1, 1, 0), (2, 2, 4, 0)];
    for (y, x, p, r) in probes {
        let _ = f.query(y, x, p, r);
        assert!(f.is_broken_at(1, 1));
    }
    assert!(f.is_broken_at(0, 1));
    assert!(!f.is_broken_at(0, 0));
}

#[test]
fn what_is_spent_is_what_was_delivered() {
    let mut f = Field::new(3, 1, 1, 2);
    let probes = [
        (0usize, 0usize, 15, 0usize),
        (1, 1, 20, 0),
        (0, 0, 10, 0),
        (0, 0, 15, 1),
        (0, 0, 25, 0),
        (1, 1, 20, 0),
    ];
    let mut delivered = [[0i32; 3]; 3];
    let mut charged = 0usize;
    for (y, x, p, r) in probes {
        if !f.is_broken_at(y, x) {
            delivered[y][x] += p;
            charged += 2 + p as usize;
        }
        let _ = f.query(y, x, p, r);
    }
    assert_eq!(delivered[0][0], 40);
    assert_eq!(delivered[1][1], 40);
    for y in 0..3 {
        for x in 0..3 {
            assert_eq!(f.observed_at(y, x), delivered[y][x]);
        }
    }
    assert_eq!(f.total_cost, charged);
    assert_eq!(charged, 90);
}

#[test]
fn the_session_can_end_and_the_protocol_can_break() {
    let mut f = Field::new(3, 1, 1, 1);
    assert_eq!(f.query(0, 0, 10, 2), Ok(Response::SessionEnded));
    assert!(!f.is_broken_at(0, 0));
    assert_eq!(f.observed_at(0, 0), 10);
    assert_eq!(f.query(0, 1, 10, 3), Err(ProtocolViolation { code: 3 }));
    assert_eq!(f.query(0, 1, 10, usize::MAX), Err(ProtocolViolation { code: usize::MAX }));
    assert_eq!(f.observed_at(0, 1), 20);
    assert_eq!(f.total_cost, 33);
}

#[test]
fn can_probe_wants_an_unbroken_cell_and_a_positive_power() {
    let mut f = Field::new(3, 1, 1, 1);
    assert!(f.can_probe(0, 0, 1));
    assert!(!f.can_probe(0, 0, 0));
    assert!(!f.can_probe(0, 0, -5));
    let _ = f.query(0, 0, 10, 1);
    assert!(!f.can_probe(0, 0, 1));
    let _ = f.query(1, 1, i32::MAX - 3, 0);
    assert!(f.can_probe(1, 1, 3));
    assert!(!f.can_probe(1, 1, 4));
    f.total_cost = usize::MAX - 10;
    assert!(f.can_probe(2, 2, 9));
    assert!(!f.can_probe(2, 2, 10));
}

#[test]
fn a_survey_breaks_the_terminals_and_stays_low_elsewhere() {
    let f = Field::new(5, 1, 1, 1);
    let terminals = vec![(0, 4), (4, 4)];
    let ramp = f.destruct(0, 0, 500, &terminals);
    assert_eq!(ramp, vec![15, 10, 15, 25, 30, 45, 50, 60, 80, 85]);
    for &(y, x) in &terminals {
        let ramp = f.destruct(y, x, 500, &terminals);
        assert_eq!(ramp.len(), 53);
        assert_eq!(&ramp[..4], &[15, 5, 5, 7]);
        assert_eq!(ramp.iter().sum::<i32>(), 5000);
        assert_eq!(ramp, f.destruct(y, x, 5000, &Vec::new()));
    }
    let ramp = f.destruct(0, 0, 1000, &terminals);
    assert_eq!(ramp.iter().sum::<i32>(), 840);
    let g = Field::new(5, 1, 1, 64);
    assert_eq!(g.destruct(0, 0, 500, &terminals), vec![30, 60, 130, 190]);
}

#[test]
fn a_cell_to_be_broken_gets_the_whole_dense_schedule() {
    let f = Field::new(5, 1, 1, 1);
    let ramp = f.destruct(2, 2, 5000, &Vec::new());
    assert_eq!(ramp.len(), 53);
    assert_eq!(&ramp[..4], &[15, 5, 5, 7]);
    assert_eq!(ramp.iter().sum::<i32>(), 5000);
}

#[test]
fn a_broken_neighbour_lets_the_ramp_start_higher() {
    let mut f = Field::new(5, 1, 1, 1);
    let _ = f.query(2, 1, 140, 1);
    let ramp = f.destruct(2, 2, 5000, &Vec::new());
    assert_eq!(&ramp[..3], &[117, 23, 25]);
    let _ = f.query(1, 2, 300, 1);
    let ramp = f.destruct(2, 2, 5000, &Vec::new());
    assert_eq!(ramp[0], 250);
    let _ = f.query(3, 2, 20, 0);
    let ramp = f.destruct(2, 2, 5000, &Vec::new());
    assert_eq!(ramp[0], 250);
}

#[test]
fn a_broken_cell_needs_no_probes() {
    let mut f = Field::new(5, 1, 1, 1);
    let _ = f.query(2, 2, 60, 1);
    assert!(f.destruct(2, 2, 5000, &Vec::new()).is_empty());
    assert!(f.destruct(2, 2, 500, &Vec::new()).is_empty());
}

#[test]
fn the_reading_is_what_was_spent_or_the_hard_estimate() {
    let mut f = Field::new(5, 1, 1, 1);
    let _ = f.query(0, 0, 60, 0);
    let none = Vec::new();
    assert_eq!(f.reading(0, 0, 500, &none), 4500);
    assert_eq!(f.reading(0, 0, 1000, &none), 4500);
    assert_eq!(f.reading(0, 0, 5000, &none), 60);
    assert_eq!(f.reading(0, 0, 500, &vec![(0, 0)]), 60);
    let _ = f.query(0, 0, 10, 1);
    assert_eq!(f.reading(0, 0, 500, &none), 70);
    assert_eq!(f.reading(0, 0, 5000, &none), 70);
}
