//! Schedules of probing: the cumulative intensities at which a cell is
//! tried, and the runs of probes that are made from them.

use vstd::prelude::*;

verus! {

/// The intensity at which every cell breaks.
pub const FULL_POWER: i32 = 5000;

/// The level below which the first survey of a cell that need not break
/// stays.
pub const SURVEY_POWER: i32 = 500;

/// The level below which the second survey, near the network, stays.
pub const REFINE_POWER: i32 = 1000;

/// The estimate given to a cell that a survey did not break, and to a
/// landmark too remote to be probed.
pub const HARD_ESTIMATE: i32 = 4500;

/// Whether `v` is a schedule: at least two levels between 0 and
/// [`FULL_POWER`], none lower than the one before.
pub open spec fn is_schedule(v: Seq<i32>) -> bool {
    &&& v.len() >= 2
    &&& forall|i: int| 0 <= i < v.len() ==> 0 <= #[trigger] v[i] <= FULL_POWER
    &&& forall|i: int, j: int| 0 <= i <= j < v.len() ==> v[i] <= v[j]
}

/// The levels for the fees 1 and 2.
pub open spec fn levels_fine() -> Seq<i32> {
    seq![
        0i32, 15, 25, 40, 65, 95, 140, 190, 250, 330, 415, 520, 650, 840, 1075, 1300, 1500, 1750,
        2000, 2270, 2500, 2875, 3000, 3350, 3700, 4100, 4500, 5000,
    ]
}

/// The levels for the fees 4 and 8.
pub open spec fn levels_medium() -> Seq<i32> {
    seq![
        0i32, 15, 25, 40, 65, 95, 140, 190, 250, 330, 415, 520, 650, 840, 1075, 1400, 1750, 2270,
        2875, 3550, 4200, 5000,
    ]
}

/// The levels for the fees 16 and 32.
pub open spec fn levels_coarse() -> Seq<i32> {
    seq![0i32, 20, 40, 70, 120, 190, 280, 395, 540, 760, 1080, 1515, 2160, 3000, 4000, 5000]
}

/// The levels for the fee 64.
pub open spec fn levels_wide() -> Seq<i32> {
    seq![0i32, 30, 90, 220, 410, 730, 1170, 1700, 2200, 2700, 3500, 4000, 5000]
}

/// The levels for the fee 128.
pub open spec fn levels_widest() -> Seq<i32> {
    seq![0i32, 50, 120, 220, 410, 730, 1170, 1700, 2200, 2700, 3500, 4000, 5000]
}

/// The levels for any other fee.
pub open spec fn levels_other() -> Seq<i32> {
    seq![0i32, 25, 60, 120, 210, 350, 570, 960, 1600, 2800, 5000]
}

/// The schedule for the fee `c`: the higher the fee, the fewer the levels.
pub open spec fn schedule_spec(c: usize) -> Seq<i32> {
    if c == 1 || c == 2 {
        levels_fine()
    } else if c == 4 || c == 8 {
        levels_medium()
    } else if c == 16 || c == 32 {
        levels_coarse()
    } else if c == 64 {
        levels_wide()
    } else if c == 128 {
        levels_widest()
    } else {
        levels_other()
    }
}

/// The schedule for the fee `c`.
pub fn schedule(c: usize) -> (v: Vec<i32>)
    ensures
        v@ == schedule_spec(c),
        is_schedule(v@),
{
    let v: Vec<i32> = if c == 1 || c == 2 {
        vec![
            0i32, 15, 25, 40, 65, 95, 140, 190, 250, 330, 415, 520, 650, 840, 1075, 1300, 1500,
            1750, 2000, 2270, 2500, 2875, 3000, 3350, 3700, 4100, 4500, 5000,
        ]
    } else if c == 4 || c == 8 {
        vec![
            0i32, 15, 25, 40, 65, 95, 140, 190, 250, 330, 415, 520, 650, 840, 1075, 1400, 1750,
            2270, 2875, 3550, 4200, 5000,
        ]
    } else if c == 16 || c == 32 {
        vec![0i32, 20, 40, 70, 120, 190, 280, 395, 540, 760, 1080, 1515, 2160, 3000, 4000, 5000]
    } else if c == 64 {
        vec![0i32, 30, 90, 220, 410, 730, 1170, 1700, 2200, 2700, 3500, 4000, 5000]
    } else if c == 128 {
        vec![0i32, 50, 120, 220, 410, 730, 1170, 1700, 2200, 2700, 3500, 4000, 5000]
    } else {
        vec![0i32, 25, 60, 120, 210, 350, 570, 960, 1600, 2800, 5000]
    };
    assert(v@ =~= schedule_spec(c));
    v
}

/// The number of steps of `v`, counted from step `k`, up to the first that
/// would lead to a level of `lim` or more.
pub open spec fn steps_below(v: Seq<i32>, lim: int, k: int) -> int
    decreases v.len() - k,
{
    if 0 <= k && k + 1 < v.len() && v[k + 1] < lim {
        steps_below(v, lim, k + 1)
    } else {
        k
    }
}

/// The run of probes that follows `v` level by level and stays below the
/// level `lim`: the differences of the levels.
pub open spec fn survey_ramp(v: Seq<i32>, lim: int) -> Seq<i32> {
    Seq::new(steps_below(v, lim, 0) as nat, |i: int| (v[i + 1] - v[i]) as i32)
}

/// The schedule `v` with a level put halfway between every two levels
/// after the second.
pub open spec fn dense(v: Seq<i32>) -> Seq<i32> {
    Seq::new(
        (2 * v.len() - 2) as nat,
        |i: int|
            if i < 2 {
                v[i]
            } else if i % 2 == 1 {
                v[(i + 1) / 2]
            } else {
                ((v[i / 2] + v[i / 2 + 1]) / 2) as i32
            },
    )
}

/// The last step of `v`, counted from step `i`, whose next level is no
/// higher than `r`.
pub open spec fn climbed(v: Seq<i32>, r: int, i: int) -> int
    decreases v.len() - i,
{
    if 0 <= i && i + 1 < v.len() && v[i + 1] <= r {
        climbed(v, r, i + 1)
    } else {
        i
    }
}

/// The step at which `v` is entered for a cell whose broken neighbour took
/// the intensity `r`: one step before the last level that `r` reaches, and
/// never below the first level above 0.
pub open spec fn entry_step(v: Seq<i32>, r: int) -> int {
    let i = climbed(v, r, 0);
    if i > 1 {
        i - 1
    } else {
        1
    }
}

/// The differences of the levels of `v` from step `i` on.
pub open spec fn rises(v: Seq<i32>, i: int) -> Seq<i32> {
    Seq::new((v.len() - 1 - i) as nat, |j: int| (v[i + j + 1] - v[i + j]) as i32)
}

/// The run of probes that breaks a cell: the whole of `v`, step by step;
/// or, for a cell with a broken neighbour that took the intensity `r`, first
/// the level at which `v` is entered and the steps from there.
pub open spec fn commit_ramp(v: Seq<i32>, near: Option<int>) -> Seq<i32> {
    match near {
        Some(r) => seq![v[entry_step(v, r)]] + rises(v, entry_step(v, r)),
        None => rises(v, 0),
    }
}

/// The run of probes that follows `v` and stays below the level `lim`.
pub fn survey(v: &Vec<i32>, lim: i32) -> (ramp: Vec<i32>)
    requires
        is_schedule(v@),
    ensures
        ramp@ == survey_ramp(v@, lim as int),
{
    let mut ramp: Vec<i32> = Vec::new();
    let len: usize = v.len();
    let mut i: usize = 0;
    while i < len - 1 && v[i + 1] < lim
        invariant
            is_schedule(v@),
            len == v@.len(),
            i < v@.len(),
            ramp@.len() == i,
            steps_below(v@, lim as int, 0) == steps_below(v@, lim as int, i as int),
            forall|j: int| 0 <= j < i ==> #[trigger] ramp@[j] == v@[j + 1] - v@[j],
        decreases v@.len() - i,
    {
        ramp.push(v[i + 1] - v[i]);
        i += 1;
    }
    assert(ramp@ =~= survey_ramp(v@, lim as int));
    ramp
}

/// The schedule `v` with a level put halfway between every two levels after
/// the second.
pub fn densify(v: &Vec<i32>) -> (d: Vec<i32>)
    requires
        is_schedule(v@),
        v@.len() <= 0x4000_0000,
    ensures
        d@ == dense(v@),
        is_schedule(d@),
{
    let mut d: Vec<i32> = Vec::new();
    d.push(v[0]);
    d.push(v[1]);
    let mut j: usize = 2;
    while j < v.len()
        invariant
            is_schedule(v@),
            v@.len() <= 0x4000_0000,
            2 <= j <= v@.len(),
            d@.len() == 2 * j - 2,
            forall|i: int| 0 <= i < d@.len() ==> #[trigger] d@[i] == dense(v@)[i],
            forall|i: int| 0 <= i < d@.len() ==> 0 <= #[trigger] d@[i] <= v@[j - 1],
            forall|a: int, b: int| 0 <= a <= b < d@.len() ==> d@[a] <= d@[b],
            d@[d@.len() - 1] == v@[j - 1],
        decreases v@.len() - j,
    {
        let mid: i32 = (v[j - 1] + v[j]) / 2;
        d.push(mid);
        d.push(v[j]);
        proof {
            let i = (2 * j - 2) as int;
            assert(i % 2 == 0 && i / 2 == j - 1);
            assert((i + 1) % 2 == 1 && (i + 2) / 2 == j);
        }
        j += 1;
    }
    assert(d@ =~= dense(v@));
    d
}

/// The step at which `v` is entered for a cell whose broken neighbour took
/// the intensity `r`.
pub fn entry(v: &Vec<i32>, r: i32) -> (i: usize)
    requires
        is_schedule(v@),
    ensures
        i == entry_step(v@, r as int),
        1 <= i < v@.len(),
{
    let len: usize = v.len();
    let mut i: usize = 0;
    while i < len - 1 && v[i + 1] <= r
        invariant
            is_schedule(v@),
            len == v@.len(),
            i < v@.len(),
            climbed(v@, r as int, 0) == climbed(v@, r as int, i as int),
        decreases v@.len() - i,
    {
        i += 1;
    }
    if i > 1 {
        i - 1
    } else {
        1
    }
}

/// The run of probes that breaks a cell: the whole of `v`, step by step;
/// with the intensity that a broken neighbour took in `near`, first the
/// level at which `v` is entered and the steps from there.
pub fn commit(v: &Vec<i32>, near: Option<i32>) -> (ramp: Vec<i32>)
    requires
        is_schedule(v@),
    ensures
        ramp@ == commit_ramp(
            v@,
            match near {
                Some(r) => Some(r as int),
                None => None,
            },
        ),
{
    let mut ramp: Vec<i32> = Vec::new();
    let start: usize = match near {
        Some(r) => {
            let i: usize = entry(v, r);
            ramp.push(v[i]);
            i
        },
        None => 0,
    };
    let ghost head = ramp@;
    let len: usize = v.len();
    let mut i: usize = start;
    while i < len - 1
        invariant
            is_schedule(v@),
            len == v@.len(),
            start <= i < v@.len(),
            head.len() <= 1,
            ramp@.len() == head.len() + (i - start),
            forall|j: int| 0 <= j < head.len() ==> ramp@[j] == head[j],
            forall|k: int|
                head.len() <= k < ramp@.len() ==> #[trigger] ramp@[k] == v@[start + k - head.len()
                    + 1] - v@[start + k - head.len()],
        decreases v@.len() - i,
    {
        ramp.push(v[i + 1] - v[i]);
        i += 1;
    }
    proof {
        match near {
            Some(r) => {
                assert(head =~= seq![v@[start as int]]);
                assert(ramp@ =~= seq![v@[start as int]] + rises(v@, start as int));
            },
            None => {
                assert(ramp@ =~= rises(v@, 0));
            },
        }
    }
    ramp
}

} // verus!
