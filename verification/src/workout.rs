use vstd::prelude::*;
use crate::cacher::Cacher;

verus! {

/// What to do today.
#[derive(Debug, PartialEq, Eq)]
pub enum WorkoutPlan {
    /// Push-ups, then sit-ups, so many of each.
    Exercises { push_ups: u32, sit_ups: u32 },
    /// Rest.
    TakeBreak,
    /// A run of so many minutes.
    Run { minutes: u32 },
}

/// The plan for a workout that is not a break, given the number the
/// calculation gives: push-ups and sit-ups below intensity 25, a run from 25.
pub open spec fn planned(intensity: u32, n: u32) -> WorkoutPlan {
    if intensity < 25 {
        WorkoutPlan::Exercises { push_ups: n, sit_ups: n }
    } else {
        WorkoutPlan::Run { minutes: n }
    }
}

/// Below intensity 25 the plan is push-ups and sit-ups, as many of each as
/// the calculation gives; from 25 on it is a run of as many minutes.
pub proof fn lemma_plan_by_intensity(intensity: u32, n: u32)
    ensures
        intensity < 25 ==> planned(intensity, n) == (WorkoutPlan::Exercises { push_ups: n, sit_ups: n }),
        intensity >= 25 ==> planned(intensity, n) == (WorkoutPlan::Run { minutes: n }),
        planned(intensity, n) != WorkoutPlan::TakeBreak,
{
}

/// Plans a workout for `intensity`, asking `cache` for the number it needs.
/// Below intensity 25 it is push-ups and sit-ups, as many of each as the
/// cache gives for the intensity (asked twice, computed at most once).  From
/// 25 on it is a break when `random_number` is 3, and the cache is not
/// asked; otherwise a run of as many minutes as the cache gives.  With a
/// fresh cache the calculation runs once, or not at all for a break.
pub fn generate_workout<T>(intensity: u32, random_number: u32, cache: &mut Cacher<T>) -> (plan: WorkoutPlan)
    where T: Fn(u32) -> u32,
    requires
        old(cache).cached() is None && !(intensity >= 25 && random_number == 3)
            ==> call_requires(old(cache).calculation(), (intensity,)),
    ensures
        intensity >= 25 && random_number == 3 ==> plan == WorkoutPlan::TakeBreak && *final(cache)
            == *old(cache),
        !(intensity >= 25 && random_number == 3) ==> {
            &&& final(cache).calculation() == old(cache).calculation()
            &&& final(cache).runs() == 1
            &&& old(cache).cached() is Some ==> *final(cache) == *old(cache)
            &&& old(cache).cached() is None ==> final(cache).runs() == old(cache).runs() + 1
            &&& final(cache).cached() matches Some(n) && plan == planned(intensity, n) && (old(
                cache,
            ).cached() is None ==> call_ensures(old(cache).calculation(), (intensity,), n))
        },
        intensity < 25 ==> (final(cache).cached() matches Some(n) && plan == (
        WorkoutPlan::Exercises { push_ups: n, sit_ups: n })),
        intensity >= 25 && random_number != 3 ==> (final(cache).cached() matches Some(n) && plan
            == (WorkoutPlan::Run { minutes: n })),
{
    if intensity < 25 {
        let push_ups = cache.value(intensity);
        let sit_ups = cache.value(intensity);
        WorkoutPlan::Exercises { push_ups, sit_ups }
    } else {
        if random_number == 3 {
            WorkoutPlan::TakeBreak
        } else {
            let minutes = cache.value(intensity);
            WorkoutPlan::Run { minutes }
        }
    }
}

} // verus!
