//! The occasional support card.
//!
//! It appears a day or two after the first launch, and again as long after each
//! "later". "Never" is final.
use vstd::prelude::*;

use crate::config::Config;
use crate::text::joined;

verus! {

pub const DAY_SECONDS: u64 = 86_400;

/// What the card is to do.
#[derive(Debug, Clone, Copy, PartialEq, Eq)]
pub struct SupportPromptState {
    pub show: bool,
    pub next_at: Option<u64>,
}

/// How far ahead the card is scheduled: from one to two days, spread by the
/// fraction of a second on the clock and the process id. This is presentation
/// jitter, enough to keep every install from prompting in lockstep.
pub open spec fn prompt_delay(nanos: Option<u32>, process: u32) -> int {
    let fraction = match nanos {
        Some(nanos) => nanos as u64,
        None => 0u64,
    };
    DAY_SECONDS + (fraction ^ (process as u64)) % ((DAY_SECONDS + 1) as u64)
}

/// When the card is due next. A clock at the end of its range stays there.
pub open spec fn prompt_at(now: u64, nanos: Option<u32>, process: u32) -> u64 {
    let at = now + prompt_delay(nanos, process);
    if at > u64::MAX {
        u64::MAX
    } else {
        at as u64
    }
}

/// When the card is due next.
pub fn next_support_prompt(now: u64, nanos: Option<u32>, process: u32) -> (r: u64)
    ensures
        r == prompt_at(now, nanos, process),
{
    let fraction: u64 = match nanos {
        Some(nanos) => nanos as u64,
        None => 0,
    };
    let mixed: u64 = fraction ^ (process as u64);
    let delay: u64 = DAY_SECONDS + mixed % (DAY_SECONDS + 1);
    if now > 0xffff_ffff_ffff_ffff - delay {
        0xffff_ffff_ffff_ffff
    } else {
        now + delay
    }
}

/// Whether everything but the support card's schedule is the same.
pub open spec fn same_besides_support(a: Config, b: Config) -> bool {
    &&& a.access == b.access
    &&& a.seen_onboarding == b.seen_onboarding
    &&& a.auto_update == b.auto_update
    &&& a.profiles == b.profiles
    &&& a.global_excluded_paths == b.global_excluded_paths
    &&& a.global_excluded_rules == b.global_excluded_rules
    &&& a.last_profile_id == b.last_profile_id
}

/// What the card does at a moment.
pub open spec fn card(config: Config, now: u64) -> SupportPromptState {
    if config.support_prompt_disabled {
        SupportPromptState { show: false, next_at: None }
    } else {
        SupportPromptState {
            show: config.support_prompt_at matches Some(at) && now >= at,
            next_at: config.support_prompt_at,
        }
    }
}

/// Schedule the first prompt, or report that the saved time has arrived. The
/// second part of the result says whether the configuration has to be saved.
pub fn support_prompt_status(config: &mut Config, now: u64, nanos: Option<u32>, process: u32) -> (r:
    (SupportPromptState, bool))
    ensures
        same_besides_support(*final(config), *old(config)),
        final(config).support_prompt_disabled == old(config).support_prompt_disabled,
        final(config).support_prompt_at == (if old(config).support_prompt_disabled {
            old(config).support_prompt_at
        } else {
            match old(config).support_prompt_at {
                Some(at) => Some(at),
                None => Some(prompt_at(now, nanos, process)),
            }
        }),
        r.0 == card(*final(config), now),
        r.1 == (!old(config).support_prompt_disabled && old(config).support_prompt_at is None),
{
    if config.support_prompt_disabled {
        return (SupportPromptState { show: false, next_at: None }, false);
    }
    match config.support_prompt_at {
        Some(at) => (SupportPromptState { show: now >= at, next_at: Some(at) }, false),
        None => {
            let at: u64 = next_support_prompt(now, nanos, process);
            config.support_prompt_at = Some(at);
            (SupportPromptState { show: now >= at, next_at: Some(at) }, true)
        },
    }
}

/// "Later" starts a fresh interval.
pub fn support_prompt_later(config: &mut Config, now: u64, nanos: Option<u32>, process: u32) -> (r:
    SupportPromptState)
    ensures
        same_besides_support(*final(config), *old(config)),
        final(config).support_prompt_disabled == old(config).support_prompt_disabled,
        final(config).support_prompt_at == Some(prompt_at(now, nanos, process)),
        r == (SupportPromptState { show: false, next_at: final(config).support_prompt_at }),
{
    let at: u64 = next_support_prompt(now, nanos, process);
    config.support_prompt_at = Some(at);
    SupportPromptState { show: false, next_at: Some(at) }
}

/// Permanent opt-out for the card.
pub fn support_prompt_never(config: &mut Config)
    ensures
        same_besides_support(*final(config), *old(config)),
        final(config).support_prompt_disabled,
        final(config).support_prompt_at is None,
{
    config.support_prompt_disabled = true;
    config.support_prompt_at = None;
}

/// The page a destination names. No address is accepted from outside.
pub open spec fn page_of(destination: Seq<char>) -> Option<Seq<char>> {
    if destination == "coffee"@ {
        Some("https://buymeacoffee.com/samreshan"@)
    } else if destination == "github"@ {
        Some("https://github.com/samreshan/cachereaper"@)
    } else {
        None
    }
}

/// The page a destination names.
pub fn support_page(destination: &str) -> (r: Result<&'static str, String>)
    ensures
        (match r {
            Ok(url) => page_of(destination@) == Some(url@),
            Err(why) => page_of(destination@) is None && why@ == "unknown support destination: "@
                + destination@,
        }),
{
    if *destination == *"coffee" {
        Ok("https://buymeacoffee.com/samreshan")
    } else if *destination == *"github" {
        Ok("https://github.com/samreshan/cachereaper")
    } else {
        Err(joined("unknown support destination: ", destination))
    }
}

/// The card is due from 24 through 48 hours from now, as far as the clock goes.
pub proof fn law_prompt_is_a_day_or_two_ahead(now: u64, nanos: Option<u32>, process: u32)
    requires
        now <= u64::MAX - 2 * DAY_SECONDS,
    ensures
        now + DAY_SECONDS <= prompt_at(now, nanos, process) <= now + 2 * DAY_SECONDS,
{
}

/// Once the card is switched off it is not shown, whenever it is asked about.
pub proof fn law_never_is_final(config: Config, now: u64)
    requires
        config.support_prompt_disabled,
    ensures
        !card(config, now).show,
        card(config, now).next_at is None,
{
}

/// A card that was put off is not shown for the next day.
pub proof fn law_later_means_a_day(config: Config, now: u64, nanos: Option<u32>, process: u32, at: u64)
    requires
        now <= u64::MAX - 2 * DAY_SECONDS,
        config.support_prompt_at == Some(prompt_at(now, nanos, process)),
        at < now + DAY_SECONDS,
    ensures
        !card(config, at).show,
{
}

/// The card shows from the moment it is due, and not before; without a time it does
/// not show.
pub proof fn law_the_card_shows_when_due(config: Config, now: u64, at: u64)
    requires
        !config.support_prompt_disabled,
    ensures
        config.support_prompt_at == Some(at) ==> card(config, now).next_at == Some(at) && (card(
            config,
            now,
        ).show <==> now >= at),
        config.support_prompt_at is None ==> !card(config, now).show && card(config, now).next_at
            is None,
{
}

/// The card is due a day from now and a further stretch of up to a day, which the
/// clock and the process id spread.
pub proof fn law_the_delay_is_spread(now: u64, nanos: u32, process: u32)
    requires
        now <= u64::MAX - 172_800,
    ensures
        prompt_at(now, Some(nanos), process) == now + 86_400 + ((nanos as u64) ^ (process as u64))
            % 86_401u64,
        prompt_at(now, None, process) == now + 86_400 + (0u64 ^ (process as u64)) % 86_401u64,
{
}

/// Two destinations have a page, and nothing else does.
pub proof fn law_two_pages_are_known(destination: Seq<char>)
    ensures
        page_of("coffee"@) == Some("https://buymeacoffee.com/samreshan"@),
        page_of("github"@) == Some("https://github.com/samreshan/cachereaper"@),
        page_of(destination) is Some <==> destination == "coffee"@ || destination == "github"@,
{
    reveal_strlit("coffee");
    reveal_strlit("github");
    assert("coffee"@.len() == 6 && "github"@.len() == 6);
    assert("coffee"@[0] == 'c' && "github"@[0] == 'g');
}

/// The card's schedule is its own: whatever the card does, the other settings stay.
pub proof fn law_the_card_keeps_to_itself(before: Config, after: Config)
    requires
        same_besides_support(after, before),
    ensures
        after.access == before.access,
        after.seen_onboarding == before.seen_onboarding,
        after.auto_update == before.auto_update,
        after.profiles == before.profiles,
        after.global_excluded_paths == before.global_excluded_paths,
        after.global_excluded_rules == before.global_excluded_rules,
        after.last_profile_id == before.last_profile_id,
{
}

} // verus!
