use annie::mute_proxy::{filetime_to_unix_ms, MuteProxyMessage, MuteProxyState, ProxyAction};

/// Runs an aggressive unmute at `start + age` and then every follow-up the
/// proxy schedules, each handled exactly one second after it was scheduled;
/// returns the times of the unmute calls.
fn debounce_times(start: u64, age: u64) -> Vec<u64> {
    debounce_times_with_delay(start, age, 1000)
}

fn debounce_times_with_delay(start: u64, age: u64, delay: u64) -> Vec<u64> {
    let mut proxy = MuteProxyState::new();
    let mut calls = Vec::new();
    let mut now = start + age;
    let mut pending = vec![MuteProxyMessage::Unmute(42, true)];
    while let Some(message) = pending.pop() {
        let start_time = if proxy.needs_start_time(&message) { Some(start) } else { None };
        for action in proxy.process_message(message, start_time, now) {
            match action {
                ProxyAction::SetMute(42, false) => calls.push(now),
                ProxyAction::ScheduleFollowup(pid, s) => {
                    pending.push(MuteProxyMessage::UnmuteFollowup(pid, s))
                }
                other => panic!("unexpected {:?}", other),
            }
        }
        now += delay;
    }
    assert!(!proxy.is_unmuting(42));
    calls
}

#[test]
fn debounce_unmutes_six_times_then_stops() {
    let t0 = 1_000_000;
    assert_eq!(
        debounce_times(t0, 100),
        vec![t0 + 100, t0 + 1100, t0 + 2100, t0 + 3100, t0 + 4100, t0 + 5100]
    );
}

#[test]
fn debounce_at_age_zero_reaches_threshold_exactly() {
    let t0 = 50_000;
    assert_eq!(
        debounce_times(t0, 0),
        vec![t0, t0 + 1000, t0 + 2000, t0 + 3000, t0 + 4000, t0 + 5000]
    );
}

#[test]
fn old_process_gets_single_unmute() {
    let t0 = 50_000;
    assert_eq!(debounce_times(t0, 5000), vec![t0 + 5000]);
    let mut proxy = MuteProxyState::new();
    let out = proxy.process_message(MuteProxyMessage::Unmute(7, true), None, 10);
    assert_eq!(out, vec![ProxyAction::SetMute(7, false)]);
    assert!(!proxy.is_unmuting(7));
}

#[test]
fn non_aggressive_unmute_does_not_debounce() {
    let mut proxy = MuteProxyState::new();
    let message = MuteProxyMessage::Unmute(7, false);
    assert!(!proxy.needs_start_time(&message));
    let out = proxy.process_message(message, Some(100), 200);
    assert_eq!(out, vec![ProxyAction::SetMute(7, false)]);
    assert!(!proxy.is_unmuting(7));
}

#[test]
fn mute_cancels_debounce() {
    let mut proxy = MuteProxyState::new();
    let out = proxy.process_message(MuteProxyMessage::Unmute(7, true), Some(1000), 1500);
    assert_eq!(out, vec![ProxyAction::SetMute(7, false), ProxyAction::ScheduleFollowup(7, 1000)]);
    assert!(proxy.is_unmuting(7));
    assert!(!proxy.needs_start_time(&MuteProxyMessage::Unmute(7, true)));
    let again = proxy.process_message(MuteProxyMessage::Unmute(7, true), None, 1600);
    assert_eq!(again, vec![ProxyAction::SetMute(7, false)]);
    let muted = proxy.process_message(MuteProxyMessage::Mute(7), None, 1700);
    assert_eq!(muted, vec![ProxyAction::SetMute(7, true)]);
    assert!(!proxy.is_unmuting(7));
    let stale = proxy.process_message(MuteProxyMessage::UnmuteFollowup(7, 1000), None, 2500);
    assert!(stale.is_empty());
}

#[test]
fn late_followup_stops_without_unmute() {
    let mut proxy = MuteProxyState::new();
    proxy.process_message(MuteProxyMessage::Unmute(9, true), Some(0), 4999);
    let out = proxy.process_message(MuteProxyMessage::UnmuteFollowup(9, 0), None, 6000);
    assert!(out.is_empty());
    assert!(!proxy.is_unmuting(9));
}

#[test]
fn filetime_converts_to_unix_milliseconds() {
    // 2020-01-01T00:00:00Z is 132223104000000000 file-time ticks.
    let ticks: u64 = 132_223_104_000_000_000;
    let high = (ticks >> 32) as u32;
    let low = ticks as u32;
    assert_eq!(filetime_to_unix_ms(high, low), Some(1_577_836_800_000));
    assert_eq!(filetime_to_unix_ms(0, 0), None);
    assert_eq!(filetime_to_unix_ms(u32::MAX, u32::MAX), Some(u64::MAX / 10000 - 11_644_473_600_000));
}

#[test]
fn late_followups_unmute_fewer_times() {
    let t0 = 10_000;
    assert_eq!(
        debounce_times_with_delay(t0, 100, 1500),
        vec![t0 + 100, t0 + 1600, t0 + 3100, t0 + 4600]
    );
    assert_eq!(debounce_times_with_delay(t0, 4500, 1200), vec![t0 + 4500, t0 + 5700]);
}
