//! The battery notifier's decisions: which notification each new battery
//! reading calls for, so that each is shown once per charge or discharge.
use vstd::prelude::*;
use crate::text::{decimal, push_decimal, push_str, string_of};

verus! {

/// A notification about the battery charge.
#[derive(Debug, Clone, Copy, PartialEq, Eq, Structural)]
pub enum Notice {
    /// The charge fell below the lower threshold while discharging.
    Low,
    /// The charge rose above the upper threshold while charging.
    High,
}

/// The notifier's state: its thresholds in percent and whether the low and the
/// high notification have been shown since the battery last changed between
/// charging and discharging.
#[derive(Debug, Clone, Copy)]
pub struct Notifier {
    pub low_threshold: u8,
    pub high_threshold: u8,
    pub been_notified_low: bool,
    pub been_notified_high: bool,
}

impl Notifier {
    /// The state after a reading, before any notification is shown: charging
    /// clears the low flag and discharging the high flag.
    pub open spec fn rearmed(self, charging: bool) -> Notifier {
        Notifier {
            been_notified_low: self.been_notified_low && !charging,
            been_notified_high: self.been_notified_high && charging,
            ..self
        }
    }

    /// The notification a reading calls for, judged on the rearmed state.
    pub open spec fn due(self, capacity: u8, charging: bool) -> Option<Notice> {
        let s = self.rearmed(charging);
        if capacity < s.low_threshold && !charging && !s.been_notified_low {
            Some(Notice::Low)
        } else if capacity > s.high_threshold && charging && !s.been_notified_high {
            Some(Notice::High)
        } else {
            None
        }
    }

    /// The state once `notice` was shown (`shown`) or failed to show.
    pub open spec fn after_notice(self, notice: Notice, shown: bool) -> Notifier {
        if !shown {
            self
        } else {
            match notice {
                Notice::Low => Notifier { been_notified_low: true, ..self },
                Notice::High => Notifier { been_notified_high: true, ..self },
            }
        }
    }

    /// A notifier with the given thresholds that has shown nothing yet.
    pub fn new(low_threshold: u8, high_threshold: u8) -> (n: Notifier)
        ensures
            n == (Notifier {
                low_threshold,
                high_threshold,
                been_notified_low: false,
                been_notified_high: false,
            }),
    {
        Notifier { low_threshold, high_threshold, been_notified_low: false, been_notified_high: false }
    }

    /// Takes a reading of the capacity in percent and of whether the battery
    /// charges, and returns the notification that it calls for, if any.
    pub fn observe(&mut self, capacity: u8, charging: bool) -> (notice: Option<Notice>)
        ensures
            *final(self) == old(self).rearmed(charging),
            notice == old(self).due(capacity, charging),
    {
        if self.been_notified_low && charging {
            self.been_notified_low = false;
        }
        if self.been_notified_high && !charging {
            self.been_notified_high = false;
        }
        if capacity < self.low_threshold && !charging && !self.been_notified_low {
            Some(Notice::Low)
        } else if capacity > self.high_threshold && charging && !self.been_notified_high {
            Some(Notice::High)
        } else {
            None
        }
    }

    /// Records whether `notice` was shown.
    pub fn record(&mut self, notice: Notice, shown: bool)
        ensures
            *final(self) == old(self).after_notice(notice, shown),
    {
        if shown {
            match notice {
                Notice::Low => self.been_notified_low = true,
                Notice::High => self.been_notified_high = true,
            }
        }
    }
}

/// The title of a notification.
pub open spec fn spec_summary(notice: Notice) -> Seq<char> {
    match notice {
        Notice::Low => "Low battery charge"@,
        Notice::High => "High battery charge"@,
    }
}

/// The text of a notification.
pub open spec fn spec_body(notice: Notice, low_threshold: u8) -> Seq<char> {
    match notice {
        Notice::Low => "Battery lower than set threshold of "@ + decimal(low_threshold as nat)
            + "%"@,
        Notice::High => "You can remove the charging device in order to preserve battery health"@,
    }
}

/// The title of a notification.
pub fn summary(notice: Notice) -> (s: String)
    ensures
        s@ == spec_summary(notice),
{
    match notice {
        Notice::Low => "Low battery charge".to_owned(),
        Notice::High => "High battery charge".to_owned(),
    }
}

/// The text of a notification, naming the lower threshold for a low charge.
pub fn body(notice: Notice, low_threshold: u8) -> (s: String)
    ensures
        s@ == spec_body(notice, low_threshold),
{
    match notice {
        Notice::Low => {
            let mut v: Vec<char> = Vec::new();
            push_str(&mut v, "Battery lower than set threshold of ");
            push_decimal(&mut v, low_threshold as u128);
            push_str(&mut v, "%");
            string_of(&v)
        },
        Notice::High => "You can remove the charging device in order to preserve battery health".to_owned(),
    }
}

/// Once the low notification was shown, no reading asks for it again until a
/// reading has found the battery charging.
pub proof fn lemma_low_once_per_discharge(s: Notifier, capacity: u8, later: u8)
    requires
        s.due(capacity, false) == Some(Notice::Low),
    ensures
        s.rearmed(false).after_notice(Notice::Low, true).due(later, false) != Some(Notice::Low),
{
}

/// Once the high notification was shown, no reading asks for it again until a
/// reading has found the battery discharging.
pub proof fn lemma_high_once_per_charge(s: Notifier, capacity: u8, later: u8)
    requires
        s.due(capacity, true) == Some(Notice::High),
    ensures
        s.rearmed(true).after_notice(Notice::High, true).due(later, true) != Some(Notice::High),
{
}

/// A reading while charging rearms the low notification: a later discharging
/// reading below the lower threshold asks for it again.
pub proof fn lemma_charging_rearms_low(s: Notifier, capacity: u8, later: u8)
    requires
        later < s.low_threshold,
    ensures
        s.rearmed(true).due(later, false) == Some(Notice::Low),
{
}

/// The low notification is asked for only below the lower threshold while
/// discharging, the high one only above the upper threshold while charging.
pub proof fn lemma_due_conditions(s: Notifier, capacity: u8, charging: bool)
    ensures
        s.due(capacity, charging) == Some(Notice::Low) ==> capacity < s.low_threshold && !charging,
        s.due(capacity, charging) == Some(Notice::High) ==> capacity > s.high_threshold
            && charging,
{
}

/// While charging, a charge above the upper threshold calls for the high
/// notification unless it has been shown since the battery last discharged;
/// while discharging, a charge below the lower threshold calls for the low
/// notification unless it has been shown since the battery last charged.
pub proof fn lemma_due_when_crossed(s: Notifier, capacity: u8)
    ensures
        capacity > s.high_threshold && !s.been_notified_high ==> s.due(capacity, true) == Some(
            Notice::High,
        ),
        capacity < s.low_threshold && !s.been_notified_low ==> s.due(capacity, false) == Some(
            Notice::Low,
        ),
        s.been_notified_high ==> s.due(capacity, true) is None,
        s.been_notified_low ==> s.due(capacity, false) is None,
{
}

/// A fuller charge never calls for less: where a charge calls for the high
/// notification while charging, so does every higher charge; where a charge
/// calls for the low notification while discharging, so does every lower one.
pub proof fn lemma_due_monotonic(s: Notifier, capacity: u8, other: u8)
    ensures
        s.due(capacity, true) == Some(Notice::High) && other >= capacity ==> s.due(other, true)
            == Some(Notice::High),
        s.due(capacity, false) == Some(Notice::Low) && other <= capacity ==> s.due(other, false)
            == Some(Notice::Low),
{
}

/// A notification that failed to show is asked for again by the next reading
/// that finds the same conditions.
pub proof fn lemma_failed_notice_retried(s: Notifier, capacity: u8, charging: bool)
    requires
        s.due(capacity, charging) matches Some(n),
    ensures
        s.rearmed(charging).after_notice(s.due(capacity, charging)->0, false).due(capacity, charging)
            == s.due(capacity, charging),
{
}

} // verus!
