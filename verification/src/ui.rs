//! The decision core of the terminal interface: the zoom scale and the
//! frequency-view state machine. Rendering and keyboard handling live with
//! the caller, which performs a recalculation whenever an update asks for
//! one.
use vstd::prelude::*;

use crate::date::Date;

verus! {

/// The zoom scale of the habit views, as a period length in days.
#[derive(Clone, Copy, PartialEq, Eq, Structural, Debug)]
pub enum Scale {
    Weekly,
    Monthly,
    Quarterly,
    Yearly,
    FiveYearly,
}

impl Scale {
    /// What `smaller` returns.
    pub open spec fn spec_smaller(&self) -> Scale {
        match self {
            Scale::Weekly => Scale::Weekly,
            Scale::Monthly => Scale::Weekly,
            Scale::Quarterly => Scale::Monthly,
            Scale::Yearly => Scale::Monthly,
            Scale::FiveYearly => Scale::Yearly,
        }
    }

    /// What `larger` returns.
    pub open spec fn spec_larger(&self) -> Scale {
        match self {
            Scale::Weekly => Scale::Monthly,
            Scale::Monthly => Scale::Quarterly,
            Scale::Quarterly => Scale::Yearly,
            Scale::Yearly => Scale::FiveYearly,
            Scale::FiveYearly => Scale::FiveYearly,
        }
    }

    /// The next smaller scale; the smallest stays put.
    pub fn smaller(&self) -> (r: Scale)
        ensures
            r == self.spec_smaller(),
    {
        match self {
            Scale::Weekly => Scale::Weekly,
            Scale::Monthly => Scale::Weekly,
            Scale::Quarterly => Scale::Monthly,
            Scale::Yearly => Scale::Monthly,
            Scale::FiveYearly => Scale::Yearly,
        }
    }

    /// The next larger scale; the largest stays put.
    pub fn larger(&self) -> (r: Scale)
        ensures
            r == self.spec_larger(),
    {
        match self {
            Scale::Weekly => Scale::Monthly,
            Scale::Monthly => Scale::Quarterly,
            Scale::Quarterly => Scale::Yearly,
            Scale::Yearly => Scale::FiveYearly,
            Scale::FiveYearly => Scale::FiveYearly,
        }
    }

    /// The scale's period length in days.
    pub fn value(&self) -> (r: usize)
        ensures
            r == self.spec_value(),
            1 <= r <= 1825,
    {
        match self {
            Scale::Weekly => 7,
            Scale::Monthly => 30,
            Scale::Quarterly => 90,
            Scale::Yearly => 365,
            Scale::FiveYearly => 1825,
        }
    }

    pub open spec fn spec_value(&self) -> int {
        match self {
            Scale::Weekly => 7,
            Scale::Monthly => 30,
            Scale::Quarterly => 90,
            Scale::Yearly => 365,
            Scale::FiveYearly => 1825,
        }
    }
}

/// An input to the frequency view.
pub enum HabitFrequencyTableWidgetInput {
    SetBeginDate(Date),
    SmallerScale,
    LargerScale,
    FewerPeriods,
    MorePeriods,
    DataChanged,
}

/// The state the frequency view is drawn from: the date its windows count
/// back from, the window scale, and how many windows are shown.
pub struct HabitFrequencyTableState {
    pub begin_date: Date,
    pub scale: Scale,
    pub iters: usize,
}

impl HabitFrequencyTableState {
    /// Applies one input; the result says whether the counts must be
    /// recalculated against the diary.
    pub fn update(&mut self, input: HabitFrequencyTableWidgetInput) -> (recalculate: bool)
        ensures
            ({
                let s = *old(self);
                match input {
                    HabitFrequencyTableWidgetInput::SetBeginDate(date) => {
                        &&& final(self).scale == s.scale
                        &&& final(self).iters == s.iters
                        &&& final(self).begin_date == date
                        &&& recalculate == (date@ != s.begin_date@)
                    },
                    HabitFrequencyTableWidgetInput::SmallerScale => {
                        &&& final(self).begin_date == s.begin_date
                        &&& final(self).iters == s.iters
                        &&& final(self).scale == s.scale.spec_smaller()
                        &&& recalculate
                    },
                    HabitFrequencyTableWidgetInput::LargerScale => {
                        &&& final(self).begin_date == s.begin_date
                        &&& final(self).iters == s.iters
                        &&& final(self).scale == s.scale.spec_larger()
                        &&& recalculate
                    },
                    HabitFrequencyTableWidgetInput::FewerPeriods => {
                        &&& final(self).begin_date == s.begin_date
                        &&& final(self).scale == s.scale
                        &&& final(self).iters == (if s.iters >= 2 {
                            (s.iters - 1) as int
                        } else {
                            1int
                        })
                        &&& recalculate
                    },
                    HabitFrequencyTableWidgetInput::MorePeriods => {
                        &&& final(self).begin_date == s.begin_date
                        &&& final(self).scale == s.scale
                        &&& final(self).iters == (if s.iters < usize::MAX {
                            s.iters + 1
                        } else {
                            s.iters as int
                        })
                        &&& recalculate
                    },
                    HabitFrequencyTableWidgetInput::DataChanged => {
                        &&& *final(self) == s
                        &&& recalculate
                    },
                }
            }),
    {
        match input {
            HabitFrequencyTableWidgetInput::SetBeginDate(date) => {
                let changed = !self.begin_date.eq_date(date);
                self.begin_date = date;
                changed
            },
            HabitFrequencyTableWidgetInput::SmallerScale => {
                self.scale = self.scale.smaller();
                true
            },
            HabitFrequencyTableWidgetInput::LargerScale => {
                self.scale = self.scale.larger();
                true
            },
            HabitFrequencyTableWidgetInput::FewerPeriods => {
                if self.iters >= 2 {
                    self.iters = self.iters - 1;
                } else {
                    self.iters = 1;
                }
                true
            },
            HabitFrequencyTableWidgetInput::MorePeriods => {
                if self.iters < usize::MAX {
                    self.iters = self.iters + 1;
                }
                true
            },
            HabitFrequencyTableWidgetInput::DataChanged => true,
        }
    }
}

} // verus!
