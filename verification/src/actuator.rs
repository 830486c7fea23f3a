//! The per-device pipeline: from a device page's raw markup and its
//! URL-shaped identifier to a named device with its normalized records.

use vstd::prelude::*;
use crate::errors::{DeviceError, MergeError, NormalizeError};
use crate::merge::{merge_result, merge_tables, RawGridV};
use crate::normalize::{normalize_rows, parse_servo, NormalizedServoV, NormalizeErrorV};
use crate::records::{ControlTableData, ControlTableDataV};
use crate::text::{char_last_index, chars_of, find_last_char, string_from_chars, sub_chars};

verus! {

/// Mathematical model of a `DeviceError`.
pub ghost enum DeviceErrorV {
    MalformedUrl,
    Merge(MergeError),
    Normalize(NormalizeErrorV),
}

impl View for DeviceError {
    type V = DeviceErrorV;

    open spec fn view(&self) -> DeviceErrorV {
        match self {
            DeviceError::MalformedUrl => DeviceErrorV::MalformedUrl,
            DeviceError::Merge(e) => DeviceErrorV::Merge(*e),
            DeviceError::Normalize(e) => DeviceErrorV::Normalize(e@),
        }
    }
}

/// The device identifier holds at least three path segments: the series
/// and raw-name segments stand before a final slash.
pub open spec fn url_parts_ok(u: Seq<char>) -> bool {
    char_last_index(u, '/') >= 0 && char_last_index(u.take(char_last_index(u, '/')), '/') >= 0
}

/// The second-to-last path segment: the device's raw name.
pub open spec fn url_raw_name(u: Seq<char>) -> Seq<char> {
    let p3 = char_last_index(u, '/');
    let p2 = char_last_index(u.take(p3), '/');
    u.subrange(p2 + 1, p3)
}

/// The third-to-last path segment: the device's series.
pub open spec fn url_series(u: Seq<char>) -> Seq<char> {
    let p3 = char_last_index(u, '/');
    let p2 = char_last_index(u.take(p3), '/');
    let p1 = char_last_index(u.take(p2), '/');
    u.subrange(p1 + 1, p2)
}

/// A scraped device: its series and raw-name path segments, its display
/// name, and its normalized control-table records.
#[derive(Debug)]
pub struct Actuator {
    pub series: String,
    pub raw_name: String,
    pub name: String,
    pub data: Vec<ControlTableData>,
}

/// Mathematical model of an `Actuator`.
pub ghost struct ActuatorV {
    pub series: Seq<char>,
    pub raw_name: Seq<char>,
    pub name: Seq<char>,
    pub data: Seq<ControlTableDataV>,
}

impl View for Actuator {
    type V = ActuatorV;

    open spec fn view(&self) -> ActuatorV {
        ActuatorV {
            series: self.series@,
            raw_name: self.raw_name@,
            name: self.name@,
            data: self.data.deep_view(),
        }
    }
}

/// What the whole per-device pipeline yields for a page text: the two
/// tables at indices 1 and 2 merged, then normalized.
pub open spec fn device_records(text: Seq<char>) -> Result<NormalizedServoV, DeviceErrorV> {
    match merge_result(text, 1, 2) {
        Err(e) => Err(DeviceErrorV::Merge(e)),
        Ok(g) => match normalize_rows(g.header, g.rows) {
            Err(e) => Err(DeviceErrorV::Normalize(e)),
            Ok(t) => Ok(t),
        },
    }
}

impl Actuator {
    /// Builds a device from its page URL, display name and page markup.
    ///
    /// The series and raw name are the third-to-last and second-to-last
    /// path segments of the URL; the records come from merging the
    /// page's tables at indices 1 and 2 and normalizing the result. The
    /// tracked indirect bounds are not kept on the device.
    pub fn new(url: String, name: String, text: String) -> (r: Result<Actuator, DeviceError>)
        ensures
            match r {
                Ok(a) => url_parts_ok(url@) && a@.series == url_series(url@) && a@.raw_name
                    == url_raw_name(url@) && a@.name == name@ && (device_records(text@) matches Ok(
                    t,
                ) && a@.data == t.records),
                Err(e) => match e@ {
                    DeviceErrorV::MalformedUrl => !url_parts_ok(url@),
                    DeviceErrorV::Merge(me) => url_parts_ok(url@) && device_records(text@) == Err::<
                        NormalizedServoV,
                        DeviceErrorV,
                    >(DeviceErrorV::Merge(me)),
                    DeviceErrorV::Normalize(ne) => url_parts_ok(url@) && device_records(text@)
                        == Err::<NormalizedServoV, DeviceErrorV>(DeviceErrorV::Normalize(ne)),
                },
            },
    {
        let cs = chars_of(url.as_str());
        let p3 = match find_last_char(&cs, '/') {
            Some(p) => p,
            None => {
                return Err(DeviceError::MalformedUrl);
            },
        };
        let head = sub_chars(&cs, 0, p3);
        let p2 = match find_last_char(&head, '/') {
            Some(p) => p,
            None => {
                return Err(DeviceError::MalformedUrl);
            },
        };
        proof {
            assert(head@ == url@.take(p3 as int));
        }
        let head2 = sub_chars(&cs, 0, p2);
        let series_start: usize = match find_last_char(&head2, '/') {
            Some(p) => p + 1,
            None => 0,
        };
        proof {
            assert(head2@ == url@.take(p2 as int));
        }
        let raw_name_cs = sub_chars(&cs, p2 + 1, p3);
        let series_cs = sub_chars(&cs, series_start, p2);
        let raw_name = string_from_chars(&raw_name_cs);
        let series = string_from_chars(&series_cs);
        proof {
            assert(raw_name@ == url_raw_name(url@));
            assert(series@ == url_series(url@));
        }
        let grid = match merge_tables(text.as_str(), (1, 2)) {
            Ok(g) => g,
            Err(e) => {
                return Err(DeviceError::Merge(e));
            },
        };
        let parsed = match parse_servo(&grid) {
            Ok(t) => t,
            Err(e) => {
                return Err(DeviceError::Normalize(e));
            },
        };
        Ok(Actuator { series, raw_name, name, data: parsed.records })
    }
}

} // verus!
