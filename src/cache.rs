//! The remembered devices, keyed by serial.
use vstd::prelude::*;

use crate::devices::{AdbDeviceLiveProperties, AdbDeviceProperties, LiveView, PropertiesView};

verus! {

/// Devices seen before, each serial once, in the order first seen.
pub struct Cache {
    pub version: String,
    pub devices: Vec<(String, AdbDeviceProperties)>,
}

/// What a cache entry becomes when `new` is saved over `old`: state and
/// path are replaced, live properties only where `new` has them.
pub open spec fn merged(old: PropertiesView, new: PropertiesView) -> PropertiesView {
    PropertiesView {
        connection_state: new.connection_state,
        devpath: new.devpath,
        live: match new.live {
            Some(l) => Some(l),
            None => old.live,
        },
    }
}

/// Index of the entry for `serial` in `d`, if any.
pub open spec fn entry_index(d: Seq<(Seq<char>, PropertiesView)>, serial: Seq<char>) -> Option<int> {
    if exists|i: int| 0 <= i < d.len() && d[i].0 == serial {
        Some(choose|i: int| 0 <= i < d.len() && d[i].0 == serial)
    } else {
        None
    }
}

fn copy_live(l: &AdbDeviceLiveProperties) -> (r: AdbDeviceLiveProperties)
    ensures
        r.view() == l.view(),
{
    AdbDeviceLiveProperties {
        product: l.product.clone(),
        model: l.model.clone(),
        device: l.device.clone(),
        transport_id: l.transport_id,
    }
}

fn copy_properties(p: &AdbDeviceProperties) -> (r: AdbDeviceProperties)
    ensures
        r.view() == p.view(),
{
    AdbDeviceProperties {
        connection_state: p.connection_state.clone(),
        devpath: p.devpath.clone(),
        live: match &p.live {
            Some(l) => Some(copy_live(l)),
            None => None,
        },
    }
}

impl Cache {
    /// The entries, as serials and properties.
    pub open spec fn view(&self) -> Seq<(Seq<char>, PropertiesView)> {
        self.devices@.map_values(|e: (String, AdbDeviceProperties)| (e.0@, e.1.view()))
    }

    /// Each serial has one entry.
    pub open spec fn wf(&self) -> bool {
        forall|i: int, j: int|
            0 <= i < j < self.view().len() ==> #[trigger] self.view()[i].0 != #[trigger] self.view()[j].0
    }

    /// An empty cache written by `version`.
    pub fn new(version: String) -> (r: Self)
        ensures
            r.wf(),
            r.version@ == version@,
            r.view().len() == 0,
    {
        Cache { version, devices: Vec::new() }
    }

    /// Position of the entry for `serial`.
    fn position(&self, serial: &str) -> (r: Option<usize>)
        ensures
            r matches Some(i) ==> i < self.view().len() && self.view()[i as int].0 == serial@,
            r is None ==> forall|i: int| 0 <= i < self.view().len() ==> self.view()[i].0 != serial@,
    {
        let key = serial.to_owned();
        let mut i: usize = 0;
        while i < self.devices.len()
            invariant
                key@ == serial@,
                i <= self.view().len(),
                forall|j: int| 0 <= j < i ==> self.view()[j].0 != serial@,
            decreases self.view().len() - i,
        {
            assert(self.view()[i as int].0 == self.devices@[i as int].0@);
            if self.devices[i].0 == key {
                return Some(i);
            }
            i = i + 1;
        }
        None
    }

    /// Records `properties` for `serial`: a known serial gets its state and
    /// path replaced and keeps its live properties unless new ones come; an
    /// unknown one is added at the end.
    pub fn save_device(&mut self, serial: &str, properties: &AdbDeviceProperties)
        requires
            old(self).wf(),
        ensures
            final(self).wf(),
            final(self).version == old(self).version,
            match entry_index(old(self).view(), serial@) {
                Some(i) => final(self).view() == old(self).view().update(
                    i,
                    (serial@, merged(old(self).view()[i].1, properties.view())),
                ),
                None => final(self).view() == old(self).view().push((serial@, properties.view())),
            },
    {
        match self.position(serial) {
            Some(i) => {
                let live = match &properties.live {
                    Some(l) => Some(copy_live(l)),
                    None => match &self.devices[i].1.live {
                        Some(l) => Some(copy_live(l)),
                        None => None,
                    },
                };
                let entry = AdbDeviceProperties {
                    connection_state: properties.connection_state.clone(),
                    devpath: properties.devpath.clone(),
                    live,
                };
                let key = self.devices[i].0.clone();
                let ghost before = self.view();
                self.devices.set(i, (key, entry));
                proof {
                    assert(before[i as int].0 == serial@);
                    assert(entry_index(before, serial@) == Some(i as int));
                    assert(self.view() =~= before.update(
                        i as int,
                        (serial@, merged(before[i as int].1, properties.view())),
                    ));
                }
            },
            None => {
                let ghost before = self.view();
                self.devices.push((serial.to_owned(), copy_properties(properties)));
                assert(self.view() =~= before.push((serial@, properties.view())));
            },
        }
    }

    /// Forgets `serial`.
    pub fn remove_device(&mut self, serial: &str)
        requires
            old(self).wf(),
        ensures
            final(self).wf(),
            final(self).version == old(self).version,
            match entry_index(old(self).view(), serial@) {
                Some(i) => final(self).view() == old(self).view().remove(i),
                None => final(self).view() == old(self).view(),
            },
    {
        match self.position(serial) {
            Some(i) => {
                let ghost before = self.view();
                self.devices.remove(i);
                proof {
                    assert(entry_index(before, serial@) == Some(i as int));
                    assert(self.view() =~= before.remove(i as int));
                }
            },
            None => {},
        }
    }
}

} // verus!
