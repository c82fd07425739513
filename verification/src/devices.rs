//! The input devices offered to the user.
use vstd::prelude::*;

verus! {

/// One audio input device, as shown in a device list.
#[derive(Debug)]
pub struct AudioDeviceInfo {
    pub name: String,
    pub is_default: bool,
}

/// The name that marks the default device: the name the host reports for
/// it, or the empty name where it reports none.
pub open spec fn default_name(reported: Option<String>) -> Seq<char> {
    match reported {
        Some(name) => name@,
        None => Seq::empty(),
    }
}

/// The listed devices as mathematical values, name and default mark: the
/// devices whose name could be read, in the host's order, each marked
/// default exactly where its name is the default device's.
pub open spec fn listing(names: Seq<Option<String>>, default: Seq<char>) -> Seq<(Seq<char>, bool)>
    decreases names.len(),
{
    if names.len() == 0 {
        Seq::empty()
    } else {
        let before = listing(names.drop_last(), default);
        match names.last() {
            Some(name) => before.push((name@, name@ == default)),
            None => before,
        }
    }
}

/// A device list as mathematical values.
pub open spec fn listed(devices: Seq<AudioDeviceInfo>) -> Seq<(Seq<char>, bool)> {
    devices.map_values(|d: AudioDeviceInfo| (d.name@, d.is_default))
}

/// Builds the device list from what the host reports: the name of the
/// default input device, if it has one and its name can be read, and the
/// name of each input device, `None` where the name cannot be read.
pub fn list_input_devices(default_device: Option<String>, names: &Vec<Option<String>>) -> (devices:
    Vec<AudioDeviceInfo>)
    ensures
        listed(devices@) == listing(names@, default_name(default_device)),
{
    let default = match default_device {
        Some(name) => name,
        None => String::new(),
    };
    let mut devices: Vec<AudioDeviceInfo> = Vec::new();
    let mut i: usize = 0;
    assert(names@.take(0) =~= Seq::empty());
    assert(listed(devices@) =~= Seq::empty());
    while i < names.len()
        invariant
            i <= names.len(),
            default@ == default_name(default_device),
            listed(devices@) == listing(names@.take(i as int), default@),
        decreases names.len() - i,
    {
        let ghost before = devices@;
        proof {
            assert(names@.take(i + 1).drop_last() =~= names@.take(i as int));
            assert(names@.take(i + 1).last() == names@[i as int]);
        }
        match &names[i] {
            Some(name) => {
                let is_default = *name == default;
                let entry = AudioDeviceInfo { name: name.clone(), is_default };
                devices.push(entry);
                assert(listed(devices@) =~= listed(before).push((name@, name@ == default@)));
            },
            None => {},
        }
        i += 1;
    }
    assert(names@.take(names@.len() as int) =~= names@);
    devices
}

} // verus!
