use lilapu_audio::devices::list_input_devices;

fn names(list: &[Option<&str>]) -> Vec<Option<String>> {
    list.iter().map(|n| n.map(|s| s.to_string())).collect()
}

#[test]
fn devices_are_listed_in_order_with_the_default_marked() {
    let devices = list_input_devices(
        Some("USB Microphone".to_string()),
        &names(&[Some("Built-in"), Some("USB Microphone"), Some("Headset")]),
    );
    let listed: Vec<(&str, bool)> =
        devices.iter().map(|d| (d.name.as_str(), d.is_default)).collect();
    assert_eq!(listed, vec![("Built-in", false), ("USB Microphone", true), ("Headset", false)]);
}

#[test]
fn devices_without_a_readable_name_are_left_out() {
    let devices =
        list_input_devices(Some("B".to_string()), &names(&[None, Some("A"), None, Some("B")]));
    let listed: Vec<(&str, bool)> =
        devices.iter().map(|d| (d.name.as_str(), d.is_default)).collect();
    assert_eq!(listed, vec![("A", false), ("B", true)]);
}

#[test]
fn without_a_default_device_only_an_empty_name_is_marked() {
    let devices = list_input_devices(None, &names(&[Some("A"), Some(""), Some("B")]));
    let listed: Vec<(&str, bool)> =
        devices.iter().map(|d| (d.name.as_str(), d.is_default)).collect();
    assert_eq!(listed, vec![("A", false), ("", true), ("B", false)]);
}

#[test]
fn two_devices_of_the_default_name_are_both_marked() {
    let devices = list_input_devices(Some("A".to_string()), &names(&[Some("A"), Some("A")]));
    assert!(devices.iter().all(|d| d.is_default));
    assert_eq!(devices.len(), 2);
}

#[test]
fn no_devices_give_an_empty_list() {
    assert!(list_input_devices(Some("A".to_string()), &[].to_vec()).is_empty());
}
