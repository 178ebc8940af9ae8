use sudonim::arp::parse_neighbor_table;
use sudonim::device::{Device, DeviceRegistry};
use sudonim::errors::Error;

#[test]
fn test_device_to_address() {
    let device = Device {
        user: "testuser".to_string(),
        ip_address: "192.168.1.100".to_string(),
        mac_address: "00:11:22:33:44:55".to_string(),
        name: "test-device".to_string(),
    };
    assert_eq!(device.to_address(), "testuser@192.168.1.100");
}

#[test]
fn test_add_device() {
    let mut registry = DeviceRegistry::default();
    let device = Device::default();
    registry.add_device(device);
    assert_eq!(registry.devices.len(), 1);
    assert!(registry.get_device("Mingus").is_some());
}

#[test]
fn test_remove_device() {
    let mut registry = DeviceRegistry::default();
    let device = Device::default();
    registry.add_device(device);
    let removed_device = registry.remove_device("Mingus");
    assert!(removed_device.is_some());
    assert_eq!(registry.devices.len(), 0);
}

#[test]
fn test_get_device() {
    let mut registry = DeviceRegistry::default();
    let device = Device::default();
    registry.add_device(device);
    let retrieved_device = registry.get_device("Mingus");
    assert!(retrieved_device.is_some());
    assert_eq!(retrieved_device.unwrap().name, "Mingus");
}

#[test]
fn test_save_and_load_registry() {
    let mut registry = DeviceRegistry::default();
    let device = Device::default();
    registry.add_device(device);

    let saved = registry.save();

    let loaded_registry = DeviceRegistry::load(Some(&saved)).unwrap();
    assert_eq!(loaded_registry.devices.len(), 1);
    assert!(loaded_registry.get_device("Mingus").is_some());
}

#[test]
fn add_overwrites_device_with_same_name() {
    let mut registry = DeviceRegistry::default();
    registry.add_device(Device::default());
    registry.add_device(Device::new(
        "other".to_string(),
        "10.0.0.9".to_string(),
        "11:22:33:44:55:66".to_string(),
        "Mingus".to_string(),
    ));
    assert_eq!(registry.devices.len(), 1);
    let d = registry.get_device("Mingus").unwrap();
    assert_eq!(d.user, "other");
    assert_eq!(d.ip_address, "10.0.0.9");
}

#[test]
fn remove_missing_device_reports_not_found() {
    let mut registry = DeviceRegistry::default();
    registry.add_device(Device::default());
    let before = registry.save();
    assert!(registry.remove_device("ghost").is_none());
    assert_eq!(registry.devices.len(), 1);
    // Nothing changed, so what a caller would persist is what already
    // stands on disk.
    assert_eq!(registry.save(), before);
}

#[test]
fn edit_overwrites_only_the_ip() {
    let mut registry = DeviceRegistry::default();
    registry.add_device(Device::default());
    assert!(registry.edit("Mingus", "10.1.2.3".to_string()).is_ok());
    let d = registry.get_device("Mingus").unwrap();
    assert_eq!(d.ip_address, "10.1.2.3");
    assert_eq!(d.user, "server");
    assert_eq!(d.mac_address, "d8:3a:dd:70:5f:62");
    assert_eq!(d.name, "Mingus");
    assert!(matches!(
        registry.edit("ghost", "10.1.2.4".to_string()),
        Err(Error::DeviceNotFound)
    ));
}

#[test]
fn rescan_updates_ip_from_matching_mac() {
    let mut registry = DeviceRegistry::default();
    registry.add_device(Device::default());
    let neighbors =
        parse_neighbor_table("192.168.1.42 dev eth0 lladdr d8:3a:dd:70:5f:62 REACHABLE");
    assert!(registry.rescan("Mingus", &neighbors).is_ok());
    let d = registry.get_device("Mingus").unwrap();
    assert_eq!(d.ip_address, "192.168.1.42");
    assert_eq!(d.user, "server");
    assert_eq!(d.mac_address, "d8:3a:dd:70:5f:62");
    assert_eq!(d.name, "Mingus");
}

#[test]
fn rescan_without_match_changes_nothing() {
    let mut registry = DeviceRegistry::default();
    registry.add_device(Device::default());
    let neighbors = parse_neighbor_table("192.168.1.42 dev eth0 lladdr 11:22:33:44:55:66 STALE");
    assert!(matches!(
        registry.rescan("Mingus", &neighbors),
        Err(Error::NotFoundOnNetwork)
    ));
    let d = registry.get_device("Mingus").unwrap();
    assert_eq!(d.ip_address, "192.168.1.7");
    assert_eq!(d.user, "server");
    assert_eq!(d.mac_address, "d8:3a:dd:70:5f:62");
    assert_eq!(d.name, "Mingus");
}

#[test]
fn rescan_of_unknown_device_reports_lookup_error() {
    let mut registry = DeviceRegistry::default();
    let neighbors =
        parse_neighbor_table("192.168.1.42 dev eth0 lladdr d8:3a:dd:70:5f:62 REACHABLE");
    assert!(matches!(
        registry.rescan("ghost", &neighbors),
        Err(Error::DeviceNotFound)
    ));
}

#[test]
fn load_distinguishes_missing_from_malformed() {
    assert!(matches!(
        DeviceRegistry::load(None),
        Err(Error::ConfigMissing)
    ));
    assert!(matches!(
        DeviceRegistry::load(Some("not a registry")),
        Err(Error::ConfigMalformed)
    ));
}

#[test]
fn empty_registry_round_trips() {
    let registry = DeviceRegistry::default();
    assert_eq!(registry.save(), "[devices]\n");
    let loaded = DeviceRegistry::load(Some("[devices]")).unwrap();
    assert_eq!(loaded.devices.len(), 0);
}

#[test]
fn save_writes_one_section_per_device() {
    let mut registry = DeviceRegistry::default();
    registry.add_device(Device::default());
    assert_eq!(
        registry.save(),
        "[devices.\"Mingus\"]\nuser = \"server\"\nip_address = \"192.168.1.7\"\nmac_address = \"d8:3a:dd:70:5f:62\"\nname = \"Mingus\"\n"
    );
}

#[test]
fn round_trip_keeps_several_devices() {
    let mut registry = DeviceRegistry::default();
    registry.add_device(Device::default());
    registry.add_device(Device::new(
        "pi".to_string(),
        "192.168.1.20".to_string(),
        "aa:bb:cc:dd:ee:ff".to_string(),
        "Monk".to_string(),
    ));
    let loaded = DeviceRegistry::load(Some(&registry.save())).unwrap();
    assert_eq!(loaded.devices.len(), 2);
    assert_eq!(loaded.get_device("Mingus").unwrap().ip_address, "192.168.1.7");
    assert_eq!(loaded.get_device("Monk").unwrap().user, "pi");
    assert_eq!(loaded.get_device("Monk").unwrap().mac_address, "aa:bb:cc:dd:ee:ff");
}

#[test]
fn load_rejects_section_whose_name_field_disagrees() {
    let text = "[devices.\"Mingus\"]\nuser = \"server\"\nip_address = \"192.168.1.7\"\nmac_address = \"d8:3a:dd:70:5f:62\"\nname = \"Monk\"\n";
    assert!(matches!(
        DeviceRegistry::load(Some(text)),
        Err(Error::ConfigMalformed)
    ));
}

#[test]
fn error_descriptions() {
    assert_eq!(Error::DeviceNotFound.describe(), "Device not found");
    assert_eq!(
        Error::NotFoundOnNetwork.describe(),
        "Device not found on the network"
    );
    assert_eq!(Error::ConfigMalformed.describe(), "Config file is malformed.");
    assert_eq!(
        Error::ConfigMissing.describe(),
        "Failed to load config. Must run \"init\" to set up."
    );
}
