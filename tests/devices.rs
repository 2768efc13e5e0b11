use pri::{Backend, Config, Device, DeviceError};

#[test]
fn host_device() {
    let d = Device::host();
    assert!(d.is_host());
    assert_eq!(d.backend(), Backend::Host);
    assert_eq!(d.to_string(), "host");
}

#[test]
fn parse_identifiers() {
    let h = Device::parse("host").unwrap();
    assert!(h.is_host());
    assert_eq!(h.to_string(), "host");
    let a = Device::parse("adb:emulator-5554").unwrap();
    assert!(!a.is_host());
    assert_eq!(a.backend(), Backend::Adb);
    assert_eq!(a.to_string(), "adb:emulator-5554");
    let i = Device::parse("imd:00008030:001").unwrap();
    assert_eq!(i.backend(), Backend::Imd);
    assert_eq!(i.to_string(), "imd:00008030:001");
}

#[test]
fn parse_refusals() {
    assert_eq!(Device::parse("hosts").err(), Some(DeviceError::InvalidIdentifier));
    assert_eq!(Device::parse("").err(), Some(DeviceError::InvalidIdentifier));
    assert_eq!(Device::parse("usb:1").err(), Some(DeviceError::UnsupportedBackend));
    assert_eq!(Device::parse("adbx:1").err(), Some(DeviceError::UnsupportedBackend));
}

#[test]
fn config_description_defaults_to_empty() {
    let c = Config::new("app".to_string(), "1.2.3".to_string(), None);
    assert_eq!(c.name, "app");
    assert_eq!(c.version, "1.2.3");
    assert_eq!(c.description, "");
    let d = Config::new("app".to_string(), "1.2.3".to_string(), Some("an app".to_string()));
    assert_eq!(d.description, "an app");
}

#[test]
fn from_str_parses_identifiers() {
    let d: Device = "adb:serial".parse().unwrap();
    assert_eq!(d.backend(), Backend::Adb);
    assert_eq!(d.to_string(), "adb:serial");
    let h: Device = "host".parse().unwrap();
    assert!(h.is_host());
    assert_eq!(h.to_string(), "host");
    assert_eq!("usb:1".parse::<Device>().err(), Some(DeviceError::UnsupportedBackend));
    assert!("none".parse::<Device>().is_err());
}
