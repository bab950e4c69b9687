use flow_monitor::buffer::SampleBuffer;
use flow_monitor::channel::{ChannelController, RangeSetting};
use flow_monitor::rat::from_micros;
use flow_monitor::supervisor::{AddChannelError, RemoveChannelError, Supervisor};
use flow_monitor::{BaudRating, ComSetting};

fn ports(names: &[&str]) -> Vec<String> {
    names.iter().map(|s| s.to_string()).collect()
}

#[test]
fn baud_ratings() {
    assert_eq!(BaudRating::B9_600.rate(), 9_600);
    assert_eq!(BaudRating::B57_600.rate(), 57_600);
    assert_eq!(BaudRating::B115_200.rate(), 115_200);
    assert_eq!(BaudRating::B256_000.rate(), 256_000);
    assert_eq!(BaudRating::B512_000.rate(), 512_000);
    assert_eq!(BaudRating::B921_600.rate(), 921_600);
    assert_eq!(BaudRating::B3_000_000.rate(), 3_000_000);
}

#[test]
fn buffer_evicts_oldest() {
    let mut b = SampleBuffer::new(3);
    for m in 1..=5i64 {
        b.append(from_micros(m));
    }
    assert_eq!(b.snapshot(), vec![from_micros(3), from_micros(4), from_micros(5)]);
}

#[test]
fn buffer_capacity_changes() {
    let mut b = SampleBuffer::new(4);
    for m in 1..=4i64 {
        b.append(from_micros(m));
    }
    b.set_capacity(2);
    assert_eq!(b.snapshot(), vec![from_micros(3), from_micros(4)]);
    b.set_capacity(5);
    assert_eq!(b.snapshot(), vec![from_micros(3), from_micros(4)]);
    b.append(from_micros(9));
    assert_eq!(b.snapshot(), vec![from_micros(3), from_micros(4), from_micros(9)]);
}

#[test]
fn channel_defaults() {
    let ch = ChannelController::new("COM3".to_string(), 16);
    assert_eq!(ch.config.setting.port, "COM3");
    assert_eq!(ch.config.setting.baud_rate, 115_200);
    assert!(!ch.config.enable_convert);
    assert_eq!(ch.config.input_range, RangeSetting { start: 0, end: 1_024_000_000 });
    assert_eq!(ch.config.output_range, RangeSetting { start: 0, end: 3_300_000 });
    assert!(!ch.is_running);
}

#[test]
fn start_requires_stopped_and_device() {
    let mut empty = ChannelController::new(String::new(), 4);
    assert!(!empty.start());
    assert!(!empty.is_running);

    let mut ch = ChannelController::new("dev0".to_string(), 4);
    assert!(ch.start());
    assert!(ch.is_running);
    assert!(!ch.start());
    ch.stop();
    assert!(!ch.is_running);
    assert!(ch.start());
}

#[test]
fn config_rejected_while_running() {
    let mut ch = ChannelController::new("dev0".to_string(), 4);
    assert!(ch.start());
    let mut cfg = ch.config.clone();
    cfg.enable_convert = true;
    assert!(!ch.set_config(cfg.clone()));
    assert!(!ch.config.enable_convert);
    ch.stop();
    assert!(ch.set_config(cfg));
    assert!(ch.config.enable_convert);
}

#[test]
fn config_rejected_when_ill_formed() {
    let mut ch = ChannelController::new("dev0".to_string(), 4);
    let mut cfg = ch.config.clone();
    cfg.input_range = RangeSetting { start: 5, end: 5 };
    assert!(!ch.set_config(cfg));
    let mut cfg = ch.config.clone();
    cfg.setting = ComSetting { port: "dev0".to_string(), baud_rate: 0 };
    assert!(!ch.set_config(cfg));
}

#[test]
fn display_bounds_follow_remap_flag() {
    let mut ch = ChannelController::new("dev0".to_string(), 4);
    assert_eq!(ch.display_bounds(), (0, 1_024_000_000));
    let mut cfg = ch.config.clone();
    cfg.enable_convert = true;
    assert!(ch.set_config(cfg));
    assert_eq!(ch.display_bounds(), (0, 3_300_000));
}

#[test]
fn look_behind_adjusts_window_while_running() {
    let mut ch = ChannelController::new("dev0".to_string(), 8);
    assert!(ch.start());
    ch.ingest(&b"1\n2\n3\n".to_vec());
    assert!(ch.set_look_behind(2));
    assert_eq!(ch.buffer.snapshot(), vec![from_micros(2_000_000), from_micros(3_000_000)]);
    assert!(!ch.set_look_behind(0));
}

#[test]
fn add_channel_rules() {
    let mut sup = Supervisor::new(ports(&["a", "b"]));
    assert_eq!(sup.add_channel("a".to_string()), Ok(()));
    assert_eq!(sup.add_channel("a".to_string()), Err(AddChannelError::DuplicateDevice));
    assert_eq!(sup.add_channel("b".to_string()), Ok(()));
    assert_eq!(sup.add_channel("c".to_string()), Err(AddChannelError::NoUnassignedDevice));
    assert_eq!(sup.channels.len(), 2);
    assert_eq!(sup.channels[0].config.setting.port, "a");
    assert_eq!(sup.channels[1].config.setting.port, "b");
    assert_eq!(sup.channels[0].buffer.cap, 2000);
}

#[test]
fn remove_channel_rules() {
    let mut sup = Supervisor::new(ports(&["a", "b", "c"]));
    sup.add_channel("a".to_string()).unwrap();
    sup.add_channel("b".to_string()).unwrap();
    sup.add_channel("c".to_string()).unwrap();
    assert_eq!(sup.remove_channel(&"x".to_string()), Err(RemoveChannelError::NoSuchDevice));
    assert!(sup.channels[1].start());
    assert_eq!(sup.remove_channel(&"b".to_string()), Err(RemoveChannelError::Running));
    sup.channels[1].stop();
    assert_eq!(sup.remove_channel(&"b".to_string()), Ok(()));
    assert_eq!(sup.channels.len(), 2);
    assert_eq!(sup.channels[0].config.setting.port, "a");
    assert_eq!(sup.channels[1].config.setting.port, "c");
}

#[test]
fn empty_device_list_clears_running_channels() {
    let mut sup = Supervisor::new(ports(&["a", "b"]));
    sup.add_channel("a".to_string()).unwrap();
    sup.add_channel("b".to_string()).unwrap();
    assert!(sup.channels[0].start());
    assert!(sup.channels[1].start());
    sup.refresh_devices(Vec::new());
    assert!(sup.channels.is_empty());
    assert!(sup.port_choice.is_empty());
}

#[test]
fn refresh_with_devices_keeps_channels() {
    let mut sup = Supervisor::new(ports(&["a"]));
    sup.add_channel("a".to_string()).unwrap();
    sup.refresh_devices(ports(&["a", "b"]));
    assert_eq!(sup.channels.len(), 1);
    assert_eq!(sup.port_choice, ports(&["a", "b"]));
}

#[test]
fn global_bounds_default_and_aggregate() {
    let mut sup = Supervisor::new(ports(&["a", "b"]));
    assert_eq!(sup.global_bounds(), (0, 1_024_000_000));
    sup.add_channel("a".to_string()).unwrap();
    sup.add_channel("b".to_string()).unwrap();
    let mut cfg = sup.channels[0].config.clone();
    cfg.enable_convert = true;
    cfg.output_range = RangeSetting { start: -3_300_000, end: 3_300_000 };
    assert!(sup.channels[0].set_config(cfg));
    assert_eq!(sup.global_bounds(), (-3_300_000, 1_024_000_000));
}

#[test]
fn supervisor_look_behind_applies_to_new_channels() {
    let mut sup = Supervisor::new(ports(&["a", "b"]));
    assert!(sup.set_look_behind(50));
    assert!(!sup.set_look_behind(0));
    sup.add_channel("a".to_string()).unwrap();
    assert_eq!(sup.channels[0].buffer.cap, 50);
}
