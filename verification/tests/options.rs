use xdp_compatibility::{
    configure, is_expandable, parse_args, validate_cpu_list, CliArgs, ConfigError, Ipv4Addr,
};

fn options(interface: Option<&str>, cpus: Option<&str>, zero_copy: bool) -> CliArgs {
    CliArgs {
        endpoint_ip: Ipv4Addr::new(8, 8, 8, 8),
        retransmit_xdp_interface: interface.map(str::to_string),
        retransmit_xdp_cpu_cores: cpus.map(str::to_string),
        retransmit_xdp_zero_copy: zero_copy,
        timeout_ms: 1000,
    }
}

#[test]
fn default_core_is_used_without_a_list() {
    let config = parse_args(options(None, None, false)).unwrap();
    assert_eq!(config.xdp_config.cpus, [0]);
    assert_eq!(config.xdp_config.interface, None);
    assert!(!config.xdp_config.zero_copy);
    assert_eq!(config.endpoint_ip, Ipv4Addr::new(8, 8, 8, 8));
    assert_eq!(config.endpoint_port, 53);
    assert_eq!(config.timeout_ms, 1000);
    assert_eq!(config.xdp_config.selected_cpu(), Some(0));
    assert!(!config.xdp_config.has_unused_cpus());
}

#[test]
fn ranges_are_written_out_in_order() {
    let config = parse_args(options(Some("eth0"), Some("7-9,2,0-1"), true)).unwrap();
    assert_eq!(config.xdp_config.cpus, [7, 8, 9, 2, 0, 1]);
    assert_eq!(config.xdp_config.interface.as_deref(), Some("eth0"));
    assert!(config.xdp_config.zero_copy);
    assert_eq!(config.xdp_config.selected_cpu(), Some(7));
    assert!(config.xdp_config.has_unused_cpus());
}

#[test]
fn range_that_runs_backwards_selects_no_core() {
    let config = parse_args(options(None, Some("5-2"), false)).unwrap();
    assert!(config.xdp_config.cpus.is_empty());
    assert_eq!(config.xdp_config.selected_cpu(), None);
}

#[test]
fn unreadable_entry_is_quoted() {
    match parse_args(options(None, Some("0-4,x9,3"), false)) {
        Err(ConfigError::CpuCores(text)) => assert_eq!(text, "x9"),
        other => panic!("unexpected result {:?}", other),
    }
}

#[test]
fn validation_agrees_with_reading() {
    assert_eq!(validate_cpu_list("0-4,9"), Ok(()));
    assert_eq!(
        validate_cpu_list("1-2-3"),
        Err("--experimental-retransmit-xdp-cpu-cores 1-2-3".to_string())
    );
    for list in ["", "0", "0-", "+3", "4,,5", "0-2,7,12-14", "a"] {
        let read = parse_args(options(None, Some(list), false));
        assert_eq!(validate_cpu_list(list).is_ok(), read.is_ok(), "{}", list);
    }
}

#[test]
fn interface_and_zero_copy_need_a_list() {
    assert!(matches!(
        parse_args(options(Some("eth0"), None, false)),
        Err(ConfigError::MissingCpuCores)
    ));
    assert!(matches!(
        parse_args(options(None, None, true)),
        Err(ConfigError::MissingCpuCores)
    ));
}

#[test]
fn configure_takes_what_was_read() {
    let config = configure(options(None, Some("?"), true), Some(Ok(vec![4, 4]))).unwrap();
    assert_eq!(config.xdp_config.cpus, [4, 4]);
    assert!(matches!(
        configure(options(None, Some("1"), true), Some(Err("bad".to_string()))),
        Err(ConfigError::CpuCores(text)) if text == "bad"
    ));
}

#[test]
fn one_core_and_one_range_are_read_back() {
    for core in [0, 2, 10, 4096, 100000000000000000usize, usize::MAX] {
        let config = parse_args(options(None, Some(&core.to_string()), false)).unwrap();
        assert_eq!(config.xdp_config.cpus, [core]);
    }
    let config = parse_args(options(None, Some("98-101"), false)).unwrap();
    assert_eq!(config.xdp_config.cpus, [98, 99, 100, 101]);
    let config = parse_args(options(None, Some("18446744073709551614-18446744073709551615"), true));
    assert_eq!(
        config.unwrap().xdp_config.cpus,
        [usize::MAX - 1, usize::MAX]
    );
}

#[test]
fn signs_zeros_and_long_backward_ranges_are_read() {
    let config = parse_args(options(None, Some("+3,007-+8,900000000000000000-0"), false)).unwrap();
    assert_eq!(config.xdp_config.cpus, [3, 7, 8]);
}

#[test]
fn numbers_that_are_none_are_quoted() {
    for entry in ["", "+", "++1", "-", "1-", "-1", "1-2-3", "1 ", "99999999999999999999", "\u{663}"] {
        let list = format!("1,{},x", entry);
        match parse_args(options(None, Some(&list), false)) {
            Err(ConfigError::CpuCores(text)) => assert_eq!(text, entry),
            other => panic!("unexpected result {:?} for {:?}", other, entry),
        }
    }
}

#[test]
fn list_is_read_entry_by_entry() {
    let read = |list: &str| match parse_args(options(None, Some(list), false)) {
        Ok(config) => Ok(config.xdp_config.cpus),
        Err(ConfigError::CpuCores(text)) => Err(text),
        Err(ConfigError::MissingCpuCores) => unreachable!(),
    };
    assert_eq!(read("0-2,7,12-14"), Ok(vec![0, 1, 2, 7, 12, 13, 14]));
    assert_eq!(read("0-2"), Ok(vec![0, 1, 2]));
    assert_eq!(read("7,12-14"), Ok(vec![7, 12, 13, 14]));
    assert_eq!(read("y,7,z"), Err("y".to_string()));
}

#[test]
fn only_lists_with_too_many_cores_are_not_expandable() {
    for list in [
        "",
        "0-4,9",
        "0000000000000000000000000000000003",
        "0-1048575,\u{e9}",
        "100000000000000000",
        "900000000000000000-0",
        "0-340282366920938463463374607431768211456",
        "x,0-18446744073709551615",
        "0-1-18446744073709551615",
    ] {
        assert!(is_expandable(list), "{}", list);
    }
    for list in [
        "0-18446744073709551615",
        "0-9223372036854775807",
        "3,1-9223372036854775807,x",
    ] {
        assert!(!is_expandable(list), "{}", list);
    }
}

#[test]
fn expandable_lists_end_at_the_limit() {
    let limit = (isize::MAX / 32) as usize;
    assert!(is_expandable(&format!("1-{}", limit)));
    assert!(!is_expandable(&format!("0-{}", limit)));
    assert!(is_expandable(&format!("5,2-{},9-7", limit)));
    assert!(!is_expandable(&format!("5,2-{},9-9", limit)));
    assert!(is_expandable(&format!("5,2-{},?,9-9", limit)));
}
