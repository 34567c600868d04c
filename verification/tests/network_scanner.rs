use toolbox::network_scanner::{
    insert_by_port, parse_port_range, NetworkScanner, PortRangeError, ScanResult,
};

#[test]
fn test_parse_port_range() {
    assert_eq!(parse_port_range("80").unwrap(), vec![80]);
    assert_eq!(parse_port_range("80-82").unwrap(), vec![80, 81, 82]);
    assert!(parse_port_range("invalid").is_err());
    assert!(parse_port_range("100-50").is_err()); // Invalid range
}

#[test]
fn test_scanner_creation() {
    let scanner = NetworkScanner::new();
    assert!(!scanner.common_ports.is_empty());
    assert!(!scanner.port_services.is_empty());
    assert!(scanner.timeout_millis > 0);
}

#[test]
fn port_range_errors_are_told_apart() {
    assert_eq!(parse_port_range("invalid"), Err(PortRangeError::InvalidPort));
    assert_eq!(parse_port_range(""), Err(PortRangeError::InvalidPort));
    assert_eq!(parse_port_range("65536"), Err(PortRangeError::InvalidPort));
    assert_eq!(parse_port_range("100-50"), Err(PortRangeError::StartAfterEnd));
    assert_eq!(parse_port_range("1-2-3"), Err(PortRangeError::InvalidFormat));
    assert_eq!(parse_port_range("-5"), Err(PortRangeError::InvalidStart));
    assert_eq!(parse_port_range("x-5"), Err(PortRangeError::InvalidStart));
    assert_eq!(parse_port_range("5-"), Err(PortRangeError::InvalidEnd));
    assert_eq!(parse_port_range("5-70000"), Err(PortRangeError::InvalidEnd));
    assert_eq!(PortRangeError::InvalidStart.message(), "Invalid start port");
    assert_eq!(PortRangeError::InvalidEnd.message(), "Invalid end port");
    assert_eq!(PortRangeError::InvalidPort.message(), "Invalid port number");
    assert_eq!(
        PortRangeError::InvalidFormat.message(),
        "Invalid port range format. Use: start-end"
    );
    assert_eq!(
        PortRangeError::StartAfterEnd.message(),
        "Start port must be less than or equal to end port"
    );
}

#[test]
fn port_range_allows_space_and_plus() {
    assert_eq!(parse_port_range(" 443 \n").unwrap(), vec![443]);
    assert_eq!(parse_port_range(" 1 - 3 ").unwrap(), vec![1, 2, 3]);
    assert_eq!(parse_port_range("+7").unwrap(), vec![7]);
    assert_eq!(parse_port_range("0-0").unwrap(), vec![0]);
    assert_eq!(parse_port_range("65534-65535").unwrap(), vec![65534, 65535]);
    assert_eq!(parse_port_range("1-1000").unwrap().len(), 1000);
    assert_eq!(parse_port_range("8 0"), Err(PortRangeError::InvalidPort));
}

#[test]
fn scanner_knows_the_common_services() {
    let scanner = NetworkScanner::new();
    assert_eq!(scanner.timeout_millis, 1000);
    assert_eq!(scanner.thread_count, 50);
    assert_eq!(
        scanner.common_ports,
        vec![21, 22, 23, 25, 53, 80, 110, 143, 443, 993, 995, 3389, 5432, 3306, 1433, 6379, 27017]
    );
    assert_eq!(scanner.port_services.len(), 17);
    assert_eq!(scanner.service_name(80), Some("HTTP".to_string()));
    assert_eq!(scanner.service_name(27017), Some("MongoDB".to_string()));
    assert_eq!(scanner.service_name(81), None);
}

#[test]
fn scan_result_names_open_ports_only() {
    let scanner = NetworkScanner::new();
    let open = scanner.scan_result(22, Some(12));
    assert_eq!(
        open,
        ScanResult {
            port: 22,
            is_open: true,
            response_millis: Some(12),
            service: Some("SSH".to_string())
        }
    );
    let closed = scanner.scan_result(22, None);
    assert_eq!(
        closed,
        ScanResult { port: 22, is_open: false, response_millis: None, service: None }
    );
    assert_eq!(scanner.scan_result(9, Some(1)).service, None);
}

#[test]
fn chunk_size_rounds_up() {
    let scanner = NetworkScanner::new();
    assert_eq!(scanner.chunk_size(0), 0);
    assert_eq!(scanner.chunk_size(1), 1);
    assert_eq!(scanner.chunk_size(50), 1);
    assert_eq!(scanner.chunk_size(51), 2);
    assert_eq!(scanner.chunk_size(1000), 20);
    assert_eq!(scanner.chunk_size(1001), 21);
}

#[test]
fn results_are_kept_in_port_order() {
    let scanner = NetworkScanner::new();
    let mut results = Vec::new();
    for (port, millis) in [(443u16, 1u64), (22, 2), (8080, 3), (22, 4), (21, 5)] {
        insert_by_port(&mut results, scanner.scan_result(port, Some(millis)));
    }
    let order: Vec<(u16, Option<u64>)> =
        results.iter().map(|r| (r.port, r.response_millis)).collect();
    assert_eq!(
        order,
        vec![(21, Some(5)), (22, Some(2)), (22, Some(4)), (443, Some(1)), (8080, Some(3))]
    );
}
