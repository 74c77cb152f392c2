use potree::octree::NodeId;
use potree::point_cloud::PotreePointCloud;
use potree::resource::{
    check_range, check_status, contains_separator, exact_range, file_url, is_file_url,
    local_path, range_header_value, ErasedResourceClient, ResourceError, ResourceLoader,
};
use potree::text::{decimal_string, digit_str};

#[test]
fn numbers_in_decimal() {
    assert_eq!(decimal_string(0), "0");
    assert_eq!(decimal_string(7), "7");
    assert_eq!(decimal_string(10), "10");
    assert_eq!(decimal_string(1905), "1905");
    assert_eq!(decimal_string(u64::MAX), "18446744073709551615");
    for digit in 0..10u8 {
        assert_eq!(digit_str(digit), digit.to_string());
    }
}

#[test]
fn range_header() {
    assert_eq!(range_header_value(0, 22).unwrap(), "bytes=0-21");
    assert_eq!(range_header_value(0, 1).unwrap(), "bytes=0-0");
    assert_eq!(range_header_value(1000, 4096).unwrap(), "bytes=1000-5095");
    assert_eq!(
        range_header_value(u64::MAX - 1, 1).unwrap(),
        "bytes=18446744073709551614-18446744073709551614"
    );
}

#[test]
fn range_that_overflows_is_refused() {
    for (offset, length) in [(u64::MAX, 1usize), (u64::MAX - 10, 11), (1, usize::MAX)] {
        if offset as u128 + length as u128 > u64::MAX as u128 {
            match range_header_value(offset, length) {
                Err(ResourceError::Other(message)) => assert_eq!(message, "Range overflow"),
                _ => panic!("the range passes the end of the offsets"),
            }
            match check_range(offset, length) {
                Err(ResourceError::Other(message)) => assert_eq!(message, "Range overflow"),
                _ => panic!("the range passes the end of the offsets"),
            }
        }
    }
    assert!(check_range(u64::MAX, 0).is_ok());
    assert!(check_range(u64::MAX - 10, 10).is_ok());
    assert!(check_range(0, 0).is_ok());
}

#[test]
fn separator_is_found() {
    assert!(contains_separator("file://x"));
    assert!(contains_separator("://"));
    assert!(contains_separator("a:/://"));
    assert!(contains_separator("\u{e9}://\u{e9}"));
    assert!(!contains_separator(""));
    assert!(!contains_separator(":/"));
    assert!(!contains_separator("assets/cloud:/x/"));
    assert!(!contains_separator("c:/a//b"));
}

#[test]
fn scheme_picks_the_transport() {
    let loader = ResourceLoader::new();
    for url in ["http://host/cloud", "https://host/cloud/metadata.json", "HTTP://host/x"] {
        assert!(matches!(loader.get_delegate(url), Ok(ErasedResourceClient::Http(_))));
    }
    for url in ["file:///tmp/cloud", "file://assets/cloud", "assets/cloud", "/tmp/a b", ""] {
        assert!(matches!(loader.get_delegate(url), Ok(ErasedResourceClient::File(_))));
    }
    match loader.get_delegate("ftp://host/cloud") {
        Err(ResourceError::Unsupported(message)) => {
            assert_eq!(message, "Unknown scheme ftp://host/cloud")
        }
        _ => panic!("no transport answers for ftp"),
    }
    assert!(matches!(loader.get_delegate("://host"), Err(ResourceError::Url(_))));
    assert!(matches!(loader.get_delegate("http://[::1"), Err(ResourceError::Url(_))));
}

#[test]
fn transport_of_a_scheme() {
    let loader = ResourceLoader::new();
    assert!(matches!(loader.delegate_for_scheme("http", "u"), Ok(ErasedResourceClient::Http(_))));
    assert!(matches!(loader.delegate_for_scheme("https", "u"), Ok(ErasedResourceClient::Http(_))));
    assert!(matches!(loader.delegate_for_scheme("file", "u"), Ok(ErasedResourceClient::File(_))));
    match loader.delegate_for_scheme("HTTP", "HTTP:u") {
        Err(ResourceError::Unsupported(message)) => assert_eq!(message, "Unknown scheme HTTP:u"),
        _ => panic!("schemes are compared as they are given"),
    }
}

#[test]
fn path_of_a_file_url() {
    assert_eq!(local_path("file://assets/cloud"), "assets/cloud");
    assert_eq!(local_path("file:///tmp/a\u{e9}b"), "/tmp/a\u{e9}b");
    assert_eq!(local_path("file://"), "");
    assert_eq!(local_path("file:/tmp"), "file:/tmp");
    assert_eq!(local_path("assets/cloud"), "assets/cloud");
    assert_eq!(local_path("a file://x"), "a file://x");
    assert_eq!(local_path("FILE://x"), "FILE://x");
    assert_eq!(local_path(""), "");
    for url in ["file://", "file://x", "file:///tmp/x"] {
        assert!(is_file_url(url));
    }
    for url in ["", "file:/", "file:/x", "FILE://x", " file://x", "http://file://"] {
        assert!(!is_file_url(url));
    }
}

#[test]
fn urls_of_the_files_of_a_cloud() {
    assert_eq!(file_url("http://host/cloud", "octree.bin"), "http://host/cloud/octree.bin");
    assert_eq!(PotreePointCloud::metadata_url("assets/c"), "assets/c/metadata.json");
    assert_eq!(file_url("", ""), "/");
}

#[test]
fn status_outside_success_is_an_error() {
    for status in [200u16, 204, 206, 299] {
        assert!(check_status(status).is_ok());
    }
    for status in [0u16, 199, 300, 404, 500, u16::MAX] {
        match check_status(status) {
            Err(ResourceError::Status(code)) => assert_eq!(code, status),
            _ => panic!("the status is no success"),
        }
    }
}

#[test]
fn answer_of_another_length_is_refused() {
    assert_eq!(exact_range(vec![1, 2, 3], 3).unwrap(), vec![1, 2, 3]);
    assert_eq!(exact_range(Vec::new(), 0).unwrap(), Vec::<u8>::new());
    for length in [0usize, 2, 4] {
        match exact_range(vec![1, 2, 3], length) {
            Err(ResourceError::Network(message)) => assert_eq!(message, "Range length mismatch"),
            _ => panic!("the answer has another length"),
        }
    }
}

#[test]
fn keys_in_decimal() {
    assert_eq!(NodeId(0).to_string(), "0");
    assert_eq!(NodeId(4711).to_string(), "4711");
}
