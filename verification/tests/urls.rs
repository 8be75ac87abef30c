use urlstep::urls::{canonicalize_url, get_base_url, get_filename, host, is_url, offset};

#[test]
fn test_offset() {
    assert_eq!(
        offset("https://www.mexicoinmykitchen.com/page/2/", 1),
        Some("https://www.mexicoinmykitchen.com/page/3/".to_string())
    );
    assert_eq!(
        offset("https://www.mexicoinmykitchen.com/page/2/?s=spicy", 1),
        Some("https://www.mexicoinmykitchen.com/page/3/?s=spicy".to_string())
    );
}

#[test]
fn offset_steps_path_segment() {
    assert_eq!(
        offset("https://example.com/page/2/", 1),
        Some("https://example.com/page/3/".to_string())
    );
}

#[test]
fn offset_keeps_query_while_stepping_path() {
    assert_eq!(
        offset("https://example.com/page/2/?s=spicy", 1),
        Some("https://example.com/page/3/?s=spicy".to_string())
    );
}

#[test]
fn offset_steps_query_value() {
    assert_eq!(
        offset("https://example.com/?p=5", 1),
        Some("https://example.com/?p=6".to_string())
    );
}

#[test]
fn offset_rejects_malformed_input() {
    assert_eq!(offset("not a url", 1), None);
}

#[test]
fn offset_zero_keeps_the_token() {
    assert_eq!(
        offset("https://example.com/page/2/", 0),
        Some("https://example.com/page/2/".to_string())
    );
    assert_eq!(
        offset("https://example.com/?p=5", 0),
        Some("https://example.com/?p=5".to_string())
    );
}

#[test]
fn offset_steps_backwards() {
    assert_eq!(
        offset("https://example.com/page/2/", -1),
        Some("https://example.com/page/1/".to_string())
    );
    assert_eq!(
        offset("https://example.com/?p=5", -2),
        Some("https://example.com/?p=3".to_string())
    );
}

#[test]
fn offset_prefers_query_over_path() {
    assert_eq!(
        offset("https://example.com/page/2/?p=7", 1),
        Some("https://example.com/page/2/?p=8".to_string())
    );
}

#[test]
fn offset_takes_first_numeric_query_value() {
    assert_eq!(
        offset("https://example.com/?a=x&b=4&c=9", 1),
        Some("https://example.com/?a=x&b=5&c=9".to_string())
    );
}

#[test]
fn offset_takes_rightmost_numeric_segment() {
    assert_eq!(
        offset("https://example.com/7/page/2", 1),
        Some("https://example.com/7/page/3".to_string())
    );
}

#[test]
fn offset_strips_trailing_query_marker() {
    assert_eq!(
        offset("https://example.com/page/2/?", 1),
        Some("https://example.com/page/3/".to_string())
    );
}

#[test]
fn offset_none_without_numeric_token() {
    assert_eq!(offset("https://example.com/about/", 1), None);
    assert_eq!(offset("https://example.com/?s=query", 1), None);
}

#[test]
fn offset_ignores_numbers_inside_larger_segments() {
    assert_eq!(offset("https://example.com/page6", 1), None);
}

#[test]
fn offset_treats_out_of_range_values_as_non_numeric() {
    assert_eq!(offset("https://example.com/?p=99999999999", 1), None);
}

#[test]
fn offset_wraps_at_the_32_bit_boundary() {
    assert_eq!(
        offset("https://example.com/?p=2147483647", 1),
        Some("https://example.com/?p=-2147483648".to_string())
    );
}

#[test]
fn is_url_accepts_hosts_and_localhost() {
    assert!(is_url("localhost"));
    assert!(is_url("example.com"));
    assert!(is_url("https://example.com/page"));
    assert!(!is_url("hello world"));
}

#[test]
fn get_base_url_strips_subdomains() {
    assert_eq!(
        get_base_url("https://a.b.example.com"),
        Some("example.com".to_string())
    );
    assert_eq!(
        get_base_url("https://sub.mail.example.co"),
        Some("example.co".to_string())
    );
    assert_eq!(
        get_base_url("https://example.com/page"),
        Some("example.com".to_string())
    );
    assert_eq!(get_base_url("not a url"), None);
}

#[test]
fn host_reads_the_host() {
    assert_eq!(
        host("https://example.com/page/2/"),
        Some("example.com".to_string())
    );
    assert_eq!(host("not a url"), None);
}

#[test]
fn get_filename_decodes_the_last_segment() {
    assert_eq!(
        get_filename("https://example.com/dir/file%20name.txt"),
        Some("file name.txt".to_string())
    );
    assert_eq!(
        get_filename("https://example.com/dir/plain.txt"),
        Some("plain.txt".to_string())
    );
    assert_eq!(get_filename("not a url"), None);
}

#[test]
fn canonicalize_url_wraps_resolved_paths() {
    assert_eq!(
        canonicalize_url("notes.txt", Some("/home/user/notes.txt")),
        "file:///home/user/notes.txt".to_string()
    );
    assert_eq!(
        canonicalize_url("https://example.com", None),
        "https://example.com".to_string()
    );
}

#[test]
fn base_domain_strips_leading_labels() {
    assert_eq!(urlstep::urls::base_domain("a.b.example.com"), "example.com");
    assert_eq!(urlstep::urls::base_domain("example.com"), "example.com");
    assert_eq!(urlstep::urls::base_domain("localhost"), "localhost");
    assert_eq!(urlstep::urls::base_domain(""), "");
}

#[test]
fn offset_parts_steps_a_decomposed_url() {
    let parts = urlstep::ext::UrlParts {
        before_query: "https://example.com/?".to_string(),
        before_path: "https://example.com".to_string(),
        query: Some("p=5".to_string()),
        pairs: vec![("p".to_string(), "5".to_string())],
        segments: Some(vec!["".to_string()]),
        host: Some("example.com".to_string()),
    };
    assert_eq!(
        urlstep::urls::offset_parts(&parts, 1),
        Some("https://example.com/?p=6".to_string())
    );
}

#[test]
fn offset_parts_none_without_numeric_token() {
    let parts = urlstep::ext::UrlParts {
        before_query: "https://example.com/about".to_string(),
        before_path: "https://example.com".to_string(),
        query: None,
        pairs: Vec::new(),
        segments: Some(vec!["about".to_string()]),
        host: Some("example.com".to_string()),
    };
    assert_eq!(urlstep::urls::offset_parts(&parts, 1), None);
}
