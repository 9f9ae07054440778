use sturnus::trace::{parse_traceparent, request_trace, TraceContext};

const VALID: &str = "00-0af7651916cd43dd8448eb211c80319c-b7ad6b7169203331-01";

fn expected() -> TraceContext {
    TraceContext {
        trace_id: "0af7651916cd43dd8448eb211c80319c".to_owned(),
        parent_span_id: "b7ad6b7169203331".to_owned(),
    }
}

#[test]
fn parses_valid() {
    assert_eq!(
        parse_traceparent(&format!("  {VALID} ")).unwrap(),
        TraceContext {
            trace_id: "0af7651916cd43dd8448eb211c80319c".to_owned(),
            parent_span_id: "b7ad6b7169203331".to_owned(),
        }
    );
}

#[test]
fn rejects_malformed() {
    for bad in [
        "",
        "00-0af7651916cd43dd8448eb211c80319c-b7ad6b7169203331", // too few fields
        "00-0af7651916cd43dd8448eb211c80319c-b7ad6b7169203331-01-x", // v00 extra field
        "00-0af7651916cd43dd-b7ad6b7169203331-01",              // short trace_id
        "00-0af7651916cd43dd8448eb211c80319c-b7ad6b7169203331ab-01", // long parent_id
        "00-0af7651916cd43dd8448eb211c80319g-b7ad6b7169203331-01", // non-hex
        "00-00000000000000000000000000000000-b7ad6b7169203331-01", // zero trace_id
        "00-0af7651916cd43dd8448eb211c80319c-0000000000000000-01", // zero parent_id
        "ff-0af7651916cd43dd8448eb211c80319c-b7ad6b7169203331-01", // reserved version
    ] {
        assert!(parse_traceparent(bad).is_none(), "{bad}");
    }
}

#[test]
fn later_versions_may_have_more_fields() {
    let value = "01-0af7651916cd43dd8448eb211c80319c-b7ad6b7169203331-01-extra";
    assert_eq!(parse_traceparent(value), Some(expected()));
    let value = "CC-0AF7651916CD43DD8448EB211C80319C-b7ad6b7169203331-";
    assert_eq!(
        parse_traceparent(value).unwrap().trace_id,
        "0AF7651916CD43DD8448EB211C80319C"
    );
    assert!(
        parse_traceparent("001-0af7651916cd43dd8448eb211c80319c-b7ad6b7169203331-01").is_none()
    );
}

#[test]
fn trace_headers_must_be_visible_ascii() {
    assert_eq!(request_trace(Some(VALID.as_bytes())), Some(expected()));
    assert_eq!(request_trace(None), None);
    let mut spaced = VALID.as_bytes().to_vec();
    spaced.push(b'\t');
    assert_eq!(request_trace(Some(&spaced)), Some(expected()));
    spaced.push(0xa0);
    assert_eq!(request_trace(Some(&spaced)), None);
    // As text, a no-break space is white space like any other.
    assert_eq!(
        parse_traceparent(&format!("{VALID}\u{a0}")),
        Some(expected())
    );
}
