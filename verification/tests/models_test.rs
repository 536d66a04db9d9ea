//! The trace model exercised as a whole: a request trace with nested
//! spans, per-span context and events.

use chrono::{DateTime, Utc};
use metrical::{Context, Span, Trace};

fn ns(s: &str) -> i64 {
    s.parse::<DateTime<Utc>>().unwrap().timestamp_nanos_opt().unwrap()
}

#[test]
fn models_test() {
    // Create the root trace with top-level attributes in the context.
    let mut trace = Trace::new("GET /api/user/profile", "trace-1".to_owned(), Context(Vec::new()));

    // Main span for the HTTP request handling
    let mut main_span = Span::new(
        "GET /api/user/profile",
        "span-main".to_owned(),
        ns("2024-11-07T14:23:10.000Z"),
        ns("2024-11-07T14:23:10.200Z"),
    )
    .with_context("http.method", "GET")
    .with_context("http.url", "https://example.com/api/user/profile")
    .with_context("http.status_code", "200")
    .with_context("service.name", "API Gateway")
    .with_event("request_received", {
        let mut context = Context(Vec::new());
        context.add_value("user.id", "12345");
        context.add_value("ip_address", "192.168.1.10");
        context
    })
    .with_event("forwarding_request", {
        let mut context = Context(Vec::new());
        context.add_value("next.service", "Auth Service");
        context
    });

    // Child span: Auth Service - Validate User
    let auth_span = Span::new(
        "Auth Service - Validate User",
        "span-auth".to_owned(),
        ns("2024-11-07T14:23:10.015Z"),
        ns("2024-11-07T14:23:10.050Z"),
    )
    .with_context("service.name", "Auth Service")
    .with_context("auth.method", "Token")
    .with_context("auth.result", "success")
    .with_context("user.id", "12345")
    .with_event("token_verification_start", Context(Vec::new()))
    .with_event("token_verification_end", {
        let mut context = Context(Vec::new());
        context.add_value("verification_result", "valid");
        context
    });

    // Child span: User Service - Fetch Profile
    let user_service_span = Span::new(
        "User Service - Fetch Profile",
        "span-user".to_owned(),
        ns("2024-11-07T14:23:10.060Z"),
        ns("2024-11-07T14:23:10.180Z"),
    )
    .with_context("service.name", "User Service")
    .with_context("user.id", "12345")
    .with_context("db.statement", "SELECT * FROM users WHERE id = ?")
    .with_context("db.type", "sql")
    .with_context("db.instance", "user_db")
    .with_event("db_query_start", {
        let mut context = Context(Vec::new());
        context.add_value("query", "SELECT * FROM users WHERE id = ?");
        context.add_value("query_parameters", "[\"12345\"]");
        context
    })
    .with_event("db_query_end", {
        let mut context = Context(Vec::new());
        context.add_value("rows_returned", "1");
        context
    })
    .with_event("profile_data_serialization", {
        let mut context = Context(Vec::new());
        context.add_value("data_size_bytes", "2048");
        context
    });

    // Child span: API Gateway - Send Response
    let send_response_span = Span::new(
        "API Gateway - Send Response",
        "span-send".to_owned(),
        ns("2024-11-07T14:23:10.190Z"),
        ns("2024-11-07T14:23:10.200Z"),
    )
    .with_context("http.status_code", "200")
    .with_context("response.size_bytes", "2048")
    .with_context("service.name", "API Gateway")
    .with_event("response_serialization_start", Context(Vec::new()))
    .with_event("response_sent", Context(Vec::new()));

    // Nest child spans under the main span
    main_span.add_child(auth_span);
    main_span.add_child(user_service_span);
    main_span.add_child(send_response_span);

    // Add the main span to the trace
    trace.add_span(main_span);

    assert_eq!(trace.name, "GET /api/user/profile");
    assert_eq!(trace.spans.len(), 1);
    let main = &trace.spans[0];
    assert_eq!(main.children.len(), 3);
    assert_eq!(main.events.len(), 2);
    assert_eq!(main.context.0.len(), 4);
    assert!(main.parent_span_id.is_none());
    for child in &main.children {
        assert_eq!(child.parent_span_id.as_deref(), Some("span-main"));
    }
    assert_eq!(main.children[1].events.len(), 3);
    assert_eq!(main.children[1].events[0].context.0[1].key, "query_parameters");
    assert_eq!(
        main.children[2].start_time,
        ns("2024-11-07T14:23:10.190Z")
    );
}
